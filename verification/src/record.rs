//! The record kept for each function: where it is defined and what it calls.

use vstd::prelude::*;
use crate::text::{contains_text, opt_view, texts};

verus! {

/// One function or method of the scanned sources, with the targets it calls.
#[derive(Clone, Debug)]
pub struct FnDef {
    /// Name of the file that defines the function.
    pub file: String,
    /// The type whose implementation block holds the function, if any.
    pub parent: Option<String>,
    /// The name, qualified with the type where there is one.
    pub name: String,
    /// The resolved call targets, in the order in which they were first seen.
    pub calls: Vec<String>,
}

/// What a record holds, as plain sequences of characters.
pub struct FnDefView {
    pub file: Seq<char>,
    pub parent: Option<Seq<char>>,
    pub name: Seq<char>,
    pub calls: Seq<Seq<char>>,
}

/// The views of a sequence of records.
pub open spec fn records(funcs: Seq<FnDef>) -> Seq<FnDefView> {
    funcs.map_values(|f: FnDef| f@)
}

/// The indent of a call target under the name of its function.
pub open spec fn listing_indent() -> Seq<char> {
    seq![' ', ' ', ' ', ' ']
}

/// One line for each of the first `k` targets of `calls` that occurs in
/// `known`: the indent, the target, a line feed.
pub open spec fn listing(calls: Seq<Seq<char>>, known: Seq<Seq<char>>, k: nat) -> Seq<char>
    decreases k,
{
    if k == 0 || k > calls.len() {
        Seq::empty()
    } else {
        let above = listing(calls, known, (k - 1) as nat);
        if known.contains(calls[k - 1]) {
            above + listing_indent() + calls[k - 1] + seq!['\n']
        } else {
            above
        }
    }
}

impl View for FnDef {
    type V = FnDefView;

    open spec fn view(&self) -> FnDefView {
        FnDefView {
            file: self.file@,
            parent: opt_view(self.parent),
            name: self.name@,
            calls: texts(self.calls@),
        }
    }
}

impl FnDefView {
    /// The text that shows this record: a line with the name, then the
    /// listing of its targets that occur in `known`.
    pub open spec fn outline(self, known: Seq<Seq<char>>) -> Seq<char> {
        self.name + seq!['\n'] + listing(self.calls, known, self.calls.len())
    }

    /// No target is recorded twice.
    pub open spec fn wf(self) -> bool {
        self.calls.no_duplicates()
    }
}

impl FnDef {
    /// A record that has no call targets yet.
    pub fn new(file: String, parent: Option<String>, name: String) -> (def: Self)
        ensures
            def@ == (FnDefView {
                file: file@,
                parent: opt_view(parent),
                name: name@,
                calls: Seq::empty(),
            }),
    {
        let def = Self { file, parent, name, calls: Vec::new() };
        assert(texts(def.calls@) =~= Seq::empty());
        def
    }

    /// Shows the record as text: its name on a line, then, indented and one
    /// per line, those of its call targets that occur in `known`.
    pub fn to_string(&self, known: &Vec<String>) -> (s: String)
        ensures
            s@ == self@.outline(texts(known@)),
    {
        let mut s = self.name.clone();
        s.append("\n");
        proof {
            reveal_strlit("\n");
            reveal_strlit("    ");
            assert("\n"@ =~= seq!['\n']);
            assert("    "@ =~= listing_indent());
        }
        let mut i: usize = 0;
        while i < self.calls.len()
            invariant
                i <= self.calls.len(),
                "\n"@ == seq!['\n'],
                "    "@ == listing_indent(),
                s@ == self.name@ + seq!['\n'] + listing(
                    texts(self.calls@),
                    texts(known@),
                    i as nat,
                ),
            decreases self.calls.len() - i,
        {
            let call = self.calls[i].as_str();
            assert(texts(self.calls@)[i as int] == call@);
            if contains_text(known, call) {
                s.append("    ");
                s.append(call);
                s.append("\n");
            }
            i += 1;
        }
        s
    }
}

} // verus!
