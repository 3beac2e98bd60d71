//! Text primitives: character classes, character-wise access to strings, and
//! the removal of white space from a text.

use vstd::prelude::*;

verus! {

/// Whether `c` has the Unicode property `White_Space`, as `char::is_whitespace` decides it.
pub uninterp spec fn char_is_whitespace(c: char) -> bool;

/// Whether `c` has the Unicode property `Uppercase`, as `char::is_uppercase` decides it.
pub uninterp spec fn char_is_uppercase(c: char) -> bool;

/// Calls `char::is_whitespace`. Trusted: the result is the value that the
/// standard library assigns to this character, which depends on nothing else.
#[verifier::external_body]
pub(crate) fn is_whitespace(c: char) -> (b: bool)
    ensures
        b == char_is_whitespace(c),
{
    c.is_whitespace()
}

/// Calls `char::is_uppercase`. Trusted: the result is the value that the
/// standard library assigns to this character, which depends on nothing else.
#[verifier::external_body]
pub(crate) fn is_uppercase(c: char) -> (b: bool)
    ensures
        b == char_is_uppercase(c),
{
    c.is_uppercase()
}

/// Calls `String::push`. Trusted: the string afterwards is the string before
/// with `c` appended at its end.
#[verifier::external_body]
pub(crate) fn push_char(s: &mut String, c: char)
    ensures
        final(s)@ == old(s)@.push(c),
{
    s.push(c)
}

/// The two-character separator between a qualifier and a name.
pub open spec fn separator() -> Seq<char> {
    seq![':', ':']
}

/// The views of a sequence of strings.
pub open spec fn texts(lines: Seq<String>) -> Seq<Seq<char>> {
    lines.map_values(|s: String| s@)
}

/// The view of an optional string.
pub open spec fn opt_view(s: Option<String>) -> Option<Seq<char>> {
    match s {
        Some(t) => Some(t@),
        None => None,
    }
}

/// The characters of `text`, in order.
pub fn chars_of(text: &str) -> (out: Vec<char>)
    ensures
        out@ == text@,
{
    let mut out: Vec<char> = Vec::new();
    for c in it: text.chars()
        invariant
            out@ == it.seq().take(it.index() as int),
            it.seq() == text@,
    {
        out.push(c);
    }
    out
}

/// Whether two texts hold the same characters.
pub fn same_text(a: &str, b: &str) -> (same: bool)
    ensures
        same == (a@ == b@),
{
    let x = chars_of(a);
    let y = chars_of(b);
    if x.len() != y.len() {
        return false;
    }
    let mut i: usize = 0;
    while i < x.len()
        invariant
            i <= x.len(),
            x.len() == y.len(),
            x@ == a@,
            y@ == b@,
            forall|j: int| 0 <= j < i ==> x@[j] == y@[j],
        decreases x.len() - i,
    {
        if x[i] != y[i] {
            return false;
        }
        i += 1;
    }
    assert(x@ =~= y@);
    true
}

/// Whether `name` occurs among `names`.
pub fn contains_text(names: &Vec<String>, name: &str) -> (found: bool)
    ensures
        found == texts(names@).contains(name@),
{
    let mut i: usize = 0;
    while i < names.len()
        invariant
            i <= names.len(),
            forall|j: int| 0 <= j < i ==> texts(names@)[j] != name@,
        decreases names.len() - i,
    {
        if same_text(names[i].as_str(), name) {
            assert(texts(names@)[i as int] == name@);
            return true;
        }
        i += 1;
    }
    false
}

/// Joins two texts.
pub fn join(first: &str, second: &str) -> (both: String)
    ensures
        both@ == first@ + second@,
{
    let mut both = String::from_str(first);
    both.append(second);
    both
}

/// Copies a list of texts.
pub fn clone_texts(list: &Vec<String>) -> (copy: Vec<String>)
    ensures
        texts(copy@) == texts(list@),
{
    let mut copy: Vec<String> = Vec::new();
    let mut i: usize = 0;
    while i < list.len()
        invariant
            i <= list.len(),
            copy@.len() == i,
            texts(copy@) == texts(list@.take(i as int)),
        decreases list.len() - i,
    {
        let ghost before = copy@;
        copy.push(list[i].clone());
        assert forall|j: int| 0 <= j < i implies copy@[j]@ == list@[j]@ by {
            assert(texts(before)[j] == texts(list@.take(i as int))[j]);
        }
        assert(texts(copy@) =~= texts(list@.take(i + 1)));
        i += 1;
    }
    assert(list@.take(list.len() as int) =~= list@);
    copy
}

/// Whether position `i` is marked.
pub open spec fn marked(marks: Seq<bool>, i: int) -> bool {
    0 <= i < marks.len() && marks[i]
}

/// The characters of `text` at the positions that `marks` does not mark, in order.
pub open spec fn kept(text: Seq<char>, marks: Seq<bool>) -> Seq<char>
    decreases text.len(),
{
    if text.len() == 0 {
        text
    } else {
        let front = kept(text.drop_last(), marks);
        if marked(marks, text.len() - 1) {
            front
        } else {
            front.push(text.last())
        }
    }
}

/// For each character of `text`, whether it is white space.
pub open spec fn blanks(text: Seq<char>) -> Seq<bool> {
    text.map_values(|c: char| char_is_whitespace(c))
}

/// Marks the white space of `text`.
pub fn blanks_of(text: &Vec<char>) -> (marks: Vec<bool>)
    ensures
        marks@ == blanks(text@),
{
    let mut marks: Vec<bool> = Vec::new();
    let mut i: usize = 0;
    while i < text.len()
        invariant
            i <= text.len(),
            marks@ == blanks(text@.take(i as int)),
        decreases text.len() - i,
    {
        marks.push(is_whitespace(text[i]));
        assert(marks@ =~= blanks(text@.take(i + 1)));
        i += 1;
    }
    assert(text@.take(text.len() as int) =~= text@);
    marks
}

/// Copies the characters of `text` that `marks` does not mark.
pub fn strip_marked(text: &Vec<char>, marks: &Vec<bool>) -> (out: String)
    ensures
        out@ == kept(text@, marks@),
{
    let mut out = String::new();
    let mut i: usize = 0;
    while i < text.len()
        invariant
            i <= text.len(),
            out@ == kept(text@.take(i as int), marks@),
        decreases text.len() - i,
    {
        assert(text@.take(i + 1).drop_last() =~= text@.take(i as int));
        if !(i < marks.len() && marks[i]) {
            push_char(&mut out, text[i]);
        }
        i += 1;
    }
    assert(text@.take(text.len() as int) =~= text@);
    out
}

} // verus!
