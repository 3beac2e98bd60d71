//! Resolution of a call site to the name of its target.
//!
//! No types are inferred. A plain call is named as it is written; a method
//! call on the self reference is named under the enclosing type; any other
//! method call gets a placeholder for the type of its receiver.

use vstd::prelude::*;
use crate::text::{
    blanks, blanks_of, char_is_uppercase, char_is_whitespace, chars_of, is_uppercase, join, kept,
    marked, opt_view, same_text, separator, strip_marked,
};

verus! {

/// The receiver that stands for the value a method is called on.
pub open spec fn self_receiver() -> Seq<char> {
    seq!['s', 'e', 'l', 'f']
}

/// The qualifier of a method whose receiver has no known type.
pub open spec fn unknown_type() -> Seq<char> {
    seq!['?']
}

/// `name` under `qualifier`.
pub open spec fn qualified(qualifier: Seq<char>, name: Seq<char>) -> Seq<char> {
    qualifier + separator() + name
}

/// The name of a function: qualified where it is defined under a type.
pub open spec fn full_name(parent: Option<Seq<char>>, name: Seq<char>) -> Seq<char> {
    match parent {
        Some(p) => qualified(p, name),
        None => name,
    }
}

/// `text` without its white space.
pub open spec fn squeeze(text: Seq<char>) -> Seq<char> {
    kept(text, blanks(text))
}

/// Whether the final path segment of a callee begins with an uppercase
/// character. A callee that is no path has no such segment.
pub open spec fn capitalized(segment: Option<Seq<char>>) -> bool {
    segment matches Some(name) && name.len() > 0 && char_is_uppercase(name[0])
}

/// The target of a plain call whose callee is written as `func` and ends in
/// the path segment `segment`: none where that segment is capitalized, which
/// marks the construction of a value and no call; else the callee without
/// white space.
pub open spec fn call_target(func: Seq<char>, segment: Option<Seq<char>>) -> Option<Seq<char>> {
    if capitalized(segment) {
        None
    } else {
        Some(squeeze(func))
    }
}

/// The target of a call of `method` on `receiver`, inside the implementation
/// block of `parent` where there is one.
pub open spec fn method_target(
    receiver: Seq<char>,
    method: Seq<char>,
    parent: Option<Seq<char>>,
) -> Seq<char> {
    if receiver == self_receiver() {
        qualified(parent.unwrap(), method)
    } else {
        qualified(unknown_type(), method)
    }
}

/// Joins a qualifier and a name with the separator.
pub fn qualify(qualifier: &str, name: &str) -> (full: String)
    ensures
        full@ == qualified(qualifier@, name@),
{
    proof {
        reveal_strlit("::");
        assert("::"@ =~= separator());
    }
    let mut full = join(qualifier, "::");
    full.append(name);
    full
}

/// Whether `receiver` is the self reference.
pub fn is_self(receiver: &str) -> (b: bool)
    ensures
        b == (receiver@ == self_receiver()),
{
    proof {
        reveal_strlit("self");
        assert("self"@ =~= self_receiver());
    }
    same_text(receiver, "self")
}

/// Whether the final path segment of a callee begins with an uppercase
/// character.
pub fn is_capitalized(segment: &Option<String>) -> (b: bool)
    ensures
        b == capitalized(opt_view(*segment)),
{
    match segment {
        Some(name) => {
            let name = name.as_str();
            if name.is_empty() {
                false
            } else {
                is_uppercase(name.get_char(0))
            }
        },
        None => false,
    }
}

/// `text` without its white space.
pub fn squeezed(text: &str) -> (out: String)
    ensures
        out@ == squeeze(text@),
{
    let chars = chars_of(text);
    let marks = blanks_of(&chars);
    strip_marked(&chars, &marks)
}

/// Resolves a plain call from the text of its callee and its final path
/// segment: to nothing where the segment is capitalized, and only there.
pub fn resolve_call(func: &str, segment: &Option<String>) -> (target: Option<String>)
    ensures
        opt_view(target) == call_target(func@, opt_view(*segment)),
        target is None <==> capitalized(opt_view(*segment)),
        target matches Some(name) ==> name@ == squeeze(func@),
{
    if is_capitalized(segment) {
        None
    } else {
        Some(squeezed(func))
    }
}

/// Resolves a method call from the text of its receiver and the name of the
/// method.
pub fn resolve_method_call(receiver: &str, method: &str, parent: &Option<String>) -> (target:
    String)
    requires
        receiver@ == self_receiver() ==> parent is Some,
    ensures
        target@ == method_target(receiver@, method@, opt_view(*parent)),
        receiver@ == self_receiver() ==> target@ == qualified(parent.unwrap()@, method@),
        receiver@ != self_receiver() ==> target@ == qualified(unknown_type(), method@),
{
    if is_self(receiver) {
        match parent {
            Some(p) => qualify(p.as_str(), method),
            None => String::new(),
        }
    } else {
        proof {
            reveal_strlit("?");
            assert("?"@ =~= unknown_type());
        }
        qualify("?", method)
    }
}

/// What is kept of a text depends on the marks of its own positions only.
proof fn lemma_kept_marks(text: Seq<char>, one: Seq<bool>, other: Seq<bool>)
    requires
        forall|i: int| 0 <= i < text.len() ==> marked(one, i) == marked(other, i),
    ensures
        kept(text, one) == kept(text, other),
    decreases text.len(),
{
    if text.len() > 0 {
        lemma_kept_marks(text.drop_last(), one, other);
    }
}

/// A character more at the end of a text is one more at the end of what is
/// left without white space, unless it is white space itself.
proof fn lemma_squeeze_push(text: Seq<char>, c: char)
    ensures
        squeeze(text.push(c)) == if char_is_whitespace(c) {
            squeeze(text)
        } else {
            squeeze(text).push(c)
        },
{
    let longer = text.push(c);
    assert(longer.drop_last() =~= text);
    lemma_kept_marks(text, blanks(longer), blanks(text));
}

/// A text without its white space is the text with every character that is
/// white space taken out.
pub proof fn lemma_squeeze_filter(text: Seq<char>)
    ensures
        squeeze(text) == text.filter(|c: char| !char_is_whitespace(c)),
    decreases text.len(),
{
    reveal(Seq::filter);
    if text.len() > 0 {
        let rest = text.drop_last();
        lemma_squeeze_filter(rest);
        assert(rest.push(text.last()) =~= text);
        lemma_squeeze_push(rest, text.last());
    }
}

} // verus!
