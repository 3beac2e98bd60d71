use callgraph::resolve::{
    is_capitalized, is_self, qualify, resolve_call, resolve_method_call, squeezed,
};
use callgraph::text::{blanks_of, chars_of, contains_text, same_text, strip_marked};

fn some(s: &str) -> Option<String> {
    Some(s.to_string())
}

#[test]
fn plain_callee_resolves_to_itself() {
    assert_eq!(resolve_call("foo", &some("foo")), some("foo"));
}

#[test]
fn qualified_callee_keeps_its_qualifiers() {
    assert_eq!(resolve_call("Type :: new", &some("new")), some("Type::new"));
    assert_eq!(resolve_call("a :: b :: func", &some("func")), some("a::b::func"));
    assert_eq!(resolve_call("Vec :: < u8 > :: new", &some("new")), some("Vec::<u8>::new"));
}

#[test]
fn every_kind_of_white_space_is_removed() {
    assert_eq!(resolve_call(" a\t::\nb \u{a0}::\u{3000}c ", &some("c")), some("a::b::c"));
    assert_eq!(squeezed(" a b\tc\n"), "abc");
    assert_eq!(squeezed(""), "");
    assert_eq!(squeezed("  "), "");
    assert_eq!(squeezed("a\u{200b}b"), "a\u{200b}b");
}

#[test]
fn capitalized_final_segment_is_no_call() {
    assert_eq!(resolve_call("Some", &some("Some")), None);
    assert_eq!(resolve_call("Shape :: Circle", &some("Circle")), None);
    assert_eq!(resolve_call("Wrapper", &some("Wrapper")), None);
    assert_eq!(resolve_call("\u{394}elta", &some("\u{394}elta")), None);
}

#[test]
fn generic_arguments_do_not_hide_a_capitalized_segment() {
    assert_eq!(resolve_call("Foo :: < T >", &some("Foo")), None);
    assert_eq!(resolve_call("a :: Foo :: < T , U >", &some("Foo")), None);
    assert_eq!(resolve_call("size_of :: < T >", &some("size_of")), some("size_of::<T>"));
}

#[test]
fn only_the_final_segment_decides() {
    assert_eq!(resolve_call("Shape :: circle", &some("circle")), some("Shape::circle"));
    assert_eq!(resolve_call("fOO", &some("fOO")), some("fOO"));
    assert_eq!(resolve_call("_Foo", &some("_Foo")), some("_Foo"));
}

#[test]
fn callee_that_is_no_path_is_recorded() {
    assert_eq!(resolve_call("(self . f)", &None), some("(self.f)"));
    assert_eq!(resolve_call("(x . Field)", &None), some("(x.Field)"));
    assert_eq!(resolve_call("", &None), some(""));
    assert_eq!(resolve_call("f", &some("")), some("f"));
}

#[test]
fn segment_is_capitalized_by_its_first_character() {
    assert!(is_capitalized(&some("Foo")));
    assert!(is_capitalized(&some("F")));
    assert!(is_capitalized(&some("\u{c9}cole")));
    assert!(!is_capitalized(&some("foo")));
    assert!(!is_capitalized(&some("fOO")));
    assert!(!is_capitalized(&some("_Foo")));
    assert!(!is_capitalized(&some("9")));
    assert!(!is_capitalized(&some("")));
    assert!(!is_capitalized(&None));
}

#[test]
fn self_receiver_resolves_under_the_type() {
    let parent = some("Widget");
    assert_eq!(resolve_method_call("self", "paint", &parent), "Widget::paint");
}

#[test]
fn other_receiver_resolves_under_the_placeholder() {
    let parent = some("Widget");
    assert_eq!(resolve_method_call("x", "unwrap", &parent), "?::unwrap");
    assert_eq!(resolve_method_call("self . field", "len", &parent), "?::len");
    assert_eq!(resolve_method_call("Self", "len", &parent), "?::len");
    assert_eq!(resolve_method_call("x", "unwrap", &None), "?::unwrap");
    assert_eq!(resolve_method_call("", "m", &None), "?::m");
}

#[test]
fn self_is_told_from_other_receivers() {
    assert!(is_self("self"));
    assert!(!is_self("self "));
    assert!(!is_self("sel"));
    assert!(!is_self("this"));
    assert!(!is_self(""));
}

#[test]
fn qualifier_and_name_are_joined_by_the_separator() {
    assert_eq!(qualify("A", "b"), "A::b");
    assert_eq!(qualify("", ""), "::");
}

#[test]
fn characters_are_collected_in_order() {
    assert_eq!(chars_of("a\u{394}b"), vec!['a', '\u{394}', 'b']);
    assert!(chars_of("").is_empty());
}

#[test]
fn texts_are_compared_by_their_characters() {
    assert!(same_text("abc", "abc"));
    assert!(same_text("", ""));
    assert!(!same_text("abc", "abd"));
    assert!(!same_text("abc", "ab"));
    assert!(!same_text("ab", "abc"));
}

#[test]
fn text_is_looked_up_in_a_list() {
    let list = vec!["a".to_string(), "bc".to_string()];
    assert!(contains_text(&list, "bc"));
    assert!(contains_text(&list, "a"));
    assert!(!contains_text(&list, "b"));
    assert!(!contains_text(&vec![], "a"));
}

#[test]
fn white_space_is_marked() {
    let marks = blanks_of(&chars_of("a b\t\u{2003}c\u{200b}"));
    assert_eq!(marks, vec![false, true, false, true, true, false, false]);
}

#[test]
fn marked_characters_are_left_out() {
    let text = chars_of("a b c");
    assert_eq!(strip_marked(&text, &vec![false, true, false, true, false]), "abc");
    assert_eq!(strip_marked(&text, &vec![true, false, true, false, true]), "  ");
    assert_eq!(strip_marked(&text, &vec![true, true]), "b c");
    assert_eq!(strip_marked(&text, &vec![]), "a b c");
    assert_eq!(strip_marked(&vec![], &vec![true]), "");
}
