use callgraph::query::{
    call_matches, find_last_separator, get_excludes, print_callees, print_callees_from,
    print_callers, print_callers_tree, print_functions_structure, tail_equals,
};
use callgraph::text::{clone_texts, join};
use callgraph::record::FnDef;
use callgraph::syntax::{SourceFile, Syntax};
use callgraph::visitor::try_process_funcs;

fn def(name: &str, calls: &[&str]) -> FnDef {
    let mut d = FnDef::new("lib.rs".to_string(), None, name.to_string());
    d.calls = calls.iter().map(|c| c.to_string()).collect();
    d
}

fn lines(list: &[&str]) -> Vec<String> {
    list.iter().map(|l| l.to_string()).collect()
}

#[test]
fn new_record_has_no_calls() {
    let d = FnDef::new("a.rs".to_string(), Some("T".to_string()), "T::f".to_string());
    assert_eq!(d.file, "a.rs");
    assert_eq!(d.parent, Some("T".to_string()));
    assert_eq!(d.name, "T::f");
    assert!(d.calls.is_empty());
}

#[test]
fn record_shows_its_known_targets() {
    let d = def("f", &["a", "x", "b", "a"]);
    let known = lines(&["b", "a", "f"]);
    assert_eq!(d.to_string(&known), "f\n    a\n    b\n    a\n");
    assert_eq!(d.to_string(&vec![]), "f\n");
    assert_eq!(def("g", &[]).to_string(&known), "g\n");
}

#[test]
fn structure_lists_only_calls_among_the_records() {
    let funcs = vec![def("a", &["b", "?::len", "c"]), def("b", &["a"]), def("T::c", &["T::c", "d"])];
    assert_eq!(
        print_functions_structure(&funcs),
        lines(&["a\n    b\n", "b\n    a\n", "T::c\n    T::c\n"])
    );
    assert!(print_functions_structure(&vec![]).is_empty());
}

#[test]
fn qualified_query_asks_for_the_very_name() {
    assert!(call_matches("A::f", "A::f"));
    assert!(!call_matches("A::f", "B::f"));
    assert!(!call_matches("A::f", "f"));
    assert!(!call_matches("m::A::f", "A::f"));
    assert!(!call_matches("A::f", "m::A::f"));
}

#[test]
fn unqualified_query_asks_for_the_last_segment() {
    assert!(call_matches("f", "f"));
    assert!(call_matches("f", "A::f"));
    assert!(call_matches("f", "m::A::f"));
    assert!(!call_matches("f", "A::g"));
    assert!(!call_matches("f", "f::g"));
    assert!(!call_matches("f", "ff"));
    assert!(!call_matches("A", "A::f"));
    assert!(call_matches("", "A::"));
    assert!(call_matches("", ""));
    assert!(call_matches(":f", "A:::f") == false);
    assert!(call_matches("f", "A:::f"));
}

#[test]
fn last_separator_is_the_rightmost() {
    let chars = |s: &str| s.chars().collect::<Vec<char>>();
    assert_eq!(find_last_separator(&chars("")), None);
    assert_eq!(find_last_separator(&chars(":")), None);
    assert_eq!(find_last_separator(&chars("a:b:c")), None);
    assert_eq!(find_last_separator(&chars("::")), Some(0));
    assert_eq!(find_last_separator(&chars("a::b")), Some(1));
    assert_eq!(find_last_separator(&chars("a::b::c")), Some(4));
    assert_eq!(find_last_separator(&chars("a:::b")), Some(2));
    assert_eq!(find_last_separator(&chars("a::")), Some(1));
}

#[test]
fn tail_is_compared_from_its_start() {
    let chars = |s: &str| s.chars().collect::<Vec<char>>();
    assert!(tail_equals(&chars("A::f"), 3, &chars("f")));
    assert!(tail_equals(&chars("A::f"), 0, &chars("A::f")));
    assert!(tail_equals(&chars("A::f"), 4, &chars("")));
    assert!(!tail_equals(&chars("A::f"), 3, &chars("g")));
    assert!(!tail_equals(&chars("A::f"), 2, &chars("f")));
    assert!(!tail_equals(&chars("A::f"), 3, &chars("ff")));
}

#[test]
fn texts_are_joined_and_copied() {
    assert_eq!(join("ab", "cd"), "abcd");
    assert_eq!(join("", ""), "");
    let list = lines(&["a", "bc"]);
    assert_eq!(clone_texts(&list), list);
}

#[test]
fn catalog_holds_the_twenty_names() {
    assert_eq!(
        get_excludes(),
        lines(&[
            "?::unwrap",
            "?::expect",
            "?::ok",
            "?::iter",
            "?::any",
            "?::map",
            "?::len",
            "?::collect",
            "?::contains",
            "?::push",
            "?::as_str",
            "?::as_string",
            "?::to_str",
            "?::to_string",
            "?::clone",
            "?::parse",
            "String::new",
            "Vec::new",
            "Box::new",
            "HashMap::new",
        ])
    );
}

#[test]
fn depth_one_shows_direct_callers_only() {
    let funcs = vec![def("a", &["b"]), def("b", &["c"]), def("c", &[]), def("d", &["c", "b"])];
    assert_eq!(print_callers("c", 1, "    ", &funcs), lines(&["    b", "    d"]));
    assert_eq!(print_callers("b", 1, "", &funcs), lines(&["a", "d"]));
    assert!(print_callers("a", 1, "    ", &funcs).is_empty());
}

#[test]
fn deeper_callers_stand_one_level_further_in() {
    let funcs = vec![def("a", &["b"]), def("b", &["c"]), def("c", &[]), def("d", &["c", "b"])];
    assert_eq!(
        print_callers("c", 2, "    ", &funcs),
        lines(&["    b", "        a", "        d", "    d"])
    );
    assert_eq!(
        print_callers("c", 3, "    ", &funcs),
        lines(&["    b", "        a", "        d", "    d"])
    );
}

#[test]
fn callers_are_matched_by_the_exact_name() {
    let funcs = vec![def("a", &["T::f"]), def("b", &["f"]), def("c", &["?::f"])];
    assert_eq!(print_callers("f", 1, "", &funcs), lines(&["b"]));
    assert_eq!(print_callers("T::f", 1, "", &funcs), lines(&["a"]));
}

#[test]
fn callers_of_a_cycle_repeat_to_the_depth() {
    let funcs = vec![def("a", &["b"]), def("b", &["a"])];
    assert_eq!(
        print_callers("a", 4, "", &funcs),
        lines(&["b", "    a", "        b", "            a"])
    );
}

#[test]
fn tree_of_callers_begins_with_the_callee() {
    let funcs = vec![def("a", &["b"]), def("b", &["c"])];
    assert_eq!(print_callers_tree("c", 2, &funcs), lines(&["c", "    b", "        a"]));
    assert_eq!(print_callers_tree("zz", 1, &funcs), lines(&["zz"]));
}

#[test]
fn mutual_recursion_ends_with_a_cycle_mark() {
    let funcs = vec![def("a", &["b"]), def("b", &["a"])];
    assert_eq!(print_callees("a", 3, &funcs), lines(&["a", "|   b", "|   |   a -^"]));
    assert_eq!(print_callees("a", 9, &funcs), lines(&["a", "|   b", "|   |   a -^"]));
}

#[test]
fn self_recursion_is_marked_at_once() {
    let funcs = vec![def("a", &["a"])];
    assert_eq!(print_callees("a", 5, &funcs), lines(&["a", "|   a -^"]));
}

#[test]
fn excluded_method_is_never_shown() {
    let body = vec![Syntax::MethodCall {
        receiver: "x".to_string(),
        method: "unwrap".to_string(),
        inner: vec![],
    }];
    let items = vec![Syntax::Function { name: "f".to_string(), inner: body }];
    let files = vec![SourceFile { name: "a.rs".to_string(), items }];
    let funcs = try_process_funcs(&files).unwrap();
    assert_eq!(funcs[0].calls, lines(&["?::unwrap"]));
    for depth in 0..5 {
        assert_eq!(print_callees("f", depth, &funcs), lines(&["f"]));
    }
}

#[test]
fn excluded_names_are_left_out_at_every_depth() {
    let funcs = vec![
        def("a", &["Vec::new", "b", "?::clone"]),
        def("b", &["?::len", "c", "String::new"]),
        def("c", &["HashMap::new"]),
    ];
    assert_eq!(print_callees("a", 5, &funcs), lines(&["a", "|   b", "|   |   c"]));
    assert!(print_callees("?::unwrap", 3, &funcs).is_empty());
    assert!(print_callees("Box::new", 0, &funcs).is_empty());
}

#[test]
fn depth_zero_shows_the_matches_alone() {
    let funcs = vec![def("a", &["b"]), def("b", &[])];
    assert_eq!(print_callees("a", 0, &funcs), lines(&["a"]));
    assert_eq!(print_callees("a", 1, &funcs), lines(&["a", "|   b"]));
}

#[test]
fn depth_bounds_the_tree() {
    let funcs = vec![def("a", &["b"]), def("b", &["c"]), def("c", &["d"]), def("d", &[])];
    assert_eq!(print_callees("a", 1, &funcs), lines(&["a", "|   b"]));
    assert_eq!(print_callees("a", 2, &funcs), lines(&["a", "|   b", "|   |   c"]));
}

#[test]
fn unknown_name_is_shown_as_a_leaf() {
    let funcs = vec![def("a", &["ext::call", "?::run"])];
    assert_eq!(print_callees("a", 2, &funcs), lines(&["a", "|   ext::call", "|   ?::run"]));
    assert_eq!(print_callees("nothing", 2, &funcs), lines(&["nothing"]));
    assert_eq!(print_callees("nothing", 2, &vec![]), lines(&["nothing"]));
}

#[test]
fn unqualified_name_shows_every_record_it_fits() {
    let funcs = vec![def("A::new", &["x"]), def("B::new", &["y"]), def("new", &[])];
    assert_eq!(
        print_callees("new", 1, &funcs),
        lines(&["A::new", "|   x", "B::new", "|   y", "new"])
    );
    assert_eq!(print_callees("A::new", 1, &funcs), lines(&["A::new", "|   x"]));
}

#[test]
fn siblings_do_not_share_what_they_visited() {
    let funcs = vec![def("a", &["b", "c"]), def("b", &["d"]), def("c", &["d"]), def("d", &[])];
    assert_eq!(
        print_callees("a", 3, &funcs),
        lines(&["a", "|   b", "|   |   d", "|   c", "|   |   d"])
    );
}

#[test]
fn longer_cycle_is_cut_where_it_closes() {
    let funcs = vec![def("a", &["b"]), def("b", &["c"]), def("c", &["a", "b"])];
    assert_eq!(
        print_callees("a", 9, &funcs),
        lines(&["a", "|   b", "|   |   c", "|   |   |   a -^", "|   |   |   b -^"])
    );
}

#[test]
fn other_catalog_and_path_can_be_given() {
    let funcs = vec![def("a", &["b", "c"]), def("b", &[]), def("c", &[])];
    let excludes = lines(&["b"]);
    assert_eq!(
        print_callees_from("a", 2, "> ", &funcs, &excludes, &vec![]),
        lines(&["> a", "> |   c"])
    );
    let visited = lines(&["c"]);
    assert_eq!(
        print_callees_from("a", 2, "", &funcs, &vec![], &visited),
        lines(&["a", "|   b", "|   c -^"])
    );
    assert_eq!(print_callees_from("c", 2, "", &funcs, &vec![], &visited), lines(&["c -^"]));
    assert!(print_callees_from("c", 2, "", &funcs, &visited, &visited).is_empty());
}

#[test]
fn catalog_name_of_a_record_is_shown_under_another_query() {
    let funcs = vec![def("Vec::new", &["alloc"])];
    assert_eq!(print_callees("new", 1, &funcs), lines(&["Vec::new", "|   alloc"]));
    assert!(print_callees("Vec::new", 1, &funcs).is_empty());
}
