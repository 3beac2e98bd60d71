use callgraph::record::FnDef;
use callgraph::syntax::{SourceFile, Syntax};
use callgraph::visitor::{
    check, check_all, check_files, process_funcs, try_process_funcs, CallsVisitor, Context, Fault,
};
use callgraph::{FnDef as RootFnDef, CallsVisitor as RootVisitor};

fn text(s: &str) -> String {
    s.to_string()
}

fn call(func: &str, inner: Vec<Syntax>) -> Syntax {
    let segment = func.split("::").last().map(|s| s.trim().to_string());
    Syntax::Call { func: text(func), segment, inner }
}

fn call_with(func: &str, segment: Option<&str>, inner: Vec<Syntax>) -> Syntax {
    Syntax::Call { func: text(func), segment: segment.map(text), inner }
}

fn method(receiver: &str, name: &str, inner: Vec<Syntax>) -> Syntax {
    Syntax::MethodCall { receiver: text(receiver), method: text(name), inner }
}

fn method_free(receiver: &str, name: &str) -> Syntax {
    method(receiver, name, vec![])
}

fn function(name: &str, inner: Vec<Syntax>) -> Syntax {
    Syntax::Function { name: text(name), inner }
}

fn block(self_ty: &str, inner: Vec<Syntax>) -> Syntax {
    Syntax::Impl { self_ty: text(self_ty), inner }
}

fn file(name: &str, items: Vec<Syntax>) -> SourceFile {
    SourceFile { name: text(name), items }
}

fn extract(items: Vec<Syntax>) -> Vec<FnDef> {
    try_process_funcs(&vec![file("lib.rs", items)]).unwrap()
}

fn names(funcs: &Vec<FnDef>) -> Vec<String> {
    funcs.iter().map(|f| f.name.clone()).collect()
}

#[test]
fn self_call_is_named_under_the_enclosing_type() {
    let render = function("render", vec![method("self", "paint", vec![])]);
    let files = vec![file("widget.rs", vec![block("Widget", vec![render])])];
    let funcs = try_process_funcs(&files).unwrap();
    assert_eq!(funcs.len(), 1);
    assert_eq!(funcs[0].file, "widget.rs");
    assert_eq!(funcs[0].parent, Some(text("Widget")));
    assert_eq!(funcs[0].name, "Widget::render");
    assert_eq!(funcs[0].calls, vec![text("Widget::paint")]);
}

#[test]
fn free_function_keeps_its_plain_name() {
    let funcs = extract(vec![function("main", vec![call("run", vec![])])]);
    assert_eq!(funcs.len(), 1);
    assert_eq!(funcs[0].name, "main");
    assert_eq!(funcs[0].parent, None);
    assert_eq!(funcs[0].file, "lib.rs");
    assert_eq!(funcs[0].calls, vec![text("run")]);
}

#[test]
fn function_without_calls_has_an_empty_list() {
    let funcs = extract(vec![function("idle", vec![])]);
    assert_eq!(funcs.len(), 1);
    assert!(funcs[0].calls.is_empty());
}

#[test]
fn repeated_target_is_recorded_once() {
    let body = vec![call("a", vec![]), call("b", vec![]), call("a", vec![]), call("b", vec![])];
    let funcs = extract(vec![function("f", body)]);
    assert_eq!(funcs[0].calls, vec![text("a"), text("b")]);
}

#[test]
fn targets_keep_the_order_of_their_first_occurrence() {
    let body = vec![
        call("c", vec![]),
        method("x", "m", vec![]),
        call("a", vec![]),
        call("c", vec![]),
        method("y", "m", vec![]),
        call("b", vec![]),
    ];
    let funcs = extract(vec![function("f", body)]);
    assert_eq!(funcs[0].calls, vec![text("c"), text("?::m"), text("a"), text("b")]);
}

#[test]
fn calls_inside_arguments_follow_the_call_itself() {
    let body = vec![call("outer", vec![call("inner", vec![]), method("v", "len", vec![])])];
    let funcs = extract(vec![function("f", body)]);
    assert_eq!(funcs[0].calls, vec![text("outer"), text("inner"), text("?::len")]);
}

#[test]
fn calls_inside_a_receiver_follow_the_method_call() {
    let body = vec![method("make ()", "run", vec![call("make", vec![])])];
    let funcs = extract(vec![function("f", body)]);
    assert_eq!(funcs[0].calls, vec![text("?::run"), text("make")]);
}

#[test]
fn callee_is_recorded_without_white_space() {
    let body = vec![call("Type :: new", vec![]), call("a :: b :: func", vec![])];
    let funcs = extract(vec![function("f", body)]);
    assert_eq!(funcs[0].calls, vec![text("Type::new"), text("a::b::func")]);
}

#[test]
fn capitalized_callee_is_never_recorded() {
    let body = vec![call("Some", vec![]), call("Shape :: Circle", vec![]), call("ok", vec![])];
    let funcs = extract(vec![function("f", body)]);
    assert_eq!(funcs[0].calls, vec![text("ok")]);
}

#[test]
fn capitalized_callee_hides_what_is_inside_it() {
    let body = vec![call("Some", vec![call("hidden", vec![])]), call("seen", vec![])];
    let funcs = extract(vec![function("f", body)]);
    assert_eq!(funcs[0].calls, vec![text("seen")]);
}

#[test]
fn capitalized_method_name_is_recorded() {
    let body = vec![method("x", "Foo", vec![])];
    let funcs = extract(vec![function("f", body)]);
    assert_eq!(funcs[0].calls, vec![text("?::Foo")]);
}

#[test]
fn other_receiver_gets_the_placeholder() {
    let body = vec![method("self . inner", "run", vec![]), method("other", "run", vec![])];
    let funcs = extract(vec![block("T", vec![function("f", body)])]);
    assert_eq!(funcs[0].calls, vec![text("?::run")]);
}

#[test]
fn calls_outside_a_function_are_passed_over() {
    let items = vec![
        call("init", vec![function("hidden", vec![])]),
        method("self", "setup", vec![]),
        function("f", vec![]),
    ];
    let funcs = extract(items);
    assert_eq!(names(&funcs), vec![text("f")]);
    assert!(funcs[0].calls.is_empty());
}

#[test]
fn records_come_in_the_order_in_which_functions_end() {
    let items = vec![
        function("first", vec![]),
        block("A", vec![function("new", vec![]), function("run", vec![])]),
        function("last", vec![]),
    ];
    let funcs = extract(items);
    assert_eq!(names(&funcs), vec![text("first"), text("A::new"), text("A::run"), text("last")]);
    assert_eq!(funcs[1].parent, Some(text("A")));
    assert_eq!(funcs[3].parent, None);
}

#[test]
fn enclosing_type_is_cleared_when_its_block_ends() {
    let items = vec![
        block("A", vec![function("f", vec![])]),
        function("g", vec![]),
        block("B < T >", vec![function("h", vec![method("self", "k", vec![])])]),
    ];
    let funcs = extract(items);
    assert_eq!(names(&funcs), vec![text("A::f"), text("g"), text("B < T >::h")]);
    assert_eq!(funcs[2].calls, vec![text("B < T >::k")]);
}

#[test]
fn block_inside_a_block_clears_the_enclosing_type() {
    let items = vec![block(
        "A",
        vec![function("f", vec![]), block("B", vec![function("g", vec![])]), function("h", vec![])],
    )];
    let funcs = extract(items);
    assert_eq!(names(&funcs), vec![text("A::f"), text("B::g"), text("h")]);
}

#[test]
fn files_add_to_one_list() {
    let files = vec![
        file("a.rs", vec![function("f", vec![call("g", vec![])])]),
        file("b.rs", vec![function("g", vec![])]),
    ];
    let funcs = try_process_funcs(&files).unwrap();
    assert_eq!(names(&funcs), vec![text("f"), text("g")]);
    assert_eq!(funcs[0].file, "a.rs");
    assert_eq!(funcs[1].file, "b.rs");
    let again = process_funcs(&files);
    assert_eq!(names(&again), vec![text("f"), text("g")]);
}

#[test]
fn no_files_give_no_records() {
    let funcs = try_process_funcs(&vec![]).unwrap();
    assert!(funcs.is_empty());
}

#[test]
fn self_call_without_enclosing_type_is_a_fault() {
    let files = vec![file("a.rs", vec![function("f", vec![method("self", "g", vec![])])])];
    assert!(matches!(try_process_funcs(&files), Err(Fault::SelfWithoutType)));
    assert!(matches!(check_files(&files), Err(Fault::SelfWithoutType)));
}

#[test]
fn function_inside_a_function_has_its_own_record() {
    let inner = function("inner", vec![call("b", vec![])]);
    let outer = function("outer", vec![call("a", vec![]), inner, call("c", vec![])]);
    let funcs = extract(vec![outer]);
    assert_eq!(names(&funcs), vec![text("inner"), text("outer")]);
    assert_eq!(funcs[0].calls, vec![text("b")]);
    assert_eq!(funcs[1].calls, vec![text("a"), text("c")]);
}

#[test]
fn empty_function_inside_a_function_is_recorded() {
    let funcs = extract(vec![function("outer", vec![function("inner", vec![])])]);
    assert_eq!(names(&funcs), vec![text("inner"), text("outer")]);
    assert!(funcs[0].calls.is_empty());
    assert!(funcs[1].calls.is_empty());
}

#[test]
fn functions_nest_to_any_depth() {
    let c = function("c", vec![call("z", vec![])]);
    let b = function("b", vec![call("y", vec![]), c, call("y2", vec![])]);
    let a = function("a", vec![b, call("x", vec![])]);
    let funcs = extract(vec![block("T", vec![a])]);
    assert_eq!(names(&funcs), vec![text("T::c"), text("T::b"), text("T::a")]);
    assert_eq!(funcs[0].calls, vec![text("z")]);
    assert_eq!(funcs[1].calls, vec![text("y"), text("y2")]);
    assert_eq!(funcs[2].calls, vec![text("x")]);
}

#[test]
fn function_inside_the_arguments_of_a_call_has_its_own_record() {
    let helper = function("helper", vec![call("deep", vec![])]);
    let outer = function("outer", vec![call("run", vec![helper, call("arg", vec![])])]);
    let funcs = extract(vec![outer]);
    assert_eq!(names(&funcs), vec![text("helper"), text("outer")]);
    assert_eq!(funcs[0].calls, vec![text("deep")]);
    assert_eq!(funcs[1].calls, vec![text("run"), text("arg")]);
}

#[test]
fn block_inside_a_function_clears_the_enclosing_type() {
    let method = function("m", vec![method("self", "k", vec![])]);
    let outer = function(
        "outer",
        vec![block("S", vec![call("init", vec![]), method]), method_free("x", "after")],
    );
    let funcs = extract(vec![block("T", vec![outer, function("next", vec![])])]);
    assert_eq!(names(&funcs), vec![text("S::m"), text("T::outer"), text("next")]);
    assert_eq!(funcs[0].calls, vec![text("S::k")]);
    assert_eq!(funcs[1].calls, vec![text("init"), text("?::after")]);
}

#[test]
fn callee_without_a_token_is_recorded_as_it_is() {
    let funcs = extract(vec![function("f", vec![call_with("  ", None, vec![])])]);
    assert_eq!(funcs[0].calls, vec![text("")]);
}

#[test]
fn generic_constructor_is_never_recorded() {
    let body = vec![
        call_with("Foo :: < T >", Some("Foo"), vec![call("hidden", vec![])]),
        call_with("size_of :: < T >", Some("size_of"), vec![]),
    ];
    let funcs = extract(vec![function("f", body)]);
    assert_eq!(funcs[0].calls, vec![text("size_of::<T>")]);
}

#[test]
fn first_fault_on_the_way_is_told() {
    let items = vec![
        function("f", vec![call("ok", vec![])]),
        function("g", vec![method("self", "h", vec![])]),
        function("h", vec![]),
    ];
    assert!(matches!(try_process_funcs(&vec![file("a.rs", items)]), Err(Fault::SelfWithoutType)));
}

#[test]
fn file_with_a_fault_leaves_the_visitor_as_it_was() {
    let mut visitor = CallsVisitor::new();
    assert!(visitor.try_visit_file(&file("a.rs", vec![function("f", vec![])])).is_ok());
    let bad = file("b.rs", vec![function("g", vec![]), function("h", vec![method("self", "k", vec![])])]);
    assert!(matches!(visitor.try_visit_file(&bad), Err(Fault::SelfWithoutType)));
    assert!(visitor.try_visit_file(&file("c.rs", vec![function("i", vec![])])).is_ok());
    let funcs = visitor.into_functions();
    assert_eq!(names(&funcs), vec![text("f"), text("i")]);
    assert_eq!(funcs[0].file, "a.rs");
    assert_eq!(funcs[1].file, "c.rs");
}

#[test]
fn fault_inside_a_capitalized_call_is_not_met() {
    let body = vec![call("Some", vec![method("self", "g", vec![])])];
    let funcs = extract(vec![function("f", body)]);
    assert!(funcs[0].calls.is_empty());
}

#[test]
fn dry_walk_follows_the_context() {
    let free = Context { in_function: false, in_impl: false };
    let end = check(&function("f", vec![call("g", vec![])]), free).unwrap();
    assert!(!end.in_function && !end.in_impl);
    let inside = Context { in_function: true, in_impl: true };
    let end = check(&call("g", vec![]), inside).unwrap();
    assert!(end.in_function && end.in_impl);
    let end = check(&block("A", vec![]), inside).unwrap();
    assert!(end.in_function && !end.in_impl);
    let end = check(&function("g", vec![]), inside).unwrap();
    assert!(end.in_function && end.in_impl);
    let end = check(&function("g", vec![block("B", vec![])]), inside).unwrap();
    assert!(end.in_function && !end.in_impl);
    let nodes = vec![block("A", vec![]), method("self", "m", vec![])];
    assert!(matches!(check_all(&nodes, inside), Err(Fault::SelfWithoutType)));
}

#[test]
fn visitor_can_be_driven_step_by_step() {
    let mut visitor = CallsVisitor::new();
    let at = visitor.context();
    assert!(!at.in_function && !at.in_impl);
    visitor.record(text("lost"));
    visitor.start_new_fndef(text("f"));
    assert!(visitor.context().in_function);
    visitor.record(text("a"));
    visitor.record(text("b"));
    visitor.record(text("a"));
    visitor.push_current_function();
    assert!(!visitor.context().in_function);
    let funcs = visitor.into_functions();
    assert_eq!(funcs.len(), 1);
    assert_eq!(funcs[0].name, "f");
    assert_eq!(funcs[0].file, "");
    assert_eq!(funcs[0].calls, vec![text("a"), text("b")]);
}

#[test]
fn visitor_walks_single_nodes() {
    let mut visitor = CallsVisitor::new();
    visitor.visit_file(&file("m.rs", vec![]));
    visitor.visit_item_impl(&text("T"), &vec![function("f", vec![method("self", "g", vec![])])]);
    visitor.visit_item_fn(&text("h"), &vec![call("k", vec![])]);
    visitor.visit(&function("i", vec![]));
    visitor.visit_all(&vec![function("j", vec![])]);
    visitor.start_new_fndef(text("l"));
    visitor.visit_expr_call(&text("p :: q"), &Some(text("q")), &vec![call("r", vec![])]);
    visitor.visit_expr_call(&text("P :: Q"), &Some(text("Q")), &vec![call("lost", vec![])]);
    visitor.visit_expr_method_call(&text("x"), &text("s"), &vec![]);
    visitor.push_current_function();
    let funcs = visitor.into_functions();
    assert_eq!(names(&funcs), vec![text("T::f"), text("h"), text("i"), text("j"), text("l")]);
    assert_eq!(funcs[0].calls, vec![text("T::g")]);
    assert_eq!(funcs[0].file, "m.rs");
    assert_eq!(funcs[1].calls, vec![text("k")]);
    assert_eq!(funcs[4].calls, vec![text("p::q"), text("r"), text("?::s")]);
}

#[test]
fn new_function_is_begun_inside_the_one_in_progress() {
    let mut visitor = CallsVisitor::new();
    visitor.start_new_fndef(text("f"));
    visitor.record(text("a"));
    visitor.start_new_fndef(text("g"));
    visitor.record(text("b"));
    visitor.push_current_function();
    assert!(visitor.context().in_function);
    visitor.record(text("c"));
    visitor.push_current_function();
    assert!(!visitor.context().in_function);
    let funcs = visitor.into_functions();
    assert_eq!(names(&funcs), vec![text("g"), text("f")]);
    assert_eq!(funcs[0].calls, vec![text("b")]);
    assert_eq!(funcs[1].calls, vec![text("a"), text("c")]);
}

#[test]
fn root_of_the_crate_names_the_main_types() {
    let visitor = RootVisitor::new();
    let funcs: Vec<RootFnDef> = visitor.into_functions();
    assert!(funcs.is_empty());
}
