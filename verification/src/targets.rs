//! What a walk comes to, told from the tree as a whole: the targets that a
//! function body adds to its record, in the order of their first
//! occurrence, and the records that the walk files.

use vstd::prelude::*;
use crate::record::FnDefView;
use crate::resolve::{capitalized, full_name, method_target, squeeze};
use crate::syntax::{SourceFile, Syntax};
use crate::text::opt_view;
use crate::visitor::{scan, VisitorView};

verus! {

/// `calls`, and behind it each of `seen` in turn that is not there already.
pub open spec fn extend(calls: Seq<Seq<char>>, seen: Seq<Seq<char>>) -> Seq<Seq<char>>
    decreases seen.len(),
{
    if seen.len() == 0 {
        calls
    } else {
        let front = extend(calls, seen.drop_last());
        if front.contains(seen.last()) {
            front
        } else {
            front.push(seen.last())
        }
    }
}

/// `seen` without its repeats: each target stays where it occurs first.
pub open spec fn first_seen(seen: Seq<Seq<char>>) -> Seq<Seq<char>> {
    extend(Seq::empty(), seen)
}

/// Whether `j` is the first position at which `target` occurs in `seen`.
pub open spec fn first_at(seen: Seq<Seq<char>>, target: Seq<char>, j: int) -> bool {
    0 <= j < seen.len() && seen[j] == target && forall|i: int| 0 <= i < j ==> seen[i] != target
}

/// A list is the beginning of what it is extended to.
pub proof fn lemma_extend_prefix(calls: Seq<Seq<char>>, seen: Seq<Seq<char>>)
    ensures
        calls.is_prefix_of(extend(calls, seen)),
    decreases seen.len(),
{
    if seen.len() > 0 {
        lemma_extend_prefix(calls, seen.drop_last());
    }
}

/// An extended list holds what the list held and what was seen, and no more.
pub proof fn lemma_extend_contains(calls: Seq<Seq<char>>, seen: Seq<Seq<char>>, target: Seq<char>)
    ensures
        extend(calls, seen).contains(target) <==> calls.contains(target) || seen.contains(target),
    decreases seen.len(),
{
    if seen.len() > 0 {
        let front = extend(calls, seen.drop_last());
        lemma_extend_contains(calls, seen.drop_last(), target);
        if seen.contains(target) {
            let j = choose|j: int| 0 <= j < seen.len() && seen[j] == target;
            if j < seen.len() - 1 {
                assert(seen.drop_last()[j] == target);
            }
        }
        if seen.drop_last().contains(target) {
            let j = choose|j: int| 0 <= j < seen.drop_last().len() && seen.drop_last()[j] == target;
            assert(seen[j] == target);
        }
        if !front.contains(seen.last()) {
            let grown = front.push(seen.last());
            assert(grown[front.len() as int] == seen.last());
            if front.contains(target) {
                let j = choose|j: int| 0 <= j < front.len() && front[j] == target;
                assert(grown[j] == target);
            }
        }
        assert(seen[seen.len() - 1] == seen.last());
    }
}

/// A list without repeats has none after it is extended.
pub proof fn lemma_extend_no_duplicates(calls: Seq<Seq<char>>, seen: Seq<Seq<char>>)
    requires
        calls.no_duplicates(),
    ensures
        extend(calls, seen).no_duplicates(),
    decreases seen.len(),
{
    if seen.len() > 0 {
        lemma_extend_no_duplicates(calls, seen.drop_last());
    }
}

/// To extend by one sequence and then by another is to extend by both in a row.
pub proof fn lemma_extend_concat(calls: Seq<Seq<char>>, first: Seq<Seq<char>>, then: Seq<Seq<char>>)
    ensures
        extend(extend(calls, first), then) == extend(calls, first + then),
    decreases then.len(),
{
    if then.len() == 0 {
        assert(first + then =~= first);
    } else {
        lemma_extend_concat(calls, first, then.drop_last());
        assert((first + then).drop_last() =~= first + then.drop_last());
        assert((first + then).last() == then.last());
    }
}

/// To extend by a single target is to add it unless it is there.
pub proof fn lemma_extend_one(calls: Seq<Seq<char>>, target: Seq<char>)
    ensures
        extend(calls, seq![target]) == if calls.contains(target) {
            calls
        } else {
            calls.push(target)
        },
{
    let one = seq![target];
    assert(one.drop_last() =~= Seq::empty());
    assert(extend(calls, one.drop_last()) == calls);
    assert(one.last() == target);
}

/// The list without repeats holds no target twice.
pub proof fn lemma_first_seen_no_duplicates(seen: Seq<Seq<char>>)
    ensures
        first_seen(seen).no_duplicates(),
{
    lemma_extend_no_duplicates(Seq::empty(), seen);
}

/// The list without repeats holds the targets that were seen, and no others.
pub proof fn lemma_first_seen_contains(seen: Seq<Seq<char>>, target: Seq<char>)
    ensures
        first_seen(seen).contains(target) <==> seen.contains(target),
{
    lemma_extend_contains(Seq::empty(), seen, target);
}

/// The list without repeats keeps the order of the first occurrences: of
/// two of its targets, the earlier one is seen first earlier.
pub proof fn lemma_first_seen_order(seen: Seq<Seq<char>>, a: int, b: int, ja: int, jb: int)
    requires
        0 <= a < b < first_seen(seen).len(),
        first_at(seen, first_seen(seen)[a], ja),
        first_at(seen, first_seen(seen)[b], jb),
    ensures
        ja < jb,
    decreases seen.len(),
{
    let list = first_seen(seen);
    if seen.len() > 0 {
        let rest = seen.drop_last();
        let front = first_seen(rest);
        lemma_first_seen_contains(rest, list[a]);
        lemma_first_seen_contains(rest, seen.last());
        assert(front.contains(list[a])) by {
            assert(front[a] == list[a]);
        }
        let ia = choose|i: int| 0 <= i < rest.len() && rest[i] == list[a];
        assert(seen[ia] == list[a]);
        assert(ja < seen.len() - 1);
        assert(first_at(rest, list[a], ja)) by {
            assert(rest[ja] == seen[ja]);
            assert forall|i: int| 0 <= i < ja implies rest[i] != list[a] by {
                assert(rest[i] == seen[i]);
            }
        }
        if b < front.len() {
            lemma_first_seen_contains(rest, list[b]);
            assert(front.contains(list[b])) by {
                assert(front[b] == list[b]);
            }
            let ib = choose|i: int| 0 <= i < rest.len() && rest[i] == list[b];
            assert(seen[ib] == list[b]);
            assert(first_at(rest, list[b], jb)) by {
                assert(rest[jb] == seen[jb]);
                assert forall|i: int| 0 <= i < jb implies rest[i] != list[b] by {
                    assert(rest[i] == seen[i]);
                }
            }
            lemma_first_seen_order(rest, a, b, ja, jb);
        } else {
            assert(list[b] == seen.last());
            assert(!rest.contains(seen.last()));
            if jb < seen.len() - 1 {
                assert(rest[jb] == seen.last());
            }
        }
    }
}

/// What the walk of a part of a tree comes to.
pub struct Outcome {
    /// The targets of the calls that belong to the function around the
    /// part, in the order of the walk.
    pub own: Seq<Seq<char>>,
    /// The enclosing type after the part.
    pub parent: Option<Seq<char>>,
    /// The records of the functions that end inside the part, in that order.
    pub filed: Seq<FnDefView>,
}

/// The outcome of a part that holds nothing.
pub open spec fn nothing(parent: Option<Seq<char>>) -> Outcome {
    Outcome { own: Seq::empty(), parent, filed: Seq::empty() }
}

/// One outcome after another.
pub open spec fn and_then(first: Outcome, next: Outcome) -> Outcome {
    Outcome { own: first.own + next.own, parent: next.parent, filed: first.filed + next.filed }
}

/// The outcome of a function item in the file `file`, under the enclosing
/// type `parent`: after the records of the functions inside it comes its
/// own, whose call list holds the targets of its body, each once, in the
/// order of their first occurrence. It adds nothing to the function around it.
pub open spec fn outcome_function(
    name: Seq<char>,
    inner: Vec<Syntax>,
    file: Seq<char>,
    parent: Option<Seq<char>>,
) -> Outcome
    decreases inner, 1nat,
{
    let body = outcome_all(inner@, inner@.len(), file, true, parent);
    Outcome {
        own: Seq::empty(),
        parent: body.parent,
        filed: body.filed.push(
            FnDefView {
                file,
                parent,
                name: full_name(parent, name),
                calls: first_seen(body.own),
            },
        ),
    }
}

/// The outcome of an implementation block: that of what is inside it, under
/// its type; after it no enclosing type is set.
pub open spec fn outcome_impl(
    self_ty: Seq<char>,
    inner: Vec<Syntax>,
    file: Seq<char>,
    inside: bool,
) -> Outcome
    decreases inner, 1nat,
{
    let body = outcome_all(inner@, inner@.len(), file, inside, Some(self_ty));
    Outcome { own: body.own, parent: None, filed: body.filed }
}

/// The outcome of a plain call: nothing outside a function and where the
/// final path segment is capitalized; else its target, then the outcome of
/// what is inside it.
pub open spec fn outcome_call(
    func: Seq<char>,
    segment: Option<Seq<char>>,
    inner: Vec<Syntax>,
    file: Seq<char>,
    inside: bool,
    parent: Option<Seq<char>>,
) -> Outcome
    decreases inner, 1nat,
{
    if !inside || capitalized(segment) {
        nothing(parent)
    } else {
        and_then(
            Outcome { own: seq![squeeze(func)], parent, filed: Seq::empty() },
            outcome_all(inner@, inner@.len(), file, true, parent),
        )
    }
}

/// The outcome of a method call: nothing outside a function; else its
/// target, then the outcome of what is inside it.
pub open spec fn outcome_method_call(
    receiver: Seq<char>,
    method: Seq<char>,
    inner: Vec<Syntax>,
    file: Seq<char>,
    inside: bool,
    parent: Option<Seq<char>>,
) -> Outcome
    decreases inner, 1nat,
{
    if !inside {
        nothing(parent)
    } else {
        and_then(
            Outcome {
                own: seq![method_target(receiver, method, parent)],
                parent,
                filed: Seq::empty(),
            },
            outcome_all(inner@, inner@.len(), file, true, parent),
        )
    }
}

/// The outcome of `node` in the file `file`, inside a function or not, under
/// the enclosing type `parent`.
pub open spec fn outcome(node: Syntax, file: Seq<char>, inside: bool, parent: Option<Seq<char>>) -> Outcome
    decreases node, 0nat,
{
    match node {
        Syntax::Function { name, inner } => outcome_function(name@, inner, file, parent),
        Syntax::Impl { self_ty, inner } => outcome_impl(self_ty@, inner, file, inside),
        Syntax::Call { func, segment, inner } => outcome_call(
            func@,
            opt_view(segment),
            inner,
            file,
            inside,
            parent,
        ),
        Syntax::MethodCall { receiver, method, inner } => outcome_method_call(
            receiver@,
            method@,
            inner,
            file,
            inside,
            parent,
        ),
    }
}

/// The outcome of the first `k` of `nodes`, one after the other: each under
/// the enclosing type that the ones before it leave.
pub open spec fn outcome_all(
    nodes: Seq<Syntax>,
    k: nat,
    file: Seq<char>,
    inside: bool,
    parent: Option<Seq<char>>,
) -> Outcome
    decreases nodes, k,
{
    if k == 0 || k > nodes.len() {
        nothing(parent)
    } else {
        let before = outcome_all(nodes, (k - 1) as nat, file, inside, parent);
        and_then(before, outcome(nodes[k - 1], file, inside, before.parent))
    }
}

/// The state `st` after a part with the outcome `o`: the records of `o` are
/// filed behind those of `st`, and the record of the innermost function is
/// extended by the targets of `o`.
pub open spec fn follow(st: VisitorView, o: Outcome) -> VisitorView {
    VisitorView {
        functions: st.functions + o.filed,
        current_file: st.current_file,
        current_parent: o.parent,
        in_progress: if st.in_progress.len() > 0 {
            let def = st.in_progress.last();
            st.in_progress.drop_last().push(FnDefView { calls: extend(def.calls, o.own), ..def })
        } else {
            st.in_progress
        },
    }
}

/// Whether a walk from `st` stands inside a function.
pub open spec fn inside(st: VisitorView) -> bool {
    st.in_progress.len() > 0
}

/// To follow one outcome and then another is to follow both in a row.
pub proof fn lemma_follow_twice(st: VisitorView, first: Outcome, next: Outcome)
    ensures
        follow(follow(st, first), next) == follow(st, and_then(first, next)),
{
    let mid = follow(st, first);
    let end = follow(mid, next);
    let both = follow(st, and_then(first, next));
    assert(end.functions =~= both.functions);
    if st.in_progress.len() > 0 {
        lemma_extend_concat(st.in_progress.last().calls, first.own, next.own);
        assert(mid.in_progress.drop_last() =~= st.in_progress.drop_last());
        assert(end.in_progress =~= both.in_progress);
    }
}

/// To follow an outcome that holds nothing but an enclosing type is to set
/// that type.
pub proof fn lemma_follow_nothing(st: VisitorView, parent: Option<Seq<char>>)
    ensures
        follow(st, nothing(parent)) == (VisitorView { current_parent: parent, ..st }),
{
    let end = follow(st, nothing(parent));
    assert(end.functions =~= st.functions);
    if st.in_progress.len() > 0 {
        assert(end.in_progress =~= st.in_progress);
    }
}

/// Recording a target is following an outcome of that one target.
pub proof fn lemma_follow_record(st: VisitorView, target: Seq<char>)
    ensures
        st.record(target) == follow(
            st,
            Outcome { own: seq![target], parent: st.current_parent, filed: Seq::empty() },
        ),
{
    let o = Outcome { own: seq![target], parent: st.current_parent, filed: Seq::empty() };
    let end = follow(st, o);
    assert(end.functions =~= st.functions);
    if st.in_progress.len() > 0 {
        lemma_extend_one(st.in_progress.last().calls, target);
        if st.in_progress.last().calls.contains(target) {
            assert(end.in_progress =~= st.in_progress);
        }
    }
}

/// The walk of a function item comes to its outcome, whatever it holds.
pub proof fn lemma_function_outcome(st: VisitorView, name: Seq<char>, inner: Vec<Syntax>)
    ensures
        st.visit_function(name, inner) == follow(
            st,
            outcome_function(name, inner, st.current_file, st.current_parent),
        ),
    decreases inner, 1nat,
{
    let begun = st.start(name);
    let body = outcome_all(inner@, inner@.len(), st.current_file, true, st.current_parent);
    lemma_visit_all_outcome(begun, inner@, inner@.len());
    let filled = begun.visit_all(inner@, inner@.len());
    assert(filled == follow(begun, body));
    let ended = filled.finish();
    let end = follow(st, outcome_function(name, inner, st.current_file, st.current_parent));
    assert(begun.in_progress.drop_last() =~= st.in_progress);
    assert(ended.in_progress =~= st.in_progress);
    assert(ended.functions =~= end.functions);
    if st.in_progress.len() > 0 {
        assert(end.in_progress =~= st.in_progress);
    }
}

/// The walk of an implementation block comes to its outcome.
pub proof fn lemma_impl_outcome(st: VisitorView, self_ty: Seq<char>, inner: Vec<Syntax>)
    ensures
        st.visit_impl(self_ty, inner) == follow(
            st,
            outcome_impl(self_ty, inner, st.current_file, inside(st)),
        ),
    decreases inner, 1nat,
{
    lemma_visit_all_outcome(st.enter(self_ty), inner@, inner@.len());
}

/// The walk of a plain call comes to its outcome, whatever stands inside it.
pub proof fn lemma_call_outcome(
    st: VisitorView,
    func: Seq<char>,
    segment: Option<Seq<char>>,
    inner: Vec<Syntax>,
)
    ensures
        st.visit_call(func, segment, inner) == follow(
            st,
            outcome_call(func, segment, inner, st.current_file, inside(st), st.current_parent),
        ),
    decreases inner, 1nat,
{
    if !inside(st) || capitalized(segment) {
        lemma_follow_nothing(st, st.current_parent);
    } else {
        let target = squeeze(func);
        lemma_follow_record(st, target);
        lemma_visit_all_outcome(st.record(target), inner@, inner@.len());
        lemma_follow_twice(
            st,
            Outcome { own: seq![target], parent: st.current_parent, filed: Seq::empty() },
            outcome_all(inner@, inner@.len(), st.current_file, true, st.current_parent),
        );
    }
}

/// The walk of a method call comes to its outcome, whatever stands inside it.
pub proof fn lemma_method_call_outcome(
    st: VisitorView,
    receiver: Seq<char>,
    method: Seq<char>,
    inner: Vec<Syntax>,
)
    ensures
        st.visit_method_call(receiver, method, inner) == follow(
            st,
            outcome_method_call(
                receiver,
                method,
                inner,
                st.current_file,
                inside(st),
                st.current_parent,
            ),
        ),
    decreases inner, 1nat,
{
    if !inside(st) {
        lemma_follow_nothing(st, st.current_parent);
    } else {
        let target = method_target(receiver, method, st.current_parent);
        lemma_follow_record(st, target);
        lemma_visit_all_outcome(st.record(target), inner@, inner@.len());
        lemma_follow_twice(
            st,
            Outcome { own: seq![target], parent: st.current_parent, filed: Seq::empty() },
            outcome_all(inner@, inner@.len(), st.current_file, true, st.current_parent),
        );
    }
}

/// The walk of any node comes to its outcome.
pub proof fn lemma_visit_outcome(st: VisitorView, node: Syntax)
    ensures
        st.visit(node) == follow(
            st,
            outcome(node, st.current_file, inside(st), st.current_parent),
        ),
    decreases node, 0nat,
{
    match node {
        Syntax::Function { name, inner } => lemma_function_outcome(st, name@, inner),
        Syntax::Impl { self_ty, inner } => lemma_impl_outcome(st, self_ty@, inner),
        Syntax::Call { func, segment, inner } => lemma_call_outcome(
            st,
            func@,
            opt_view(segment),
            inner,
        ),
        Syntax::MethodCall { receiver, method, inner } => lemma_method_call_outcome(
            st,
            receiver@,
            method@,
            inner,
        ),
    }
}

/// The walk of nodes in a row comes to their outcome.
pub proof fn lemma_visit_all_outcome(st: VisitorView, nodes: Seq<Syntax>, k: nat)
    requires
        k <= nodes.len(),
    ensures
        st.visit_all(nodes, k) == follow(
            st,
            outcome_all(nodes, k, st.current_file, inside(st), st.current_parent),
        ),
    decreases nodes, k,
{
    if k == 0 {
        lemma_follow_nothing(st, st.current_parent);
    } else {
        lemma_visit_all_outcome(st, nodes, (k - 1) as nat);
        let before = outcome_all(nodes, (k - 1) as nat, st.current_file, inside(st), st.current_parent);
        let mid = st.visit_all(nodes, (k - 1) as nat);
        lemma_visit_outcome(mid, nodes[k - 1]);
        lemma_follow_twice(
            st,
            before,
            outcome(nodes[k - 1], st.current_file, inside(st), before.parent),
        );
    }
}

/// What following an outcome does to the call list of the innermost
/// function: the list is extended by the targets of the outcome, so that
/// what it held stays in place at its beginning, every target of the
/// outcome is in it, and a list without repeats has none afterwards.
pub proof fn lemma_follow_calls(st: VisitorView, o: Outcome)
    requires
        inside(st),
    ensures
        inside(follow(st, o)),
        follow(st, o).in_progress.len() == st.in_progress.len(),
        follow(st, o).in_progress.last().calls == extend(st.in_progress.last().calls, o.own),
        st.in_progress.last().calls.is_prefix_of(follow(st, o).in_progress.last().calls),
        forall|i: int|
            0 <= i < o.own.len() ==> follow(st, o).in_progress.last().calls.contains(
                #[trigger] o.own[i],
            ),
        st.in_progress.last().calls.no_duplicates() ==> follow(
            st,
            o,
        ).in_progress.last().calls.no_duplicates(),
{
    let calls = st.in_progress.last().calls;
    lemma_extend_prefix(calls, o.own);
    if calls.no_duplicates() {
        lemma_extend_no_duplicates(calls, o.own);
    }
    assert forall|i: int| 0 <= i < o.own.len() implies extend(calls, o.own).contains(
        #[trigger] o.own[i],
    ) by {
        lemma_extend_contains(calls, o.own, o.own[i]);
    }
}

/// The outcome of the first `k` of `files`, one after the other, each
/// walked from outside any function.
pub open spec fn report(files: Seq<SourceFile>, k: nat) -> Outcome
    decreases k,
{
    if k == 0 || k > files.len() {
        nothing(None)
    } else {
        let before = report(files, (k - 1) as nat);
        let file = files[k - 1];
        and_then(
            before,
            outcome_all(file.items@, file.items@.len(), file.name@, false, before.parent),
        )
    }
}

/// The walk of files files the records of their outcome, and leaves no
/// record in progress.
pub proof fn lemma_scan_report(files: Seq<SourceFile>, k: nat)
    requires
        k <= files.len(),
    ensures
        scan(files, k).functions == report(files, k).filed,
        scan(files, k).current_parent == report(files, k).parent,
        scan(files, k).in_progress.len() == 0,
    decreases k,
{
    if k > 0 {
        lemma_scan_report(files, (k - 1) as nat);
        let file = files[k - 1];
        let before = scan(files, (k - 1) as nat).open_file(file.name@);
        lemma_visit_all_outcome(before, file.items@, file.items@.len());
        assert(scan(files, k).functions =~= report(files, k).filed);
    } else {
        assert(scan(files, k).functions =~= report(files, k).filed);
    }
}

} // verus!
