//! The builder of the call graph: a walk over syntax trees that keeps one
//! record per function and fills it with the targets of the calls inside.

use vstd::prelude::*;
use crate::record::{records, FnDef, FnDefView};
use crate::resolve::{
    call_target, capitalized, full_name, is_capitalized, is_self, method_target, qualify,
    resolve_call, resolve_method_call, self_receiver, squeeze,
};
use crate::syntax::{SourceFile, Syntax};
use crate::targets::{
    follow, inside, lemma_call_outcome, lemma_follow_calls, lemma_function_outcome,
    lemma_impl_outcome, lemma_method_call_outcome, lemma_scan_report, lemma_visit_all_outcome,
    lemma_visit_outcome, outcome, outcome_all, outcome_call, outcome_function, outcome_impl,
    outcome_method_call, report,
};
use crate::text::{contains_text, opt_view, texts};

verus! {

/// The state of a walk: the finished records, and where the walk stands.
pub struct CallsVisitor {
    functions: Vec<FnDef>,
    current_file: String,
    current_parent: Option<String>,
    in_progress: Vec<FnDef>,
}

/// The state of a walk as plain values.
pub struct VisitorView {
    /// The records of the functions that were left, in that order.
    pub functions: Seq<FnDefView>,
    /// The name of the file that is walked.
    pub current_file: Seq<char>,
    /// The type of the implementation block that was entered last, until it is left.
    pub current_parent: Option<Seq<char>>,
    /// The records of the functions that were entered and not left yet, the
    /// innermost last.
    pub in_progress: Seq<FnDefView>,
}

/// What of the state decides whether a walk can go on.
#[derive(Clone, Copy, Debug)]
pub struct Context {
    /// A record is in progress.
    pub in_function: bool,
    /// An enclosing type is set.
    pub in_impl: bool,
}

/// Why a walk cannot go on.
#[derive(Clone, Copy, Debug)]
pub enum Fault {
    /// A method call on the self reference where no enclosing type is set.
    SelfWithoutType,
}

impl VisitorView {
    /// The state before anything was walked.
    pub open spec fn initial() -> VisitorView {
        VisitorView {
            functions: Seq::empty(),
            current_file: Seq::empty(),
            current_parent: None,
            in_progress: Seq::empty(),
        }
    }

    pub open spec fn context(self) -> Context {
        Context { in_function: self.in_progress.len() > 0, in_impl: self.current_parent is Some }
    }

    /// The record that calls are added to: that of the innermost function.
    pub open spec fn current_function(self) -> Option<FnDefView> {
        if self.in_progress.len() > 0 {
            Some(self.in_progress.last())
        } else {
            None
        }
    }

    /// Entering a file.
    pub open spec fn open_file(self, name: Seq<char>) -> VisitorView {
        VisitorView { current_file: name, ..self }
    }

    /// Entering the function `name`: a fresh record is begun, inside the
    /// ones in progress.
    pub open spec fn start(self, name: Seq<char>) -> VisitorView {
        VisitorView {
            in_progress: self.in_progress.push(
                FnDefView {
                    file: self.current_file,
                    parent: self.current_parent,
                    name: full_name(self.current_parent, name),
                    calls: Seq::empty(),
                },
            ),
            ..self
        }
    }

    /// Leaving a function: its record joins the finished ones.
    pub open spec fn finish(self) -> VisitorView {
        VisitorView {
            functions: self.functions.push(self.in_progress.last()),
            in_progress: self.in_progress.drop_last(),
            ..self
        }
    }

    /// Entering an implementation block of `self_ty`.
    pub open spec fn enter(self, self_ty: Seq<char>) -> VisitorView {
        VisitorView { current_parent: Some(self_ty), ..self }
    }

    /// Leaving an implementation block.
    pub open spec fn leave(self) -> VisitorView {
        VisitorView { current_parent: None, ..self }
    }

    /// Adding `target` to the record of the innermost function, unless it is
    /// there already.
    pub open spec fn record(self, target: Seq<char>) -> VisitorView {
        if self.in_progress.len() > 0 && !self.in_progress.last().calls.contains(target) {
            let def = self.in_progress.last();
            VisitorView {
                in_progress: self.in_progress.drop_last().push(
                    FnDefView { calls: def.calls.push(target), ..def },
                ),
                ..self
            }
        } else {
            self
        }
    }

    /// The state after the walk of a function item.
    pub open spec fn visit_function(self, name: Seq<char>, inner: Vec<Syntax>) -> VisitorView
        decreases inner, 1nat,
    {
        self.start(name).visit_all(inner@, inner@.len()).finish()
    }

    /// The state after the walk of an implementation block.
    pub open spec fn visit_impl(self, self_ty: Seq<char>, inner: Vec<Syntax>) -> VisitorView
        decreases inner, 1nat,
    {
        self.enter(self_ty).visit_all(inner@, inner@.len()).leave()
    }

    /// The state after the walk of a plain call. Outside a function, and
    /// where the final path segment of the callee is capitalized, the call is
    /// passed over with all that is inside it.
    pub open spec fn visit_call(
        self,
        func: Seq<char>,
        segment: Option<Seq<char>>,
        inner: Vec<Syntax>,
    ) -> VisitorView
        decreases inner, 1nat,
    {
        if self.in_progress.len() == 0 {
            self
        } else {
            match call_target(func, segment) {
                Some(target) => self.record(target).visit_all(inner@, inner@.len()),
                None => self,
            }
        }
    }

    /// The state after the walk of a method call. Outside a function the call
    /// is passed over with all that is inside it.
    pub open spec fn visit_method_call(
        self,
        receiver: Seq<char>,
        method: Seq<char>,
        inner: Vec<Syntax>,
    ) -> VisitorView
        decreases inner, 1nat,
    {
        if self.in_progress.len() == 0 {
            self
        } else {
            self.record(method_target(receiver, method, self.current_parent)).visit_all(
                inner@,
                inner@.len(),
            )
        }
    }

    /// The state after the walk of `node`.
    pub open spec fn visit(self, node: Syntax) -> VisitorView
        decreases node, 0nat,
    {
        match node {
            Syntax::Function { name, inner } => self.visit_function(name@, inner),
            Syntax::Impl { self_ty, inner } => self.visit_impl(self_ty@, inner),
            Syntax::Call { func, segment, inner } => self.visit_call(
                func@,
                opt_view(segment),
                inner,
            ),
            Syntax::MethodCall { receiver, method, inner } => self.visit_method_call(
                receiver@,
                method@,
                inner,
            ),
        }
    }

    /// The state after the walk of the first `k` of `nodes`, in order.
    pub open spec fn visit_all(self, nodes: Seq<Syntax>, k: nat) -> VisitorView
        decreases nodes, k,
    {
        if k == 0 || k > nodes.len() {
            self
        } else {
            self.visit_all(nodes, (k - 1) as nat).visit(nodes[k - 1])
        }
    }

    /// The state after the walk of a file.
    pub open spec fn visit_file(self, file: SourceFile) -> VisitorView {
        self.open_file(file.name@).visit_all(file.items@, file.items@.len())
    }

    /// No record, finished or in progress, holds a target twice.
    pub open spec fn wf(self) -> bool {
        &&& forall|i: int| 0 <= i < self.functions.len() ==> (#[trigger] self.functions[i]).wf()
        &&& forall|i: int|
            0 <= i < self.in_progress.len() ==> (#[trigger] self.in_progress[i]).wf()
    }
}

/// The context after a dry walk of a function item that begins in `at`, or
/// the first fault on the way.
pub open spec fn survey_function(inner: Vec<Syntax>, at: Context) -> Result<Context, Fault>
    decreases inner, 1nat,
{
    match survey_all(inner@, inner@.len(), Context { in_function: true, in_impl: at.in_impl }) {
        Ok(end) => Ok(Context { in_function: at.in_function, in_impl: end.in_impl }),
        Err(fault) => Err(fault),
    }
}

/// The context after a dry walk of an implementation block, or the first fault.
pub open spec fn survey_impl(inner: Vec<Syntax>, at: Context) -> Result<Context, Fault>
    decreases inner, 1nat,
{
    match survey_all(inner@, inner@.len(), Context { in_function: at.in_function, in_impl: true }) {
        Ok(end) => Ok(Context { in_function: end.in_function, in_impl: false }),
        Err(fault) => Err(fault),
    }
}

/// The context after a dry walk of a plain call, or the first fault.
pub open spec fn survey_call(segment: Option<Seq<char>>, inner: Vec<Syntax>, at: Context) -> Result<
    Context,
    Fault,
>
    decreases inner, 1nat,
{
    if !at.in_function || capitalized(segment) {
        Ok(at)
    } else {
        survey_all(inner@, inner@.len(), at)
    }
}

/// The context after a dry walk of a method call, or the first fault.
pub open spec fn survey_method_call(receiver: Seq<char>, inner: Vec<Syntax>, at: Context) -> Result<
    Context,
    Fault,
>
    decreases inner, 1nat,
{
    if !at.in_function {
        Ok(at)
    } else if receiver == self_receiver() && !at.in_impl {
        Err(Fault::SelfWithoutType)
    } else {
        survey_all(inner@, inner@.len(), at)
    }
}

/// The context after a dry walk of `node` that begins in `at`, or the first
/// fault on the way. A walk can be made exactly where this finds no fault.
pub open spec fn survey(node: Syntax, at: Context) -> Result<Context, Fault>
    decreases node, 0nat,
{
    match node {
        Syntax::Function { name, inner } => survey_function(inner, at),
        Syntax::Impl { self_ty, inner } => survey_impl(inner, at),
        Syntax::Call { func, segment, inner } => survey_call(opt_view(segment), inner, at),
        Syntax::MethodCall { receiver, method, inner } => survey_method_call(receiver@, inner, at),
    }
}

/// The context after a dry walk of the first `k` of `nodes`, or the first fault.
pub open spec fn survey_all(nodes: Seq<Syntax>, k: nat, at: Context) -> Result<Context, Fault>
    decreases nodes, k,
{
    if k == 0 || k > nodes.len() {
        Ok(at)
    } else {
        match survey_all(nodes, (k - 1) as nat, at) {
            Ok(mid) => survey(nodes[k - 1], mid),
            Err(fault) => Err(fault),
        }
    }
}

/// A dry walk that finds no fault found none in any part of the way.
pub proof fn lemma_survey_prefix(nodes: Seq<Syntax>, k: nat, n: nat, at: Context)
    requires
        k <= n <= nodes.len(),
        survey_all(nodes, n, at) is Ok,
    ensures
        survey_all(nodes, k, at) is Ok,
    decreases n - k,
{
    if k < n {
        lemma_survey_prefix(nodes, k, (n - 1) as nat, at);
    }
}

/// A dry walk that met a fault ends with that fault, however far it goes.
pub proof fn lemma_survey_fault(nodes: Seq<Syntax>, k: nat, n: nat, at: Context)
    requires
        k <= n <= nodes.len(),
        survey_all(nodes, k, at) is Err,
    ensures
        survey_all(nodes, n, at) == survey_all(nodes, k, at),
    decreases n - k,
{
    if k < n {
        lemma_survey_fault(nodes, k, (n - 1) as nat, at);
    }
}

/// Copies an optional string.
fn clone_opt(s: &Option<String>) -> (copy: Option<String>)
    ensures
        opt_view(copy) == opt_view(*s),
{
    match s {
        Some(t) => Some(t.clone()),
        None => None,
    }
}

impl View for CallsVisitor {
    type V = VisitorView;

    closed spec fn view(&self) -> VisitorView {
        VisitorView {
            functions: records(self.functions@),
            current_file: self.current_file@,
            current_parent: opt_view(self.current_parent),
            in_progress: records(self.in_progress@),
        }
    }
}

impl CallsVisitor {
    /// A visitor that has walked nothing.
    pub fn new() -> (visitor: Self)
        ensures
            visitor@ == VisitorView::initial(),
    {
        let visitor = Self {
            functions: Vec::new(),
            current_file: String::new(),
            current_parent: None,
            in_progress: Vec::new(),
        };
        assert(records(visitor.functions@) =~= Seq::empty());
        assert(records(visitor.in_progress@) =~= Seq::empty());
        visitor
    }

    /// The context in which the walk stands.
    pub fn context(&self) -> (at: Context)
        ensures
            at == self@.context(),
    {
        Context { in_function: self.in_progress.len() > 0, in_impl: self.current_parent.is_some() }
    }

    /// Begins the record of the function `name`.
    pub fn start_new_fndef(&mut self, name: String)
        ensures
            final(self)@ == old(self)@.start(name@),
    {
        let full_name = match &self.current_parent {
            Some(parent) => qualify(parent.as_str(), name.as_str()),
            None => name,
        };
        let def = FnDef::new(self.current_file.clone(), clone_opt(&self.current_parent), full_name);
        self.in_progress.push(def);
        assert(records(self.in_progress@) =~= records(old(self).in_progress@).push(def@));
    }

    /// Ends the record of the innermost function and files it.
    pub fn push_current_function(&mut self)
        requires
            old(self)@.in_progress.len() > 0,
        ensures
            final(self)@ == old(self)@.finish(),
    {
        let def = self.in_progress.pop().unwrap();
        assert(records(self.in_progress@) =~= records(old(self).in_progress@).drop_last());
        self.functions.push(def);
        assert(records(self.functions@) =~= records(old(self).functions@).push(def@));
    }

    /// Adds `target` to the record of the innermost function, unless it is
    /// there already.
    pub fn record(&mut self, target: String)
        ensures
            final(self)@ == old(self)@.record(target@),
    {
        match self.in_progress.pop() {
            Some(mut def) => {
                assert(records(self.in_progress@) =~= records(old(self).in_progress@).drop_last());
                assert(records(old(self).in_progress@).last() == def@);
                if !contains_text(&def.calls, target.as_str()) {
                    let ghost before = def.calls@;
                    def.calls.push(target);
                    assert(texts(def.calls@) =~= texts(before).push(target@));
                }
                let ghost below = self.in_progress@;
                self.in_progress.push(def);
                assert(records(self.in_progress@) =~= records(below).push(def@));
                assert(records(old(self).in_progress@).drop_last().push(
                    records(old(self).in_progress@).last(),
                ) =~= records(old(self).in_progress@));
            },
            None => {},
        }
    }

    /// Walks a function item: its record is begun, filled from the calls
    /// inside and filed.
    pub fn visit_item_fn(&mut self, name: &String, inner: &Vec<Syntax>)
        requires
            survey_function(*inner, old(self)@.context()) is Ok,
        ensures
            final(self)@ == old(self)@.visit_function(name@, *inner),
            final(self)@ == follow(
                old(self)@,
                outcome_function(name@, *inner, old(self)@.current_file, old(self)@.current_parent),
            ),
            survey_function(*inner, old(self)@.context()) == Ok::<Context, Fault>(
                final(self)@.context(),
            ),
            final(self)@.in_progress.len() == old(self)@.in_progress.len(),
        decreases inner, 1nat,
    {
        self.start_new_fndef(name.clone());
        self.visit_all(inner);
        self.push_current_function();
        proof {
            lemma_function_outcome(old(self)@, name@, *inner);
        }
    }

    /// Walks an implementation block: its type is the enclosing type of what
    /// is inside.
    pub fn visit_item_impl(&mut self, self_ty: &String, inner: &Vec<Syntax>)
        requires
            survey_impl(*inner, old(self)@.context()) is Ok,
        ensures
            final(self)@ == old(self)@.visit_impl(self_ty@, *inner),
            final(self)@ == follow(
                old(self)@,
                outcome_impl(self_ty@, *inner, old(self)@.current_file, inside(old(self)@)),
            ),
            survey_impl(*inner, old(self)@.context()) == Ok::<Context, Fault>(
                final(self)@.context(),
            ),
            final(self)@.in_progress.len() == old(self)@.in_progress.len(),
        decreases inner, 1nat,
    {
        self.current_parent = Some(self_ty.clone());
        self.visit_all(inner);
        self.current_parent = None;
        proof {
            lemma_impl_outcome(old(self)@, self_ty@, *inner);
        }
    }

    /// Walks a plain call: its target is recorded, then the calls inside it.
    /// A call whose final path segment is capitalized changes nothing.
    pub fn visit_expr_call(&mut self, func: &String, segment: &Option<String>, inner: &Vec<Syntax>)
        requires
            survey_call(opt_view(*segment), *inner, old(self)@.context()) is Ok,
        ensures
            final(self)@ == old(self)@.visit_call(func@, opt_view(*segment), *inner),
            final(self)@ == follow(
                old(self)@,
                outcome_call(
                    func@,
                    opt_view(*segment),
                    *inner,
                    old(self)@.current_file,
                    inside(old(self)@),
                    old(self)@.current_parent,
                ),
            ),
            capitalized(opt_view(*segment)) ==> final(self)@ == old(self)@,
            inside(old(self)@) ==> old(self)@.in_progress.last().calls.is_prefix_of(
                final(self)@.in_progress.last().calls,
            ),
            inside(old(self)@) && !capitalized(opt_view(*segment)) ==> final(self)@.in_progress.last().calls.contains(squeeze(func@)),
            inside(old(self)@) && old(self)@.in_progress.last().calls.no_duplicates() ==> final(self)@.in_progress.last().calls.no_duplicates(),
            survey_call(opt_view(*segment), *inner, old(self)@.context()) == Ok::<Context, Fault>(
                final(self)@.context(),
            ),
            final(self)@.in_progress.len() == old(self)@.in_progress.len(),
        decreases inner, 1nat,
    {
        if self.in_progress.len() > 0 {
            match resolve_call(func.as_str(), segment) {
                Some(target) => {
                    self.record(target);
                    self.visit_all(inner);
                },
                None => {},
            }
        }
        proof {
            let o = outcome_call(
                func@,
                opt_view(*segment),
                *inner,
                old(self)@.current_file,
                inside(old(self)@),
                old(self)@.current_parent,
            );
            lemma_call_outcome(old(self)@, func@, opt_view(*segment), *inner);
            if inside(old(self)@) {
                lemma_follow_calls(old(self)@, o);
                if !capitalized(opt_view(*segment)) {
                    assert(o.own[0] == squeeze(func@));
                }
            }
        }
    }

    /// Walks a method call: its target is recorded, then the calls inside it.
    pub fn visit_expr_method_call(&mut self, receiver: &String, method: &String, inner: &Vec<Syntax>)
        requires
            survey_method_call(receiver@, *inner, old(self)@.context()) is Ok,
        ensures
            final(self)@ == old(self)@.visit_method_call(receiver@, method@, *inner),
            final(self)@ == follow(
                old(self)@,
                outcome_method_call(
                    receiver@,
                    method@,
                    *inner,
                    old(self)@.current_file,
                    inside(old(self)@),
                    old(self)@.current_parent,
                ),
            ),
            inside(old(self)@) ==> old(self)@.in_progress.last().calls.is_prefix_of(
                final(self)@.in_progress.last().calls,
            ),
            inside(old(self)@) ==> final(self)@.in_progress.last().calls.contains(
                method_target(receiver@, method@, old(self)@.current_parent),
            ),
            inside(old(self)@) && old(self)@.in_progress.last().calls.no_duplicates() ==> final(self)@.in_progress.last().calls.no_duplicates(),
            survey_method_call(receiver@, *inner, old(self)@.context()) == Ok::<Context, Fault>(
                final(self)@.context(),
            ),
            final(self)@.in_progress.len() == old(self)@.in_progress.len(),
        decreases inner, 1nat,
    {
        if self.in_progress.len() > 0 {
            let target = resolve_method_call(
                receiver.as_str(),
                method.as_str(),
                &self.current_parent,
            );
            self.record(target);
            self.visit_all(inner);
        }
        proof {
            let o = outcome_method_call(
                receiver@,
                method@,
                *inner,
                old(self)@.current_file,
                inside(old(self)@),
                old(self)@.current_parent,
            );
            lemma_method_call_outcome(old(self)@, receiver@, method@, *inner);
            if inside(old(self)@) {
                lemma_follow_calls(old(self)@, o);
                assert(o.own[0] == method_target(receiver@, method@, old(self)@.current_parent));
            }
        }
    }

    /// Walks `node`.
    pub fn visit(&mut self, node: &Syntax)
        requires
            survey(*node, old(self)@.context()) is Ok,
        ensures
            final(self)@ == old(self)@.visit(*node),
            final(self)@ == follow(
                old(self)@,
                outcome(
                    *node,
                    old(self)@.current_file,
                    inside(old(self)@),
                    old(self)@.current_parent,
                ),
            ),
            survey(*node, old(self)@.context()) == Ok::<Context, Fault>(final(self)@.context()),
            final(self)@.in_progress.len() == old(self)@.in_progress.len(),
        decreases node, 0nat,
    {
        match node {
            Syntax::Function { name, inner } => self.visit_item_fn(name, inner),
            Syntax::Impl { self_ty, inner } => self.visit_item_impl(self_ty, inner),
            Syntax::Call { func, segment, inner } => self.visit_expr_call(func, segment, inner),
            Syntax::MethodCall { receiver, method, inner } => self.visit_expr_method_call(
                receiver,
                method,
                inner,
            ),
        }
        proof {
            lemma_visit_outcome(old(self)@, *node);
        }
    }

    /// Walks `nodes` in order.
    pub fn visit_all(&mut self, nodes: &Vec<Syntax>)
        requires
            survey_all(nodes@, nodes@.len(), old(self)@.context()) is Ok,
        ensures
            final(self)@ == old(self)@.visit_all(nodes@, nodes@.len()),
            final(self)@ == follow(
                old(self)@,
                outcome_all(
                    nodes@,
                    nodes@.len(),
                    old(self)@.current_file,
                    inside(old(self)@),
                    old(self)@.current_parent,
                ),
            ),
            survey_all(nodes@, nodes@.len(), old(self)@.context()) == Ok::<Context, Fault>(
                final(self)@.context(),
            ),
            final(self)@.in_progress.len() == old(self)@.in_progress.len(),
        decreases nodes, 0nat,
    {
        let ghost begin = self@;
        proof {
            lemma_visit_all_outcome(begin, nodes@, nodes@.len());
        }
        let mut i: usize = 0;
        while i < nodes.len()
            invariant
                i <= nodes.len(),
                survey_all(nodes@, nodes@.len(), begin.context()) is Ok,
                self@ == begin.visit_all(nodes@, i as nat),
                survey_all(nodes@, i as nat, begin.context()) == Ok::<Context, Fault>(
                    self@.context(),
                ),
                self@.in_progress.len() == begin.in_progress.len(),
            decreases nodes.len() - i,
        {
            proof {
                lemma_survey_prefix(nodes@, (i + 1) as nat, nodes@.len(), begin.context());
            }
            self.visit(&nodes[i]);
            i += 1;
        }
    }

    /// Walks a file: what it defines is recorded under its name.
    pub fn visit_file(&mut self, file: &SourceFile)
        requires
            survey_all(file.items@, file.items@.len(), old(self)@.context()) is Ok,
        ensures
            final(self)@ == old(self)@.visit_file(*file),
            final(self)@ == follow(
                old(self)@.open_file(file.name@),
                outcome_all(
                    file.items@,
                    file.items@.len(),
                    file.name@,
                    inside(old(self)@),
                    old(self)@.current_parent,
                ),
            ),
            survey_all(file.items@, file.items@.len(), old(self)@.context()) == Ok::<
                Context,
                Fault,
            >(final(self)@.context()),
            final(self)@.in_progress.len() == old(self)@.in_progress.len(),
    {
        self.current_file = file.name.clone();
        self.visit_all(&file.items);
    }

    /// Walks a file where a walk can be made, and else tells the first fault
    /// and leaves the state as it is.
    pub fn try_visit_file(&mut self, file: &SourceFile) -> (outcome: Result<(), Fault>)
        ensures
            match outcome {
                Ok(_) => {
                    &&& survey_all(file.items@, file.items@.len(), old(self)@.context()) is Ok
                    &&& final(self)@ == old(self)@.visit_file(*file)
                },
                Err(fault) => {
                    &&& survey_all(file.items@, file.items@.len(), old(self)@.context()) == Err::<
                        Context,
                        Fault,
                    >(fault)
                    &&& final(self)@ == old(self)@
                },
            },
    {
        match check_all(&file.items, self.context()) {
            Ok(_) => {
                self.visit_file(file);
                Ok(())
            },
            Err(fault) => Err(fault),
        }
    }

    /// The finished records, in the order in which their functions were left.
    pub fn into_functions(self) -> (funcs: Vec<FnDef>)
        ensures
            records(funcs@) == self@.functions,
    {
        self.functions
    }
}

/// Walks `node` dry: only the context is followed, and nothing is recorded.
pub fn check(node: &Syntax, at: Context) -> (end: Result<Context, Fault>)
    ensures
        end == survey(*node, at),
    decreases node, 0nat,
{
    match node {
        Syntax::Function { name, inner } => {
            match check_all(inner, Context { in_function: true, in_impl: at.in_impl }) {
                Ok(end) => Ok(Context { in_function: at.in_function, in_impl: end.in_impl }),
                Err(fault) => Err(fault),
            }
        },
        Syntax::Impl { self_ty, inner } => {
            match check_all(inner, Context { in_function: at.in_function, in_impl: true }) {
                Ok(end) => Ok(Context { in_function: end.in_function, in_impl: false }),
                Err(fault) => Err(fault),
            }
        },
        Syntax::Call { func, segment, inner } => {
            if !at.in_function || is_capitalized(segment) {
                Ok(at)
            } else {
                check_all(inner, at)
            }
        },
        Syntax::MethodCall { receiver, method, inner } => {
            if !at.in_function {
                Ok(at)
            } else if is_self(receiver.as_str()) && !at.in_impl {
                Err(Fault::SelfWithoutType)
            } else {
                check_all(inner, at)
            }
        },
    }
}

/// Walks `nodes` dry, in order, up to the first fault.
pub fn check_all(nodes: &Vec<Syntax>, at: Context) -> (end: Result<Context, Fault>)
    ensures
        end == survey_all(nodes@, nodes@.len(), at),
    decreases nodes, 1nat,
{
    let mut now = at;
    let mut i: usize = 0;
    while i < nodes.len()
        invariant
            i <= nodes.len(),
            survey_all(nodes@, i as nat, at) == Ok::<Context, Fault>(now),
        decreases nodes.len() - i,
    {
        match check(&nodes[i], now) {
            Ok(next) => {
                now = next;
            },
            Err(fault) => {
                proof {
                    lemma_survey_fault(nodes@, (i + 1) as nat, nodes@.len(), at);
                }
                return Err(fault);
            },
        }
        i += 1;
    }
    Ok(now)
}

/// The state after the walk of the first `k` of `files`, one after the
/// other, by a visitor that had walked nothing before.
pub open spec fn scan(files: Seq<SourceFile>, k: nat) -> VisitorView
    decreases k,
{
    if k == 0 || k > files.len() {
        VisitorView::initial()
    } else {
        scan(files, (k - 1) as nat).visit_file(files[k - 1])
    }
}

/// The context after a dry walk of the first `k` of `files`, or the first fault.
pub open spec fn survey_files(files: Seq<SourceFile>, k: nat) -> Result<Context, Fault>
    decreases k,
{
    if k == 0 || k > files.len() {
        Ok(VisitorView::initial().context())
    } else {
        match survey_files(files, (k - 1) as nat) {
            Ok(mid) => survey_all(files[k - 1].items@, files[k - 1].items@.len(), mid),
            Err(fault) => Err(fault),
        }
    }
}

/// A dry walk of files that finds no fault found none in any part of the way.
pub proof fn lemma_survey_files_prefix(files: Seq<SourceFile>, k: nat, n: nat)
    requires
        k <= n <= files.len(),
        survey_files(files, n) is Ok,
    ensures
        survey_files(files, k) is Ok,
    decreases n - k,
{
    if k < n {
        lemma_survey_files_prefix(files, k, (n - 1) as nat);
    }
}

/// A dry walk of files that met a fault ends with that fault.
pub proof fn lemma_survey_files_fault(files: Seq<SourceFile>, k: nat, n: nat)
    requires
        k <= n <= files.len(),
        survey_files(files, k) is Err,
    ensures
        survey_files(files, n) == survey_files(files, k),
    decreases n - k,
{
    if k < n {
        lemma_survey_files_fault(files, k, (n - 1) as nat);
    }
}

/// Walks `files` dry, one after the other, up to the first fault.
pub fn check_files(files: &Vec<SourceFile>) -> (end: Result<Context, Fault>)
    ensures
        end == survey_files(files@, files@.len()),
{
    let mut now = Context { in_function: false, in_impl: false };
    let mut i: usize = 0;
    while i < files.len()
        invariant
            i <= files.len(),
            survey_files(files@, i as nat) == Ok::<Context, Fault>(now),
        decreases files.len() - i,
    {
        match check_all(&files[i].items, now) {
            Ok(next) => {
                now = next;
            },
            Err(fault) => {
                proof {
                    lemma_survey_files_fault(files@, (i + 1) as nat, files@.len());
                }
                return Err(fault);
            },
        }
        i += 1;
    }
    Ok(now)
}

/// Recording a target keeps every record free of repeats.
pub proof fn lemma_record_wf(st: VisitorView, target: Seq<char>)
    requires
        st.wf(),
    ensures
        st.record(target).wf(),
        st.record(target).in_progress.len() == st.in_progress.len(),
{
    let next = st.record(target);
    assert forall|i: int| 0 <= i < next.in_progress.len() implies (#[trigger] next.in_progress[i]).wf() by {
        if i < st.in_progress.len() - 1 {
            assert(next.in_progress[i] == st.in_progress[i]);
        } else {
            assert(st.in_progress[i].wf());
        }
    }
}

/// A walk of `node` keeps every record free of repeats, and leaves as many
/// records in progress as it found.
pub proof fn lemma_visit_wf(st: VisitorView, node: Syntax)
    requires
        st.wf(),
    ensures
        st.visit(node).wf(),
        st.visit(node).in_progress.len() == st.in_progress.len(),
    decreases node, 0nat,
{
    match node {
        Syntax::Function { name, inner } => {
            let begun = st.start(name@);
            assert forall|i: int| 0 <= i < begun.in_progress.len() implies (
            #[trigger] begun.in_progress[i]).wf() by {
                if i < st.in_progress.len() {
                    assert(begun.in_progress[i] == st.in_progress[i]);
                }
            }
            lemma_visit_all_wf(begun, inner@, inner@.len());
            let filled = begun.visit_all(inner@, inner@.len());
            let ended = filled.finish();
            assert forall|i: int| 0 <= i < ended.functions.len() implies (
            #[trigger] ended.functions[i]).wf() by {
                if i < filled.functions.len() {
                    assert(ended.functions[i] == filled.functions[i]);
                } else {
                    assert(filled.in_progress[filled.in_progress.len() - 1].wf());
                }
            }
            assert forall|i: int| 0 <= i < ended.in_progress.len() implies (
            #[trigger] ended.in_progress[i]).wf() by {
                assert(ended.in_progress[i] == filled.in_progress[i]);
            }
        },
        Syntax::Impl { self_ty, inner } => {
            lemma_visit_all_wf(st.enter(self_ty@), inner@, inner@.len());
        },
        Syntax::Call { func, segment, inner } => {
            if st.in_progress.len() > 0 {
                match call_target(func@, opt_view(segment)) {
                    Some(target) => {
                        lemma_record_wf(st, target);
                        lemma_visit_all_wf(st.record(target), inner@, inner@.len());
                    },
                    None => {},
                }
            }
        },
        Syntax::MethodCall { receiver, method, inner } => {
            if st.in_progress.len() > 0 {
                let target = method_target(receiver@, method@, st.current_parent);
                lemma_record_wf(st, target);
                lemma_visit_all_wf(st.record(target), inner@, inner@.len());
            }
        },
    }
}

/// A walk of the first `k` of `nodes` keeps every record free of repeats,
/// and leaves as many records in progress as it found.
pub proof fn lemma_visit_all_wf(st: VisitorView, nodes: Seq<Syntax>, k: nat)
    requires
        k <= nodes.len(),
        st.wf(),
    ensures
        st.visit_all(nodes, k).wf(),
        st.visit_all(nodes, k).in_progress.len() == st.in_progress.len(),
    decreases nodes, k,
{
    if k > 0 {
        lemma_visit_all_wf(st, nodes, (k - 1) as nat);
        lemma_visit_wf(st.visit_all(nodes, (k - 1) as nat), nodes[k - 1]);
    }
}

/// The records of files hold no target twice, and none is left in progress.
pub proof fn lemma_scan_wf(files: Seq<SourceFile>, k: nat)
    requires
        k <= files.len(),
    ensures
        scan(files, k).wf(),
        scan(files, k).in_progress.len() == 0,
    decreases k,
{
    if k > 0 {
        lemma_scan_wf(files, (k - 1) as nat);
        let file = files[k - 1];
        lemma_visit_all_wf(
            scan(files, (k - 1) as nat).open_file(file.name@),
            file.items@,
            file.items@.len(),
        );
    }
}

/// Builds the call graph of `files`: one record for each function, in the
/// order in which the walk leaves them, file after file.
pub fn process_funcs(files: &Vec<SourceFile>) -> (funcs: Vec<FnDef>)
    requires
        survey_files(files@, files@.len()) is Ok,
    ensures
        records(funcs@) == scan(files@, files@.len()).functions,
        records(funcs@) == report(files@, files@.len()).filed,
        forall|i: int| 0 <= i < funcs@.len() ==> (#[trigger] funcs@[i])@.calls.no_duplicates(),
{
    proof {
        lemma_scan_wf(files@, files@.len());
        lemma_scan_report(files@, files@.len());
    }
    let mut visitor = CallsVisitor::new();
    let mut i: usize = 0;
    while i < files.len()
        invariant
            i <= files.len(),
            survey_files(files@, files@.len()) is Ok,
            visitor@ == scan(files@, i as nat),
            survey_files(files@, i as nat) == Ok::<Context, Fault>(visitor@.context()),
        decreases files.len() - i,
    {
        proof {
            lemma_survey_files_prefix(files@, (i + 1) as nat, files@.len());
        }
        visitor.visit_file(&files[i]);
        i += 1;
    }
    let funcs = visitor.into_functions();
    assert forall|i: int| 0 <= i < funcs@.len() implies (#[trigger] funcs@[i])@.calls.no_duplicates() by {
        assert(records(funcs@)[i] == funcs@[i]@);
        assert(scan(files@, files@.len()).functions[i].wf());
    }
    funcs
}

/// Builds the call graph of `files` where a walk can be made, and else tells
/// the first fault.
pub fn try_process_funcs(files: &Vec<SourceFile>) -> (outcome: Result<Vec<FnDef>, Fault>)
    ensures
        match outcome {
            Ok(funcs) => {
                &&& survey_files(files@, files@.len()) is Ok
                &&& records(funcs@) == scan(files@, files@.len()).functions
                &&& records(funcs@) == report(files@, files@.len()).filed
                &&& forall|i: int|
                    0 <= i < funcs@.len() ==> (#[trigger] funcs@[i])@.calls.no_duplicates()
            },
            Err(fault) => survey_files(files@, files@.len()) == Err::<Context, Fault>(fault),
        },
{
    match check_files(files) {
        Ok(_) => Ok(process_funcs(files)),
        Err(fault) => Err(fault),
    }
}

} // verus!
