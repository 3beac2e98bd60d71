//! Queries over the finished records: who calls a function, and what a
//! function calls, each to a given depth and shown as indented lines.

use vstd::prelude::*;
use crate::record::{records, FnDef, FnDefView};
use crate::text::{chars_of, clone_texts, contains_text, join, texts};

verus! {

/// Whether a separator begins at position `i` of `name`.
pub open spec fn separator_at(name: Seq<char>, i: int) -> bool {
    0 <= i && i + 1 < name.len() && name[i] == ':' && name[i + 1] == ':'
}

/// Whether `name` holds a separator, that is whether it is qualified.
pub open spec fn has_separator(name: Seq<char>) -> bool {
    exists|i: int| separator_at(name, i)
}

/// Whether the last separator of `name` begins at position `i`.
pub open spec fn last_separator_at(name: Seq<char>, i: int) -> bool {
    separator_at(name, i) && forall|j: int| i < j ==> !separator_at(name, j)
}

/// What follows the last separator of `name`; all of `name` where it has none.
pub open spec fn last_segment(name: Seq<char>) -> Seq<char> {
    if has_separator(name) {
        name.skip((choose|i: int| last_separator_at(name, i)) + 2)
    } else {
        name
    }
}

/// Whether the record named `name` answers the query `query`: a qualified
/// query asks for that very name, an unqualified one for the last segment.
pub open spec fn name_matches(query: Seq<char>, name: Seq<char>) -> bool {
    if has_separator(query) {
        query == name
    } else {
        query == last_segment(name)
    }
}

/// Finds where the last separator of `name` begins.
pub fn find_last_separator(name: &Vec<char>) -> (at: Option<usize>)
    ensures
        match at {
            Some(i) => last_separator_at(name@, i as int),
            None => !has_separator(name@),
        },
{
    let mut at: Option<usize> = None;
    if name.len() < 2 {
        return at;
    }
    let mut i: usize = 0;
    while i < name.len() - 1
        invariant
            2 <= name.len(),
            i <= name.len() - 1,
            match at {
                Some(k) => k < i && separator_at(name@, k as int) && forall|j: int|
                    k < j < i ==> !separator_at(name@, j),
                None => forall|j: int| j < i ==> !separator_at(name@, j),
            },
        decreases name.len() - i,
    {
        if name[i] == ':' && name[i + 1] == ':' {
            at = Some(i);
        }
        i += 1;
    }
    at
}

/// Whether `name` from position `start` on reads as `other`.
pub fn tail_equals(name: &Vec<char>, start: usize, other: &Vec<char>) -> (same: bool)
    requires
        start <= name.len(),
    ensures
        same == (name@.skip(start as int) == other@),
{
    if name.len() - start != other.len() {
        return false;
    }
    let mut i: usize = 0;
    while i < other.len()
        invariant
            i <= other.len(),
            start + other.len() == name.len(),
            forall|j: int| 0 <= j < i ==> name@[start + j] == other@[j],
        decreases other.len() - i,
    {
        if name[start + i] != other[i] {
            assert(name@.skip(start as int)[i as int] != other@[i as int]);
            return false;
        }
        i += 1;
    }
    assert(name@.skip(start as int) =~= other@);
    true
}

/// Whether the function named `full_function_name` is the one that
/// `specified_function` asks for.
pub fn call_matches(specified_function: &str, full_function_name: &str) -> (matches: bool)
    ensures
        matches == name_matches(specified_function@, full_function_name@),
{
    let query = chars_of(specified_function);
    let name = chars_of(full_function_name);
    assert(name@.skip(0) =~= name@);
    match (find_last_separator(&query), find_last_separator(&name)) {
        (Some(k), _) => {
            assert(separator_at(query@, k as int));
            tail_equals(&name, 0, &query)
        },
        (None, None) => tail_equals(&name, 0, &query),
        (None, Some(i)) => {
            assert(separator_at(name@, i as int));
            assert(last_separator_at(name@, i as int));
            let ghost chosen = choose|k: int| last_separator_at(name@, k);
            assert(last_separator_at(name@, chosen));
            assert(chosen == i);
            tail_equals(&name, i + 2, &query)
        },
    }
}

/// The indent of one level in a tree of callers.
pub open spec fn caller_indent() -> Seq<char> {
    seq![' ', ' ', ' ', ' ']
}

/// The lines that show the callers of `callee` among the first `k` of
/// `funcs`: each under `prefix`, in the order of the records, and where `n`
/// is more than one followed by its own callers to the depth `n - 1`, one
/// level further in.
pub open spec fn callers(
    callee: Seq<char>,
    n: nat,
    prefix: Seq<char>,
    funcs: Seq<FnDefView>,
    k: nat,
) -> Seq<Seq<char>>
    decreases n, k,
{
    if k == 0 || k > funcs.len() {
        Seq::empty()
    } else {
        let above = callers(callee, n, prefix, funcs, (k - 1) as nat);
        let func = funcs[k - 1];
        if !func.calls.contains(callee) {
            above
        } else if n > 1 {
            above.push(prefix + func.name) + callers(
                func.name,
                (n - 1) as nat,
                prefix + caller_indent(),
                funcs,
                funcs.len(),
            )
        } else {
            above.push(prefix + func.name)
        }
    }
}

/// Shows who calls `callee`, to the depth `n`: one line for each caller,
/// under `prefix`, and below it the callers of that caller.
pub fn print_callers(callee: &str, n: usize, prefix: &str, funcs: &Vec<FnDef>) -> (lines: Vec<
    String,
>)
    requires
        n >= 1,
    ensures
        texts(lines@) == callers(callee@, n as nat, prefix@, records(funcs@), funcs@.len()),
    decreases n,
{
    let mut lines: Vec<String> = Vec::new();
    let mut i: usize = 0;
    proof {
        reveal_strlit("    ");
        assert("    "@ =~= caller_indent());
    }
    assert(texts(lines@) =~= Seq::empty());
    while i < funcs.len()
        invariant
            i <= funcs.len(),
            n >= 1,
            "    "@ == caller_indent(),
            texts(lines@) == callers(callee@, n as nat, prefix@, records(funcs@), i as nat),
        decreases funcs.len() - i,
    {
        let func = &funcs[i];
        assert(records(funcs@)[i as int] == func@);
        if contains_text(&func.calls, callee) {
            let ghost above = lines@;
            lines.push(join(prefix, func.name.as_str()));
            assert(texts(lines@) =~= texts(above).push(prefix@ + func.name@));
            if n != 1 {
                let deeper = join(prefix, "    ");
                let mut below = print_callers(func.name.as_str(), n - 1, deeper.as_str(), funcs);
                let ghost shown = lines@;
                let ghost added = below@;
                lines.append(&mut below);
                assert(texts(lines@) =~= texts(shown) + texts(added));
            }
        }
        i += 1;
    }
    lines
}

/// A node in the tree of what a function calls.
pub enum Branch {
    /// A name that was asked for before on the way from the root: it is
    /// marked, and nothing stands below it.
    Repeat { name: Seq<char> },
    /// A name that no record answers: a function from elsewhere.
    Foreign { name: Seq<char> },
    /// A record that answers the name asked for, with what it calls below.
    Defined { query: Seq<char>, name: Seq<char>, below: Seq<Branch> },
}

/// The indent of one level in a tree of callees.
pub open spec fn callee_indent() -> Seq<char> {
    seq!['|', ' ', ' ', ' ']
}

/// The mark behind a name that repeats one of the names above it.
pub open spec fn cycle_mark() -> Seq<char> {
    seq![' ', '-', '^']
}

/// What stands in the tree for the name `caller`, asked for with `n` more
/// levels to go and the names in `visited` above it: nothing for an excluded
/// name; a marked entry for a name that is in `visited`; else one entry for
/// each record that answers the name, or one for the name itself where no
/// record does.
pub open spec fn callees(
    caller: Seq<char>,
    n: nat,
    funcs: Seq<FnDefView>,
    excludes: Seq<Seq<char>>,
    visited: Seq<Seq<char>>,
) -> Seq<Branch>
    decreases n, 2nat, 0nat,
{
    if excludes.contains(caller) {
        Seq::empty()
    } else if visited.contains(caller) {
        seq![Branch::Repeat { name: caller }]
    } else {
        let found = matching(caller, n, funcs, excludes, visited.push(caller), funcs.len());
        if found.len() == 0 {
            seq![Branch::Foreign { name: caller }]
        } else {
            found
        }
    }
}

/// One entry for each of the first `k` records that answers `caller`; where
/// `n` is more than zero its calls are expanded below it, with `n - 1` more
/// levels to go.
pub open spec fn matching(
    caller: Seq<char>,
    n: nat,
    funcs: Seq<FnDefView>,
    excludes: Seq<Seq<char>>,
    visited: Seq<Seq<char>>,
    k: nat,
) -> Seq<Branch>
    decreases n, 1nat, k,
{
    if k == 0 || k > funcs.len() {
        Seq::empty()
    } else {
        let above = matching(caller, n, funcs, excludes, visited, (k - 1) as nat);
        let func = funcs[k - 1];
        if !name_matches(caller, func.name) {
            above
        } else if n > 0 {
            above.push(
                Branch::Defined {
                    query: caller,
                    name: func.name,
                    below: expansion(
                        func.calls,
                        (n - 1) as nat,
                        funcs,
                        excludes,
                        visited,
                        func.calls.len(),
                    ),
                },
            )
        } else {
            above.push(Branch::Defined { query: caller, name: func.name, below: Seq::empty() })
        }
    }
}

/// What stands in the tree for the first `k` of `calls`, one after the other.
pub open spec fn expansion(
    calls: Seq<Seq<char>>,
    n: nat,
    funcs: Seq<FnDefView>,
    excludes: Seq<Seq<char>>,
    visited: Seq<Seq<char>>,
    k: nat,
) -> Seq<Branch>
    decreases n, 3nat, k,
{
    if k == 0 || k > calls.len() {
        Seq::empty()
    } else {
        expansion(calls, n, funcs, excludes, visited, (k - 1) as nat) + callees(
            calls[k - 1],
            n,
            funcs,
            excludes,
            visited,
        )
    }
}

/// The lines that show `branch` under `prefix`: its own line, then what
/// stands below it, one level further in.
pub open spec fn render(branch: Branch, prefix: Seq<char>) -> Seq<Seq<char>>
    decreases branch, 0nat,
{
    match branch {
        Branch::Repeat { name } => seq![prefix + name + cycle_mark()],
        Branch::Foreign { name } => seq![prefix + name],
        Branch::Defined { query, name, below } => seq![prefix + name] + render_all(
            below,
            prefix + callee_indent(),
            below.len(),
        ),
    }
}

/// The lines that show the first `k` of `branches` under `prefix`.
pub open spec fn render_all(branches: Seq<Branch>, prefix: Seq<char>, k: nat) -> Seq<Seq<char>>
    decreases branches, k,
{
    if k == 0 || k > branches.len() {
        Seq::empty()
    } else {
        render_all(branches, prefix, (k - 1) as nat) + render(branches[k - 1], prefix)
    }
}

/// The lines of the first branches are the same whatever follows them.
pub proof fn lemma_render_front(front: Seq<Branch>, back: Seq<Branch>, prefix: Seq<char>, k: nat)
    requires
        k <= front.len(),
    ensures
        render_all(front + back, prefix, k) == render_all(front, prefix, k),
    decreases k,
{
    if k > 0 {
        lemma_render_front(front, back, prefix, (k - 1) as nat);
    }
}

/// The lines of branches in a row are the lines of the first ones, then the
/// lines of the others.
pub proof fn lemma_render_concat(front: Seq<Branch>, back: Seq<Branch>, prefix: Seq<char>, k: nat)
    requires
        k <= back.len(),
    ensures
        render_all(front + back, prefix, front.len() + k) == render_all(
            front,
            prefix,
            front.len(),
        ) + render_all(back, prefix, k),
    decreases k,
{
    if k == 0 {
        lemma_render_front(front, back, prefix, front.len());
    } else {
        lemma_render_concat(front, back, prefix, (k - 1) as nat);
        assert((front + back)[front.len() + k - 1] == back[k - 1]);
    }
}

/// A single branch shows as its own lines.
pub proof fn lemma_render_single(branch: Branch, prefix: Seq<char>)
    ensures
        render_all(seq![branch], prefix, 1) == render(branch, prefix),
{
    let one = seq![branch];
    assert(render_all(one, prefix, 0) =~= Seq::empty());
    assert(render_all(one, prefix, 1) == render_all(one, prefix, 0) + render(one[0], prefix));
    assert(render_all(one, prefix, 1) =~= render(branch, prefix));
}

/// Shows what `caller` calls, to the depth `n`, under `prefix`: the names in
/// `excludes` are left out, and a name that is in `visited` or comes up a
/// second time on the way down is marked and not followed again.
pub fn print_callees_from(
    caller: &str,
    n: usize,
    prefix: &str,
    funcs: &Vec<FnDef>,
    excludes: &Vec<String>,
    visited: &Vec<String>,
) -> (lines: Vec<String>)
    ensures
        texts(lines@) == ({
            let tree = callees(
                caller@,
                n as nat,
                records(funcs@),
                texts(excludes@),
                texts(visited@),
            );
            render_all(tree, prefix@, tree.len())
        }),
    decreases n,
{
    let ghost defs = records(funcs@);
    let ghost left_out = texts(excludes@);
    let mut lines: Vec<String> = Vec::new();
    assert(texts(lines@) =~= Seq::empty());
    if contains_text(excludes, caller) {
        return lines;
    }
    if contains_text(visited, caller) {
        proof {
            reveal_strlit(" -^");
            assert(" -^"@ =~= cycle_mark());
        }
        let mut line = join(prefix, caller);
        line.append(" -^");
        lines.push(line);
        assert(texts(lines@) =~= seq![prefix@ + caller@ + cycle_mark()]);
        proof {
            lemma_render_single(Branch::Repeat { name: caller@ }, prefix@);
        }
        return lines;
    }
    let mut path = clone_texts(visited);
    path.push(String::from_str(caller));
    let ghost above = texts(path@);
    assert(above =~= texts(visited@).push(caller@));
    proof {
        reveal_strlit("|   ");
        assert("|   "@ =~= callee_indent());
    }
    let deeper = join(prefix, "|   ");
    let mut i: usize = 0;
    while i < funcs.len()
        invariant
            i <= funcs.len(),
            defs == records(funcs@),
            left_out == texts(excludes@),
            above == texts(path@),
            deeper@ == prefix@ + callee_indent(),
            texts(lines@) == ({
                let found = matching(caller@, n as nat, defs, left_out, above, i as nat);
                render_all(found, prefix@, found.len())
            }),
            lines@.len() == 0 <==> matching(caller@, n as nat, defs, left_out, above, i as nat).len()
                == 0,
        decreases funcs.len() - i,
    {
        let func = &funcs[i];
        assert(defs[i as int] == func@);
        let ghost found = matching(caller@, n as nat, defs, left_out, above, i as nat);
        if call_matches(caller, func.name.as_str()) {
            let ghost shown = lines@;
            lines.push(join(prefix, func.name.as_str()));
            assert(texts(lines@) =~= texts(shown) + seq![prefix@ + func.name@]);
            if n != 0 {
                let ghost head = lines@;
                let mut j: usize = 0;
                while j < func.calls.len()
                    invariant
                        j <= func.calls.len(),
                        n != 0,
                        defs == records(funcs@),
                        left_out == texts(excludes@),
                        above == texts(path@),
                        lines@.len() > 0,
                        texts(lines@) == texts(head) + ({
                            let grown = expansion(
                                func@.calls,
                                (n - 1) as nat,
                                defs,
                                left_out,
                                above,
                                j as nat,
                            );
                            render_all(grown, deeper@, grown.len())
                        }),
                    decreases func.calls.len() - j,
                {
                    let call = func.calls[j].as_str();
                    assert(func@.calls[j as int] == call@);
                    let ghost grown = expansion(
                        func@.calls,
                        (n - 1) as nat,
                        defs,
                        left_out,
                        above,
                        j as nat,
                    );
                    let ghost next = callees(call@, (n - 1) as nat, defs, left_out, above);
                    let mut below = print_callees_from(
                        call,
                        n - 1,
                        deeper.as_str(),
                        funcs,
                        excludes,
                        &path,
                    );
                    let ghost before = lines@;
                    let ghost added = below@;
                    lines.append(&mut below);
                    proof {
                        assert(texts(lines@) =~= texts(before) + texts(added));
                        lemma_render_concat(grown, next, deeper@, next.len());
                    }
                    j += 1;
                }
            }
            proof {
                let branch = matching(caller@, n as nat, defs, left_out, above, (i + 1) as nat).last();
                lemma_render_concat(found, seq![branch], prefix@, 1);
                assert(found.push(branch) =~= found + seq![branch]);
                lemma_render_single(branch, prefix@);
            }
        }
        i += 1;
    }
    if lines.len() == 0 {
        lines.push(join(prefix, caller));
        assert(texts(lines@) =~= seq![prefix@ + caller@]);
        proof {
            lemma_render_single(Branch::Foreign { name: caller@ }, prefix@);
        }
    }
    lines
}

/// The names that a tree of callees leaves out: methods of the standard
/// library that are called on every other line, and its common constructors.
pub open spec fn catalog() -> Seq<Seq<char>> {
    seq![
        "?::unwrap"@,
        "?::expect"@,
        "?::ok"@,
        "?::iter"@,
        "?::any"@,
        "?::map"@,
        "?::len"@,
        "?::collect"@,
        "?::contains"@,
        "?::push"@,
        "?::as_str"@,
        "?::as_string"@,
        "?::to_str"@,
        "?::to_string"@,
        "?::clone"@,
        "?::parse"@,
        "String::new"@,
        "Vec::new"@,
        "Box::new"@,
        "HashMap::new"@,
    ]
}

/// The names that a tree of callees leaves out.
pub fn get_excludes() -> (excludes: Vec<String>)
    ensures
        texts(excludes@) == catalog(),
{
    let mut excludes: Vec<String> = Vec::new();
    excludes.push(String::from_str("?::unwrap"));
    excludes.push(String::from_str("?::expect"));
    excludes.push(String::from_str("?::ok"));
    excludes.push(String::from_str("?::iter"));
    excludes.push(String::from_str("?::any"));
    excludes.push(String::from_str("?::map"));
    excludes.push(String::from_str("?::len"));
    excludes.push(String::from_str("?::collect"));
    excludes.push(String::from_str("?::contains"));
    excludes.push(String::from_str("?::push"));
    excludes.push(String::from_str("?::as_str"));
    excludes.push(String::from_str("?::as_string"));
    excludes.push(String::from_str("?::to_str"));
    excludes.push(String::from_str("?::to_string"));
    excludes.push(String::from_str("?::clone"));
    excludes.push(String::from_str("?::parse"));
    excludes.push(String::from_str("String::new"));
    excludes.push(String::from_str("Vec::new"));
    excludes.push(String::from_str("Box::new"));
    excludes.push(String::from_str("HashMap::new"));
    assert(texts(excludes@) =~= catalog());
    excludes
}

/// Shows what `caller` calls, to the depth `n`, as a tree of indented lines
/// that leaves out the names of the catalog.
pub fn print_callees(caller: &str, n: usize, funcs: &Vec<FnDef>) -> (lines: Vec<String>)
    ensures
        texts(lines@) == ({
            let tree = callees(caller@, n as nat, records(funcs@), catalog(), Seq::empty());
            render_all(tree, Seq::empty(), tree.len())
        }),
{
    let excludes = get_excludes();
    let visited: Vec<String> = Vec::new();
    assert(texts(visited@) =~= Seq::empty());
    proof {
        reveal_strlit("");
        assert(""@ =~= Seq::<char>::empty());
    }
    print_callees_from(caller, n, "", funcs, &excludes, &visited)
}

/// Shows who calls `callee`, to the depth `n`, as a tree of indented lines
/// with `callee` itself at the top.
pub fn print_callers_tree(callee: &str, n: usize, funcs: &Vec<FnDef>) -> (lines: Vec<String>)
    requires
        n >= 1,
    ensures
        texts(lines@) == seq![callee@] + callers(
            callee@,
            n as nat,
            caller_indent(),
            records(funcs@),
            funcs@.len(),
        ),
{
    proof {
        reveal_strlit("    ");
        assert("    "@ =~= caller_indent());
    }
    let mut lines: Vec<String> = Vec::new();
    lines.push(String::from_str(callee));
    let mut below = print_callers(callee, n, "    ", funcs);
    let ghost top = lines@;
    let ghost added = below@;
    lines.append(&mut below);
    assert(texts(lines@) =~= seq![callee@] + texts(added));
    lines
}

/// The names of `funcs`, in order.
pub open spec fn names(funcs: Seq<FnDefView>) -> Seq<Seq<char>> {
    funcs.map_values(|f: FnDefView| f.name)
}

/// Shows each record with those of its call targets that are themselves the
/// name of a record: one text for each record, in order.
pub fn print_functions_structure(funcs: &Vec<FnDef>) -> (blocks: Vec<String>)
    ensures
        blocks@.len() == funcs@.len(),
        forall|i: int|
            0 <= i < funcs@.len() ==> (#[trigger] blocks@[i])@ == funcs@[i]@.outline(
                names(records(funcs@)),
            ),
{
    let mut known: Vec<String> = Vec::new();
    let mut i: usize = 0;
    while i < funcs.len()
        invariant
            i <= funcs.len(),
            known@.len() == i,
            forall|j: int| 0 <= j < i ==> (#[trigger] known@[j])@ == funcs@[j].name@,
        decreases funcs.len() - i,
    {
        known.push(funcs[i].name.clone());
        i += 1;
    }
    assert(texts(known@) =~= names(records(funcs@)));
    let mut blocks: Vec<String> = Vec::new();
    let mut i: usize = 0;
    while i < funcs.len()
        invariant
            i <= funcs.len(),
            blocks@.len() == i,
            texts(known@) == names(records(funcs@)),
            forall|j: int|
                0 <= j < i ==> (#[trigger] blocks@[j])@ == funcs@[j]@.outline(
                    names(records(funcs@)),
                ),
        decreases funcs.len() - i,
    {
        blocks.push(funcs[i].to_string(&known));
        i += 1;
    }
    blocks
}

/// The name that was asked for where `branch` stands.
pub open spec fn asked(branch: Branch) -> Seq<char> {
    match branch {
        Branch::Repeat { name } => name,
        Branch::Foreign { name } => name,
        Branch::Defined { query, name, below } => query,
    }
}

/// Whether no name is followed twice on any way down through `branch`, given
/// the names `above` it: a marked entry repeats one of the names above it,
/// every other entry asks for a name that is not among them, and the same
/// holds below it with its own name added.
pub open spec fn acyclic(branch: Branch, above: Seq<Seq<char>>) -> bool
    decreases branch,
{
    match branch {
        Branch::Repeat { name } => above.contains(name),
        Branch::Foreign { name } => !above.contains(name),
        Branch::Defined { query, name, below } => !above.contains(query) && forall|i: int|
            0 <= i < below.len() ==> acyclic(#[trigger] below[i], above.push(query)),
    }
}

/// Whether neither `branch` nor anything below it stands for a name of `excludes`.
pub open spec fn avoids(branch: Branch, excludes: Seq<Seq<char>>) -> bool
    decreases branch,
{
    !excludes.contains(asked(branch)) && match branch {
        Branch::Defined { query, name, below } => forall|i: int|
            0 <= i < below.len() ==> avoids(#[trigger] below[i], excludes),
        _ => true,
    }
}

/// Whether `branch` is sound: it is acyclic under `above` and avoids `excludes`.
pub open spec fn sound(branch: Branch, excludes: Seq<Seq<char>>, above: Seq<Seq<char>>) -> bool {
    acyclic(branch, above) && avoids(branch, excludes)
}

/// Every entry for `caller` is sound under the names that were visited.
pub proof fn lemma_callees_sound(
    caller: Seq<char>,
    n: nat,
    funcs: Seq<FnDefView>,
    excludes: Seq<Seq<char>>,
    visited: Seq<Seq<char>>,
)
    ensures
        forall|i: int|
            0 <= i < callees(caller, n, funcs, excludes, visited).len() ==> sound(
                #[trigger] callees(caller, n, funcs, excludes, visited)[i],
                excludes,
                visited,
            ),
    decreases n, 2nat, 0nat,
{
    let tree = callees(caller, n, funcs, excludes, visited);
    if !excludes.contains(caller) && !visited.contains(caller) {
        lemma_matching_sound(caller, n, funcs, excludes, visited, funcs.len());
    }
    assert forall|i: int| 0 <= i < tree.len() implies sound(#[trigger] tree[i], excludes, visited) by {
        if !excludes.contains(caller) && !visited.contains(caller) {
            let found = matching(caller, n, funcs, excludes, visited.push(caller), funcs.len());
            if found.len() != 0 {
                assert(tree[i] == found[i]);
            }
        }
    }
}

/// Every entry of a record that answers `caller` is sound under the names
/// that were visited before `caller`.
pub proof fn lemma_matching_sound(
    caller: Seq<char>,
    n: nat,
    funcs: Seq<FnDefView>,
    excludes: Seq<Seq<char>>,
    visited: Seq<Seq<char>>,
    k: nat,
)
    requires
        !excludes.contains(caller),
        !visited.contains(caller),
    ensures
        forall|i: int|
            0 <= i < matching(caller, n, funcs, excludes, visited.push(caller), k).len() ==> sound(
                #[trigger] matching(caller, n, funcs, excludes, visited.push(caller), k)[i],
                excludes,
                visited,
            ),
    decreases n, 1nat, k,
{
    let path = visited.push(caller);
    let found = matching(caller, n, funcs, excludes, path, k);
    if 0 < k <= funcs.len() {
        lemma_matching_sound(caller, n, funcs, excludes, visited, (k - 1) as nat);
        let above = matching(caller, n, funcs, excludes, path, (k - 1) as nat);
        let func = funcs[k - 1];
        if name_matches(caller, func.name) {
            let below = if n > 0 {
                expansion(func.calls, (n - 1) as nat, funcs, excludes, path, func.calls.len())
            } else {
                Seq::empty()
            };
            if n > 0 {
                lemma_expansion_sound(
                    func.calls,
                    (n - 1) as nat,
                    funcs,
                    excludes,
                    path,
                    func.calls.len(),
                );
            }
            let branch = Branch::Defined { query: caller, name: func.name, below };
            assert(found == above.push(branch));
            assert forall|j: int| 0 <= j < below.len() implies acyclic(
                #[trigger] below[j],
                path,
            ) && avoids(below[j], excludes) by {
                assert(sound(below[j], excludes, path));
            }
            assert(sound(branch, excludes, visited));
            assert forall|i: int| 0 <= i < found.len() implies sound(
                #[trigger] found[i],
                excludes,
                visited,
            ) by {
                if i < above.len() {
                    assert(found[i] == above[i]);
                } else {
                    assert(found[i] == branch);
                }
            }
        }
    }
}

/// Every entry for one of `calls` is sound under the names that were visited.
pub proof fn lemma_expansion_sound(
    calls: Seq<Seq<char>>,
    n: nat,
    funcs: Seq<FnDefView>,
    excludes: Seq<Seq<char>>,
    visited: Seq<Seq<char>>,
    k: nat,
)
    ensures
        forall|i: int|
            0 <= i < expansion(calls, n, funcs, excludes, visited, k).len() ==> sound(
                #[trigger] expansion(calls, n, funcs, excludes, visited, k)[i],
                excludes,
                visited,
            ),
    decreases n, 3nat, k,
{
    let grown = expansion(calls, n, funcs, excludes, visited, k);
    if 0 < k <= calls.len() {
        lemma_expansion_sound(calls, n, funcs, excludes, visited, (k - 1) as nat);
        lemma_callees_sound(calls[k - 1], n, funcs, excludes, visited);
        let before = expansion(calls, n, funcs, excludes, visited, (k - 1) as nat);
        let next = callees(calls[k - 1], n, funcs, excludes, visited);
        assert forall|i: int| 0 <= i < grown.len() implies sound(
            #[trigger] grown[i],
            excludes,
            visited,
        ) by {
            if i < before.len() {
                assert(grown[i] == before[i]);
            } else {
                assert(grown[i] == next[i - before.len()]);
            }
        }
    }
}

/// A tree of callees never follows a name twice on one way down: a name
/// that comes up again is marked and has nothing below it.
pub proof fn lemma_callees_acyclic(
    caller: Seq<char>,
    n: nat,
    funcs: Seq<FnDefView>,
    excludes: Seq<Seq<char>>,
)
    ensures
        forall|i: int|
            0 <= i < callees(caller, n, funcs, excludes, Seq::empty()).len() ==> acyclic(
                #[trigger] callees(caller, n, funcs, excludes, Seq::empty())[i],
                Seq::empty(),
            ),
{
    lemma_callees_sound(caller, n, funcs, excludes, Seq::empty());
}

/// A tree of callees holds no entry for an excluded name, at any depth.
pub proof fn lemma_callees_avoid_excluded(
    caller: Seq<char>,
    n: nat,
    funcs: Seq<FnDefView>,
    excludes: Seq<Seq<char>>,
    visited: Seq<Seq<char>>,
)
    ensures
        forall|i: int|
            0 <= i < callees(caller, n, funcs, excludes, visited).len() ==> avoids(
                #[trigger] callees(caller, n, funcs, excludes, visited)[i],
                excludes,
            ),
{
    lemma_callees_sound(caller, n, funcs, excludes, visited);
}

/// With a depth of one, the callers shown are the records that call
/// `callee` themselves, each once and in the order of the records.
pub proof fn lemma_callers_direct(
    callee: Seq<char>,
    prefix: Seq<char>,
    funcs: Seq<FnDefView>,
    k: nat,
)
    requires
        k <= funcs.len(),
    ensures
        callers(callee, 1, prefix, funcs, k) == funcs.take(k as int).filter(
            |f: FnDefView| f.calls.contains(callee),
        ).map_values(|f: FnDefView| prefix + f.name),
    decreases k,
{
    let calls_it = |f: FnDefView| f.calls.contains(callee);
    let line = |f: FnDefView| prefix + f.name;
    reveal(Seq::filter);
    if k == 0 {
        assert(funcs.take(0).filter(calls_it).map_values(line) =~= Seq::empty());
    } else {
        lemma_callers_direct(callee, prefix, funcs, (k - 1) as nat);
        assert(funcs.take(k as int).drop_last() =~= funcs.take(k - 1));
        assert(funcs.take(k as int).last() == funcs[k - 1]);
        let kept = funcs.take(k - 1).filter(calls_it);
        if funcs[k - 1].calls.contains(callee) {
            assert(kept.push(funcs[k - 1]).map_values(line) =~= kept.map_values(line).push(
                prefix + funcs[k - 1].name,
            ));
        }
    }
}

} // verus!
