//! Dependency-graph validation and deterministic execution ordering.
//!
//! The task map is itself the graph: there is an edge from a task to each of
//! its dependencies. A depth-first post-order traversal from the requested
//! roots yields the execution plan; dependencies always precede dependents,
//! and each task appears at most once. A traversal over every node first
//! rejects maps whose graph contains a cycle.

use vstd::pervasive::VecAdditionalExecFns;
use vstd::prelude::*;

use crate::nurfile::has_task;
use crate::nurfile::lookup_task;
use crate::nurfile::NurTask;

verus! {

/// Task names are unique, as keys of a map.
pub open spec fn tasks_wf(tasks: Seq<(String, NurTask)>) -> bool {
    forall|i: int, j: int| 0 <= i < j < tasks.len() ==> tasks[i].0@ != tasks[j].0@
}

pub open spec fn name_at(tasks: Seq<(String, NurTask)>, i: int) -> Seq<char> {
    tasks[i].0@
}

pub open spec fn deps_at(tasks: Seq<(String, NurTask)>, i: int) -> Seq<String> {
    tasks[i].1.dependencies@
}

/// Task `i` declares a dependency whose name is task `j`'s.
pub open spec fn edge(tasks: Seq<(String, NurTask)>, i: int, j: int) -> bool {
    &&& 0 <= i < tasks.len()
    &&& 0 <= j < tasks.len()
    &&& exists|d: int|
        0 <= d < deps_at(tasks, i).len() && (#[trigger] deps_at(tasks, i)[d])@ == name_at(tasks, j)
}

/// A non-empty sequence of task indices where each step is an edge and the
/// last closes back to the first.
pub open spec fn is_cycle(tasks: Seq<(String, NurTask)>, c: Seq<usize>) -> bool {
    &&& c.len() >= 1
    &&& forall|k: int| 0 <= k < c.len() - 1 ==> edge(tasks, #[trigger] c[k] as int, c[k + 1] as int)
    &&& edge(tasks, c.last() as int, c[0] as int)
}

pub open spec fn has_cycle(tasks: Seq<(String, NurTask)>) -> bool {
    exists|c: Seq<usize>| is_cycle(tasks, c)
}

/// Every entry is a valid task index.
pub open spec fn valid_indices(tasks: Seq<(String, NurTask)>, order: Seq<usize>) -> bool {
    forall|k: int| 0 <= k < order.len() ==> (#[trigger] order[k]) < tasks.len()
}

/// The name of the task at position `j` of the order.
pub open spec fn plan_name_at(tasks: Seq<(String, NurTask)>, order: Seq<usize>, j: int) -> Seq<
    char,
> {
    tasks[order[j] as int].0@
}

/// Task index `n` occurs somewhere in the order.
pub open spec fn in_order(order: Seq<usize>, n: int) -> bool {
    exists|j: int| 0 <= j < order.len() && (#[trigger] order[j]) as int == n
}

/// Every dependency (that names an existing task) of the task at position `k`
/// appears at an earlier position.
pub open spec fn deps_satisfied_before(
    tasks: Seq<(String, NurTask)>,
    order: Seq<usize>,
    k: int,
) -> bool {
    forall|d: int|
        0 <= d < deps_at(tasks, order[k] as int).len() && has_task(
            tasks,
            (#[trigger] deps_at(tasks, order[k] as int)[d])@,
        ) ==> exists|j: int|
            0 <= j < k && #[trigger] plan_name_at(tasks, order, j) == deps_at(
                tasks,
                order[k] as int,
            )[d]@
}

/// Dependencies precede dependents everywhere in the order.
pub open spec fn plan_closed(tasks: Seq<(String, NurTask)>, order: Seq<usize>) -> bool {
    forall|k: int| 0 <= k < order.len() ==> #[trigger] deps_satisfied_before(tasks, order, k)
}

/// Every dependency of every task in the order names an existing task.
pub open spec fn all_deps_exist(tasks: Seq<(String, NurTask)>, order: Seq<usize>) -> bool {
    forall|k: int, d: int|
        0 <= k < order.len() && 0 <= d < deps_at(tasks, order[k] as int).len() ==> has_task(
            tasks,
            (#[trigger] deps_at(tasks, order[k] as int)[d])@,
        )
}

/// Some task declares a dependency with this name.
pub open spec fn is_declared_dep(tasks: Seq<(String, NurTask)>, name: Seq<char>) -> bool {
    exists|i: int, d: int|
        0 <= i < tasks.len() && 0 <= d < deps_at(tasks, i).len() && (#[trigger] deps_at(
            tasks,
            i,
        )[d])@ == name
}

/// A walk through the task map along dependency edges.
pub open spec fn is_chain(tasks: Seq<(String, NurTask)>, p: Seq<usize>) -> bool {
    &&& p.len() >= 1
    &&& valid_indices(tasks, p)
    &&& forall|k: int| 0 <= k < p.len() - 1 ==> edge(tasks, #[trigger] p[k] as int, p[k + 1] as int)
}

/// Task `m` can be reached from task `src` along dependency edges.
pub open spec fn reaches_from(tasks: Seq<(String, NurTask)>, src: int, m: int) -> bool {
    exists|p: Seq<usize>| is_chain(tasks, p) && p[0] as int == src && p.last() as int == m
}

/// Task `m` can be reached from a task one of the roots names.
pub open spec fn reachable_from_roots(
    tasks: Seq<(String, NurTask)>,
    roots: Seq<String>,
    m: int,
) -> bool {
    exists|p: Seq<usize>|
        is_chain(tasks, p) && root_named(roots, name_at(tasks, p[0] as int)) && p.last() as int
            == m
}

proof fn lemma_reaches_self(tasks: Seq<(String, NurTask)>, n: int)
    requires
        0 <= n < tasks.len(),
        n <= usize::MAX,
    ensures
        reaches_from(tasks, n, n),
{
    let p = seq![n as usize];
    assert(is_chain(tasks, p));
    assert(p[0] as int == n && p.last() as int == n);
}

/// Reachability extends backwards across one edge.
proof fn lemma_reaches_step(tasks: Seq<(String, NurTask)>, src: int, dep: int, m: int)
    requires
        0 <= src <= usize::MAX,
        edge(tasks, src, dep),
        reaches_from(tasks, dep, m),
    ensures
        reaches_from(tasks, src, m),
{
    let p = choose|p: Seq<usize>|
        is_chain(tasks, p) && p[0] as int == dep && p.last() as int == m;
    let q = seq![src as usize] + p;
    assert forall|k: int| 0 <= k < q.len() - 1 implies edge(
        tasks,
        #[trigger] q[k] as int,
        q[k + 1] as int,
    ) by {
        if k == 0 {
            assert(q[0] as int == src && q[1] == p[0]);
        } else {
            assert(q[k] == p[k - 1] && q[k + 1] == p[k]);
            assert(edge(tasks, p[k - 1] as int, p[k] as int));
        }
    }
    assert(is_chain(tasks, q));
    assert(q[0] as int == src && q.last() as int == m);
}

/// With unique names, equal names mean equal indices.
pub proof fn lemma_name_unique(tasks: Seq<(String, NurTask)>, a: int, b: int)
    requires
        tasks_wf(tasks),
        0 <= a < tasks.len(),
        0 <= b < tasks.len(),
        name_at(tasks, a) == name_at(tasks, b),
    ensures
        a == b,
{
    if a < b {
        assert(tasks[a].0@ != tasks[b].0@);
    } else if b < a {
        assert(tasks[b].0@ != tasks[a].0@);
    }
}

#[derive(PartialEq, Eq, Structural, Copy, Clone, Debug)]
enum Color {
    White,
    Gray,
    Black,
}

/// Count of unvisited nodes; the traversal's termination measure.
spec fn count_whites(s: Seq<Color>) -> nat
    decreases s.len(),
{
    if s.len() == 0 {
        0
    } else {
        count_whites(s.drop_last()) + if s.last() == Color::White {
            1nat
        } else {
            0nat
        }
    }
}

proof fn lemma_count_whites_update(s: Seq<Color>, i: int, c: Color)
    requires
        0 <= i < s.len(),
    ensures
        count_whites(s.update(i, c)) == count_whites(s) + (if c == Color::White {
            1int
        } else {
            0int
        }) - (if s[i] == Color::White {
            1int
        } else {
            0int
        }),
    decreases s.len(),
{
    let t = s.update(i, c);
    if i == s.len() - 1 {
        assert(t.drop_last() =~= s.drop_last());
        assert(t.last() == c);
    } else {
        assert(t.drop_last() =~= s.drop_last().update(i, c));
        assert(t.last() == s.last());
        lemma_count_whites_update(s.drop_last(), i, c);
    }
}

/// Walking past one dependency that adds nothing — a name with no task, or
/// an already-visited task — leaves the traversal where it was.
proof fn lemma_dfs_deps_skip(
    tasks: Seq<(String, NurTask)>,
    vis: Seq<bool>,
    deps: Seq<String>,
    di: int,
    fuel: nat,
)
    requires
        0 <= di < deps.len(),
        !has_task(tasks, deps[di]@) || vis[ix_of_name(tasks, deps[di]@)],
    ensures
        dfs_deps_spec(tasks, vis, deps, di, fuel) == dfs_deps_spec(tasks, vis, deps, di + 1, fuel),
{
}

/// Prepending two order prefixes in turn is prepending their concatenation.
proof fn lemma_with_prefix_assoc(
    a: Seq<usize>,
    b: Seq<usize>,
    r: Option<(Seq<bool>, Seq<usize>)>,
)
    ensures
        with_order_prefix(a, with_order_prefix(b, r)) == with_order_prefix(a + b, r),
{
    match r {
        None => {},
        Some(p) => {
            assert(a + (b + p.1) =~= (a + b) + p.1);
        },
    }
}

/// State of the depth-first traversal: a colour per task, the stack of tasks
/// currently being visited (for cycle extraction), and the post-order built
/// so far.
struct Dfs {
    color: Vec<Color>,
    path: Vec<usize>,
    order: Vec<usize>,
}

spec fn path_chained(tasks: Seq<(String, NurTask)>, path: Seq<usize>) -> bool {
    forall|k: int| 0 <= k < path.len() - 1 ==> edge(tasks, #[trigger] path[k] as int, path[k + 1] as int)
}

spec fn dfs_inv(tasks: Seq<(String, NurTask)>, d: Dfs) -> bool {
    &&& d.color@.len() == tasks.len()
    &&& valid_indices(tasks, d.order@)
    &&& valid_indices(tasks, d.path@)
    &&& d.order@.no_duplicates()
    &&& forall|n: int|
        0 <= n < tasks.len() ==> ((#[trigger] d.color@[n]) == Color::Black <==> in_order(
            d.order@,
            n,
        ))
    &&& forall|n: int|
        0 <= n < tasks.len() ==> ((#[trigger] d.color@[n]) == Color::Gray <==> in_order(
            d.path@,
            n,
        ))
    &&& plan_closed(tasks, d.order@)
    &&& path_chained(tasks, d.path@)
}

/// How the traversal stops early: a genuine dependency loop, or a dependency
/// name with no task.
enum VisitErr {
    CycleFound(Vec<usize>),
    Missing(String),
}

impl Dfs {
    fn new(n: usize) -> (d: Dfs)
        ensures
            d.color@.len() == n,
            forall|i: int| 0 <= i < n ==> d.color@[i] == Color::White,
            d.path@.len() == 0,
            d.order@.len() == 0,
    {
        let mut color: Vec<Color> = Vec::new();
        let mut i: usize = 0;
        while i < n
            invariant
                i <= n,
                color@.len() == i,
                forall|j: int| 0 <= j < i ==> color@[j] == Color::White,
            decreases n - i,
        {
            color.push(Color::White);
            i = i + 1;
        }
        Dfs { color, path: Vec::new(), order: Vec::new() }
    }
}

/// Index of `x` in `path`; callers know it occurs.
fn position_of(path: &Vec<usize>, x: usize) -> (r: usize)
    requires
        in_order(path@, x as int),
    ensures
        r < path@.len(),
        path@[r as int] == x,
{
    let mut i: usize = 0;
    while i < path.len()
        invariant
            i <= path@.len(),
            in_order(path@, x as int),
            forall|j: int| 0 <= j < i ==> path@[j] != x,
        decreases path@.len() - i,
    {
        if path[i] == x {
            return i;
        }
        i = i + 1;
    }
    proof {
        assert(false);
    }
    0
}

/// Visits `node`: marks it in-progress, visits each dependency, then appends
/// it to the post-order. Reports a loop through the in-progress stack, or (in
/// strict mode) a dependency name that is no task's.
fn visit(tasks: &Vec<(String, NurTask)>, d: &mut Dfs, node: usize, strict: bool) -> (r: Result<
    (),
    VisitErr,
>)
    requires
        tasks_wf(tasks@),
        dfs_inv(tasks@, *old(d)),
        (node as int) < tasks@.len(),
        old(d).color@[node as int] == Color::White,
        old(d).path@.len() == 0 || edge(tasks@, old(d).path@.last() as int, node as int),
    ensures
        r is Ok ==> dfs_inv(tasks@, *final(d)),
        r is Ok ==> final(d).path@ == old(d).path@,
        r is Ok ==> final(d).color@[node as int] == Color::Black,
        r is Ok ==> old(d).order@.is_prefix_of(final(d).order@),
        r is Ok ==> forall|m: int|
            0 <= m < tasks@.len() && old(d).color@[m] == Color::Black ==> (#[trigger] final(d).color@[m]) == Color::Black,
        r is Ok ==> count_whites(final(d).color@) < count_whites(old(d).color@),
        r is Ok ==> forall|m: int|
            0 <= m < tasks@.len() && (#[trigger] final(d).color@[m]) == Color::Black && old(
                d,
            ).color@[m] != Color::Black ==> reaches_from(tasks@, node as int, m),
        r is Ok ==> forall|fuel: nat|
            fuel > count_whites(old(d).color@) ==> #[trigger] dfs_visit_spec(
                tasks@,
                vis_of(old(d).color@),
                node as int,
                fuel,
            ) == Some(
                (
                    vis_of(final(d).color@),
                    final(d).order@.subrange(
                        old(d).order@.len() as int,
                        final(d).order@.len() as int,
                    ),
                ),
            ),
        r is Ok && strict && all_deps_exist(tasks@, old(d).order@) ==> all_deps_exist(
            tasks@,
            final(d).order@,
        ),
        r matches Err(VisitErr::CycleFound(c)) ==> is_cycle(tasks@, c@),
        r matches Err(VisitErr::Missing(nm)) ==> !has_task(tasks@, nm@) && is_declared_dep(
            tasks@,
            nm@,
        ),
        !strict ==> !(r matches Err(VisitErr::Missing(nm))),
    decreases count_whites(d.color@),
{
    let ghost c0 = d.color@;
    let ghost path0 = d.path@;
    let ghost order0 = d.order@;
    d.color.set(node, Color::Gray);
    d.path.push(node);
    proof {
        lemma_count_whites_update(c0, node as int, Color::Gray);
        assert forall|n: int|
            0 <= n < tasks@.len() implies ((#[trigger] d.color@[n]) == Color::Gray <==> in_order(
            d.path@,
            n,
        )) by {
            if n == node as int {
                assert(d.path@[d.path@.len() - 1] == node);
            } else {
                if in_order(d.path@, n) {
                    let j = choose|j: int| 0 <= j < d.path@.len() && (d.path@[j]) as int == n;
                    assert(path0[j] as int == n);
                }
                if in_order(path0, n) {
                    let j = choose|j: int| 0 <= j < path0.len() && (path0[j]) as int == n;
                    assert(d.path@[j] as int == n);
                }
            }
        }
        assert(dfs_inv(tasks@, *d));
        lemma_count_whites_pos(c0, node as int);
        // The traversal decomposition starts trivially: nothing emitted yet.
        assert forall|fuel: nat| fuel > count_whites(c0) implies #[trigger] dfs_deps_spec(
            tasks@,
            vis_of(c0.update(node as int, Color::Gray)),
            deps_at(tasks@, node as int),
            0,
            fuel,
        ) == with_order_prefix(
            d.order@.subrange(order0.len() as int, d.order@.len() as int),
            dfs_deps_spec(tasks@, vis_of(d.color@), deps_at(tasks@, node as int), 0, fuel),
        ) by {
            assert(d.color@ =~= c0.update(node as int, Color::Gray));
            let e = d.order@.subrange(order0.len() as int, d.order@.len() as int);
            assert(e =~= Seq::<usize>::empty());
            match dfs_deps_spec(tasks@, vis_of(d.color@), deps_at(tasks@, node as int), 0, fuel) {
                None => {},
                Some(pp) => {
                    assert(e + pp.1 =~= pp.1);
                },
            }
        }
    }
    let deps_len = tasks[node].1.dependencies.len();
    let mut di: usize = 0;
    while di < deps_len
        invariant
            tasks_wf(tasks@),
            c0 == old(d).color@,
            path0 == old(d).path@,
            order0 == old(d).order@,
            dfs_inv(tasks@, *d),
            (node as int) < tasks@.len(),
            deps_len == deps_at(tasks@, node as int).len(),
            di <= deps_len,
            d.color@.len() == tasks@.len(),
            d.color@[node as int] == Color::Gray,
            d.path@ == path0.push(node),
            order0.is_prefix_of(d.order@),
            count_whites(d.color@) <= count_whites(c0) - 1,
            forall|m: int|
                0 <= m < tasks@.len() && c0[m] == Color::Black ==> (#[trigger] d.color@[m])
                    == Color::Black,
            forall|m: int|
                0 <= m < tasks@.len() && (#[trigger] d.color@[m]) == Color::Black && c0[m]
                    != Color::Black ==> reaches_from(tasks@, node as int, m),
            forall|fuel: nat|
                fuel > count_whites(c0) ==> #[trigger] dfs_deps_spec(
                    tasks@,
                    vis_of(c0.update(node as int, Color::Gray)),
                    deps_at(tasks@, node as int),
                    0,
                    fuel,
                ) == with_order_prefix(
                    d.order@.subrange(order0.len() as int, d.order@.len() as int),
                    dfs_deps_spec(
                        tasks@,
                        vis_of(d.color@),
                        deps_at(tasks@, node as int),
                        di as int,
                        fuel,
                    ),
                ),
            strict && all_deps_exist(tasks@, order0) ==> all_deps_exist(tasks@, d.order@),
            forall|dd: int|
                0 <= dd < di && has_task(tasks@, (#[trigger] deps_at(tasks@, node as int)[dd])@)
                    ==> exists|j: int|
                    0 <= j < d.order@.len() && #[trigger] plan_name_at(tasks@, d.order@, j)
                        == deps_at(tasks@, node as int)[dd]@,
            strict ==> forall|dd: int|
                0 <= dd < di ==> has_task(tasks@, (#[trigger] deps_at(tasks@, node as int)[dd])@),
        decreases deps_len - di,
    {
        let dep_name = &tasks[node].1.dependencies[di];
        proof {
            assert(deps_at(tasks@, node as int)[di as int] == tasks@[node as int].1.dependencies@[di as int]);
        }
        match lookup_task(tasks, dep_name) {
            None => {
                if strict {
                    return Err(VisitErr::Missing(dep_name.clone()));
                }
                proof {
                    let depsn = deps_at(tasks@, node as int);
                    assert(!has_task(tasks@, depsn[di as int]@));
                    assert forall|fuel: nat| #[trigger] dfs_deps_spec(
                        tasks@,
                        vis_of(d.color@),
                        depsn,
                        di as int,
                        fuel,
                    ) == dfs_deps_spec(tasks@, vis_of(d.color@), depsn, di + 1, fuel) by {
                        lemma_dfs_deps_skip(tasks@, vis_of(d.color@), depsn, di as int, fuel);
                    }
                }
                di = di + 1;
            },
            Some(dep_ix) => {
                let c = d.color[dep_ix];
                if c == Color::Black {
                    proof {
                        assert(in_order(d.order@, dep_ix as int));
                        let j = choose|j: int|
                            0 <= j < d.order@.len() && (d.order@[j]) as int == dep_ix as int;
                        assert(plan_name_at(tasks@, d.order@, j) == name_at(
                            tasks@,
                            dep_ix as int,
                        ));
                        let depsn = deps_at(tasks@, node as int);
                        let name = depsn[di as int]@;
                        assert(has_task(tasks@, name)) by {
                            assert(tasks@[dep_ix as int].0@ == name);
                        }
                        assert(0 <= ix_of_name(tasks@, name) < tasks@.len());
                        assert(tasks@[ix_of_name(tasks@, name)].0@ == name);
                        lemma_name_unique(tasks@, ix_of_name(tasks@, name), dep_ix as int);
                        assert(vis_of(d.color@)[ix_of_name(tasks@, name)]);
                        assert forall|fuel: nat| #[trigger] dfs_deps_spec(
                            tasks@,
                            vis_of(d.color@),
                            depsn,
                            di as int,
                            fuel,
                        ) == dfs_deps_spec(tasks@, vis_of(d.color@), depsn, di + 1, fuel) by {
                            lemma_dfs_deps_skip(tasks@, vis_of(d.color@), depsn, di as int, fuel);
                        }
                    }
                    di = di + 1;
                } else if c == Color::Gray {
                    let pos = position_of(&d.path, dep_ix);
                    let mut cyc: Vec<usize> = Vec::new();
                    let mut q: usize = pos;
                    while q < d.path.len()
                        invariant
                            pos <= q <= d.path@.len(),
                            cyc@ =~= d.path@.subrange(pos as int, q as int),
                        decreases d.path@.len() - q,
                    {
                        cyc.push(d.path[q]);
                        q = q + 1;
                        proof {
                            assert(cyc@ =~= d.path@.subrange(pos as int, q as int));
                        }
                    }
                    proof {
                        let pv = d.path@;
                        let cv = cyc@;
                        assert(cv =~= pv.subrange(pos as int, pv.len() as int));
                        assert(cv.len() >= 1);
                        assert(cv[0] == dep_ix);
                        assert(cv.last() == pv.last());
                        assert(pv.last() == node);
                        assert forall|k: int| 0 <= k < cv.len() - 1 implies edge(
                            tasks@,
                            #[trigger] cv[k] as int,
                            cv[k + 1] as int,
                        ) by {
                            assert(cv[k] == pv[pos + k]);
                            assert(cv[k + 1] == pv[pos + k + 1]);
                            assert(edge(tasks@, pv[pos + k] as int, pv[pos + k + 1] as int));
                        }
                        assert(edge(tasks@, node as int, dep_ix as int)) by {
                            assert(deps_at(tasks@, node as int)[di as int]@ == name_at(
                                tasks@,
                                dep_ix as int,
                            ));
                        }
                        assert(is_cycle(tasks@, cv));
                    }
                    return Err(VisitErr::CycleFound(cyc));
                } else {
                    proof {
                        assert(c == Color::White);
                        assert(edge(tasks@, node as int, dep_ix as int)) by {
                            assert(deps_at(tasks@, node as int)[di as int]@ == name_at(
                                tasks@,
                                dep_ix as int,
                            ));
                        }
                        assert(d.path@.last() == node);
                    }
                    let ghost dpre = *d;
                    let res = visit(tasks, d, dep_ix, strict);
                    match res {
                        Err(e) => {
                            return Err(e);
                        },
                        Ok(()) => {
                            proof {
                                assert(in_order(d.order@, dep_ix as int));
                                let j = choose|j: int|
                                    0 <= j < d.order@.len() && (d.order@[j]) as int
                                        == dep_ix as int;
                                assert(plan_name_at(tasks@, d.order@, j) == name_at(
                                    tasks@,
                                    dep_ix as int,
                                ));
                                assert forall|dd: int|
                                    0 <= dd < di && has_task(
                                        tasks@,
                                        (#[trigger] deps_at(tasks@, node as int)[dd])@,
                                    ) implies exists|j2: int|
                                    0 <= j2 < d.order@.len() && #[trigger] plan_name_at(
                                        tasks@,
                                        d.order@,
                                        j2,
                                    ) == deps_at(tasks@, node as int)[dd]@ by {
                                    let j2 = choose|j2: int|
                                        0 <= j2 < dpre.order@.len() && #[trigger] plan_name_at(
                                            tasks@,
                                            dpre.order@,
                                            j2,
                                        ) == deps_at(tasks@, node as int)[dd]@;
                                    assert(dpre.order@.is_prefix_of(d.order@));
                                    assert(d.order@[j2] == dpre.order@[j2]);
                                    assert(plan_name_at(tasks@, d.order@, j2) == plan_name_at(
                                        tasks@,
                                        dpre.order@,
                                        j2,
                                    ));
                                }
                                assert forall|m: int|
                                    0 <= m < tasks@.len() && (#[trigger] d.color@[m])
                                        == Color::Black && c0[m]
                                        != Color::Black implies reaches_from(
                                    tasks@,
                                    node as int,
                                    m,
                                ) by {
                                    if dpre.color@[m] != Color::Black {
                                        assert(reaches_from(tasks@, dep_ix as int, m));
                                        lemma_reaches_step(
                                            tasks@,
                                            node as int,
                                            dep_ix as int,
                                            m,
                                        );
                                    }
                                }
                                // The callee's traversal segment slots into
                                // the decomposition at this dependency.
                                let depsn = deps_at(tasks@, node as int);
                                let name = depsn[di as int]@;
                                assert(has_task(tasks@, name)) by {
                                    assert(tasks@[dep_ix as int].0@ == name);
                                }
                                assert(0 <= ix_of_name(tasks@, name) < tasks@.len());
                                assert(tasks@[ix_of_name(tasks@, name)].0@ == name);
                                lemma_name_unique(tasks@, ix_of_name(tasks@, name), dep_ix as int);
                                let visc = vis_of(dpre.color@);
                                let visn = vis_of(d.color@);
                                let emitted_pre = dpre.order@.subrange(
                                    order0.len() as int,
                                    dpre.order@.len() as int,
                                );
                                let delta = d.order@.subrange(
                                    dpre.order@.len() as int,
                                    d.order@.len() as int,
                                );
                                let emitted_new = d.order@.subrange(
                                    order0.len() as int,
                                    d.order@.len() as int,
                                );
                                assert(order0.len() <= dpre.order@.len() <= d.order@.len());
                                assert(emitted_new =~= emitted_pre + delta) by {
                                    assert forall|q: int|
                                        0 <= q < emitted_new.len() implies emitted_new[q] == (
                                    emitted_pre + delta)[q] by {
                                        if q < emitted_pre.len() {
                                            assert(d.order@[order0.len() + q] == dpre.order@[order0.len()
                                                + q]);
                                        }
                                    }
                                }
                                assert(count_whites(dpre.color@) <= count_whites(c0) - 1);
                                assert forall|fuel: nat|
                                    fuel > count_whites(c0) implies #[trigger] dfs_deps_spec(
                                    tasks@,
                                    visc,
                                    depsn,
                                    di as int,
                                    fuel,
                                ) == with_order_prefix(
                                    delta,
                                    dfs_deps_spec(tasks@, visn, depsn, di + 1, fuel),
                                ) by {
                                    assert(!visc[dep_ix as int]);
                                    assert(fuel >= 1);
                                    assert((fuel - 1) as nat > count_whites(dpre.color@));
                                    assert(dfs_visit_spec(
                                        tasks@,
                                        visc,
                                        dep_ix as int,
                                        (fuel - 1) as nat,
                                    ) == Some((visn, delta)));
                                }
                                assert forall|fuel: nat|
                                    fuel > count_whites(c0) implies #[trigger] dfs_deps_spec(
                                    tasks@,
                                    vis_of(c0.update(node as int, Color::Gray)),
                                    depsn,
                                    0,
                                    fuel,
                                ) == with_order_prefix(
                                    emitted_new,
                                    dfs_deps_spec(tasks@, visn, depsn, di + 1, fuel),
                                ) by {
                                    assert(dfs_deps_spec(
                                        tasks@,
                                        vis_of(c0.update(node as int, Color::Gray)),
                                        depsn,
                                        0,
                                        fuel,
                                    ) == with_order_prefix(
                                        emitted_pre,
                                        dfs_deps_spec(tasks@, visc, depsn, di as int, fuel),
                                    ));
                                    assert(dfs_deps_spec(tasks@, visc, depsn, di as int, fuel)
                                        == with_order_prefix(
                                        delta,
                                        dfs_deps_spec(tasks@, visn, depsn, di + 1, fuel),
                                    ));
                                    lemma_with_prefix_assoc(
                                        emitted_pre,
                                        delta,
                                        dfs_deps_spec(tasks@, visn, depsn, di + 1, fuel),
                                    );
                                }
                            }
                            di = di + 1;
                        },
                    }
                }
            },
        }
    }
    // All dependencies are in the post-order; append this node.
    let ghost cpre = d.color@;
    let ghost ppre = d.path@;
    let ghost opre = d.order@;
    let _popped = d.path.pop();
    d.color.set(node, Color::Black);
    d.order.push(node);
    proof {
        lemma_count_whites_update(cpre, node as int, Color::Black);
        assert(d.path@ =~= path0);
        // The node was not already in the order, so uniqueness is kept.
        assert(!in_order(opre, node as int));
        assert forall|i: int, j: int| 0 <= i < j < d.order@.len() implies d.order@[i]
            != d.order@[j] by {
            if j < d.order@.len() - 1 {
                assert(opre[i] != opre[j]);
            } else {
                if d.order@[i] == node {
                    assert(opre[i] as int == node as int);
                    assert(in_order(opre, node as int));
                }
            }
        }
        // Blacks are exactly the order's members.
        assert forall|n: int|
            0 <= n < tasks@.len() implies ((#[trigger] d.color@[n]) == Color::Black <==> in_order(
            d.order@,
            n,
        )) by {
            if n == node as int {
                assert(d.order@[d.order@.len() - 1] == node);
            } else {
                if in_order(d.order@, n) {
                    let j = choose|j: int| 0 <= j < d.order@.len() && (d.order@[j]) as int == n;
                    assert(j < opre.len());
                    assert(opre[j] as int == n);
                }
                if in_order(opre, n) {
                    let j = choose|j: int| 0 <= j < opre.len() && (opre[j]) as int == n;
                    assert(d.order@[j] as int == n);
                }
            }
        }
        // Grays are exactly the stack's members.
        assert forall|n: int|
            0 <= n < tasks@.len() implies ((#[trigger] d.color@[n]) == Color::Gray <==> in_order(
            d.path@,
            n,
        )) by {
            if n != node as int {
                if in_order(d.path@, n) {
                    let j = choose|j: int| 0 <= j < d.path@.len() && (d.path@[j]) as int == n;
                    assert(ppre[j] as int == n);
                }
                if in_order(ppre, n) {
                    let j = choose|j: int| 0 <= j < ppre.len() && (ppre[j]) as int == n;
                    assert(j < ppre.len() - 1 || ppre[j] == node);
                    if j < ppre.len() - 1 {
                        assert(d.path@[j] as int == n);
                    }
                }
            } else {
                if in_order(d.path@, n) {
                    let j = choose|j: int| 0 <= j < d.path@.len() && (d.path@[j]) as int == n;
                    assert(ppre[j] as int == n);
                    assert(in_order(ppre, n));
                    assert(cpre[n] == Color::Gray);
                }
            }
        }
        // The order stays closed: old entries are untouched, and the new
        // entry's dependencies were all placed during the loop.
        assert forall|k: int| 0 <= k < d.order@.len() implies #[trigger] deps_satisfied_before(
            tasks@,
            d.order@,
            k,
        ) by {
            if k < d.order@.len() - 1 {
                assert(deps_satisfied_before(tasks@, opre, k));
                assert(d.order@[k] == opre[k]);
                assert forall|dd: int|
                    0 <= dd < deps_at(tasks@, d.order@[k] as int).len() && has_task(
                        tasks@,
                        (#[trigger] deps_at(tasks@, d.order@[k] as int)[dd])@,
                    ) implies exists|j: int|
                    0 <= j < k && #[trigger] plan_name_at(tasks@, d.order@, j) == deps_at(
                        tasks@,
                        d.order@[k] as int,
                    )[dd]@ by {
                    let j = choose|j: int|
                        0 <= j < k && #[trigger] plan_name_at(tasks@, opre, j) == deps_at(
                            tasks@,
                            opre[k] as int,
                        )[dd]@;
                    assert(d.order@[j] == opre[j]);
                    assert(plan_name_at(tasks@, d.order@, j) == plan_name_at(tasks@, opre, j));
                }
            } else {
                assert(d.order@[k] == node);
                assert forall|dd: int|
                    0 <= dd < deps_at(tasks@, d.order@[k] as int).len() && has_task(
                        tasks@,
                        (#[trigger] deps_at(tasks@, d.order@[k] as int)[dd])@,
                    ) implies exists|j: int|
                    0 <= j < k && #[trigger] plan_name_at(tasks@, d.order@, j) == deps_at(
                        tasks@,
                        d.order@[k] as int,
                    )[dd]@ by {
                    let j = choose|j: int|
                        0 <= j < opre.len() && #[trigger] plan_name_at(tasks@, opre, j) == deps_at(
                            tasks@,
                            node as int,
                        )[dd]@;
                    assert(d.order@[j] == opre[j]);
                    assert(plan_name_at(tasks@, d.order@, j) == plan_name_at(tasks@, opre, j));
                }
            }
        }
        assert(dfs_inv(tasks@, *d));
        // Everything this visit blackened is reachable from `node`.
        assert forall|m: int|
            0 <= m < tasks@.len() && (#[trigger] d.color@[m]) == Color::Black && c0[m]
                != Color::Black implies reaches_from(tasks@, node as int, m) by {
            if m == node as int {
                lemma_reaches_self(tasks@, m);
            } else {
                assert(d.color@[m] == cpre[m]);
            }
        }
        // This visit is exactly one step of the traversal spec.
        assert forall|fuel: nat| fuel > count_whites(c0) implies #[trigger] dfs_visit_spec(
            tasks@,
            vis_of(c0),
            node as int,
            fuel,
        ) == Some(
            (vis_of(d.color@), d.order@.subrange(order0.len() as int, d.order@.len() as int)),
        ) by {
            let depsn = deps_at(tasks@, node as int);
            assert(fuel >= 1);
            assert(!vis_of(c0)[node as int]);
            assert(vis_of(c0).update(node as int, true) =~= vis_of(
                c0.update(node as int, Color::Gray),
            ));
            let emitted = opre.subrange(order0.len() as int, opre.len() as int);
            assert(dfs_deps_spec(
                tasks@,
                vis_of(c0.update(node as int, Color::Gray)),
                depsn,
                0,
                fuel,
            ) == with_order_prefix(
                emitted,
                dfs_deps_spec(tasks@, vis_of(cpre), depsn, deps_len as int, fuel),
            ));
            assert(dfs_deps_spec(tasks@, vis_of(cpre), depsn, deps_len as int, fuel) == Some(
                (vis_of(cpre), Seq::<usize>::empty()),
            ));
            assert(emitted + Seq::<usize>::empty() =~= emitted);
            assert(vis_of(d.color@) =~= vis_of(cpre));
            assert(d.order@.subrange(order0.len() as int, d.order@.len() as int) =~= emitted.push(
                node,
            ));
        }
        // Strict mode: the new entry's dependencies were all found.
        if strict && all_deps_exist(tasks@, order0) {
            assert forall|k: int, dd: int|
                0 <= k < d.order@.len() && 0 <= dd < deps_at(
                    tasks@,
                    d.order@[k] as int,
                ).len() implies has_task(
                tasks@,
                (#[trigger] deps_at(tasks@, d.order@[k] as int)[dd])@,
            ) by {
                if k < d.order@.len() - 1 {
                    assert(d.order@[k] == opre[k]);
                    assert(has_task(tasks@, deps_at(tasks@, opre[k] as int)[dd]@));
                } else {
                    assert(d.order@[k] == node);
                    assert(has_task(tasks@, deps_at(tasks@, node as int)[dd]@));
                }
            }
        }
    }
    Ok(())
}

/// Position of task index `n` in the order (well-defined when it occurs once).
pub open spec fn pos_of(order: Seq<usize>, n: int) -> int {
    choose|j: int| 0 <= j < order.len() && (order[j]) as int == n
}

/// In a closed order, an edge's target sits strictly before its source.
proof fn lemma_edge_pos(tasks: Seq<(String, NurTask)>, order: Seq<usize>, u: int, v: int)
    requires
        tasks_wf(tasks),
        valid_indices(tasks, order),
        order.no_duplicates(),
        plan_closed(tasks, order),
        edge(tasks, u, v),
        in_order(order, u),
        in_order(order, v),
    ensures
        0 <= pos_of(order, v) < pos_of(order, u) < order.len(),
{
    let pu = pos_of(order, u);
    assert(0 <= pu < order.len() && (order[pu]) as int == u);
    let pv = pos_of(order, v);
    assert(0 <= pv < order.len() && (order[pv]) as int == v);
    let dd = choose|d: int|
        0 <= d < deps_at(tasks, u).len() && (#[trigger] deps_at(tasks, u)[d])@ == name_at(
            tasks,
            v,
        );
    assert(has_task(tasks, name_at(tasks, v))) by {
        assert(tasks[v].0@ == name_at(tasks, v));
    }
    assert(deps_satisfied_before(tasks, order, pu));
    assert(deps_at(tasks, order[pu] as int)[dd]@ == name_at(tasks, v));
    let j = choose|j: int|
        0 <= j < pu && #[trigger] plan_name_at(tasks, order, j) == deps_at(
            tasks,
            order[pu] as int,
        )[dd]@;
    lemma_name_unique(tasks, order[j] as int, v);
    assert((order[j]) as int == v);
    if pv != j {
        assert(order[pv] != order[j]);
    }
}

/// Along a cycle, positions in a closed complete order keep descending.
proof fn lemma_cycle_descent(
    tasks: Seq<(String, NurTask)>,
    order: Seq<usize>,
    c: Seq<usize>,
    k: int,
)
    requires
        tasks_wf(tasks),
        valid_indices(tasks, order),
        order.no_duplicates(),
        plan_closed(tasks, order),
        forall|m: int| 0 <= m < tasks.len() ==> in_order(order, m),
        is_cycle(tasks, c),
        0 <= k < c.len(),
    ensures
        pos_of(order, c[k] as int) <= pos_of(order, c[0] as int) - k,
    decreases k,
{
    if k > 0 {
        lemma_cycle_descent(tasks, order, c, k - 1);
        assert(edge(tasks, c[k - 1] as int, c[k] as int));
        lemma_edge_pos(tasks, order, c[k - 1] as int, c[k] as int);
    }
}

/// A closed order containing every task certifies that the graph is
/// loop-free: any cycle would have to keep moving to strictly earlier
/// positions and come back to where it started.
pub proof fn lemma_complete_order_acyclic(tasks: Seq<(String, NurTask)>, order: Seq<usize>)
    requires
        tasks_wf(tasks),
        valid_indices(tasks, order),
        order.no_duplicates(),
        plan_closed(tasks, order),
        forall|m: int| 0 <= m < tasks.len() ==> in_order(order, m),
    ensures
        !has_cycle(tasks),
{
    if has_cycle(tasks) {
        let c = choose|c: Seq<usize>| is_cycle(tasks, c);
        let ll = c.len() as int;
        lemma_cycle_descent(tasks, order, c, ll - 1);
        assert(c.last() == c[ll - 1]);
        assert(edge(tasks, c[ll - 1] as int, c[0] as int));
        lemma_edge_pos(tasks, order, c[ll - 1] as int, c[0] as int);
        assert(false);
    }
}

/// The index of the task with this name (well-defined when names are
/// unique).
pub open spec fn ix_of_name(tasks: Seq<(String, NurTask)>, name: Seq<char>) -> int {
    choose|i: int| 0 <= i < tasks.len() && tasks[i].0@ == name
}

/// Prepends already-produced plan entries to a traversal's remainder.
pub open spec fn with_order_prefix(pre: Seq<usize>, r: Option<(Seq<bool>, Seq<usize>)>) -> Option<
    (Seq<bool>, Seq<usize>),
> {
    match r {
        None => None,
        Some(p) => Some((p.0, pre + p.1)),
    }
}

/// The traversal that defines the plan, on the specification side: entering
/// an unvisited task marks it, walks its dependencies in declaration order,
/// and appends the task — depth-first post-order. A visited task contributes
/// nothing. `fuel` bounds the nesting; any amount above the number of
/// unvisited tasks is enough.
pub open spec fn dfs_visit_spec(
    tasks: Seq<(String, NurTask)>,
    vis: Seq<bool>,
    node: int,
    fuel: nat,
) -> Option<(Seq<bool>, Seq<usize>)>
    decreases fuel, 1nat, 0nat,
{
    if fuel == 0 {
        None
    } else if vis[node] {
        Some((vis, Seq::empty()))
    } else {
        let v1 = vis.update(node, true);
        match dfs_deps_spec(tasks, v1, deps_at(tasks, node), 0, fuel) {
            None => None,
            Some(p) => Some((p.0, p.1.push(node as usize))),
        }
    }
}

/// Walks the dependency names from position `di` on: a name with no task is
/// skipped, a visited dependency contributes nothing, an unvisited one is
/// entered.
pub open spec fn dfs_deps_spec(
    tasks: Seq<(String, NurTask)>,
    vis: Seq<bool>,
    deps: Seq<String>,
    di: int,
    fuel: nat,
) -> Option<(Seq<bool>, Seq<usize>)>
    decreases fuel, 0nat, deps.len() - di,
{
    if di < 0 || di >= deps.len() {
        Some((vis, Seq::empty()))
    } else if !has_task(tasks, deps[di]@) {
        dfs_deps_spec(tasks, vis, deps, di + 1, fuel)
    } else {
        let ix = ix_of_name(tasks, deps[di]@);
        if vis[ix] {
            dfs_deps_spec(tasks, vis, deps, di + 1, fuel)
        } else if fuel == 0 {
            None
        } else {
            match dfs_visit_spec(tasks, vis, ix, (fuel - 1) as nat) {
                None => None,
                Some(p1) => with_order_prefix(p1.1, dfs_deps_spec(tasks, p1.0, deps, di + 1, fuel)),
            }
        }
    }
}

/// The whole prescribed traversal: each root name in the order given, over a
/// shared visited set; `None` when a root names no task.
pub open spec fn plan_spec_from(
    tasks: Seq<(String, NurTask)>,
    roots: Seq<Seq<char>>,
    vis: Seq<bool>,
    ri: int,
) -> Option<(Seq<bool>, Seq<usize>)>
    decreases roots.len() - ri,
{
    if ri < 0 || ri >= roots.len() {
        Some((vis, Seq::empty()))
    } else if !has_task(tasks, roots[ri]) {
        None
    } else {
        match dfs_visit_spec(tasks, vis, ix_of_name(tasks, roots[ri]), tasks.len() + 1) {
            None => None,
            Some(p1) => with_order_prefix(
                p1.1,
                plan_spec_from(tasks, roots, p1.0, ri + 1),
            ),
        }
    }
}

/// The execution plan the specification prescribes for these root names.
pub open spec fn plan_spec(tasks: Seq<(String, NurTask)>, roots: Seq<Seq<char>>) -> Option<
    Seq<usize>,
> {
    match plan_spec_from(tasks, roots, Seq::new(tasks.len(), |i: int| false), 0) {
        None => None,
        Some(p) => Some(p.1),
    }
}

/// Which tasks the traversal has entered, per the colouring.
spec fn vis_of(colors: Seq<Color>) -> Seq<bool> {
    Seq::new(colors.len(), |i: int| colors[i] != Color::White)
}

proof fn lemma_count_whites_bound(s: Seq<Color>)
    ensures
        count_whites(s) <= s.len(),
    decreases s.len(),
{
    if s.len() > 0 {
        lemma_count_whites_bound(s.drop_last());
    }
}

proof fn lemma_count_whites_pos(s: Seq<Color>, i: int)
    requires
        0 <= i < s.len(),
        s[i] == Color::White,
    ensures
        count_whites(s) >= 1,
    decreases s.len(),
{
    if i < s.len() - 1 {
        lemma_count_whites_pos(s.drop_last(), i);
    }
}

/// The names have the same length and spell out the tasks at these indices.
pub open spec fn names_match(
    tasks: Seq<(String, NurTask)>,
    names: Seq<Seq<char>>,
    c: Seq<usize>,
) -> bool {
    names.len() == c.len() && forall|k: int|
        0 <= k < c.len() ==> names[k] == name_at(tasks, (#[trigger] c[k]) as int)
}

/// The name of each task at these indices, in order.
pub(crate) fn names_at(tasks: &Vec<(String, NurTask)>, c: &Vec<usize>) -> (r: Vec<String>)
    requires
        valid_indices(tasks@, c@),
    ensures
        names_match(tasks@, r.deep_view(), c@),
{
    let mut r: Vec<String> = Vec::new();
    let mut i: usize = 0;
    while i < c.len()
        invariant
            i <= c@.len(),
            valid_indices(tasks@, c@),
            r@.len() == i,
            forall|k: int| 0 <= k < i ==> r.deep_view()[k] == name_at(tasks@, (#[trigger] c@[k]) as int),
        decreases c@.len() - i,
    {
        r.push(tasks[c[i]].0.clone());
        i = i + 1;
    }
    r
}

/// There is a root with this name.
pub open spec fn root_named(roots: Seq<String>, name: Seq<char>) -> bool {
    exists|ri: int| 0 <= ri < roots.len() && (#[trigger] roots[ri])@ == name
}

/// A name occurs somewhere in the order.
pub open spec fn name_in_order(
    tasks: Seq<(String, NurTask)>,
    order: Seq<usize>,
    name: Seq<char>,
) -> bool {
    exists|k: int| 0 <= k < order.len() && #[trigger] plan_name_at(tasks, order, k) == name
}

proof fn lemma_name_in_order_stable(
    tasks: Seq<(String, NurTask)>,
    pre: Seq<usize>,
    post: Seq<usize>,
    name: Seq<char>,
)
    requires
        pre.is_prefix_of(post),
        name_in_order(tasks, pre, name),
    ensures
        name_in_order(tasks, post, name),
{
    let k = choose|k: int| 0 <= k < pre.len() && #[trigger] plan_name_at(tasks, pre, k) == name;
    assert(post[k] == pre[k]);
    assert(plan_name_at(tasks, post, k) == name);
}

/// Checks the whole task map for dependency loops. `Ok` means there is none
/// anywhere in the map; the error carries one loop, spelled out in names.
pub fn check_cycles(tasks: &Vec<(String, NurTask)>) -> (r: Result<(), crate::Cycle>)
    requires
        tasks_wf(tasks@),
    ensures
        r is Ok <==> !has_cycle(tasks@),
        r matches Err(cycle) ==> exists|c: Seq<usize>|
            is_cycle(tasks@, c) && names_match(tasks@, cycle@, c),
{
    let mut d = Dfs::new(tasks.len());
    let mut n: usize = 0;
    while n < tasks.len()
        invariant
            tasks_wf(tasks@),
            dfs_inv(tasks@, d),
            d.color@.len() == tasks@.len(),
            d.path@.len() == 0,
            n <= tasks@.len(),
            forall|m: int| 0 <= m < n ==> (#[trigger] d.color@[m]) == Color::Black,
        decreases tasks@.len() - n,
    {
        let cn = d.color[n];
        if cn == Color::White {
            match visit(tasks, &mut d, n, false) {
                Ok(()) => {},
                Err(VisitErr::CycleFound(c)) => {
                    let names = names_at(tasks, &c);
                    let ghost cg = c@;
                    let cyc = crate::Cycle { path: names };
                    proof {
                        assert(is_cycle(tasks@, cg) && names_match(tasks@, cyc@, cg));
                    }
                    return Err(cyc);
                },
                Err(VisitErr::Missing(_)) => {
                    proof {
                        assert(false);
                    }
                },
            }
        } else {
            proof {
                if cn == Color::Gray {
                    assert(in_order(d.path@, n as int));
                    assert(false);
                }
            }
        }
        n = n + 1;
    }
    proof {
        assert forall|m: int| 0 <= m < tasks@.len() implies in_order(d.order@, m) by {
            assert(d.color@[m] == Color::Black);
        }
        lemma_complete_order_acyclic(tasks@, d.order@);
    }
    Ok(())
}

/// Builds the execution plan: a depth-first post-order visit from each
/// requested root in turn. Dependencies land before dependents, every root is
/// in the plan, and a root or dependency name with no task is rejected.
pub fn execution_order(tasks: &Vec<(String, NurTask)>, roots: &Vec<String>) -> (r: Result<
    Vec<usize>,
    crate::Error,
>)
    requires
        tasks_wf(tasks@),
    ensures
        match r {
            Ok(o) => {
                &&& valid_indices(tasks@, o@)
                &&& o@.no_duplicates()
                &&& plan_closed(tasks@, o@)
                &&& all_deps_exist(tasks@, o@)
                &&& forall|ri: int|
                    0 <= ri < roots@.len() ==> name_in_order(
                        tasks@,
                        o@,
                        (#[trigger] roots@[ri])@,
                    )
                &&& forall|k: int|
                    0 <= k < o@.len() ==> reachable_from_roots(
                        tasks@,
                        roots@,
                        (#[trigger] o@[k]) as int,
                    )
                &&& plan_spec(tasks@, roots.deep_view()) == Some(o@)
            },
            Err(e) => match e {
                crate::Error::TaskCycle { cycle } => exists|c: Seq<usize>|
                    is_cycle(tasks@, c) && names_match(tasks@, cycle@, c),
                crate::Error::NoSuchTask { task_name } => !has_task(tasks@, task_name@) && (
                root_named(roots@, task_name@) || is_declared_dep(tasks@, task_name@)),
                _ => false,
            },
        },
{
    let ghost rv = roots.deep_view();
    let ghost vis00 = Seq::new(tasks@.len(), |i: int| false);
    let mut d = Dfs::new(tasks.len());
    proof {
        assert(vis_of(d.color@) =~= vis00);
        assert(plan_spec_from(tasks@, rv, vis00, 0) == with_order_prefix(
            d.order@,
            plan_spec_from(tasks@, rv, vis_of(d.color@), 0),
        )) by {
            match plan_spec_from(tasks@, rv, vis00, 0) {
                None => {},
                Some(pp) => {
                    assert(d.order@ + pp.1 =~= pp.1);
                },
            }
        }
    }
    let mut ri: usize = 0;
    while ri < roots.len()
        invariant
            tasks_wf(tasks@),
            dfs_inv(tasks@, d),
            d.color@.len() == tasks@.len(),
            d.path@.len() == 0,
            ri <= roots@.len(),
            rv == roots.deep_view(),
            vis00 == Seq::new(tasks@.len(), |i: int| false),
            all_deps_exist(tasks@, d.order@),
            plan_spec_from(tasks@, rv, vis00, 0) == with_order_prefix(
                d.order@,
                plan_spec_from(tasks@, rv, vis_of(d.color@), ri as int),
            ),
            forall|q: int|
                0 <= q < ri ==> name_in_order(tasks@, d.order@, (#[trigger] roots@[q])@),
            forall|k: int|
                0 <= k < d.order@.len() ==> reachable_from_roots(
                    tasks@,
                    roots@,
                    (#[trigger] d.order@[k]) as int,
                ),
        decreases roots@.len() - ri,
    {
        let root = &roots[ri];
        match lookup_task(tasks, root) {
            None => {
                return Err(crate::Error::NoSuchTask { task_name: root.clone() });
            },
            Some(ix) => {
                let cn = d.color[ix];
                if cn == Color::White {
                    let ghost dpre = d;
                    let ghost pre = d.order@;
                    match visit(tasks, &mut d, ix, true) {
                        Ok(()) => {
                            proof {
                                assert forall|q: int| 0 <= q < ri + 1 implies name_in_order(
                                    tasks@,
                                    d.order@,
                                    (#[trigger] roots@[q])@,
                                ) by {
                                    if q < ri {
                                        lemma_name_in_order_stable(
                                            tasks@,
                                            pre,
                                            d.order@,
                                            roots@[q]@,
                                        );
                                    } else {
                                        assert(in_order(d.order@, ix as int));
                                        let k = choose|k: int|
                                            0 <= k < d.order@.len() && (d.order@[k]) as int
                                                == ix as int;
                                        assert(plan_name_at(tasks@, d.order@, k) == roots@[q]@);
                                    }
                                }
                                // New plan entries are exactly what this
                                // root's visit blackened, hence reachable.
                                assert forall|k: int|
                                    0 <= k < d.order@.len() implies reachable_from_roots(
                                    tasks@,
                                    roots@,
                                    (#[trigger] d.order@[k]) as int,
                                ) by {
                                    if k < pre.len() {
                                        assert(d.order@[k] == pre[k]);
                                    } else {
                                        let m = (d.order@[k]) as int;
                                        assert(in_order(d.order@, m));
                                        if in_order(pre, m) {
                                            let j = choose|j: int|
                                                0 <= j < pre.len() && (pre[j]) as int == m;
                                            assert(d.order@[j] == d.order@[k]);
                                            assert(false);
                                        }
                                        assert(dpre.color@[m] != Color::Black);
                                        assert(0 <= m < tasks@.len());
                                        assert(d.color@[m] == Color::Black);
                                        assert(reaches_from(tasks@, ix as int, m));
                                        let pchain = choose|pc: Seq<usize>|
                                            is_chain(tasks@, pc) && (pc[0]) as int == ix as int
                                                && (pc.last()) as int == m;
                                        assert(roots@[ri as int]@ == name_at(
                                            tasks@,
                                            pchain[0] as int,
                                        ));
                                        assert(root_named(
                                            roots@,
                                            name_at(tasks@, pchain[0] as int),
                                        ));
                                    }
                                }
                                // One root step of the prescribed traversal.
                                assert(rv[ri as int] == roots@[ri as int]@);
                                assert(has_task(tasks@, rv[ri as int])) by {
                                    assert(tasks@[ix as int].0@ == roots@[ri as int]@);
                                }
                                assert(0 <= ix_of_name(tasks@, rv[ri as int]) < tasks@.len());
                                assert(tasks@[ix_of_name(tasks@, rv[ri as int])].0@ == rv[ri as int]);
                                lemma_name_unique(
                                    tasks@,
                                    ix_of_name(tasks@, rv[ri as int]),
                                    ix as int,
                                );
                                lemma_count_whites_bound(dpre.color@);
                                let fuelx = tasks@.len() + 1;
                                assert(fuelx > count_whites(dpre.color@));
                                let delta = d.order@.subrange(
                                    pre.len() as int,
                                    d.order@.len() as int,
                                );
                                assert(dfs_visit_spec(tasks@, vis_of(dpre.color@), ix as int, fuelx)
                                    == Some((vis_of(d.color@), delta)));
                                assert(plan_spec_from(tasks@, rv, vis_of(dpre.color@), ri as int)
                                    == with_order_prefix(
                                    delta,
                                    plan_spec_from(tasks@, rv, vis_of(d.color@), ri + 1),
                                ));
                                assert(pre + delta =~= d.order@) by {
                                    assert forall|q: int|
                                        0 <= q < d.order@.len() implies d.order@[q] == (pre
                                        + delta)[q] by {
                                        if q < pre.len() {
                                            assert(d.order@[q] == pre[q]);
                                        }
                                    }
                                }
                                assert(plan_spec_from(tasks@, rv, vis00, 0) == with_order_prefix(
                                    d.order@,
                                    plan_spec_from(tasks@, rv, vis_of(d.color@), ri + 1),
                                )) by {
                                    assert(plan_spec_from(tasks@, rv, vis00, 0)
                                        == with_order_prefix(
                                        pre,
                                        plan_spec_from(tasks@, rv, vis_of(dpre.color@), ri as int),
                                    ));
                                    lemma_with_prefix_assoc(
                                        pre,
                                        delta,
                                        plan_spec_from(tasks@, rv, vis_of(d.color@), ri + 1),
                                    );
                                }
                            }
                        },
                        Err(VisitErr::CycleFound(c)) => {
                            let ghost cg = c@;
                            let names = names_at(tasks, &c);
                            let cyc = crate::Cycle { path: names };
                            proof {
                                assert(is_cycle(tasks@, cg) && names_match(tasks@, cyc@, cg));
                            }
                            return Err(crate::Error::TaskCycle { cycle: cyc });
                        },
                        Err(VisitErr::Missing(nm)) => {
                            return Err(crate::Error::NoSuchTask { task_name: nm });
                        },
                    }
                } else {
                    proof {
                        if cn == Color::Gray {
                            assert(in_order(d.path@, ix as int));
                            assert(false);
                        }
                        assert(in_order(d.order@, ix as int));
                        let k = choose|k: int|
                            0 <= k < d.order@.len() && (d.order@[k]) as int == ix as int;
                        assert(plan_name_at(tasks@, d.order@, k) == roots@[ri as int]@);
                        // An already-visited root adds nothing to the
                        // prescribed traversal either.
                        assert(rv[ri as int] == roots@[ri as int]@);
                        assert(has_task(tasks@, rv[ri as int])) by {
                            assert(tasks@[ix as int].0@ == roots@[ri as int]@);
                        }
                        assert(0 <= ix_of_name(tasks@, rv[ri as int]) < tasks@.len());
                        assert(tasks@[ix_of_name(tasks@, rv[ri as int])].0@ == rv[ri as int]);
                        lemma_name_unique(tasks@, ix_of_name(tasks@, rv[ri as int]), ix as int);
                        assert(vis_of(d.color@)[ix as int]);
                        assert(dfs_visit_spec(
                            tasks@,
                            vis_of(d.color@),
                            ix as int,
                            tasks@.len() + 1,
                        ) == Some((vis_of(d.color@), Seq::<usize>::empty())));
                        assert(plan_spec_from(tasks@, rv, vis_of(d.color@), ri as int)
                            == plan_spec_from(tasks@, rv, vis_of(d.color@), ri + 1)) by {
                            match plan_spec_from(tasks@, rv, vis_of(d.color@), ri + 1) {
                                None => {},
                                Some(pp) => {
                                    assert(Seq::<usize>::empty() + pp.1 =~= pp.1);
                                },
                            }
                        }
                    }
                }
            },
        }
        ri = ri + 1;
    }
    proof {
        assert(plan_spec_from(tasks@, rv, vis_of(d.color@), ri as int) == Some(
            (vis_of(d.color@), Seq::<usize>::empty()),
        ));
        assert(plan_spec_from(tasks@, rv, vis00, 0) == Some((vis_of(d.color@), d.order@))) by {
            assert(d.order@ + Seq::<usize>::empty() =~= d.order@);
        }
        assert(plan_spec(tasks@, rv) == Some(d.order@));
    }
    let Dfs { color: _, path: _, order } = d;
    Ok(order)
}

} // verus!
