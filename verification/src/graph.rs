//! The compilation-unit graph: an arena of unit records addressed by dense
//! identifiers, with named directed dependency edges kept acyclic by
//! checking every inserted edge, and the traversals built on it.

use vstd::prelude::*;

use crate::cfg_model::CfgOptions;
use crate::input::CrateData;
use crate::input::CrateDataView;
use crate::input::CrateDisplayName;
use crate::input::CrateId;
use crate::input::CrateName;
use crate::input::Dependency;
use crate::input::DependencyView;
use crate::input::Edition;
use crate::input::Env;
use crate::input::FileId;
use crate::input::ProcMacro;

verus! {

/// `v` can be reached from `u` in at most `n` steps of the edge relation `e`.
pub open spec fn reach_n(e: spec_fn(int, int) -> bool, u: int, v: int, n: nat) -> bool
    decreases n,
{
    u == v || (n > 0 && exists|w: int| #[trigger] e(u, w) && reach_n(e, w, v, (n - 1) as nat))
}

/// `v` can be reached from `u` along the edge relation `e`.
pub open spec fn reach(e: spec_fn(int, int) -> bool, u: int, v: int) -> bool {
    exists|n: nat| reach_n(e, u, v, n)
}

/// The edge relation with all edges turned around.
pub open spec fn flip(e: spec_fn(int, int) -> bool) -> spec_fn(int, int) -> bool {
    |u: int, v: int| e(v, u)
}

/// No edge closes a loop: an edge's target never reaches back to its source.
pub open spec fn acyclic(e: spec_fn(int, int) -> bool) -> bool {
    forall|u: int, v: int| #[trigger] e(u, v) ==> !reach(e, v, u)
}

pub proof fn lemma_reach_refl(e: spec_fn(int, int) -> bool, u: int)
    ensures
        reach(e, u, u),
{
    assert(reach_n(e, u, u, 0));
}

pub proof fn lemma_reach_step(e: spec_fn(int, int) -> bool, u: int, w: int, v: int)
    requires
        e(u, w),
        reach(e, w, v),
    ensures
        reach(e, u, v),
{
    let n = choose|n: nat| reach_n(e, w, v, n);
    assert(reach_n(e, u, v, n + 1));
}

proof fn lemma_reach_n_trans(e: spec_fn(int, int) -> bool, u: int, v: int, w: int, n: nat, m: nat)
    requires
        reach_n(e, u, v, n),
        reach_n(e, v, w, m),
    ensures
        reach_n(e, u, w, n + m),
    decreases n,
{
    if u == v {
        lemma_reach_n_mono(e, v, w, m, n + m);
    } else {
        let x = choose|x: int| #[trigger] e(u, x) && reach_n(e, x, v, (n - 1) as nat);
        lemma_reach_n_trans(e, x, v, w, (n - 1) as nat, m);
    }
}

proof fn lemma_reach_n_mono(e: spec_fn(int, int) -> bool, u: int, v: int, n: nat, m: nat)
    requires
        reach_n(e, u, v, n),
        n <= m,
    ensures
        reach_n(e, u, v, m),
    decreases n,
{
    if u != v {
        let x = choose|x: int| #[trigger] e(u, x) && reach_n(e, x, v, (n - 1) as nat);
        lemma_reach_n_mono(e, x, v, (n - 1) as nat, (m - 1) as nat);
    }
}

pub proof fn lemma_reach_trans(e: spec_fn(int, int) -> bool, u: int, v: int, w: int)
    requires
        reach(e, u, v),
        reach(e, v, w),
    ensures
        reach(e, u, w),
{
    let n = choose|n: nat| reach_n(e, u, v, n);
    let m = choose|m: nat| reach_n(e, v, w, m);
    lemma_reach_n_trans(e, u, v, w, n, m);
}

proof fn lemma_reach_n_flip(e: spec_fn(int, int) -> bool, u: int, v: int, n: nat)
    requires
        reach_n(e, u, v, n),
    ensures
        reach_n(flip(e), v, u, n),
    decreases n,
{
    if u != v {
        let w = choose|w: int| #[trigger] e(u, w) && reach_n(e, w, v, (n - 1) as nat);
        lemma_reach_n_flip(e, w, v, (n - 1) as nat);
        assert(flip(e)(w, u));
        assert(reach_n(flip(e), u, u, 0));
        assert(reach_n(flip(e), w, u, 1));
        lemma_reach_n_trans(flip(e), v, w, u, (n - 1) as nat, 1);
    }
}

/// Reachability along flipped edges is reachability the other way round.
pub proof fn lemma_reach_flip(e: spec_fn(int, int) -> bool, u: int, v: int)
    ensures
        reach(e, u, v) <==> reach(flip(e), v, u),
{
    if reach(e, u, v) {
        let n = choose|n: nat| reach_n(e, u, v, n);
        lemma_reach_n_flip(e, u, v, n);
    }
    if reach(flip(e), v, u) {
        let n = choose|n: nat| reach_n(flip(e), v, u, n);
        lemma_reach_n_flip(flip(e), v, u, n);
        assert forall|a: int, b: int| #[trigger] flip(flip(e))(a, b) implies e(a, b) by {}
        lemma_reach_n_rel_mono(flip(flip(e)), e, u, v, n);
    }
}

proof fn lemma_reach_n_rel_mono(
    e1: spec_fn(int, int) -> bool,
    e2: spec_fn(int, int) -> bool,
    u: int,
    v: int,
    n: nat,
)
    requires
        forall|a: int, b: int| #[trigger] e1(a, b) ==> e2(a, b),
        reach_n(e1, u, v, n),
    ensures
        reach_n(e2, u, v, n),
    decreases n,
{
    if u != v {
        let w = choose|w: int| #[trigger] e1(u, w) && reach_n(e1, w, v, (n - 1) as nat);
        lemma_reach_n_rel_mono(e1, e2, w, v, (n - 1) as nat);
    }
}

/// A weaker edge relation reaches no more.
pub proof fn lemma_reach_rel_mono(
    e1: spec_fn(int, int) -> bool,
    e2: spec_fn(int, int) -> bool,
    u: int,
    v: int,
)
    requires
        forall|a: int, b: int| #[trigger] e1(a, b) ==> e2(a, b),
        reach(e1, u, v),
    ensures
        reach(e2, u, v),
{
    let n = choose|n: nat| reach_n(e1, u, v, n);
    lemma_reach_n_rel_mono(e1, e2, u, v, n);
}

proof fn lemma_reach_n_in_closed(e: spec_fn(int, int) -> bool, s: Set<int>, u: int, v: int, n: nat)
    requires
        forall|a: int, b: int| s.contains(a) && #[trigger] e(a, b) ==> s.contains(b),
        s.contains(u),
        reach_n(e, u, v, n),
    ensures
        s.contains(v),
    decreases n,
{
    if u != v {
        let w = choose|w: int| #[trigger] e(u, w) && reach_n(e, w, v, (n - 1) as nat);
        lemma_reach_n_in_closed(e, s, w, v, (n - 1) as nat);
    }
}

/// A set that contains `u` and is closed under following edges contains
/// everything reachable from `u`.
pub proof fn lemma_reach_in_closed(e: spec_fn(int, int) -> bool, s: Set<int>, u: int, v: int)
    requires
        forall|a: int, b: int| s.contains(a) && #[trigger] e(a, b) ==> s.contains(b),
        s.contains(u),
        reach(e, u, v),
    ensures
        s.contains(v),
{
    let n = choose|n: nat| reach_n(e, u, v, n);
    lemma_reach_n_in_closed(e, s, u, v, n);
}

proof fn lemma_reach_n_new_edge(
    e: spec_fn(int, int) -> bool,
    enew: spec_fn(int, int) -> bool,
    f: int,
    t: int,
    u: int,
    v: int,
    n: nat,
)
    requires
        forall|a: int, b: int| #[trigger] enew(a, b) <==> (e(a, b) || (a == f && b == t)),
        !reach(e, t, f),
        reach_n(enew, u, v, n),
    ensures
        reach(e, u, v) || (reach(e, u, f) && reach(e, t, v)),
    decreases n,
{
    if u == v {
        lemma_reach_refl(e, u);
    } else {
        let w = choose|w: int| #[trigger] enew(u, w) && reach_n(enew, w, v, (n - 1) as nat);
        lemma_reach_n_new_edge(e, enew, f, t, w, v, (n - 1) as nat);
        if e(u, w) {
            if reach(e, w, v) {
                lemma_reach_step(e, u, w, v);
            } else {
                lemma_reach_step(e, u, w, f);
            }
        } else {
            // the new edge itself: u == f, w == t
            if reach(e, w, v) {
                lemma_reach_refl(e, u);
            } else {
                // reach(e, t, f) would follow, contradicting the requires
                assert(reach(e, w, f));
                assert(false);
            }
        }
    }
}

/// Adding the edge `f -> t` to an acyclic relation in which `t` does not
/// reach `f` keeps the relation acyclic.
pub proof fn lemma_acyclic_add_edge(
    e: spec_fn(int, int) -> bool,
    enew: spec_fn(int, int) -> bool,
    f: int,
    t: int,
)
    requires
        forall|a: int, b: int| #[trigger] enew(a, b) <==> (e(a, b) || (a == f && b == t)),
        acyclic(e),
        !reach(e, t, f),
    ensures
        acyclic(enew),
{
    assert forall|u: int, v: int| #[trigger] enew(u, v) implies !reach(enew, v, u) by {
        if reach(enew, v, u) {
            let n = choose|n: nat| reach_n(enew, v, u, n);
            lemma_reach_n_new_edge(e, enew, f, t, v, u, n);
            if e(u, v) {
                if reach(e, v, u) {
                    assert(false);
                } else {
                    // reach(e, v, f) and reach(e, t, u): then t -> u -> v -> f
                    lemma_reach_step(e, u, v, f);
                    lemma_reach_trans(e, t, u, f);
                    assert(false);
                }
            } else {
                // u == f, v == t
                if reach(e, v, u) {
                    assert(false);
                } else {
                    lemma_reach_trans(e, t, v, f);
                    assert(false);
                }
            }
        }
    }
}

/// A directed, named edge from unit `u` to unit `v` exists in the graph.
pub open spec fn graph_edge(g: Seq<CrateDataView>, u: int, v: int) -> bool {
    &&& 0 <= u < g.len()
    &&& exists|i: int|
        0 <= i < g[u].dependencies.len() && #[trigger] g[u].dependencies[i].crate_id == v
}

/// The graph's edge relation as a function, for the reachability theory.
pub open spec fn edge_rel(g: Seq<CrateDataView>) -> spec_fn(int, int) -> bool {
    |u: int, v: int| graph_edge(g, u, v)
}

/// Identifiers fit in the identifier type and every edge targets a unit of
/// the arena.
pub open spec fn wf_graph(g: Seq<CrateDataView>) -> bool {
    &&& g.len() <= u32::MAX
    &&& (forall|u: int, i: int|
        0 <= u < g.len() && 0 <= i < g[u].dependencies.len() ==> 0 <= (
        #[trigger] g[u].dependencies[i].crate_id) < g.len())
}

/// The whole-graph dependency relation has no cycle.
pub open spec fn acyclic_graph(g: Seq<CrateDataView>) -> bool {
    acyclic(edge_rel(g))
}

/// The attempt to close a dependency cycle: both endpoints of the rejected
/// edge, with their display names for diagnostics.
pub struct CyclicDependenciesError {
    pub from: (CrateId, Option<CrateDisplayName>),
    pub to: (CrateId, Option<CrateDisplayName>),
}

/// A set of compilation units and their named dependency edges: the unit of
/// analysis input that turns a set of text files into code with structure.
/// Units are stored in an arena and addressed by dense identifiers, assigned
/// monotonically and never reused; a merged-in graph's units are relabelled
/// by a shift. The graph is build-system agnostic.
#[derive(Debug, Clone, PartialEq, Eq)]
pub struct CrateGraph {
    arena: Vec<CrateData>,
}

impl View for CrateGraph {
    type V = Seq<CrateDataView>;

    closed spec fn view(&self) -> Seq<CrateDataView> {
        self.arena@.map_values(|d: CrateData| d@)
    }
}

impl CrateGraph {
    /// The arena is well formed and every unit's option sets and
    /// environment are duplicate-free.
    pub closed spec fn wf(&self) -> bool {
        &&& wf_graph(self@)
        &&& (forall|i: int| 0 <= i < self.arena@.len() ==> (#[trigger] self.arena@[i]).wf())
    }

    /// Well-formedness seen through the view.
    pub proof fn lemma_wf(&self)
        requires
            self.wf(),
        ensures
            wf_graph(self@),
    {
    }

    /// Whether the graph holds no unit at all.
    pub fn is_empty(&self) -> (r: bool)
        ensures
            r == (self@.len() == 0),
    {
        self.arena.len() == 0
    }

    /// All unit identifiers, in ascending order.
    pub fn iter(&self) -> (r: Vec<CrateId>)
        requires
            self.wf(),
        ensures
            r@.len() == self@.len(),
            forall|i: int| 0 <= i < r@.len() ==> r@[i].0 == i,
    {
        let n = self.arena.len();
        let mut r: Vec<CrateId> = Vec::new();
        #[verifier::loop_isolation(false)]
        for i in 0..n
            invariant
                r@.len() == i,
                forall|j: int| 0 <= j < i ==> r@[j].0 == j,
        {
            r.push(CrateId(i as u32));
        }
        r
    }

    /// The record of unit `id`.
    pub fn crate_data(&self, id: CrateId) -> (r: &CrateData)
        requires
            self.wf(),
            (id.0 as int) < self@.len(),
        ensures
            r@ == self@[id.0 as int],
            r.wf(),
    {
        &self.arena[id.0 as usize]
    }

    /// Adds a unit with no dependency edges and hands back its identifier:
    /// the next dense index, never chosen by the caller.
    pub fn add_crate_root(
        &mut self,
        file_id: FileId,
        edition: Edition,
        display_name: Option<CrateDisplayName>,
        cfg_options: CfgOptions,
        potential_cfg_options: CfgOptions,
        env: Env,
        proc_macro: Vec<ProcMacro>,
    ) -> (r: CrateId)
        requires
            old(self).wf(),
            old(self)@.len() < u32::MAX,
            cfg_options.wf(),
            potential_cfg_options.wf(),
            env.wf(),
        ensures
            final(self).wf(),
            r.0 == old(self)@.len(),
            final(self)@.len() == old(self)@.len() + 1,
            final(self)@ =~= old(self)@.push(
                CrateDataView {
                    root_file_id: file_id.0 as int,
                    edition: edition,
                    display_name: match display_name {
                        Some(dn) => Some(dn@),
                        None => None,
                    },
                    cfg_options: cfg_options@,
                    potential_cfg_options: potential_cfg_options@,
                    env: env@,
                    dependencies: Seq::empty(),
                    proc_macro: proc_macro@.map_values(|p: ProcMacro| p@),
                },
            ),
            acyclic_graph(old(self)@) ==> acyclic_graph(final(self)@),
    {
        let data = CrateData {
            root_file_id: file_id,
            edition,
            display_name,
            cfg_options,
            potential_cfg_options,
            env,
            proc_macro,
            dependencies: Vec::new(),
        };
        let crate_id = CrateId(self.arena.len() as u32);
        self.arena.push(data);
        proof {
            let k = old(self)@.len() as int;
            assert(self.arena@[k]@.dependencies =~= Seq::<DependencyView>::empty());
            assert(self@ =~= old(self)@.push(self.arena@[k]@));
            assert(self.arena@[k]@ == (CrateDataView {
                root_file_id: file_id.0 as int,
                edition: edition,
                display_name: match display_name {
                    Some(dn) => Some(dn@),
                    None => None,
                },
                cfg_options: cfg_options@,
                potential_cfg_options: potential_cfg_options@,
                env: env@,
                dependencies: Seq::empty(),
                proc_macro: proc_macro@.map_values(|p: ProcMacro| p@),
            }));
            let g0 = old(self)@;
            let g1 = self@;
            assert forall|u: int, v: int| #[trigger] graph_edge(g1, u, v) implies graph_edge(
                g0,
                u,
                v,
            ) by {
                if u < g0.len() {
                    assert(g1[u] == g0[u]);
                } else {
                    assert(g1[u].dependencies.len() == 0);
                }
            }
            assert forall|u: int, v: int| #[trigger] graph_edge(g0, u, v) implies graph_edge(
                g1,
                u,
                v,
            ) by {
                assert(g1[u] == g0[u]);
            }
            if acyclic_graph(g0) {
                assert forall|u: int, v: int| #[trigger] edge_rel(g1)(u, v) implies !reach(
                    edge_rel(g1),
                    v,
                    u,
                ) by {
                    assert(edge_rel(g0)(u, v));
                    if reach(edge_rel(g1), v, u) {
                        lemma_reach_rel_mono(edge_rel(g1), edge_rel(g0), v, u);
                        assert(false);
                    }
                }
            }
        }
        crate_id
    }
}

/// The indices at which `v` is `true`.
pub open spec fn true_set(v: Seq<bool>) -> Set<int> {
    Set::new(|k: int| 0 <= k < v.len() && v[k])
}

proof fn lemma_reach_append(e: spec_fn(int, int) -> bool, a: int, b: int, c: int)
    requires
        reach(e, a, b),
        e(b, c),
    ensures
        reach(e, a, c),
{
    lemma_reach_refl(e, c);
    lemma_reach_step(e, b, c, c);
    lemma_reach_trans(e, a, b, c);
}

fn clone_opt_display(o: &Option<CrateDisplayName>) -> (r: Option<CrateDisplayName>)
    ensures
        r == *o,
{
    match o {
        Some(dn) => Some(dn.clone()),
        None => None,
    }
}

impl CrateGraph {
    /// Whether `target` can be reached from `from` by following dependency
    /// edges forward: a work-list search with a visited set, so it
    /// terminates and visits each unit once even on diamond shapes.
    #[verifier::loop_isolation(false)]
    fn dfs_find(&self, target: CrateId, from: CrateId) -> (r: bool)
        requires
            self.wf(),
            (target.0 as int) < self@.len(),
            (from.0 as int) < self@.len(),
        ensures
            r == reach(edge_rel(self@), from.0 as int, target.0 as int),
    {
        let ghost e = edge_rel(self@);
        let ghost src = from.0 as int;
        let ghost tgt = target.0 as int;
        let n = self.arena.len();
        let mut visited: Vec<bool> = Vec::new();
        for i in 0..n
            invariant
                visited@.len() == i,
                forall|j: int| 0 <= j < i ==> !visited@[j],
        {
            visited.push(false);
        }
        proof {
            assert(true_set(visited@) =~= Set::<int>::empty());
            vstd::set_lib::lemma_int_range(0, n as int);
        }
        let mut worklist: Vec<u32> = Vec::new();
        worklist.push(from.0);
        proof {
            lemma_reach_refl(e, src);
            assert(worklist@[0] == from.0);
        }
        loop
            invariant
                visited@.len() == n,
                true_set(visited@).finite(),
                true_set(visited@).len() <= n,
                forall|k: int| #[trigger] true_set(visited@).contains(k) ==> reach(e, src, k),
                forall|j: int|
                    0 <= j < worklist@.len() ==> (#[trigger] worklist@[j] < n && reach(
                        e,
                        src,
                        worklist@[j] as int,
                    )),
                forall|k: int, v: int|
                    true_set(visited@).contains(k) && #[trigger] e(k, v) ==> (true_set(
                        visited@,
                    ).contains(v) || exists|j: int| 0 <= j < worklist@.len() && worklist@[j] == v),
                true_set(visited@).contains(src) || (exists|j: int|
                    0 <= j < worklist@.len() && worklist@[j] == src),
                !true_set(visited@).contains(tgt),
            decreases n - true_set(visited@).len(), worklist@.len(),
        {
            let ghost pre_work = worklist@;
            let krate = match worklist.pop() {
                Some(k) => k,
                None => {
                    break ;
                },
            };
            proof {
                assert(krate == pre_work[pre_work.len() - 1]);
                assert(forall|j: int|
                    0 <= j < worklist@.len() ==> #[trigger] worklist@[j] == pre_work[j]);
            }
            if krate == target.0 {
                return true;
            }
            if visited[krate as usize] {
                proof {
                    assert forall|k: int, v: int|
                        true_set(visited@).contains(k) && #[trigger] e(k, v) implies (true_set(
                        visited@,
                    ).contains(v) || exists|j: int|
                        0 <= j < worklist@.len() && worklist@[j] == v) by {
                        if !true_set(visited@).contains(v) {
                            let j = choose|j: int|
                                0 <= j < pre_work.len() && pre_work[j] == v;
                            if j < pre_work.len() - 1 {
                                assert(worklist@[j] == v);
                            } else {
                                assert(true_set(visited@).contains(v));
                            }
                        }
                    }
                    if !true_set(visited@).contains(src) {
                        let j = choose|j: int| 0 <= j < pre_work.len() && pre_work[j] == src;
                        if j < pre_work.len() - 1 {
                            assert(worklist@[j] == src);
                        } else {
                            assert(true_set(visited@).contains(src));
                        }
                    }
                }
                continue ;
            }
            let ghost pre_visited = visited@;
            visited[krate as usize] = true;
            proof {
                assert(true_set(visited@) =~= true_set(pre_visited).insert(krate as int));
                vstd::set_lib::lemma_len_subset(
                    true_set(visited@),
                    vstd::set_lib::set_int_range(0, n as int),
                );
                assert forall|k: int, v: int|
                    true_set(pre_visited).contains(k) && #[trigger] e(k, v) implies (true_set(
                    visited@,
                ).contains(v) || exists|j: int|
                    0 <= j < worklist@.len() && worklist@[j] == v) by {
                    if !true_set(visited@).contains(v) {
                        let j = choose|j: int| 0 <= j < pre_work.len() && pre_work[j] == v;
                        if j < pre_work.len() - 1 {
                            assert(worklist@[j] == v);
                        }
                    }
                }
                if !true_set(visited@).contains(src) {
                    let j = choose|j: int| 0 <= j < pre_work.len() && pre_work[j] == src;
                    if j < pre_work.len() - 1 {
                        assert(worklist@[j] == src);
                    }
                }
            }
            let deps_len = self.arena[krate as usize].dependencies.len();
            let ghost deps = self@[krate as int].dependencies;
            for di in 0..deps_len
                invariant
                    deps_len == deps.len(),
                    visited@.len() == n,
                    true_set(visited@).finite(),
                    true_set(visited@).len() <= n,
                    true_set(visited@) == true_set(pre_visited).insert(krate as int),
                    forall|k: int| #[trigger] true_set(visited@).contains(k) ==> reach(e, src, k),
                    forall|j: int|
                        0 <= j < worklist@.len() ==> (#[trigger] worklist@[j] < n && reach(
                            e,
                            src,
                            worklist@[j] as int,
                        )),
                    forall|k: int, v: int|
                        true_set(pre_visited).contains(k) && #[trigger] e(k, v) ==> (true_set(
                            visited@,
                        ).contains(v) || exists|j: int|
                            0 <= j < worklist@.len() && worklist@[j] == v),
                    forall|x: int|
                        0 <= x < di ==> (true_set(visited@).contains(
                            #[trigger] deps[x].crate_id,
                        ) || exists|j: int|
                            0 <= j < worklist@.len() && worklist@[j] == deps[x].crate_id),
                    true_set(visited@).contains(src) || (exists|j: int|
                        0 <= j < worklist@.len() && worklist@[j] == src),
                    !true_set(visited@).contains(tgt),
            {
                let dep_id = self.arena[krate as usize].dependencies[di].crate_id.0;
                proof {
                    assert(deps[di as int].crate_id == dep_id as int);
                    assert(graph_edge(self@, krate as int, dep_id as int));
                    lemma_reach_append(e, src, krate as int, dep_id as int);
                }
                let ghost pre_push = worklist@;
                worklist.push(dep_id);
                proof {
                    assert(forall|j: int|
                        0 <= j < pre_push.len() ==> #[trigger] worklist@[j] == pre_push[j]);
                    assert forall|x: int|
                        0 <= x < di + 1 implies (true_set(visited@).contains(
                        #[trigger] deps[x].crate_id,
                    ) || exists|j: int|
                        0 <= j < worklist@.len() && worklist@[j] == deps[x].crate_id) by {
                        if x < di {
                            if !true_set(visited@).contains(deps[x].crate_id) {
                                let j = choose|j: int|
                                    0 <= j < pre_push.len() && pre_push[j] == deps[x].crate_id;
                                assert(worklist@[j] == deps[x].crate_id);
                            }
                        } else {
                            assert(worklist@[worklist@.len() - 1] == deps[x].crate_id);
                        }
                    }
                    assert forall|k: int, v: int|
                        true_set(pre_visited).contains(k) && #[trigger] e(k, v) implies (true_set(
                        visited@,
                    ).contains(v) || exists|j: int|
                        0 <= j < worklist@.len() && worklist@[j] == v) by {
                        if !true_set(visited@).contains(v) {
                            let j = choose|j: int|
                                0 <= j < pre_push.len() && pre_push[j] == v;
                            assert(worklist@[j] == v);
                        }
                    }
                    if !true_set(visited@).contains(src) {
                        let j = choose|j: int| 0 <= j < pre_push.len() && pre_push[j] == src;
                        assert(worklist@[j] == src);
                    }
                }
            }
            proof {
                assert forall|k: int, v: int|
                    true_set(visited@).contains(k) && #[trigger] e(k, v) implies (true_set(
                    visited@,
                ).contains(v) || exists|j: int| 0 <= j < worklist@.len() && worklist@[j] == v) by {
                    if k == krate as int {
                        let i = choose|i: int|
                            0 <= i < self@[k].dependencies.len() && #[trigger] self@[
                                k
                            ].dependencies[i].crate_id == v;
                        assert(deps[i].crate_id == v);
                    }
                }
            }
        }
        proof {
            if reach(e, src, tgt) {
                lemma_reach_in_closed(e, true_set(visited@), src, tgt);
                assert(false);
            }
        }
        false
    }

    /// Adds the edge `from -> to` under `name`, unless that edge would close
    /// a dependency cycle: then the graph is left exactly as it was and the
    /// rejection carries both endpoints. This check on every insertion is
    /// the single gate that keeps the whole-graph relation acyclic.
    pub fn add_dep(&mut self, from: CrateId, name: CrateName, to: CrateId) -> (r: Result<
        (),
        CyclicDependenciesError,
    >)
        requires
            old(self).wf(),
            (from.0 as int) < old(self)@.len(),
            (to.0 as int) < old(self)@.len(),
        ensures
            final(self).wf(),
            r is Err <==> reach(edge_rel(old(self)@), to.0 as int, from.0 as int),
            r matches Err(err) ==> ({
                &&& *final(self) == *old(self)
                &&& err.from.0 == from
                &&& err.to.0 == to
                &&& crate::input::opt_display_view(err.from.1) == old(self)@[
                    from.0 as int
                ].display_name
                &&& crate::input::opt_display_view(err.to.1) == old(self)@[
                    to.0 as int
                ].display_name
            }),
            r is Ok ==> final(self)@ =~= old(self)@.update(
                from.0 as int,
                (CrateDataView {
                    dependencies: old(self)@[from.0 as int].dependencies.push(
                        (DependencyView { crate_id: to.0 as int, name: name@ }),
                    ),
                    ..old(self)@[from.0 as int]
                }),
            ),
            acyclic_graph(old(self)@) ==> acyclic_graph(final(self)@),
    {
        if self.dfs_find(from, to) {
            let from_name = clone_opt_display(&self.arena[from.0 as usize].display_name);
            let to_name = clone_opt_display(&self.arena[to.0 as usize].display_name);
            return Err(
                CyclicDependenciesError { from: (from, from_name), to: (to, to_name) },
            );
        }
        let ghost g0 = self@;
        let ghost fr = from.0 as int;
        let ghost t = to.0 as int;
        let dep = Dependency { crate_id: to, name };
        self.arena[from.0 as usize].dependencies.push(dep);
        proof {
            let g1 = self@;
            assert(self.arena@[fr].dependencies@ =~= old(self).arena@[fr].dependencies@.push(dep));
            assert(self.arena@[fr]@.dependencies =~= g0[fr].dependencies.push(
                (DependencyView { crate_id: t, name: dep.name@ }),
            ));
            assert(self.arena@[fr]@ == (CrateDataView {
                dependencies: g0[fr].dependencies.push(
                    (DependencyView { crate_id: t, name: dep.name@ }),
                ),
                ..g0[fr]
            }));
            assert(g1 =~= g0.update(
                fr,
                (CrateDataView {
                    dependencies: g0[fr].dependencies.push(
                        (DependencyView { crate_id: t, name: dep.name@ }),
                    ),
                    ..g0[fr]
                }),
            ));
            assert forall|a: int, b: int| #[trigger]
                edge_rel(g1)(a, b) <==> (edge_rel(g0)(a, b) || (a == fr && b == t)) by {
                if graph_edge(g1, a, b) {
                    let i = choose|i: int|
                        0 <= i < g1[a].dependencies.len() && #[trigger] g1[a].dependencies[i].crate_id
                            == b;
                    if a == fr && i == g0[fr].dependencies.len() {
                        assert(b == t);
                    } else {
                        assert(g0[a].dependencies[i].crate_id == b);
                        assert(graph_edge(g0, a, b));
                    }
                }
                if graph_edge(g0, a, b) {
                    let i = choose|i: int|
                        0 <= i < g0[a].dependencies.len() && #[trigger] g0[a].dependencies[i].crate_id
                            == b;
                    assert(g1[a].dependencies[i].crate_id == b);
                    assert(graph_edge(g1, a, b));
                }
                if a == fr && b == t {
                    assert(g1[a].dependencies[g0[fr].dependencies.len() as int].crate_id == b);
                    assert(graph_edge(g1, a, b));
                }
            }
            if acyclic_graph(g0) {
                lemma_acyclic_add_edge(edge_rel(g0), edge_rel(g1), fr, t);
            }
        }
        Ok(())
    }
}

/// A unit is always in its own closure, and a dependency edge puts the
/// target in the source's forward closure and the source in the target's
/// backward closure: together with the contracts of
/// [`CrateGraph::transitive_deps`] and [`CrateGraph::transitive_rev_deps`],
/// `u` is in both of its own closures, and for an edge `u -> v`, `v` is in
/// `transitive_deps(u)` and `u` in `transitive_rev_deps(v)`.
pub proof fn lemma_closure_membership(g: Seq<CrateDataView>, u: int, v: int)
    ensures
        reach(edge_rel(g), u, u),
        graph_edge(g, u, v) ==> reach(edge_rel(g), u, v),
{
    lemma_reach_refl(edge_rel(g), u);
    if graph_edge(g, u, v) {
        lemma_reach_refl(edge_rel(g), v);
        lemma_reach_step(edge_rel(g), u, v, v);
    }
}

/// The identifiers of `r`, as a set of integers.
pub open spec fn id_set(r: Seq<CrateId>) -> Set<int> {
    r.map_values(|c: CrateId| c.0 as int).to_set()
}

proof fn lemma_id_set_contains(r: Seq<CrateId>, v: int)
    ensures
        id_set(r).contains(v) <==> (exists|i: int| 0 <= i < r.len() && r[i].0 as int == v),
{
    let mapped = r.map_values(|c: CrateId| c.0 as int);
    assert forall|i: int| 0 <= i < r.len() && r[i].0 as int == v implies id_set(r).contains(v) by {
        assert(mapped[i] == v);
    }
    if id_set(r).contains(v) {
        let i = choose|i: int| 0 <= i < mapped.len() && mapped[i] == v;
        assert(r[i].0 as int == v);
    }
}

impl CrateGraph {
    /// All units reachable from `of` by following dependency edges forward,
    /// `of` itself included; each unit once, in no promised order.
    #[verifier::loop_isolation(false)]
    pub fn transitive_deps(&self, of: CrateId) -> (r: Vec<CrateId>)
        requires
            self.wf(),
            (of.0 as int) < self@.len(),
        ensures
            forall|i: int, j: int| 0 <= i < j < r@.len() ==> r@[i] != r@[j],
            forall|c: CrateId|
                #[trigger] r@.contains(c) <==> ((c.0 as int) < self@.len() && reach(
                    edge_rel(self@),
                    of.0 as int,
                    c.0 as int,
                )),
    {
        let ghost e = edge_rel(self@);
        let r = self.closure_from(of, Ghost(e));
        proof {
            assert forall|c: CrateId| #[trigger] r@.contains(c) implies ((c.0 as int) < self@.len()
                && reach(e, of.0 as int, c.0 as int)) by {
                let i = choose|i: int| 0 <= i < r@.len() && r@[i] == c;
                lemma_id_set_contains(r@, c.0 as int);
            }
            assert forall|c: CrateId|
                (c.0 as int) < self@.len() && reach(e, of.0 as int, c.0 as int) implies r@.contains(
                c,
            ) by {
                lemma_id_set_contains(r@, c.0 as int);
                let i = choose|i: int| 0 <= i < r@.len() && r@[i].0 as int == c.0 as int;
                assert(r@[i] == c);
            }
        }
        r
    }

    /// All units from which `of` can be reached by following dependency
    /// edges forward — its transitive reverse dependencies — `of` itself
    /// included; each unit once, in no promised order. Works over a
    /// materialized reverse-adjacency index of the whole graph.
    #[verifier::loop_isolation(false)]
    pub fn transitive_rev_deps(&self, of: CrateId) -> (r: Vec<CrateId>)
        requires
            self.wf(),
            (of.0 as int) < self@.len(),
        ensures
            forall|i: int, j: int| 0 <= i < j < r@.len() ==> r@[i] != r@[j],
            forall|c: CrateId|
                #[trigger] r@.contains(c) <==> ((c.0 as int) < self@.len() && reach(
                    edge_rel(self@),
                    c.0 as int,
                    of.0 as int,
                )),
    {
        let ghost e = edge_rel(self@);
        let ghost erev = flip(e);
        let r = self.closure_from_rev(of, Ghost(erev));
        proof {
            assert forall|c: CrateId| #[trigger] r@.contains(c) implies ((c.0 as int) < self@.len()
                && reach(e, c.0 as int, of.0 as int)) by {
                let i = choose|i: int| 0 <= i < r@.len() && r@[i] == c;
                lemma_id_set_contains(r@, c.0 as int);
                lemma_reach_flip(e, c.0 as int, of.0 as int);
            }
            assert forall|c: CrateId|
                (c.0 as int) < self@.len() && reach(e, c.0 as int, of.0 as int) implies r@.contains(
                c,
            ) by {
                lemma_reach_flip(e, c.0 as int, of.0 as int);
                lemma_id_set_contains(r@, c.0 as int);
                let i = choose|i: int| 0 <= i < r@.len() && r@[i].0 as int == c.0 as int;
                assert(r@[i] == c);
            }
        }
        r
    }

    /// The forward closure worklist: collects every unit reachable from
    /// `start`, marking units as visited so each is handled once.
    #[verifier::loop_isolation(false)]
    fn closure_from(&self, start: CrateId, Ghost(e): Ghost<spec_fn(int, int) -> bool>) -> (r: Vec<
        CrateId,
    >)
        requires
            self.wf(),
            (start.0 as int) < self@.len(),
            e == edge_rel(self@),
        ensures
            forall|i: int, j: int| 0 <= i < j < r@.len() ==> r@[i] != r@[j],
            forall|i: int| 0 <= i < r@.len() ==> (r@[i].0 as int) < self@.len(),
            forall|v: int|
                #[trigger] id_set(r@).contains(v) <==> (0 <= v < self@.len() && reach(
                    e,
                    start.0 as int,
                    v,
                )),
    {
        let ghost src = start.0 as int;
        let n = self.arena.len();
        let mut visited: Vec<bool> = Vec::new();
        for i in 0..n
            invariant
                visited@.len() == i,
                forall|j: int| 0 <= j < i ==> !visited@[j],
        {
            visited.push(false);
        }
        proof {
            assert(true_set(visited@) =~= Set::<int>::empty());
            vstd::set_lib::lemma_int_range(0, n as int);
            lemma_reach_refl(e, src);
        }
        let mut res: Vec<CrateId> = Vec::new();
        let mut worklist: Vec<u32> = Vec::new();
        worklist.push(start.0);
        proof {
            assert(worklist@[0] == start.0);
        }
        loop
            invariant
                visited@.len() == n,
                true_set(visited@).finite(),
                true_set(visited@).len() <= n,
                forall|i: int, j: int| 0 <= i < j < res@.len() ==> res@[i] != res@[j],
                forall|i: int| 0 <= i < res@.len() ==> (res@[i].0 as int) < n,
                forall|v: int| #[trigger] id_set(res@).contains(v) <==> true_set(
                    visited@,
                ).contains(v),
                forall|k: int| #[trigger] true_set(visited@).contains(k) ==> (0 <= k < n && reach(
                    e,
                    src,
                    k,
                )),
                forall|j: int|
                    0 <= j < worklist@.len() ==> (#[trigger] worklist@[j] < n && reach(
                        e,
                        src,
                        worklist@[j] as int,
                    )),
                forall|k: int, v: int|
                    true_set(visited@).contains(k) && #[trigger] e(k, v) ==> (true_set(
                        visited@,
                    ).contains(v) || exists|j: int| 0 <= j < worklist@.len() && worklist@[j] == v),
                true_set(visited@).contains(src) || (exists|j: int|
                    0 <= j < worklist@.len() && worklist@[j] == src),
            decreases n - true_set(visited@).len(), worklist@.len(),
        {
            let ghost pre_work = worklist@;
            let krate = match worklist.pop() {
                Some(k) => k,
                None => {
                    break ;
                },
            };
            proof {
                assert(krate == pre_work[pre_work.len() - 1]);
                assert(forall|j: int|
                    0 <= j < worklist@.len() ==> #[trigger] worklist@[j] == pre_work[j]);
            }
            if visited[krate as usize] {
                proof {
                    assert forall|k: int, v: int|
                        true_set(visited@).contains(k) && #[trigger] e(k, v) implies (true_set(
                        visited@,
                    ).contains(v) || exists|j: int|
                        0 <= j < worklist@.len() && worklist@[j] == v) by {
                        if !true_set(visited@).contains(v) {
                            let j = choose|j: int| 0 <= j < pre_work.len() && pre_work[j] == v;
                            if j < pre_work.len() - 1 {
                                assert(worklist@[j] == v);
                            } else {
                                assert(true_set(visited@).contains(v));
                            }
                        }
                    }
                    if !true_set(visited@).contains(src) {
                        let j = choose|j: int| 0 <= j < pre_work.len() && pre_work[j] == src;
                        if j < pre_work.len() - 1 {
                            assert(worklist@[j] == src);
                        } else {
                            assert(true_set(visited@).contains(src));
                        }
                    }
                }
                continue ;
            }
            let ghost pre_visited = visited@;
            let ghost pre_res = res@;
            visited[krate as usize] = true;
            res.push(CrateId(krate));
            proof {
                assert(true_set(visited@) =~= true_set(pre_visited).insert(krate as int));
                vstd::set_lib::lemma_len_subset(
                    true_set(visited@),
                    vstd::set_lib::set_int_range(0, n as int),
                );
                assert forall|i: int, j: int| 0 <= i < j < res@.len() implies res@[i] != res@[j] by {
                    if j == res@.len() - 1 {
                        lemma_id_set_contains(pre_res, res@[i].0 as int);
                        assert(true_set(pre_visited).contains(res@[i].0 as int));
                    }
                }
                assert forall|v: int| #[trigger] id_set(res@).contains(v) implies true_set(
                    visited@,
                ).contains(v) by {
                    lemma_id_set_contains(res@, v);
                    let i = choose|i: int| 0 <= i < res@.len() && res@[i].0 as int == v;
                    if i < res@.len() - 1 {
                        lemma_id_set_contains(pre_res, v);
                        assert(pre_res[i].0 as int == v);
                        assert(id_set(pre_res).contains(v));
                    }
                }
                assert forall|v: int| true_set(visited@).contains(v) implies id_set(
                    res@,
                ).contains(v) by {
                    if v == krate as int {
                        assert(res@[res@.len() - 1].0 as int == v);
                    } else {
                        lemma_id_set_contains(pre_res, v);
                        let i = choose|i: int| 0 <= i < pre_res.len() && pre_res[i].0 as int == v;
                        assert(res@[i].0 as int == v);
                    }
                    lemma_id_set_contains(res@, v);
                }
                assert forall|k: int, v: int|
                    true_set(pre_visited).contains(k) && #[trigger] e(k, v) implies (true_set(
                    visited@,
                ).contains(v) || exists|j: int|
                    0 <= j < worklist@.len() && worklist@[j] == v) by {
                    if !true_set(visited@).contains(v) {
                        let j = choose|j: int| 0 <= j < pre_work.len() && pre_work[j] == v;
                        if j < pre_work.len() - 1 {
                            assert(worklist@[j] == v);
                        }
                    }
                }
                if !true_set(visited@).contains(src) {
                    let j = choose|j: int| 0 <= j < pre_work.len() && pre_work[j] == src;
                    if j < pre_work.len() - 1 {
                        assert(worklist@[j] == src);
                    }
                }
            }
            let deps_len = self.arena[krate as usize].dependencies.len();
            let ghost deps = self@[krate as int].dependencies;
            for di in 0..deps_len
                invariant
                    deps_len == deps.len(),
                    visited@.len() == n,
                    true_set(visited@).finite(),
                    true_set(visited@).len() <= n,
                    true_set(visited@) == true_set(pre_visited).insert(krate as int),
                    forall|i: int, j: int| 0 <= i < j < res@.len() ==> res@[i] != res@[j],
                    forall|i: int| 0 <= i < res@.len() ==> (res@[i].0 as int) < n,
                    forall|v: int| #[trigger] id_set(res@).contains(v) <==> true_set(
                        visited@,
                    ).contains(v),
                    forall|k: int| #[trigger] true_set(visited@).contains(k) ==> (0 <= k < n
                        && reach(e, src, k)),
                    forall|j: int|
                        0 <= j < worklist@.len() ==> (#[trigger] worklist@[j] < n && reach(
                            e,
                            src,
                            worklist@[j] as int,
                        )),
                    forall|k: int, v: int|
                        true_set(pre_visited).contains(k) && #[trigger] e(k, v) ==> (true_set(
                            visited@,
                        ).contains(v) || exists|j: int|
                            0 <= j < worklist@.len() && worklist@[j] == v),
                    forall|x: int|
                        0 <= x < di ==> (true_set(visited@).contains(
                            #[trigger] deps[x].crate_id,
                        ) || exists|j: int|
                            0 <= j < worklist@.len() && worklist@[j] == deps[x].crate_id),
                    true_set(visited@).contains(src) || (exists|j: int|
                        0 <= j < worklist@.len() && worklist@[j] == src),
            {
                let dep_id = self.arena[krate as usize].dependencies[di].crate_id.0;
                proof {
                    assert(deps[di as int].crate_id == dep_id as int);
                    assert(graph_edge(self@, krate as int, dep_id as int));
                    lemma_reach_append(e, src, krate as int, dep_id as int);
                }
                let ghost pre_push = worklist@;
                worklist.push(dep_id);
                proof {
                    assert(forall|j: int|
                        0 <= j < pre_push.len() ==> #[trigger] worklist@[j] == pre_push[j]);
                    assert forall|x: int|
                        0 <= x < di + 1 implies (true_set(visited@).contains(
                        #[trigger] deps[x].crate_id,
                    ) || exists|j: int|
                        0 <= j < worklist@.len() && worklist@[j] == deps[x].crate_id) by {
                        if x < di {
                            if !true_set(visited@).contains(deps[x].crate_id) {
                                let j = choose|j: int|
                                    0 <= j < pre_push.len() && pre_push[j] == deps[x].crate_id;
                                assert(worklist@[j] == deps[x].crate_id);
                            }
                        } else {
                            assert(worklist@[worklist@.len() - 1] == deps[x].crate_id);
                        }
                    }
                    assert forall|k: int, v: int|
                        true_set(pre_visited).contains(k) && #[trigger] e(k, v) implies (true_set(
                        visited@,
                    ).contains(v) || exists|j: int|
                        0 <= j < worklist@.len() && worklist@[j] == v) by {
                        if !true_set(visited@).contains(v) {
                            let j = choose|j: int| 0 <= j < pre_push.len() && pre_push[j] == v;
                            assert(worklist@[j] == v);
                        }
                    }
                    if !true_set(visited@).contains(src) {
                        let j = choose|j: int| 0 <= j < pre_push.len() && pre_push[j] == src;
                        assert(worklist@[j] == src);
                    }
                }
            }
            proof {
                assert forall|k: int, v: int|
                    true_set(visited@).contains(k) && #[trigger] e(k, v) implies (true_set(
                    visited@,
                ).contains(v) || exists|j: int| 0 <= j < worklist@.len() && worklist@[j] == v) by {
                    if k == krate as int {
                        let i = choose|i: int|
                            0 <= i < self@[k].dependencies.len() && #[trigger] self@[
                                k
                            ].dependencies[i].crate_id == v;
                        assert(deps[i].crate_id == v);
                    }
                }
            }
        }
        proof {
            assert forall|v: int|
                0 <= v < n && reach(e, src, v) implies #[trigger] id_set(res@).contains(v) by {
                lemma_reach_in_closed(e, true_set(visited@), src, v);
            }
        }
        res
    }
}

impl CrateGraph {
    /// Whether unit `u` has a dependency edge onto unit `k`.
    #[verifier::loop_isolation(false)]
    fn has_dep_on(&self, u: usize, k: u32) -> (r: bool)
        requires
            self.wf(),
            (u as int) < self@.len(),
        ensures
            r == graph_edge(self@, u as int, k as int),
    {
        let deps_len = self.arena[u].dependencies.len();
        for di in 0..deps_len
            invariant
                deps_len == self@[u as int].dependencies.len(),
                forall|x: int|
                    0 <= x < di ==> #[trigger] self@[u as int].dependencies[x].crate_id != k as int,
        {
            if self.arena[u].dependencies[di].crate_id.0 == k {
                proof {
                    assert(self@[u as int].dependencies[di as int].crate_id == k as int);
                }
                return true;
            }
        }
        false
    }

    /// The backward closure worklist: collects every unit that reaches
    /// `start`, by walking the edge relation against its direction. The
    /// in-edges of a popped unit are found by a scan over the whole arena.
    #[verifier::loop_isolation(false)]
    fn closure_from_rev(
        &self,
        start: CrateId,
        Ghost(erev): Ghost<spec_fn(int, int) -> bool>,
    ) -> (r: Vec<CrateId>)
        requires
            self.wf(),
            (start.0 as int) < self@.len(),
            erev == flip(edge_rel(self@)),
        ensures
            forall|i: int, j: int| 0 <= i < j < r@.len() ==> r@[i] != r@[j],
            forall|i: int| 0 <= i < r@.len() ==> (r@[i].0 as int) < self@.len(),
            forall|v: int|
                #[trigger] id_set(r@).contains(v) <==> (0 <= v < self@.len() && reach(
                    erev,
                    start.0 as int,
                    v,
                )),
    {
        let ghost src = start.0 as int;
        let n = self.arena.len();
        let mut visited: Vec<bool> = Vec::new();
        for i in 0..n
            invariant
                visited@.len() == i,
                forall|j: int| 0 <= j < i ==> !visited@[j],
        {
            visited.push(false);
        }
        proof {
            assert(true_set(visited@) =~= Set::<int>::empty());
            vstd::set_lib::lemma_int_range(0, n as int);
            lemma_reach_refl(erev, src);
        }
        let mut res: Vec<CrateId> = Vec::new();
        let mut worklist: Vec<u32> = Vec::new();
        worklist.push(start.0);
        proof {
            assert(worklist@[0] == start.0);
        }
        loop
            invariant
                visited@.len() == n,
                true_set(visited@).finite(),
                true_set(visited@).len() <= n,
                forall|i: int, j: int| 0 <= i < j < res@.len() ==> res@[i] != res@[j],
                forall|i: int| 0 <= i < res@.len() ==> (res@[i].0 as int) < n,
                forall|v: int| #[trigger] id_set(res@).contains(v) <==> true_set(
                    visited@,
                ).contains(v),
                forall|k: int| #[trigger] true_set(visited@).contains(k) ==> (0 <= k < n && reach(
                    erev,
                    src,
                    k,
                )),
                forall|j: int|
                    0 <= j < worklist@.len() ==> (#[trigger] worklist@[j] < n && reach(
                        erev,
                        src,
                        worklist@[j] as int,
                    )),
                forall|k: int, v: int|
                    true_set(visited@).contains(k) && #[trigger] erev(k, v) ==> (true_set(
                        visited@,
                    ).contains(v) || exists|j: int| 0 <= j < worklist@.len() && worklist@[j] == v),
                true_set(visited@).contains(src) || (exists|j: int|
                    0 <= j < worklist@.len() && worklist@[j] == src),
            decreases n - true_set(visited@).len(), worklist@.len(),
        {
            let ghost pre_work = worklist@;
            let krate = match worklist.pop() {
                Some(k) => k,
                None => {
                    break ;
                },
            };
            proof {
                assert(krate == pre_work[pre_work.len() - 1]);
                assert(forall|j: int|
                    0 <= j < worklist@.len() ==> #[trigger] worklist@[j] == pre_work[j]);
            }
            if visited[krate as usize] {
                proof {
                    assert forall|k: int, v: int|
                        true_set(visited@).contains(k) && #[trigger] erev(k, v) implies (true_set(
                        visited@,
                    ).contains(v) || exists|j: int|
                        0 <= j < worklist@.len() && worklist@[j] == v) by {
                        if !true_set(visited@).contains(v) {
                            let j = choose|j: int| 0 <= j < pre_work.len() && pre_work[j] == v;
                            if j < pre_work.len() - 1 {
                                assert(worklist@[j] == v);
                            } else {
                                assert(true_set(visited@).contains(v));
                            }
                        }
                    }
                    if !true_set(visited@).contains(src) {
                        let j = choose|j: int| 0 <= j < pre_work.len() && pre_work[j] == src;
                        if j < pre_work.len() - 1 {
                            assert(worklist@[j] == src);
                        } else {
                            assert(true_set(visited@).contains(src));
                        }
                    }
                }
                continue ;
            }
            let ghost pre_visited = visited@;
            let ghost pre_res = res@;
            visited[krate as usize] = true;
            res.push(CrateId(krate));
            proof {
                assert(true_set(visited@) =~= true_set(pre_visited).insert(krate as int));
                vstd::set_lib::lemma_len_subset(
                    true_set(visited@),
                    vstd::set_lib::set_int_range(0, n as int),
                );
                assert forall|i: int, j: int| 0 <= i < j < res@.len() implies res@[i] != res@[j] by {
                    if j == res@.len() - 1 {
                        lemma_id_set_contains(pre_res, res@[i].0 as int);
                        assert(true_set(pre_visited).contains(res@[i].0 as int));
                    }
                }
                assert forall|v: int| #[trigger] id_set(res@).contains(v) implies true_set(
                    visited@,
                ).contains(v) by {
                    lemma_id_set_contains(res@, v);
                    let i = choose|i: int| 0 <= i < res@.len() && res@[i].0 as int == v;
                    if i < res@.len() - 1 {
                        lemma_id_set_contains(pre_res, v);
                        assert(pre_res[i].0 as int == v);
                        assert(id_set(pre_res).contains(v));
                    }
                }
                assert forall|v: int| true_set(visited@).contains(v) implies id_set(
                    res@,
                ).contains(v) by {
                    if v == krate as int {
                        assert(res@[res@.len() - 1].0 as int == v);
                    } else {
                        lemma_id_set_contains(pre_res, v);
                        let i = choose|i: int| 0 <= i < pre_res.len() && pre_res[i].0 as int == v;
                        assert(res@[i].0 as int == v);
                    }
                    lemma_id_set_contains(res@, v);
                }
                assert forall|k: int, v: int|
                    true_set(pre_visited).contains(k) && #[trigger] erev(k, v) implies (true_set(
                    visited@,
                ).contains(v) || exists|j: int|
                    0 <= j < worklist@.len() && worklist@[j] == v) by {
                    if !true_set(visited@).contains(v) {
                        let j = choose|j: int| 0 <= j < pre_work.len() && pre_work[j] == v;
                        if j < pre_work.len() - 1 {
                            assert(worklist@[j] == v);
                        }
                    }
                }
                if !true_set(visited@).contains(src) {
                    let j = choose|j: int| 0 <= j < pre_work.len() && pre_work[j] == src;
                    if j < pre_work.len() - 1 {
                        assert(worklist@[j] == src);
                    }
                }
            }
            for u in 0..n
                invariant
                    visited@.len() == n,
                    true_set(visited@).finite(),
                    true_set(visited@).len() <= n,
                    true_set(visited@) == true_set(pre_visited).insert(krate as int),
                    forall|i: int, j: int| 0 <= i < j < res@.len() ==> res@[i] != res@[j],
                    forall|i: int| 0 <= i < res@.len() ==> (res@[i].0 as int) < n,
                    forall|v: int| #[trigger] id_set(res@).contains(v) <==> true_set(
                        visited@,
                    ).contains(v),
                    forall|k: int| #[trigger] true_set(visited@).contains(k) ==> (0 <= k < n
                        && reach(erev, src, k)),
                    forall|j: int|
                        0 <= j < worklist@.len() ==> (#[trigger] worklist@[j] < n && reach(
                            erev,
                            src,
                            worklist@[j] as int,
                        )),
                    forall|k: int, v: int|
                        true_set(pre_visited).contains(k) && #[trigger] erev(k, v) ==> (true_set(
                            visited@,
                        ).contains(v) || exists|j: int|
                            0 <= j < worklist@.len() && worklist@[j] == v),
                    forall|x: int|
                        0 <= x < u && graph_edge(self@, x, krate as int) ==> (true_set(
                            visited@,
                        ).contains(x) || exists|j: int|
                            0 <= j < worklist@.len() && #[trigger] worklist@[j] as int == x),
                    true_set(visited@).contains(src) || (exists|j: int|
                        0 <= j < worklist@.len() && worklist@[j] == src),
            {
                if self.has_dep_on(u, krate) {
                    proof {
                        assert(erev(krate as int, u as int));
                        lemma_reach_append(erev, src, krate as int, u as int);
                    }
                    let ghost pre_push = worklist@;
                    worklist.push(u as u32);
                    proof {
                        assert(forall|j: int|
                            0 <= j < pre_push.len() ==> #[trigger] worklist@[j] == pre_push[j]);
                        assert(worklist@[worklist@.len() - 1] as int == u as int);
                        assert forall|x: int|
                            0 <= x < u + 1 && graph_edge(self@, x, krate as int) implies (true_set(
                            visited@,
                        ).contains(x) || exists|j: int|
                            0 <= j < worklist@.len() && #[trigger] worklist@[j] as int == x) by {
                            if x < u as int {
                                if !true_set(visited@).contains(x) {
                                    let j = choose|j: int|
                                        0 <= j < pre_push.len() && #[trigger] pre_push[j] as int
                                            == x;
                                    assert(worklist@[j] as int == x);
                                }
                            }
                        }
                        assert forall|k: int, v: int|
                            true_set(pre_visited).contains(k) && #[trigger] erev(k, v) implies (
                        true_set(visited@).contains(v) || exists|j: int|
                            0 <= j < worklist@.len() && worklist@[j] == v) by {
                            if !true_set(visited@).contains(v) {
                                let j = choose|j: int|
                                    0 <= j < pre_push.len() && pre_push[j] == v;
                                assert(worklist@[j] == v);
                            }
                        }
                        if !true_set(visited@).contains(src) {
                            let j = choose|j: int| 0 <= j < pre_push.len() && pre_push[j] == src;
                            assert(worklist@[j] == src);
                        }
                    }
                }
            }
            proof {
                assert forall|k: int, v: int|
                    true_set(visited@).contains(k) && #[trigger] erev(k, v) implies (true_set(
                    visited@,
                ).contains(v) || exists|j: int| 0 <= j < worklist@.len() && worklist@[j] == v) by {
                    if k == krate as int {
                        assert(graph_edge(self@, v, krate as int));
                        assert(0 <= v < n);
                    }
                }
            }
        }
        proof {
            assert forall|v: int|
                0 <= v < n && reach(erev, src, v) implies #[trigger] id_set(res@).contains(v) by {
                lemma_reach_in_closed(erev, true_set(visited@), src, v);
            }
        }
        res
    }

    /// Some unit whose root source file is `file_id`, if one exists. Several
    /// units may share a root file (configuration-gated variants of one
    /// physical file); the choice among them is arbitrary but stable for a
    /// given graph.
    #[verifier::loop_isolation(false)]
    pub fn crate_id_for_crate_root(&self, file_id: FileId) -> (r: Option<CrateId>)
        requires
            self.wf(),
        ensures
            r is Some <==> (exists|i: int|
                0 <= i < self@.len() && #[trigger] self@[i].root_file_id == file_id.0 as int),
            r matches Some(c) ==> ((c.0 as int) < self@.len() && self@[c.0 as int].root_file_id
                == file_id.0 as int),
    {
        let n = self.arena.len();
        for i in 0..n
            invariant
                forall|j: int| 0 <= j < i ==> #[trigger] self@[j].root_file_id != file_id.0 as int,
        {
            if self.arena[i].root_file_id.0 == file_id.0 {
                proof {
                    assert(self@[i as int].root_file_id == file_id.0 as int);
                }
                return Some(CrateId(i as u32));
            }
        }
        None
    }
}

/// Unit `v` stands at some position of `r` before position `x`.
pub open spec fn appears_before(r: Seq<CrateId>, x: int, v: int) -> bool {
    exists|y: int| 0 <= y < x && r[y].0 as int == v
}

/// Every unit of `r` appears after all units it depends on: for each element
/// and each of its dependency edges, the edge's target stands earlier in `r`.
pub open spec fn topo_sorted(g: Seq<CrateDataView>, r: Seq<CrateId>) -> bool {
    forall|x: int, di: int|
        #![trigger g[r[x].0 as int].dependencies[di]]
        0 <= x < r.len() && 0 <= di < g[r[x].0 as int].dependencies.len() ==> appears_before(
            r,
            x,
            g[r[x].0 as int].dependencies[di].crate_id,
        )
}

proof fn lemma_topo_closed(g: Seq<CrateDataView>, r: Seq<CrateId>)
    requires
        topo_sorted(g, r),
    ensures
        forall|a: int, b: int|
            id_set(r).contains(a) && #[trigger] edge_rel(g)(a, b) ==> id_set(r).contains(b),
{
    assert forall|a: int, b: int|
        id_set(r).contains(a) && #[trigger] edge_rel(g)(a, b) implies id_set(r).contains(b) by {
        lemma_id_set_contains(r, a);
        let x = choose|x: int| 0 <= x < r.len() && r[x].0 as int == a;
        let di = choose|di: int|
            0 <= di < g[a].dependencies.len() && #[trigger] g[a].dependencies[di].crate_id == b;
        assert(g[r[x].0 as int].dependencies[di].crate_id == b);
        assert(appears_before(r, x, b));
        let y = choose|y: int| 0 <= y < x && r[y].0 as int == b;
        lemma_id_set_contains(r, b);
    }
}

impl CrateGraph {
    /// Post-order traversal from `source`: appends every unit reachable from
    /// `source` and not yet emitted, each after all its dependencies. `gray`
    /// carries the units whose visits are still open further up the
    /// recursion; acyclicity guarantees no dependency leads back into them.
    #[verifier::loop_isolation(false)]
    fn topo_go(
        &self,
        visited: &mut Vec<bool>,
        res: &mut Vec<CrateId>,
        source: CrateId,
        Ghost(gray): Ghost<Set<int>>,
    )
        requires
            self.wf(),
            acyclic_graph(self@),
            old(visited)@.len() == self@.len(),
            (source.0 as int) < self@.len(),
            true_set(old(visited)@).finite(),
            true_set(old(visited)@).len() <= self@.len(),
            !gray.contains(source.0 as int),
            forall|m: int| #[trigger]
                gray.contains(m) ==> reach(edge_rel(self@), m, source.0 as int),
            true_set(old(visited)@) == id_set(old(res)@).union(gray),
            forall|v: int| !(#[trigger] id_set(old(res)@).contains(v) && gray.contains(v)),
            forall|i: int, j: int| 0 <= i < j < old(res)@.len() ==> old(res)@[i] != old(res)@[j],
            forall|i: int| 0 <= i < old(res)@.len() ==> (old(res)@[i].0 as int) < self@.len(),
            topo_sorted(self@, old(res)@),
        ensures
            final(visited)@.len() == self@.len(),
            true_set(final(visited)@).finite(),
            true_set(final(visited)@).len() <= self@.len(),
            final(res)@.len() >= old(res)@.len(),
            forall|i: int| 0 <= i < old(res)@.len() ==> final(res)@[i] == old(res)@[i],
            true_set(final(visited)@) == id_set(final(res)@).union(gray),
            forall|v: int| !(#[trigger] id_set(final(res)@).contains(v) && gray.contains(v)),
            forall|i: int, j: int|
                0 <= i < j < final(res)@.len() ==> final(res)@[i] != final(res)@[j],
            forall|i: int| 0 <= i < final(res)@.len() ==> (final(res)@[i].0 as int) < self@.len(),
            topo_sorted(self@, final(res)@),
            true_set(final(visited)@) =~= true_set(old(visited)@).union(
                Set::new(|v: int| reach(edge_rel(self@), source.0 as int, v)),
            ),
        decreases self@.len() - true_set(old(visited)@).len(),
    {
        let ghost e = edge_rel(self@);
        let ghost src = source.0 as int;
        let ghost n = self@.len() as int;
        if visited[source.0 as usize] {
            proof {
                lemma_reach_refl(e, src);
                assert(0 <= src < visited@.len() && visited@[src]);
                assert(true_set(old(visited)@).contains(src));
                assert(id_set(old(res)@).contains(src));
                lemma_topo_closed(self@, old(res)@);
                assert forall|v: int| reach(e, src, v) implies true_set(
                    old(visited)@,
                ).contains(v) by {
                    lemma_reach_in_closed(e, id_set(old(res)@), src, v);
                }
                assert(true_set(visited@) =~= true_set(old(visited)@).union(
                    Set::new(|v: int| reach(e, src, v)),
                ));
            }
            return ;
        }
        let ghost entry_visited = old(visited)@;
        visited[source.0 as usize] = true;
        proof {
            lemma_reach_refl(e, src);
            assert(true_set(visited@) =~= true_set(entry_visited).insert(src));
            vstd::set_lib::lemma_int_range(0, n);
            vstd::set_lib::lemma_len_subset(
                true_set(visited@),
                vstd::set_lib::set_int_range(0, n),
            );
        }
        let deps_len = self.arena[source.0 as usize].dependencies.len();
        let ghost deps = self@[src].dependencies;
        for di in 0..deps_len
            invariant
                deps_len == deps.len(),
                visited@.len() == n,
                true_set(visited@).finite(),
                true_set(visited@).len() <= n,
                res@.len() >= old(res)@.len(),
                forall|i: int| 0 <= i < old(res)@.len() ==> res@[i] == old(res)@[i],
                true_set(visited@) == id_set(res@).union(gray.insert(src)),
                forall|v: int| !(#[trigger] id_set(res@).contains(v) && gray.insert(src).contains(
                    v,
                )),
                forall|i: int, j: int| 0 <= i < j < res@.len() ==> res@[i] != res@[j],
                forall|i: int| 0 <= i < res@.len() ==> (res@[i].0 as int) < n,
                topo_sorted(self@, res@),
                forall|v: int|
                    #[trigger] true_set(visited@).contains(v) ==> (true_set(
                        entry_visited,
                    ).contains(v) || reach(e, src, v)),
                forall|v: int| #[trigger]
                    true_set(entry_visited).contains(v) ==> true_set(visited@).contains(v),
                true_set(visited@).contains(src),
                forall|x: int|
                    0 <= x < di ==> (forall|v: int|
                        reach(e, (#[trigger] deps[x]).crate_id, v) ==> true_set(
                            visited@,
                        ).contains(v)),
        {
            let dep = self.arena[source.0 as usize].dependencies[di].crate_id;
            proof {
                assert(deps[di as int].crate_id == dep.0 as int);
                assert(graph_edge(self@, src, dep.0 as int));
                assert(e(src, dep.0 as int));
                // the dependency cannot be gray or the source itself: that
                // would close a cycle
                if gray.insert(src).contains(dep.0 as int) {
                    if dep.0 as int == src {
                        lemma_reach_refl(e, src);
                        assert(false);
                    } else {
                        assert(reach(e, dep.0 as int, src));
                        assert(false);
                    }
                }
                assert forall|m: int| #[trigger] gray.insert(src).contains(m) implies reach(
                    e,
                    m,
                    dep.0 as int,
                ) by {
                    lemma_reach_refl(e, dep.0 as int);
                    if m == src {
                        lemma_reach_step(e, src, dep.0 as int, dep.0 as int);
                    } else {
                        lemma_reach_step(e, src, dep.0 as int, dep.0 as int);
                        lemma_reach_trans(e, m, src, dep.0 as int);
                    }
                }
                // the measure shrinks: the entry set grew by `src`
                vstd::set_lib::lemma_len_subset(
                    true_set(entry_visited).insert(src),
                    true_set(visited@),
                );
            }
            let ghost pre_visited = visited@;
            let ghost pre_res = res@;
            self.topo_go(visited, res, dep, Ghost(gray.insert(src)));
            proof {
                assert forall|v: int|
                    #[trigger] true_set(visited@).contains(v) implies (true_set(
                    entry_visited,
                ).contains(v) || reach(e, src, v)) by {
                    if !true_set(pre_visited).contains(v) {
                        assert(reach(e, dep.0 as int, v));
                        lemma_reach_step(e, src, dep.0 as int, v);
                    }
                }
                assert forall|x: int|
                    0 <= x < di + 1 implies (forall|v: int|
                        reach(e, (#[trigger] deps[x]).crate_id, v) ==> true_set(
                            visited@,
                        ).contains(v)) by {
                    if x < di {
                        assert forall|v: int|
                            reach(e, deps[x].crate_id, v) implies true_set(
                            visited@,
                        ).contains(v) by {
                            assert(true_set(pre_visited).contains(v));
                        }
                    } else {
                        assert forall|v: int|
                            reach(e, deps[x].crate_id, v) implies true_set(
                            visited@,
                        ).contains(v) by {
                            assert(true_set(visited@) == true_set(pre_visited).union(
                                Set::new(|w: int| reach(e, dep.0 as int, w)),
                            ));
                        }
                    }
                }
            }
        }
        let ghost pre_res = res@;
        res.push(source);
        proof {
            assert forall|v: int| #[trigger] id_set(res@).contains(v) implies (id_set(
                pre_res,
            ).contains(v) || v == src) by {
                lemma_id_set_contains(res@, v);
                let i = choose|i: int| 0 <= i < res@.len() && res@[i].0 as int == v;
                if i < res@.len() - 1 {
                    lemma_id_set_contains(pre_res, v);
                    assert(pre_res[i].0 as int == v);
                }
            }
            assert forall|v: int|
                id_set(pre_res).contains(v) || v == src implies #[trigger] id_set(
                res@,
            ).contains(v) by {
                if v == src {
                    assert(res@[res@.len() - 1].0 as int == v);
                } else {
                    lemma_id_set_contains(pre_res, v);
                    let i = choose|i: int| 0 <= i < pre_res.len() && pre_res[i].0 as int == v;
                    assert(res@[i].0 as int == v);
                }
                lemma_id_set_contains(res@, v);
            }
            assert(id_set(res@) =~= id_set(pre_res).insert(src));
            // `src` is not yet in the emitted list: it sat in the gray side
            assert(!id_set(pre_res).contains(src));
            assert forall|i: int, j: int| 0 <= i < j < res@.len() implies res@[i] != res@[j] by {
                if j == res@.len() - 1 {
                    assert(res@[i].0 as int != src || !id_set(pre_res).contains(src)) by {
                        lemma_id_set_contains(pre_res, res@[i].0 as int);
                    }
                    lemma_id_set_contains(pre_res, res@[i].0 as int);
                }
            }
            // the new element's dependencies all stand earlier
            assert forall|x: int, di: int|
                #![trigger self@[res@[x].0 as int].dependencies[di]]
                0 <= x < res@.len() && 0 <= di < self@[res@[x].0 as int].dependencies.len() implies
                appears_before(
                res@,
                x,
                self@[res@[x].0 as int].dependencies[di].crate_id,
            ) by {
                if x < res@.len() - 1 {
                    assert(pre_res[x] == res@[x]);
                    assert(appears_before(
                        pre_res,
                        x,
                        self@[pre_res[x].0 as int].dependencies[di].crate_id,
                    ));
                    let y = choose|y: int|
                        0 <= y < x && pre_res[y].0 as int == self@[
                            pre_res[x].0 as int
                        ].dependencies[di].crate_id;
                    assert(res@[y].0 as int == self@[res@[x].0 as int].dependencies[di].crate_id);
                } else {
                    let d = deps[di].crate_id;
                    lemma_reach_refl(e, d);
                    assert(reach(e, d, d));
                    assert(true_set(visited@).contains(d));
                    assert(id_set(pre_res).contains(d) || gray.insert(src).contains(d));
                    if gray.insert(src).contains(d) {
                        assert(e(src, d));
                        if d == src {
                            assert(false);
                        } else {
                            assert(reach(e, d, src));
                            assert(false);
                        }
                    }
                    lemma_id_set_contains(pre_res, d);
                    let y = choose|y: int| 0 <= y < pre_res.len() && pre_res[y].0 as int == d;
                    assert(res@[y].0 as int == d);
                    assert(0 <= y < x);
                }
            }
            // the final visited set is the entry set plus everything
            // reachable from `src`
            assert forall|v: int| #[trigger] true_set(visited@).contains(v) implies (true_set(
                entry_visited,
            ).contains(v) || reach(e, src, v)) by {}
            assert forall|v: int|
                reach(e, src, v) implies #[trigger] true_set(visited@).contains(v) by {
                if v != src {
                    let nn = choose|nn: nat| reach_n(e, src, v, nn);
                    let w = choose|w: int| #[trigger] e(src, w) && reach_n(e, w, v, (nn - 1) as nat);
                    let di = choose|di: int|
                        0 <= di < self@[src].dependencies.len() && #[trigger] self@[
                            src
                        ].dependencies[di].crate_id == w;
                    assert(deps[di].crate_id == w);
                    assert(reach(e, w, v));
                }
            }
            assert(true_set(visited@) =~= true_set(entry_visited).union(
                Set::new(|v: int| reach(e, src, v)),
            ));
        }
    }

    /// All units, sorted so that the dependencies of a unit come before the
    /// unit itself. The traversal shares one visited set across its roots,
    /// so shared subgraphs are emitted once.
    #[verifier::loop_isolation(false)]
    pub fn crates_in_topological_order(&self) -> (r: Vec<CrateId>)
        requires
            self.wf(),
            acyclic_graph(self@),
        ensures
            r@.len() == self@.len(),
            forall|i: int, j: int| 0 <= i < j < r@.len() ==> r@[i] != r@[j],
            forall|i: int| 0 <= i < r@.len() ==> (r@[i].0 as int) < self@.len(),
            forall|c: CrateId| (c.0 as int) < self@.len() ==> #[trigger] r@.contains(c),
            topo_sorted(self@, r@),
    {
        let n = self.arena.len();
        let mut visited: Vec<bool> = Vec::new();
        for i in 0..n
            invariant
                visited@.len() == i,
                forall|j: int| 0 <= j < i ==> !visited@[j],
        {
            visited.push(false);
        }
        let mut res: Vec<CrateId> = Vec::new();
        proof {
            assert(true_set(visited@) =~= Set::<int>::empty());
            assert(id_set(res@).union(Set::<int>::empty()) =~= id_set(res@));
            assert forall|v: int| !(#[trigger] id_set(res@).contains(v)) by {
                lemma_id_set_contains(res@, v);
            }
            assert(true_set(visited@) =~= id_set(res@).union(Set::<int>::empty()));
            vstd::set_lib::lemma_int_range(0, n as int);
            vstd::set_lib::lemma_len_subset(
                true_set(visited@),
                vstd::set_lib::set_int_range(0, n as int),
            );
        }
        for k in 0..n
            invariant
                visited@.len() == n,
                true_set(visited@).finite(),
                true_set(visited@).len() <= n,
                true_set(visited@) == id_set(res@).union(Set::<int>::empty()),
                forall|i: int, j: int| 0 <= i < j < res@.len() ==> res@[i] != res@[j],
                forall|i: int| 0 <= i < res@.len() ==> (res@[i].0 as int) < n,
                topo_sorted(self@, res@),
                forall|v: int| 0 <= v < k ==> #[trigger] true_set(visited@).contains(v),
        {
            let ghost pre_visited = visited@;
            self.topo_go(&mut visited, &mut res, CrateId(k as u32), Ghost(Set::<int>::empty()));
            proof {
                lemma_reach_refl(edge_rel(self@), k as int);
                assert forall|v: int| 0 <= v < k + 1 implies #[trigger] true_set(
                    visited@,
                ).contains(v) by {
                    if v < k as int {
                        assert(true_set(pre_visited).contains(v));
                        assert(true_set(visited@) =~= true_set(pre_visited).union(
                            Set::new(|w: int| reach(edge_rel(self@), k as int, w)),
                        ));
                    } else {
                        assert(reach(edge_rel(self@), k as int, v));
                    }
                }
            }
        }
        proof {
            assert forall|c: CrateId| (c.0 as int) < n implies #[trigger] res@.contains(c) by {
                assert(true_set(visited@).contains(c.0 as int));
                assert(id_set(res@).contains(c.0 as int));
                lemma_id_set_contains(res@, c.0 as int);
                let i = choose|i: int| 0 <= i < res@.len() && res@[i].0 as int == c.0 as int;
                assert(res@[i] == c);
            }
            // the result lists each of the n identifiers exactly once
            let mapped = res@.map_values(|c: CrateId| c.0 as int);
            assert(mapped.no_duplicates()) by {
                assert forall|i: int, j: int|
                    0 <= i < mapped.len() && 0 <= j < mapped.len() && i != j implies mapped[i]
                    != mapped[j] by {
                    assert(mapped[i] == res@[i].0 as int);
                    assert(mapped[j] == res@[j].0 as int);
                }
            }
            mapped.unique_seq_to_set();
            assert forall|v: int| id_set(res@).contains(v) implies vstd::set_lib::set_int_range(
                0,
                n as int,
            ).contains(v) by {
                lemma_id_set_contains(res@, v);
            }
            assert forall|v: int|
                vstd::set_lib::set_int_range(0, n as int).contains(v) implies id_set(
                res@,
            ).contains(v) by {
                assert(res@.contains(CrateId(v as u32)));
                let i = choose|i: int| 0 <= i < res@.len() && res@[i] == CrateId(v as u32);
                lemma_id_set_contains(res@, v);
                assert(res@[i].0 as int == v);
            }
            assert(id_set(res@) =~= vstd::set_lib::set_int_range(0, n as int));
            vstd::set_lib::lemma_int_range(0, n as int);
        }
        res
    }
}

/// An edge with its target relabelled by `amount`.
pub open spec fn shift_dep(d: DependencyView, amount: int) -> DependencyView {
    DependencyView { crate_id: d.crate_id + amount, name: d.name }
}

/// A unit record with all its edge targets relabelled by `amount`.
pub open spec fn shift_data(d: CrateDataView, amount: int) -> CrateDataView {
    CrateDataView {
        dependencies: d.dependencies.map_values(|dd: DependencyView| shift_dep(dd, amount)),
        ..d
    }
}

/// The disjoint union of two graphs: `b`'s units appended to `a`'s, with all
/// of `b`'s identifiers and edge targets shifted by `a`'s size.
pub open spec fn graph_extended(a: Seq<CrateDataView>, b: Seq<CrateDataView>) -> Seq<
    CrateDataView,
> {
    a + b.map_values(|d: CrateDataView| shift_data(d, a.len() as int))
}

/// Merging three graphs associates: taking `b` into `a` and then `c` into
/// the result relabels every unit exactly as taking `c` into `b` first and
/// the merged pair into `a`.
pub proof fn lemma_extend_associative(
    a: Seq<CrateDataView>,
    b: Seq<CrateDataView>,
    c: Seq<CrateDataView>,
)
    ensures
        graph_extended(graph_extended(a, b), c) == graph_extended(a, graph_extended(b, c)),
{
    let lhs = graph_extended(graph_extended(a, b), c);
    let rhs = graph_extended(a, graph_extended(b, c));
    let an = a.len() as int;
    let bn = b.len() as int;
    assert(lhs.len() == rhs.len());
    assert forall|i: int| 0 <= i < lhs.len() implies lhs[i] =~~= rhs[i] by {
        if i < an {
        } else if i < an + bn {
            assert(lhs[i] == shift_data(b[i - an], an));
            assert(graph_extended(b, c)[i - an] == shift_data(b[i - an], 0 + bn - bn));
            assert(graph_extended(b, c)[i - an] == b[i - an]) by {
                assert(graph_extended(b, c)[i - an] == b[i - an]);
            }
            assert(rhs[i] == shift_data(b[i - an], an));
        } else {
            let d = c[i - an - bn];
            assert(lhs[i] == shift_data(d, an + bn));
            assert(rhs[i] == shift_data(shift_data(d, bn), an));
            assert(shift_data(shift_data(d, bn), an).dependencies =~= shift_data(
                d,
                an + bn,
            ).dependencies);
            assert(shift_data(shift_data(d, bn), an) =~~= shift_data(d, an + bn));
        }
    }
    assert(lhs =~~= rhs);
}

proof fn lemma_extended_edge_shape(a: Seq<CrateDataView>, b: Seq<CrateDataView>, u: int, v: int)
    requires
        wf_graph(a),
        wf_graph(b),
        graph_edge(graph_extended(a, b), u, v),
    ensures
        (u < a.len() && graph_edge(a, u, v) && 0 <= v < a.len()) || (a.len() <= u && graph_edge(
            b,
            u - a.len(),
            v - a.len(),
        ) && a.len() <= v < a.len() + b.len()),
{
    let g = graph_extended(a, b);
    let an = a.len() as int;
    let i = choose|i: int|
        0 <= i < g[u].dependencies.len() && #[trigger] g[u].dependencies[i].crate_id == v;
    if u < an {
        assert(g[u] == a[u]);
        assert(graph_edge(a, u, v));
    } else {
        assert(g[u] == shift_data(b[u - an], an));
        assert(g[u].dependencies[i] == shift_dep(b[u - an].dependencies[i], an));
        assert(b[u - an].dependencies[i].crate_id == v - an);
        assert(graph_edge(b, u - an, v - an));
        assert(0 <= b[u - an].dependencies[i].crate_id < b.len());
    }
}

proof fn lemma_extended_reach_n(
    a: Seq<CrateDataView>,
    b: Seq<CrateDataView>,
    u: int,
    v: int,
    n: nat,
)
    requires
        wf_graph(a),
        wf_graph(b),
        reach_n(edge_rel(graph_extended(a, b)), u, v, n),
    ensures
        u < a.len() ==> reach_n(edge_rel(a), u, v, n),
        u >= a.len() ==> reach_n(edge_rel(b), u - a.len(), v - a.len(), n),
    decreases n,
{
    let g = graph_extended(a, b);
    if u != v {
        let w = choose|w: int|
            #[trigger] edge_rel(g)(u, w) && reach_n(edge_rel(g), w, v, (n - 1) as nat);
        lemma_extended_edge_shape(a, b, u, w);
        lemma_extended_reach_n(a, b, w, v, (n - 1) as nat);
        if u < a.len() {
            assert(edge_rel(a)(u, w));
            assert(reach_n(edge_rel(a), w, v, (n - 1) as nat));
            assert(reach_n(edge_rel(a), u, v, n));
        } else {
            assert(edge_rel(b)(u - a.len(), w - a.len()));
            assert(reach_n(edge_rel(b), w - a.len(), v - a.len(), (n - 1) as nat));
            assert(reach_n(edge_rel(b), u - a.len(), v - a.len(), n));
        }
    }
}

/// The disjoint union of two acyclic graphs is acyclic: a merged-in graph
/// brings no cross edges, so no new loop can arise.
pub proof fn lemma_extended_acyclic(a: Seq<CrateDataView>, b: Seq<CrateDataView>)
    requires
        wf_graph(a),
        wf_graph(b),
        acyclic_graph(a),
        acyclic_graph(b),
    ensures
        acyclic_graph(graph_extended(a, b)),
{
    let g = graph_extended(a, b);
    assert forall|u: int, v: int| #[trigger] edge_rel(g)(u, v) implies !reach(edge_rel(g), v, u) by {
        if reach(edge_rel(g), v, u) {
            lemma_extended_edge_shape(a, b, u, v);
            let n = choose|n: nat| reach_n(edge_rel(g), v, u, n);
            lemma_extended_reach_n(a, b, v, u, n);
            if u < a.len() {
                assert(edge_rel(a)(u, v));
                assert(reach(edge_rel(a), v, u));
                assert(false);
            } else {
                assert(edge_rel(b)(u - a.len(), v - a.len()));
                assert(reach(edge_rel(b), v - a.len(), u - a.len()));
                assert(false);
            }
        }
    }
}

/// A relation with no more edges than an acyclic one is acyclic.
pub proof fn lemma_acyclic_sub(e1: spec_fn(int, int) -> bool, e2: spec_fn(int, int) -> bool)
    requires
        forall|a: int, b: int| #[trigger] e1(a, b) ==> e2(a, b),
        acyclic(e2),
    ensures
        acyclic(e1),
{
    assert forall|u: int, v: int| #[trigger] e1(u, v) implies !reach(e1, v, u) by {
        if reach(e1, v, u) {
            lemma_reach_rel_mono(e1, e2, v, u);
        }
    }
}

/// Whether unit record `d` is displayed under the name `s`.
pub open spec fn name_matches(d: CrateDataView, s: Seq<char>) -> bool {
    d.display_name matches Some(dn) && dn.crate_name == s
}

/// The least unit index at or after `i` displayed under the name `s`.
pub open spec fn first_with_name_from(g: Seq<CrateDataView>, s: Seq<char>, i: int) -> Option<int>
    decreases g.len() - i,
    when 0 <= i <= g.len()
{
    if i >= g.len() {
        None
    } else if name_matches(g[i], s) {
        Some(i)
    } else {
        first_with_name_from(g, s, i + 1)
    }
}

/// The least unit index displayed under the name `s`.
pub open spec fn spec_first_with_name(g: Seq<CrateDataView>, s: Seq<char>) -> Option<int> {
    first_with_name_from(g, s, 0)
}

/// The graph after the patch: the first `cfg_if` unit's edges cleared, and
/// one edge from the first `std` unit onto it.
pub open spec fn cfg_if_patched(g: Seq<CrateDataView>, ci: int, si: int) -> Seq<CrateDataView> {
    let g1 = g.update(ci, (CrateDataView { dependencies: Seq::empty(), ..g[ci] }));
    g1.update(
        si,
        (CrateDataView {
            dependencies: g1[si].dependencies.push(
                (DependencyView { crate_id: ci, name: "cfg_if"@ }),
            ),
            ..g1[si]
        }),
    )
}

impl CrateGraph {
    /// Extends this graph by a complete second graph, as a disjoint union:
    /// the merged-in units keep their records, and their identifiers are
    /// shifted by the returned amount, so callers can translate identifiers
    /// they held against the old graph.
    #[verifier::loop_isolation(false)]
    pub fn extend(&mut self, other: CrateGraph) -> (r: u32)
        requires
            old(self).wf(),
            other.wf(),
            old(self)@.len() + other@.len() <= u32::MAX,
        ensures
            final(self).wf(),
            r == old(self)@.len(),
            final(self)@ == graph_extended(old(self)@, other@),
            acyclic_graph(old(self)@) && acyclic_graph(other@) ==> acyclic_graph(final(self)@),
    {
        let ghost a = old(self)@;
        let ghost b = other@;
        let ghost an = a.len() as int;
        let start = self.arena.len() as u32;
        let mut rest = other;
        proof {
            assert(b.subrange(0, 0).map_values(|d: CrateDataView| shift_data(d, an)) =~= Seq::<
                CrateDataView,
            >::empty());
            assert(self@ =~= a + b.subrange(0, 0).map_values(
                |d: CrateDataView| shift_data(d, an),
            ));
            assert(rest.arena@.map_values(|d: CrateData| d@) =~= b.subrange(0, b.len() as int));
        }
        while rest.arena.len() > 0
            invariant
                self@ == a + b.subrange(
                    0,
                    b.len() - rest.arena@.len(),
                ).map_values(|d: CrateDataView| shift_data(d, an)),
                rest.arena@.map_values(|d: CrateData| d@) == b.subrange(
                    b.len() - rest.arena@.len(),
                    b.len() as int,
                ),
                forall|i: int| 0 <= i < rest.arena@.len() ==> (#[trigger] rest.arena@[i]).wf(),
                forall|i: int|
                    0 <= i < self.arena@.len() ==> (#[trigger] self.arena@[i]).wf(),
                self@.len() == an + b.len() - rest.arena@.len(),
            decreases rest.arena@.len(),
        {
            let ghost k = b.len() - rest.arena@.len();
            let ghost pre_rest = rest.arena@;
            let mut data = rest.arena.remove(0);
            proof {
                assert(pre_rest[0]@ == b.subrange(k, b.len() as int)[0]);
                assert(data@ == b[k]);
                assert forall|i: int| 0 <= i < rest.arena@.len() implies (#[trigger] rest.arena@[
                    i
                ]).wf() by {
                    assert(rest.arena@[i] == pre_rest[i + 1]);
                }
                let rest_view = rest.arena@.map_values(|d: CrateData| d@);
                assert forall|i: int| 0 <= i < rest.arena@.len() implies #[trigger] rest_view[i]
                    == b.subrange(k + 1, b.len() as int)[i] by {
                    assert(rest.arena@[i] == pre_rest[i + 1]);
                    assert(pre_rest[i + 1]@ == b.subrange(k, b.len() as int)[i + 1]);
                }
                assert(rest_view =~= b.subrange(k + 1, b.len() as int));
            }
            let ghost old_deps = data.dependencies@;
            let mut new_deps: Vec<Dependency> = Vec::new();
            while data.dependencies.len() > 0
                invariant
                    (CrateDataView { dependencies: Seq::empty(), ..data@ }) == (CrateDataView {
                        dependencies: Seq::empty(),
                        ..b[k]
                    }),
                    data.wf(),
                    new_deps@.len() + data.dependencies@.len() == old_deps.len(),
                    data.dependencies@ == old_deps.subrange(
                        new_deps@.len() as int,
                        old_deps.len() as int,
                    ),
                    old_deps.map_values(|dd: Dependency| dd@) == b[k].dependencies,
                    forall|i: int|
                        0 <= i < new_deps@.len() ==> (#[trigger] new_deps@[i])@ == shift_dep(
                            old_deps[i]@,
                            an,
                        ),
                decreases data.dependencies@.len(),
            {
                let ghost nk = new_deps@.len() as int;
                let dep = data.dependencies.remove(0);
                proof {
                    assert(dep == old_deps.subrange(nk, old_deps.len() as int)[0]);
                    assert(dep == old_deps[nk]);
                    assert(b[k].dependencies[nk] == old_deps[nk]@);
                    assert(0 <= b[k].dependencies[nk].crate_id < b.len());
                    assert(data.dependencies@ =~= old_deps.subrange(
                        nk + 1,
                        old_deps.len() as int,
                    ));
                }
                let shifted = dep.crate_id.shift(start);
                new_deps.push(Dependency { crate_id: shifted, name: dep.name });
            }
            data.dependencies = new_deps;
            proof {
                assert(data@.dependencies =~= shift_data(b[k], an).dependencies) by {
                    assert forall|i: int| 0 <= i < old_deps.len() implies data@.dependencies[i]
                        == shift_data(b[k], an).dependencies[i] by {
                        assert(data.dependencies@[i]@ == shift_dep(old_deps[i]@, an));
                        assert(b[k].dependencies[i] == old_deps[i]@);
                    }
                }
                assert(data@ =~~= shift_data(b[k], an));
            }
            let ghost pre_self = self@;
            self.arena.push(data);
            proof {
                assert(self@ =~= pre_self.push(data@));
                assert(self@ =~= a + b.subrange(0, k + 1).map_values(
                    |d: CrateDataView| shift_data(d, an),
                )) by {
                    assert(b.subrange(0, k + 1).map_values(|d: CrateDataView| shift_data(d, an))
                        =~= b.subrange(0, k).map_values(|d: CrateDataView| shift_data(d, an)).push(
                        shift_data(b[k], an),
                    ));
                }
                assert forall|i: int| 0 <= i < self.arena@.len() implies (#[trigger] self.arena@[
                    i
                ]).wf() by {}
            }
        }
        proof {
            assert(b.subrange(0, b.len() as int) =~= b);
            assert(self@ == graph_extended(a, b));
            if acyclic_graph(a) && acyclic_graph(b) {
                lemma_extended_acyclic(a, b);
            }
            assert(wf_graph(self@)) by {
                assert forall|u: int, i: int|
                    0 <= u < self@.len() && 0 <= i < self@[u].dependencies.len() implies 0 <= (
                #[trigger] self@[u].dependencies[i].crate_id) < self@.len() by {
                    if u < an {
                        assert(self@[u] == a[u]);
                    } else {
                        assert(self@[u] == shift_data(b[u - an], an));
                        assert(self@[u].dependencies[i] == shift_dep(
                            b[u - an].dependencies[i],
                            an,
                        ));
                        assert(0 <= b[u - an].dependencies[i].crate_id < b.len());
                    }
                }
            }
        }
        start
    }

    /// The lowest-numbered unit displayed under `display_name`, if any.
    #[verifier::loop_isolation(false)]
    fn hacky_find_crate(&self, display_name: &str) -> (r: Option<CrateId>)
        requires
            self.wf(),
        ensures
            r is Some <==> spec_first_with_name(self@, display_name@) is Some,
            r matches Some(c) ==> spec_first_with_name(self@, display_name@) == Some(c.0 as int),
    {
        let n = self.arena.len();
        for i in 0..n
            invariant
                spec_first_with_name(self@, display_name@) == first_with_name_from(
                    self@,
                    display_name@,
                    i as int,
                ),
        {
            let found = match &self.arena[i].display_name {
                Some(dn) => crate::strings::slice_eq(dn.as_str(), display_name),
                None => false,
            };
            if found {
                proof {
                    assert(name_matches(self@[i as int], display_name@));
                }
                return Some(CrateId(i as u32));
            }
            proof {
                assert(!name_matches(self@[i as int], display_name@));
            }
        }
        None
    }

    /// A narrow, documented escape hatch for one historically troublesome
    /// dependency shape: clears the dependencies of the first unit displayed
    /// as `cfg_if` and gives the first unit displayed as `std` a single edge
    /// onto it. Reports whether both units were found; otherwise the graph
    /// is untouched.
    pub fn patch_cfg_if(&mut self) -> (r: bool)
        requires
            old(self).wf(),
        ensures
            final(self).wf(),
            r == (spec_first_with_name(old(self)@, "cfg_if"@) is Some && spec_first_with_name(
                old(self)@,
                "std"@,
            ) is Some),
            !r ==> *final(self) == *old(self),
            r ==> (spec_first_with_name(old(self)@, "cfg_if"@) matches Some(ci)
                && spec_first_with_name(old(self)@, "std"@) matches Some(si) && final(self)@
                == cfg_if_patched(old(self)@, ci, si)),
            acyclic_graph(old(self)@) ==> acyclic_graph(final(self)@),
    {
        proof {
            reveal_strlit("cfg_if");
            reveal_strlit("std");
        }
        let cfg_if = self.hacky_find_crate("cfg_if");
        let std_id = self.hacky_find_crate("std");
        match (cfg_if, std_id) {
            (Some(cfg_if), Some(std_id)) => {
                let ghost g0 = self@;
                let ghost ci = cfg_if.0 as int;
                let ghost si = std_id.0 as int;
                proof {
                    lemma_first_with_name_valid(g0, "cfg_if"@, 0);
                    lemma_first_with_name_valid(g0, "std"@, 0);
                    assert("cfg_if"@.len() == 6 && "std"@.len() == 3);
                    assert(ci != si);
                }
                self.arena[cfg_if.0 as usize].dependencies = Vec::new();
                let ghost g1 = self@;
                proof {
                    assert(g1 =~= g0.update(
                        ci,
                        (CrateDataView { dependencies: Seq::empty(), ..g0[ci] }),
                    )) by {
                        assert(self.arena@[ci]@.dependencies =~= Seq::<DependencyView>::empty());
                        assert(self.arena@[ci]@ =~~= (CrateDataView {
                            dependencies: Seq::empty(),
                            ..g0[ci]
                        }));
                    }
                }
                let name = CrateName::normalize_dashes("cfg_if");
                proof {
                    assert forall|j: int| 0 <= j < "cfg_if"@.len() implies "cfg_if"@[j]
                        != '-' by {
                        assert("cfg_if"@[0] == 'c' && "cfg_if"@[1] == 'f' && "cfg_if"@[2] == 'g'
                            && "cfg_if"@[3] == '_' && "cfg_if"@[4] == 'i' && "cfg_if"@[5] == 'f');
                    }
                    assert(crate::input::replace_dashes("cfg_if"@) =~= "cfg_if"@);
                }
                let dep = Dependency { crate_id: cfg_if, name };
                self.arena[std_id.0 as usize].dependencies.push(dep);
                proof {
                    let g2 = self@;
                    assert(self.arena@[si].dependencies@ =~= old(self).arena@[
                        si
                    ].dependencies@.push(dep));
                    assert(self.arena@[si]@.dependencies =~= g1[si].dependencies.push(
                        (DependencyView { crate_id: ci, name: "cfg_if"@ }),
                    ));
                    assert(self.arena@[si]@ =~~= (CrateDataView {
                        dependencies: g1[si].dependencies.push(
                            (DependencyView { crate_id: ci, name: "cfg_if"@ }),
                        ),
                        ..g1[si]
                    }));
                    assert(g2 =~= cfg_if_patched(g0, ci, si));
                    if acyclic_graph(g0) {
                        lemma_patch_acyclic(g0, g1, g2, ci, si);
                    }
                }
                true
            },
            _ => {
                false
            },
        }
    }
}

proof fn lemma_first_with_name_valid(g: Seq<CrateDataView>, s: Seq<char>, i: int)
    requires
        0 <= i <= g.len(),
        first_with_name_from(g, s, i) is Some,
    ensures
        first_with_name_from(g, s, i) matches Some(x) ==> (i <= x < g.len() && name_matches(
            g[x],
            s,
        )),
    decreases g.len() - i,
{
    if i < g.len() && !name_matches(g[i], s) {
        lemma_first_with_name_valid(g, s, i + 1);
    }
}

proof fn lemma_patch_acyclic(
    g0: Seq<CrateDataView>,
    g1: Seq<CrateDataView>,
    g2: Seq<CrateDataView>,
    ci: int,
    si: int,
)
    requires
        acyclic_graph(g0),
        0 <= ci < g0.len(),
        0 <= si < g0.len(),
        ci != si,
        g1 == g0.update(ci, (CrateDataView { dependencies: Seq::empty(), ..g0[ci] })),
        g2 == g1.update(
            si,
            (CrateDataView {
                dependencies: g1[si].dependencies.push(
                    (DependencyView { crate_id: ci, name: "cfg_if"@ }),
                ),
                ..g1[si]
            }),
        ),
    ensures
        acyclic_graph(g2),
{
    let e0 = edge_rel(g0);
    let e1 = edge_rel(g1);
    let e2 = edge_rel(g2);
    assert forall|a: int, b: int| #[trigger] e1(a, b) implies e0(a, b) by {
        if graph_edge(g1, a, b) {
            let i = choose|i: int|
                0 <= i < g1[a].dependencies.len() && #[trigger] g1[a].dependencies[i].crate_id
                    == b;
            assert(a != ci);
            assert(g0[a].dependencies[i].crate_id == b);
        }
    }
    lemma_acyclic_sub(e1, e0);
    assert(!reach(e1, ci, si)) by {
        if reach(e1, ci, si) {
            let n = choose|n: nat| reach_n(e1, ci, si, n);
            assert(ci != si);
            let w = choose|w: int| #[trigger] e1(ci, w) && reach_n(e1, w, si, (n - 1) as nat);
            assert(g1[ci].dependencies.len() == 0);
            assert(false);
        }
    }
    assert forall|a: int, b: int| #[trigger] e2(a, b) <==> (e1(a, b) || (a == si && b == ci)) by {
        if graph_edge(g2, a, b) {
            let i = choose|i: int|
                0 <= i < g2[a].dependencies.len() && #[trigger] g2[a].dependencies[i].crate_id
                    == b;
            if a == si && i == g1[si].dependencies.len() {
                assert(b == ci);
            } else {
                assert(g1[a].dependencies[i].crate_id == b);
                assert(graph_edge(g1, a, b));
            }
        }
        if graph_edge(g1, a, b) {
            let i = choose|i: int|
                0 <= i < g1[a].dependencies.len() && #[trigger] g1[a].dependencies[i].crate_id
                    == b;
            assert(g2[a].dependencies[i].crate_id == b);
            assert(graph_edge(g2, a, b));
        }
        if a == si && b == ci {
            assert(g2[a].dependencies[g1[si].dependencies.len() as int].crate_id == b);
            assert(graph_edge(g2, a, b));
        }
    }
    lemma_acyclic_add_edge(e1, e2, si, ci);
}

impl Default for CrateGraph {
    /// The empty graph.
    fn default() -> (r: CrateGraph)
        ensures
            r.wf(),
            r@ == Seq::<CrateDataView>::empty(),
            acyclic_graph(r@),
    {
        let r = CrateGraph { arena: Vec::new() };
        proof {
            assert(r@ =~= Seq::<CrateDataView>::empty());
            assert forall|u: int, v: int| #[trigger] edge_rel(r@)(u, v) implies !reach(
                edge_rel(r@),
                v,
                u,
            ) by {}
        }
        r
    }
}

} // verus!
