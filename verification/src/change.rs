//! The transactional change protocol: a batch of input edits, applied once
//! to the engine's input store. Each write carries a durability hint telling
//! the engine how often that input is expected to change — library roots
//! rarely, local roots often. The hint tunes cache invalidation only; it
//! never affects results.

use vstd::prelude::*;

use crate::assoc::Table;
use crate::graph::CrateGraph;
use crate::input::CrateDataView;
use crate::input::FileId;
use crate::input::SourceRoot;
use crate::input::SourceRootId;
use crate::input::SourceRootView;

verus! {

/// How often an input is expected to change: a hint to the host engine's
/// caching, not a locking or safety mechanism.
#[derive(Debug, Clone, Copy, PartialEq, Eq, Hash, Structural)]
pub enum Durability {
    Low,
    High,
}

/// The durability assigned to data of a root: library roots are assumed
/// near-immutable, local roots volatile.
pub open spec fn durability_of(is_library: bool) -> Durability {
    if is_library {
        Durability::High
    } else {
        Durability::Low
    }
}

fn durability(source_root: &SourceRoot) -> (r: Durability)
    ensures
        r == durability_of(source_root@.is_library),
{
    if source_root.is_library() {
        Durability::High
    } else {
        Durability::Low
    }
}

/// The input store of the host computation engine, as this layer sees it:
/// file texts, file-to-root assignments, the roots themselves and the
/// compilation-unit graph, each entry tagged with its durability.
#[derive(Debug)]
pub struct SourceDatabase {
    file_text: Table<(String, Durability)>,
    file_root: Table<(SourceRootId, Durability)>,
    roots: Table<(SourceRoot, Durability)>,
    crate_graph: Option<(CrateGraph, Durability)>,
}

impl SourceDatabase {
    /// The stored text and durability of each file.
    pub closed spec fn file_texts(&self) -> Map<u32, (Seq<char>, Durability)> {
        self.file_text@.map_values(|p: (String, Durability)| (p.0@, p.1))
    }

    /// The stored root assignment and durability of each file.
    pub closed spec fn file_roots(&self) -> Map<u32, (u32, Durability)> {
        self.file_root@.map_values(|p: (SourceRootId, Durability)| (p.0.0, p.1))
    }

    /// The stored roots and their durabilities.
    pub closed spec fn root_map(&self) -> Map<u32, (SourceRootView, Durability)> {
        self.roots@.map_values(|p: (SourceRoot, Durability)| (p.0@, p.1))
    }

    /// The stored compilation-unit graph and its durability, if set.
    pub closed spec fn graph(&self) -> Option<(Seq<CrateDataView>, Durability)> {
        match self.crate_graph {
            Some((ref g, d)) => Some((g@, d)),
            None => None,
        }
    }

    /// The tables are duplicate-free and every stored root and graph is
    /// well formed.
    pub closed spec fn wf(&self) -> bool {
        &&& self.file_text.wf()
        &&& self.file_root.wf()
        &&& self.roots.wf()
        &&& (forall|k: u32|
            self.roots@.contains_key(k) ==> (#[trigger] self.roots@[k]).0.wf())
        &&& (match self.crate_graph {
            Some((ref g, _)) => g.wf(),
            None => true,
        })
    }

    /// Stores the text of a file.
    pub fn set_file_text_with_durability(
        &mut self,
        file_id: FileId,
        text: String,
        durability: Durability,
    )
        requires
            old(self).wf(),
        ensures
            final(self).wf(),
            final(self).file_texts() == old(self).file_texts().insert(
                file_id.0,
                (text@, durability),
            ),
            final(self).file_roots() == old(self).file_roots(),
            final(self).root_map() == old(self).root_map(),
            final(self).graph() == old(self).graph(),
    {
        let ghost expected = self.file_texts().insert(file_id.0, (text@, durability));
        self.file_text.set(file_id.0, (text, durability));
        proof {
            assert(self.file_texts() =~= expected);
        }
    }

    /// Stores the root a file belongs to.
    pub fn set_file_source_root_with_durability(
        &mut self,
        file_id: FileId,
        root: SourceRootId,
        durability: Durability,
    )
        requires
            old(self).wf(),
        ensures
            final(self).wf(),
            final(self).file_roots() == old(self).file_roots().insert(
                file_id.0,
                (root.0, durability),
            ),
            final(self).file_texts() == old(self).file_texts(),
            final(self).root_map() == old(self).root_map(),
            final(self).graph() == old(self).graph(),
    {
        let ghost expected = self.file_roots().insert(file_id.0, (root.0, durability));
        self.file_root.set(file_id.0, (root, durability));
        proof {
            assert(self.file_roots() =~= expected);
        }
    }

    /// Stores a root.
    pub fn set_source_root_with_durability(
        &mut self,
        root_id: SourceRootId,
        root: SourceRoot,
        durability: Durability,
    )
        requires
            old(self).wf(),
            root.wf(),
        ensures
            final(self).wf(),
            final(self).root_map() == old(self).root_map().insert(root_id.0, (root@, durability)),
            final(self).file_texts() == old(self).file_texts(),
            final(self).file_roots() == old(self).file_roots(),
            final(self).graph() == old(self).graph(),
    {
        let ghost expected = self.root_map().insert(root_id.0, (root@, durability));
        self.roots.set(root_id.0, (root, durability));
        proof {
            assert(self.root_map() =~= expected);
        }
    }

    /// Stores the compilation-unit graph.
    pub fn set_crate_graph_with_durability(&mut self, graph: CrateGraph, durability: Durability)
        requires
            old(self).wf(),
            graph.wf(),
        ensures
            final(self).wf(),
            final(self).graph() == Some((graph@, durability)),
            final(self).file_texts() == old(self).file_texts(),
            final(self).file_roots() == old(self).file_roots(),
            final(self).root_map() == old(self).root_map(),
    {
        self.crate_graph = Some((graph, durability));
    }

    /// The root assignment of `file_id`.
    pub fn file_source_root(&self, file_id: FileId) -> (r: SourceRootId)
        requires
            self.wf(),
            self.file_roots().contains_key(file_id.0),
        ensures
            r.0 == self.file_roots()[file_id.0].0,
    {
        match self.file_root.get(file_id.0) {
            Some(p) => p.0,
            None => {
                proof {
                    assert(false);
                }
                SourceRootId(0)
            },
        }
    }

    /// The durability of the root assignment of `file_id`, if any is stored.
    pub fn file_source_root_durability(&self, file_id: FileId) -> (r: Option<Durability>)
        requires
            self.wf(),
        ensures
            r is Some <==> self.file_roots().contains_key(file_id.0),
            r matches Some(d) ==> d == self.file_roots()[file_id.0].1,
    {
        match self.file_root.get(file_id.0) {
            Some(p) => Some(p.1),
            None => None,
        }
    }

    /// The root stored under `root_id`.
    pub fn source_root(&self, root_id: SourceRootId) -> (r: &SourceRoot)
        requires
            self.wf(),
            self.root_map().contains_key(root_id.0),
        ensures
            r@ == self.root_map()[root_id.0].0,
            r.wf(),
    {
        match self.roots.get(root_id.0) {
            Some(p) => &p.0,
            None => {
                proof {
                    assert(false);
                }
                unreached()
            },
        }
    }

    /// The durability of the root stored under `root_id`, if any is stored.
    pub fn source_root_durability(&self, root_id: SourceRootId) -> (r: Option<Durability>)
        requires
            self.wf(),
        ensures
            r is Some <==> self.root_map().contains_key(root_id.0),
            r matches Some(d) ==> d == self.root_map()[root_id.0].1,
    {
        match self.roots.get(root_id.0) {
            Some(p) => Some(p.1),
            None => None,
        }
    }

    /// The stored text of `file_id`.
    pub fn file_text(&self, file_id: FileId) -> (r: &String)
        requires
            self.wf(),
            self.file_texts().contains_key(file_id.0),
        ensures
            r@ == self.file_texts()[file_id.0].0,
    {
        match self.file_text.get(file_id.0) {
            Some(p) => &p.0,
            None => {
                proof {
                    assert(false);
                }
                unreached()
            },
        }
    }

    /// The durability of the stored text of `file_id`, if any is stored.
    pub fn file_text_durability(&self, file_id: FileId) -> (r: Option<Durability>)
        requires
            self.wf(),
        ensures
            r is Some <==> self.file_texts().contains_key(file_id.0),
            r matches Some(d) ==> d == self.file_texts()[file_id.0].1,
    {
        match self.file_text.get(file_id.0) {
            Some(p) => Some(p.1),
            None => None,
        }
    }

    /// The stored compilation-unit graph, if any.
    pub fn crate_graph(&self) -> (r: Option<&CrateGraph>)
        requires
            self.wf(),
        ensures
            r is Some <==> self.graph() is Some,
            r matches Some(g) ==> (self.graph() matches Some(p) && p.0 == g@ && g.wf()),
    {
        match &self.crate_graph {
            Some((g, _)) => Some(g),
            None => None,
        }
    }

    /// The durability of the stored graph, if any.
    pub fn crate_graph_durability(&self) -> (r: Option<Durability>)
        requires
            self.wf(),
        ensures
            r is Some <==> self.graph() is Some,
            r matches Some(d) ==> (self.graph() matches Some(p) && p.1 == d),
    {
        match &self.crate_graph {
            Some((_, d)) => Some(*d),
            None => None,
        }
    }
}

impl Default for SourceDatabase {
    /// The empty store: nothing set yet.
    fn default() -> (r: SourceDatabase)
        ensures
            r.wf(),
            r.file_texts() == Map::<u32, (Seq<char>, Durability)>::empty(),
            r.file_roots() == Map::<u32, (u32, Durability)>::empty(),
            r.root_map() == Map::<u32, (SourceRootView, Durability)>::empty(),
            r.graph() is None,
    {
        let r = SourceDatabase {
            file_text: Table::new(),
            file_root: Table::new(),
            roots: Table::new(),
            crate_graph: None,
        };
        proof {
            assert(r.file_texts() =~= Map::<u32, (Seq<char>, Durability)>::empty());
            assert(r.file_roots() =~= Map::<u32, (u32, Durability)>::empty());
            assert(r.root_map() =~= Map::<u32, (SourceRootView, Durability)>::empty());
        }
        r
    }
}

/// The views of a root list.
pub open spec fn roots_views(rs: Seq<SourceRoot>) -> Seq<SourceRootView> {
    rs.map_values(|r: SourceRoot| r@)
}

/// The views of an edit list. An absent text stands for the empty text:
/// files cannot be deleted, only reset.
pub open spec fn edit_views(es: Seq<(FileId, Option<String>)>) -> Seq<(u32, Option<Seq<char>>)> {
    es.map_values(
        |p: (FileId, Option<String>)|
            (
                p.0.0,
                match p.1 {
                    Some(ref t) => Some(t@),
                    None => None,
                },
            ),
    )
}

/// The text an edit stores: the given one, or empty when absent.
pub open spec fn text_or_empty(t: Option<Seq<char>>) -> Seq<char> {
    match t {
        Some(s) => s,
        None => Seq::empty(),
    }
}

/// File-to-root assignments after installing the first `n` roots of `rs`:
/// root `idx` claims every file of its file set, at the durability of the
/// root, and roots are numbered by their position in the list.
pub open spec fn roots_file_assignments(
    fr: Map<u32, (u32, Durability)>,
    rs: Seq<SourceRootView>,
    n: int,
) -> Map<u32, (u32, Durability)>
    decreases n,
{
    if n <= 0 {
        fr
    } else {
        let prev = roots_file_assignments(fr, rs, n - 1);
        let root = rs[n - 1];
        prev.union_prefer_right(
            Map::new(
                |f: u32| root.files.contains_key(f),
                |f: u32| (((n - 1) as u32), durability_of(root.is_library)),
            ),
        )
    }
}

/// The root table after installing the first `n` roots of `rs`.
pub open spec fn roots_installed(
    rt: Map<u32, (SourceRootView, Durability)>,
    rs: Seq<SourceRootView>,
    n: int,
) -> Map<u32, (SourceRootView, Durability)>
    decreases n,
{
    if n <= 0 {
        rt
    } else {
        roots_installed(rt, rs, n - 1).insert(
            ((n - 1) as u32),
            (rs[n - 1], durability_of(rs[n - 1].is_library)),
        )
    }
}

/// File texts after applying the first `n` edits in order. Each edit looks
/// up the file's current root to pick the durability of the write.
pub open spec fn edits_applied(
    ft: Map<u32, (Seq<char>, Durability)>,
    fr: Map<u32, (u32, Durability)>,
    rt: Map<u32, (SourceRootView, Durability)>,
    es: Seq<(u32, Option<Seq<char>>)>,
    n: int,
) -> Map<u32, (Seq<char>, Durability)>
    decreases n,
{
    if n <= 0 {
        ft
    } else {
        let prev = edits_applied(ft, fr, rt, es, n - 1);
        let f = es[n - 1].0;
        let root_id = fr[f].0;
        prev.insert(
            f,
            (text_or_empty(es[n - 1].1), durability_of(rt[root_id].0.is_library)),
        )
    }
}

/// Some position of the first `k` elements of `files` carries file `f`.
pub open spec fn seq_has_file(files: Seq<FileId>, k: int, f: u32) -> bool {
    exists|j: int| 0 <= j < k && (#[trigger] files[j]).0 == f
}

/// The assignments claiming the first `k` files of `files` for root `idx`.
pub open spec fn file_claim_map(files: Seq<FileId>, k: int, idx: u32, d: Durability) -> Map<
    u32,
    (u32, Durability),
> {
    Map::new(|f: u32| seq_has_file(files, k, f), |f: u32| (idx, d))
}

/// The assignments after claiming the first `k` files of `files` for root
/// `idx`, one insert at a time.
pub open spec fn assigned_upto(
    fr: Map<u32, (u32, Durability)>,
    files: Seq<FileId>,
    k: int,
    idx: u32,
    d: Durability,
) -> Map<u32, (u32, Durability)>
    decreases k,
{
    if k <= 0 {
        fr
    } else {
        assigned_upto(fr, files, k - 1, idx, d).insert(files[k - 1].0, (idx, d))
    }
}

proof fn lemma_assigned_full(
    fr: Map<u32, (u32, Durability)>,
    files: Seq<FileId>,
    k: int,
    idx: u32,
    d: Durability,
)
    requires
        0 <= k <= files.len(),
    ensures
        assigned_upto(fr, files, k, idx, d) == fr.union_prefer_right(
            file_claim_map(files, k, idx, d),
        ),
    decreases k,
{
    if k == 0 {
        assert(assigned_upto(fr, files, 0, idx, d) =~= fr.union_prefer_right(
            file_claim_map(files, 0, idx, d),
        ));
    } else {
        lemma_assigned_full(fr, files, k - 1, idx, d);
        assert forall|f: u32| #[trigger]
            seq_has_file(files, k, f) implies (seq_has_file(files, k - 1, f) || files[k - 1].0
            == f) by {
            let j = choose|j: int| 0 <= j < k && (#[trigger] files[j]).0 == f;
            if j < k - 1 {
                assert(seq_has_file(files, k - 1, f));
            }
        }
        assert forall|f: u32| #[trigger]
            seq_has_file(files, k - 1, f) implies seq_has_file(files, k, f) by {
            let j = choose|j: int| 0 <= j < k - 1 && (#[trigger] files[j]).0 == f;
            assert(files[j].0 == f);
        }
        assert(seq_has_file(files, k, files[k - 1].0)) by {
            assert((files[k - 1]).0 == files[k - 1].0);
        }
        assert(assigned_upto(fr, files, k, idx, d) =~= fr.union_prefer_right(
            file_claim_map(files, k, idx, d),
        ));
    }
}

/// Every edited file has a root assignment, and that root is stored: the
/// condition under which applying a change cannot fail.
pub open spec fn edits_ok(
    fr: Map<u32, (u32, Durability)>,
    rt: Map<u32, (SourceRootView, Durability)>,
    es: Seq<(u32, Option<Seq<char>>)>,
) -> bool {
    forall|i: int|
        0 <= i < es.len() ==> (fr.contains_key((#[trigger] es[i]).0) && rt.contains_key(
            fr[es[i].0].0,
        ))
}

/// A batch of input edits: an optional wholesale source-root replacement, an
/// ordered list of file-text updates, and an optional wholesale graph
/// replacement. A change is a plain value until it is applied, and applying
/// consumes it: each change is applied exactly once.
#[derive(Debug, Default)]
pub struct Change {
    pub roots: Option<Vec<SourceRoot>>,
    pub files_changed: Vec<(FileId, Option<String>)>,
    pub crate_graph: Option<CrateGraph>,
}

impl Change {
    /// The carried roots and graph are well formed, and the root list is
    /// small enough for dense `u32` numbering.
    pub open spec fn wf(&self) -> bool {
        &&& (match self.roots {
            Some(ref rs) => rs@.len() <= u32::MAX && (forall|i: int|
                0 <= i < rs@.len() ==> (#[trigger] rs@[i]).wf()),
            None => true,
        })
        &&& (match self.crate_graph {
            Some(ref g) => g.wf(),
            None => true,
        })
    }

    /// The file-to-root assignments after this change's root replacement, if
    /// it carries one, against the given prior assignments.
    pub open spec fn file_roots_after(&self, fr: Map<u32, (u32, Durability)>) -> Map<
        u32,
        (u32, Durability),
    > {
        match self.roots {
            Some(ref rs) => roots_file_assignments(fr, roots_views(rs@), rs@.len() as int),
            None => fr,
        }
    }

    /// The stored roots after this change's root replacement, if it carries
    /// one, against the given prior roots.
    pub open spec fn roots_after(&self, rt: Map<u32, (SourceRootView, Durability)>) -> Map<
        u32,
        (SourceRootView, Durability),
    > {
        match self.roots {
            Some(ref rs) => roots_installed(rt, roots_views(rs@), rs@.len() as int),
            None => rt,
        }
    }

    /// An empty change.
    pub fn new() -> (r: Change)
        ensures
            r.wf(),
            r.roots is None,
            r.files_changed@.len() == 0,
            r.crate_graph is None,
    {
        Change { roots: None, files_changed: Vec::new(), crate_graph: None }
    }

    /// Replaces the whole source-root set. Roots are numbered by their
    /// position in `roots`, so callers must supply a stable order.
    pub fn set_roots(&mut self, roots: Vec<SourceRoot>)
        ensures
            final(self).roots == Some(roots),
            final(self).files_changed == old(self).files_changed,
            final(self).crate_graph == old(self).crate_graph,
    {
        self.roots = Some(roots);
    }

    /// Records a file-text update. An absent text resets the file to empty.
    pub fn change_file(&mut self, file_id: FileId, new_text: Option<String>)
        ensures
            final(self).files_changed@ == old(self).files_changed@.push((file_id, new_text)),
            final(self).roots == old(self).roots,
            final(self).crate_graph == old(self).crate_graph,
    {
        self.files_changed.push((file_id, new_text))
    }

    /// Replaces the whole compilation-unit graph.
    pub fn set_crate_graph(&mut self, graph: CrateGraph)
        ensures
            final(self).crate_graph == Some(graph),
            final(self).roots == old(self).roots,
            final(self).files_changed == old(self).files_changed,
    {
        self.crate_graph = Some(graph);
    }

    /// Applies the change to the store, consuming it. The order is fixed:
    /// first the root replacement, then the file edits in list order against
    /// the roots just installed, then the graph replacement at high
    /// durability. Each file edit is tagged with the durability of the root
    /// the file belongs to at that point.
    #[verifier::loop_isolation(false)]
    pub fn apply(self, db: &mut SourceDatabase)
        requires
            old(db).wf(),
            self.wf(),
            edits_ok(
                self.file_roots_after(old(db).file_roots()),
                self.roots_after(old(db).root_map()),
                edit_views(self.files_changed@),
            ),
        ensures
            final(db).wf(),
            final(db).file_roots() == self.file_roots_after(old(db).file_roots()),
            final(db).root_map() == self.roots_after(old(db).root_map()),
            final(db).file_texts() == edits_applied(
                old(db).file_texts(),
                self.file_roots_after(old(db).file_roots()),
                self.roots_after(old(db).root_map()),
                edit_views(self.files_changed@),
                edit_views(self.files_changed@).len() as int,
            ),
            final(db).graph() == (match self.crate_graph {
                Some(ref g) => Some((g@, Durability::High)),
                None => old(db).graph(),
            }),
    {
        let ghost fr0 = old(db).file_roots();
        let ghost rt0 = old(db).root_map();
        let ghost ft0 = old(db).file_texts();
        let Change { roots, files_changed, crate_graph } = self;
        if let Some(mut roots_vec) = roots {
            let ghost rsv = roots_views(roots_vec@);
            let ghost total = roots_vec@.len() as int;
            let mut idx: u32 = 0;
            proof {
                assert(roots_vec@.subrange(0, total) =~= roots_vec@);
            }
            while roots_vec.len() > 0
                invariant
                    idx as int + roots_vec@.len() == total,
                    forall|i: int| 0 <= i < roots_vec@.len() ==> (#[trigger] roots_vec@[i]).wf(),
                    forall|i: int|
                        0 <= i < roots_vec@.len() ==> (#[trigger] roots_vec@[i])@ == rsv[
                            idx as int + i
                        ],
                    db.wf(),
                    db.file_roots() == roots_file_assignments(fr0, rsv, idx as int),
                    db.root_map() == roots_installed(rt0, rsv, idx as int),
                    db.file_texts() == ft0,
                    db.graph() == old(db).graph(),
                decreases roots_vec@.len(),
            {
                let ghost pre_roots = roots_vec@;
                let root = roots_vec.remove(0);
                proof {
                    assert(root@ == rsv[idx as int]);
                    assert forall|i: int| 0 <= i < roots_vec@.len() implies (#[trigger] roots_vec@[
                        i
                    ])@ == rsv[idx as int + 1 + i] by {
                        assert(roots_vec@[i] == pre_roots[i + 1]);
                    }
                }
                let root_id = SourceRootId(idx);
                let dur = durability(&root);
                let files = root.iter();
                let nf = files.len();
                let ghost fr_before = db.file_roots();
                for fi in 0..nf
                    invariant
                        nf == files@.len(),
                        db.wf(),
                        db.root_map() == roots_installed(rt0, rsv, idx as int),
                        db.file_texts() == ft0,
                        db.graph() == old(db).graph(),
                        db.file_roots() == assigned_upto(
                            fr_before,
                            files@,
                            fi as int,
                            idx,
                            durability_of(root@.is_library),
                        ),
                {
                    db.set_file_source_root_with_durability(files[fi], root_id, dur);
                }
                proof {
                    let d = durability_of(root@.is_library);
                    lemma_assigned_full(fr_before, files@, nf as int, idx, d);
                    assert forall|f: u32| #[trigger]
                        seq_has_file(files@, nf as int, f) implies root@.files.contains_key(
                        f,
                    ) by {
                        let j = choose|j: int|
                            0 <= j < nf && (#[trigger] files@[j]).0 == f;
                        assert(files@.contains(files@[j]));
                    }
                    assert forall|f: u32| #[trigger]
                        root@.files.contains_key(f) implies seq_has_file(files@, nf as int, f) by {
                        assert(files@.contains(FileId(f)));
                        let j = choose|j: int| 0 <= j < files@.len() && files@[j] == FileId(f);
                        assert(files@[j].0 == f);
                    }
                    assert(db.file_roots() =~= roots_file_assignments(fr0, rsv, idx as int + 1));
                }
                db.set_source_root_with_durability(root_id, root, dur);
                proof {
                    assert(db.root_map() =~= roots_installed(rt0, rsv, idx as int + 1));
                }
                idx = idx + 1;
            }
            proof {
                assert(idx as int == total);
            }
        }
        let ghost fr1 = db.file_roots();
        let ghost rt1 = db.root_map();
        let ghost evs = edit_views(files_changed@);
        let ghost ne = evs.len() as int;
        let mut edits = files_changed;
        let total_edits = edits.len();
        proof {
            assert(ne == total_edits);
        }
        let mut done: usize = 0;
        proof {
            assert(db.file_texts() =~= edits_applied(ft0, fr1, rt1, evs, 0));
        }
        while edits.len() > 0
            invariant
                ne <= usize::MAX,
                done as int + edits@.len() == ne,
                forall|i: int|
                    0 <= i < edits@.len() ==> ((#[trigger] edits@[i]).0.0 == evs[
                        done as int + i
                    ].0 && (match edits@[i].1 {
                        Some(ref t) => evs[done as int + i].1 == Some(t@),
                        None => evs[done as int + i].1 is None,
                    })),
                edits_ok(fr1, rt1, evs),
                db.wf(),
                db.file_roots() == fr1,
                db.root_map() == rt1,
                db.graph() == old(db).graph(),
                db.file_texts() == edits_applied(ft0, fr1, rt1, evs, done as int),
            decreases edits@.len(),
        {
            let ghost pre_edits = edits@;
            let (file_id, text) = edits.remove(0);
            proof {
                assert(file_id.0 == evs[done as int].0);
                assert forall|i: int| 0 <= i < edits@.len() implies ((#[trigger] edits@[i]).0.0
                    == evs[done as int + 1 + i].0 && (match edits@[i].1 {
                    Some(ref t) => evs[done as int + 1 + i].1 == Some(t@),
                    None => evs[done as int + 1 + i].1 is None,
                })) by {
                    assert(edits@[i] == pre_edits[i + 1]);
                }
            }
            let root_id = db.file_source_root(file_id);
            let dur = {
                let source_root = db.source_root(root_id);
                durability(source_root)
            };
            let text = match text {
                Some(t) => t,
                None => String::new(),
            };
            proof {
                assert(text@ == text_or_empty(evs[done as int].1));
                assert(dur == durability_of(rt1[fr1[evs[done as int].0].0].0.is_library));
            }
            db.set_file_text_with_durability(file_id, text, dur);
            done = done + 1;
            proof {
                assert(db.file_texts() =~= edits_applied(ft0, fr1, rt1, evs, done as int));
            }
        }
        if let Some(graph) = crate_graph {
            db.set_crate_graph_with_durability(graph, Durability::High);
        }
    }
}

} // verus!
