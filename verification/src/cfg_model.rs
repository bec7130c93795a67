//! Conditional-compilation model: atoms, boolean expressions over them,
//! per-unit option sets, and diffs of option sets.
//!
//! An option set is modelled as the set of its atoms' views; the executable
//! representation is a duplicate-free vector.

use vstd::prelude::*;

use crate::strings::str_eq;

verus! {

/// Mathematical value of a [`CfgAtom`]: the atom with its strings read as
/// character sequences.
pub enum CfgAtomView {
    Flag(Seq<char>),
    KeyValue(Seq<char>, Seq<char>),
}

/// One conditional-compilation option: either a bare flag such as `unix`,
/// or a key/value pair such as `feature = "std"`. A key may be paired with
/// several values across different atoms.
#[derive(Debug, Clone, PartialEq, Eq, Hash)]
pub enum CfgAtom {
    Flag(String),
    KeyValue { key: String, value: String },
}

impl View for CfgAtom {
    type V = CfgAtomView;

    open spec fn view(&self) -> CfgAtomView {
        match self {
            CfgAtom::Flag(name) => CfgAtomView::Flag(name@),
            CfgAtom::KeyValue { key, value } => CfgAtomView::KeyValue(key@, value@),
        }
    }
}

/// Content equality of two atoms.
pub fn atom_eq(a: &CfgAtom, b: &CfgAtom) -> (r: bool)
    ensures
        r == (a@ == b@),
{
    match (a, b) {
        (CfgAtom::Flag(x), CfgAtom::Flag(y)) => str_eq(x, y),
        (
            CfgAtom::KeyValue { key: xk, value: xv },
            CfgAtom::KeyValue { key: yk, value: yv },
        ) => str_eq(xk, yk) && str_eq(xv, yv),
        _ => false,
    }
}

/// Whether the pair of lists holds two positions with the same atom view:
/// any position of `a` against any position of `b`, restricted to
/// strictly increasing index pairs when `upper` is set (for scanning one
/// list against itself).
spec fn dup_between(a: Seq<CfgAtom>, b: Seq<CfgAtom>, upper: bool) -> bool {
    exists|x: int, y: int|
        #![trigger a[x], b[y]]
        0 <= x < a.len() && 0 <= y < b.len() && (!upper || x < y) && a[x]@ == b[y]@
}

fn has_dup_pair(a: &Vec<CfgAtom>, b: &Vec<CfgAtom>, upper: bool) -> (r: bool)
    ensures
        r == dup_between(a@, b@, upper),
{
    let na = a.len();
    let nb = b.len();
    for x in 0..na
        invariant
            na == a@.len(),
            nb == b@.len(),
            forall|p: int, q: int|
                #![trigger a@[p], b@[q]]
                0 <= p < x && 0 <= q < nb && (!upper || p < q) ==> a@[p]@ != b@[q]@,
    {
        let start = if upper {
            if x >= nb {
                nb
            } else {
                x + 1
            }
        } else {
            0
        };
        for y in start..nb
            invariant
                na == a@.len(),
                nb == b@.len(),
                x < na,
                start == (if upper { if x + 1 <= nb { x + 1 } else { nb as int } } else { 0 }),
                forall|q: int| start <= q < y ==> a@[x as int]@ != b@[q]@,
        {
            if atom_eq(&a[x], &b[y]) {
                return true;
            }
        }
    }
    false
}

/// The set of atom views of a sequence of atoms.
pub open spec fn atom_set(s: Seq<CfgAtom>) -> Set<CfgAtomView> {
    s.map_values(|a: CfgAtom| a@).to_set()
}

/// No two atoms of `s` have the same view.
pub open spec fn atoms_no_dup(s: Seq<CfgAtom>) -> bool {
    forall|i: int, j: int| 0 <= i < j < s.len() ==> s[i]@ != s[j]@
}

proof fn lemma_atom_set_contains(s: Seq<CfgAtom>, v: CfgAtomView)
    ensures
        atom_set(s).contains(v) <==> (exists|i: int| 0 <= i < s.len() && s[i]@ == v),
{
    let mapped = s.map_values(|a: CfgAtom| a@);
    assert forall|i: int| 0 <= i < s.len() && s[i]@ == v implies atom_set(s).contains(v) by {
        assert(mapped[i] == v);
    }
    if atom_set(s).contains(v) {
        let i = choose|i: int| 0 <= i < mapped.len() && mapped[i] == v;
        assert(s[i]@ == v);
    }
}

proof fn lemma_atom_set_push(s: Seq<CfgAtom>, x: CfgAtom)
    ensures
        atom_set(s.push(x)) == atom_set(s).insert(x@),
{
    let lhs = atom_set(s.push(x));
    let rhs = atom_set(s).insert(x@);
    assert forall|v: CfgAtomView| lhs.contains(v) implies rhs.contains(v) by {
        lemma_atom_set_contains(s.push(x), v);
        let i = choose|i: int| 0 <= i < s.push(x).len() && s.push(x)[i]@ == v;
        if i < s.len() {
            lemma_atom_set_contains(s, v);
        }
    }
    assert forall|v: CfgAtomView| rhs.contains(v) implies lhs.contains(v) by {
        if v == x@ {
            assert(s.push(x)[s.len() as int]@ == v);
        } else {
            lemma_atom_set_contains(s, v);
            let i = choose|i: int| 0 <= i < s.len() && s[i]@ == v;
            assert(s.push(x)[i]@ == v);
        }
        lemma_atom_set_contains(s.push(x), v);
    }
    assert(lhs =~= rhs);
}

proof fn lemma_atom_set_cons(x: CfgAtom, t: Seq<CfgAtom>)
    ensures
        atom_set(seq![x] + t) == atom_set(t).insert(x@),
{
    let s = seq![x] + t;
    assert forall|v: CfgAtomView| atom_set(s).contains(v) implies atom_set(t).insert(x@).contains(
        v,
    ) by {
        lemma_atom_set_contains(s, v);
        let i = choose|i: int| 0 <= i < s.len() && s[i]@ == v;
        if i > 0 {
            assert(t[i - 1]@ == v);
            lemma_atom_set_contains(t, v);
        }
    }
    assert forall|v: CfgAtomView| atom_set(t).insert(x@).contains(v) implies atom_set(s).contains(
        v,
    ) by {
        if v == x@ {
            assert(s[0]@ == v);
        } else {
            lemma_atom_set_contains(t, v);
            let i = choose|i: int| 0 <= i < t.len() && t[i]@ == v;
            assert(s[i + 1]@ == v);
        }
        lemma_atom_set_contains(s, v);
    }
    assert(atom_set(s) =~= atom_set(t).insert(x@));
}

/// A conditional-compilation expression: a tree of `all`, `any` and `not`
/// nodes over atom tests. `Invalid` stands for a malformed source attribute;
/// evaluating it yields no verdict.
#[derive(Debug, PartialEq, Eq)]
pub enum CfgExpr {
    Invalid,
    Atom(CfgAtom),
    All(Vec<CfgExpr>),
    Any(Vec<CfgExpr>),
    Not(Box<CfgExpr>),
}

/// `r` with `acc` conjoined onto a known verdict.
pub open spec fn opt_and(acc: bool, r: Option<bool>) -> Option<bool> {
    match r {
        Option::Some(b) => Option::Some(acc && b),
        Option::None => Option::None,
    }
}

/// `r` with `acc` disjoined onto a known verdict.
pub open spec fn opt_or(acc: bool, r: Option<bool>) -> Option<bool> {
    match r {
        Option::Some(b) => Option::Some(acc || b),
        Option::None => Option::None,
    }
}

/// Three-valued evaluation of an expression against a set of enabled atoms.
/// The verdict is `None` exactly when the expression contains an `Invalid`
/// node; the membership oracle itself is total.
pub open spec fn eval_expr(e: CfgExpr, opts: Set<CfgAtomView>) -> Option<bool>
    decreases e,
{
    match e {
        CfgExpr::Invalid => Option::None,
        CfgExpr::Atom(a) => Option::Some(opts.contains(a@)),
        CfgExpr::All(es) => eval_conj(es@, opts),
        CfgExpr::Any(es) => eval_disj(es@, opts),
        CfgExpr::Not(p) => match eval_expr(*p, opts) {
            Option::Some(b) => Option::Some(!b),
            Option::None => Option::None,
        },
    }
}

/// Conjunction over a sequence of subexpressions, `None` if any of them
/// has no verdict.
pub open spec fn eval_conj(s: Seq<CfgExpr>, opts: Set<CfgAtomView>) -> Option<bool>
    decreases s,
{
    if s.len() == 0 {
        Option::Some(true)
    } else {
        match eval_expr(s[0], opts) {
            Option::None => Option::None,
            Option::Some(b) => opt_and(b, eval_conj(s.subrange(1, s.len() as int), opts)),
        }
    }
}

/// Disjunction over a sequence of subexpressions, `None` if any of them
/// has no verdict.
pub open spec fn eval_disj(s: Seq<CfgExpr>, opts: Set<CfgAtomView>) -> Option<bool>
    decreases s,
{
    if s.len() == 0 {
        Option::Some(false)
    } else {
        match eval_expr(s[0], opts) {
            Option::None => Option::None,
            Option::Some(b) => opt_or(b, eval_disj(s.subrange(1, s.len() as int), opts)),
        }
    }
}

/// Configuration options used for conditional compilation on items with
/// `cfg` attributes: the set of enabled atoms of one compilation unit.
#[derive(Debug, Clone, PartialEq, Eq)]
pub struct CfgOptions {
    enabled: Vec<CfgAtom>,
}

impl View for CfgOptions {
    type V = Set<CfgAtomView>;

    closed spec fn view(&self) -> Set<CfgAtomView> {
        atom_set(self.enabled@)
    }
}

impl CfgOptions {
    /// The executable vector carries each enabled atom exactly once.
    pub closed spec fn wf(&self) -> bool {
        atoms_no_dup(self.enabled@)
    }

    /// Whether `atom` is enabled.
    pub fn contains_atom(&self, atom: &CfgAtom) -> (r: bool)
        ensures
            r == self@.contains(atom@),
    {
        proof {
            lemma_atom_set_contains(self.enabled@, atom@);
        }
        let n = self.enabled.len();
        for i in 0..n
            invariant
                n == self.enabled.len(),
                forall|j: int| 0 <= j < i ==> self.enabled@[j]@ != atom@,
                self@.contains(atom@) <==> (exists|j: int|
                    0 <= j < n && self.enabled@[j]@ == atom@),
        {
            if atom_eq(&self.enabled[i], atom) {
                return true;
            }
        }
        false
    }

    /// Evaluates a conditional-compilation expression against the enabled
    /// atoms. Pure: the verdict is a function of the expression and of the
    /// option set alone, so repeated calls agree.
    pub fn check(&self, cfg: &CfgExpr) -> (r: Option<bool>)
        ensures
            r == eval_expr(*cfg, self@),
    {
        eval_exec(cfg, self)
    }

    /// Enables a bare flag. Enabling an already-enabled atom is a no-op.
    pub fn insert_atom(&mut self, key: String)
        requires
            old(self).wf(),
        ensures
            final(self).wf(),
            final(self)@ == old(self)@.insert(CfgAtomView::Flag(key@)),
    {
        self.insert(CfgAtom::Flag(key));
    }

    /// Enables a key/value option. Enabling an already-enabled atom is a no-op.
    pub fn insert_key_value(&mut self, key: String, value: String)
        requires
            old(self).wf(),
        ensures
            final(self).wf(),
            final(self)@ == old(self)@.insert(CfgAtomView::KeyValue(key@, value@)),
    {
        self.insert(CfgAtom::KeyValue { key, value });
    }

    fn insert(&mut self, atom: CfgAtom)
        requires
            old(self).wf(),
        ensures
            final(self).wf(),
            final(self)@ == old(self)@.insert(atom@),
    {
        if !self.contains_atom(&atom) {
            proof {
                lemma_atom_set_push(self.enabled@, atom);
                lemma_atom_set_contains(self.enabled@, atom@);
            }
            self.enabled.push(atom);
        } else {
            proof {
                assert(old(self)@.insert(atom@) =~= old(self)@);
            }
        }
    }
}

#[verifier::loop_isolation(false)]
fn eval_exec(e: &CfgExpr, opts: &CfgOptions) -> (r: Option<bool>)
    ensures
        r == eval_expr(*e, opts@),
    decreases *e,
{
    match e {
        CfgExpr::Invalid => None,
        CfgExpr::Atom(a) => Some(opts.contains_atom(a)),
        CfgExpr::All(es) => {
            let n = es.len();
            let mut acc = true;
            proof {
                assert(es@.subrange(0, n as int) =~= es@);
            }
            for i in 0..n
                invariant
                    n == es.len(),
                    eval_conj(es@, opts@) == opt_and(
                        acc,
                        eval_conj(es@.subrange(i as int, n as int), opts@),
                    ),
            {
                proof {
                    assert(es@.subrange(i as int, n as int).subrange(
                        1,
                        es@.subrange(i as int, n as int).len() as int,
                    ) =~= es@.subrange(i + 1, n as int));
                    assert(es@.subrange(i as int, n as int)[0] == es@[i as int]);
                }
                match eval_exec(&es[i], opts) {
                    None => {
                        return None;
                    },
                    Some(b) => {
                        acc = acc && b;
                    },
                }
            }
            proof {
                assert(es@.subrange(n as int, n as int) =~= Seq::<CfgExpr>::empty());
            }
            Some(acc)
        },
        CfgExpr::Any(es) => {
            let n = es.len();
            let mut acc = false;
            proof {
                assert(es@.subrange(0, n as int) =~= es@);
            }
            for i in 0..n
                invariant
                    n == es.len(),
                    eval_disj(es@, opts@) == opt_or(
                        acc,
                        eval_disj(es@.subrange(i as int, n as int), opts@),
                    ),
            {
                proof {
                    assert(es@.subrange(i as int, n as int).subrange(
                        1,
                        es@.subrange(i as int, n as int).len() as int,
                    ) =~= es@.subrange(i + 1, n as int));
                    assert(es@.subrange(i as int, n as int)[0] == es@[i as int]);
                }
                match eval_exec(&es[i], opts) {
                    None => {
                        return None;
                    },
                    Some(b) => {
                        acc = acc || b;
                    },
                }
            }
            proof {
                assert(es@.subrange(n as int, n as int) =~= Seq::<CfgExpr>::empty());
            }
            Some(acc)
        },
        CfgExpr::Not(p) => {
            match eval_exec(p, opts) {
                Some(b) => Some(!b),
                None => None,
            }
        },
    }
}

/// The key of an atom: the flag name, or the key of a key/value pair.
pub open spec fn key_of(a: CfgAtomView) -> Seq<char> {
    match a {
        CfgAtomView::Flag(k) => k,
        CfgAtomView::KeyValue(k, _) => k,
    }
}

proof fn lemma_atom_set_remove(s: Seq<CfgAtom>, j: int)
    requires
        atoms_no_dup(s),
        0 <= j < s.len(),
    ensures
        atoms_no_dup(s.remove(j)),
        atom_set(s.remove(j)) == atom_set(s).remove(s[j]@),
{
    let t = s.remove(j);
    assert forall|x: int, y: int| 0 <= x < y < t.len() implies t[x]@ != t[y]@ by {
        assert(t[x] == (if x < j { s[x] } else { s[x + 1] }));
        assert(t[y] == (if y < j { s[y] } else { s[y + 1] }));
    }
    assert forall|v: CfgAtomView| atom_set(t).contains(v) implies (atom_set(s).remove(
        s[j]@,
    )).contains(v) by {
        lemma_atom_set_contains(t, v);
        let i = choose|i: int| 0 <= i < t.len() && t[i]@ == v;
        let k = if i < j { i } else { i + 1 };
        assert(s[k]@ == v);
        lemma_atom_set_contains(s, v);
        assert(v != s[j]@);
    }
    assert forall|v: CfgAtomView| (atom_set(s).remove(s[j]@)).contains(v) implies atom_set(
        t,
    ).contains(v) by {
        lemma_atom_set_contains(s, v);
        let k = choose|k: int| 0 <= k < s.len() && s[k]@ == v;
        assert(k != j);
        let i = if k < j { k } else { k - 1 };
        assert(t[i]@ == v);
        lemma_atom_set_contains(t, v);
    }
    assert(atom_set(t) =~= atom_set(s).remove(s[j]@));
}

impl CfgOptions {
    /// Disables `atom` if it is enabled; otherwise does nothing.
    #[verifier::loop_isolation(false)]
    fn remove_atom(&mut self, atom: &CfgAtom)
        requires
            old(self).wf(),
        ensures
            final(self).wf(),
            final(self)@ == old(self)@.remove(atom@),
    {
        let n = self.enabled.len();
        for i in 0..n
            invariant
                old(self) == self,
                forall|j: int| 0 <= j < i ==> self.enabled@[j]@ != atom@,
        {
            if atom_eq(&self.enabled[i], atom) {
                proof {
                    lemma_atom_set_remove(self.enabled@, i as int);
                }
                self.enabled.remove(i);
                return ;
            }
        }
        proof {
            lemma_atom_set_contains(self.enabled@, atom@);
            assert(self@.remove(atom@) =~= self@);
        }
    }

    /// Applies a diff: first enables every atom of the enable list, then
    /// disables every atom of the disable list.
    #[verifier::loop_isolation(false)]
    pub fn apply_diff(&mut self, diff: CfgDiff)
        requires
            old(self).wf(),
        ensures
            final(self).wf(),
            final(self)@ == old(self)@.union(diff.enable_set()).difference(diff.disable_set()),
    {
        let CfgDiff { mut enable, mut disable } = diff;
        let ghost full_enable = enable@;
        let ghost full_disable = disable@;
        let ghost ne = full_enable.len() as int;
        let ghost ndis = full_disable.len() as int;
        proof {
            assert(full_enable.subrange(0, ne) =~= full_enable);
            assert(full_enable.subrange(ne, ne) =~= Seq::<CfgAtom>::empty());
            assert(atom_set(Seq::<CfgAtom>::empty()) =~= Set::<CfgAtomView>::empty());
            assert(self@ =~= old(self)@.union(atom_set(full_enable.subrange(ne, ne))));
        }
        while enable.len() > 0
            invariant
                self.wf(),
                enable@.len() <= ne,
                enable@ == full_enable.subrange(0, enable@.len() as int),
                self@ == old(self)@.union(
                    atom_set(full_enable.subrange(enable@.len() as int, ne)),
                ),
            decreases enable@.len(),
        {
            let ghost k = enable@.len() as int;
            let atom = enable.pop().unwrap();
            proof {
                assert(atom == full_enable[k - 1]);
                assert(enable@ =~= full_enable.subrange(0, k - 1));
            }
            self.insert(atom);
            proof {
                assert(full_enable.subrange(k - 1, ne) =~= seq![full_enable[k - 1]]
                    + full_enable.subrange(k, ne));
                lemma_atom_set_cons(full_enable[k - 1], full_enable.subrange(k, ne));
                assert(self@ =~= old(self)@.union(
                    atom_set(full_enable.subrange(k - 1, ne)),
                ));
            }
        }
        let ghost enabled_union = old(self)@.union(diff.enable_set());
        proof {
            assert(full_enable.subrange(0, ne) =~= full_enable);
            assert(full_disable.subrange(0, ndis) =~= full_disable);
            assert(full_disable.subrange(ndis, ndis) =~= Seq::<CfgAtom>::empty());
            assert(atom_set(Seq::<CfgAtom>::empty()) =~= Set::<CfgAtomView>::empty());
            assert(self@ =~= enabled_union);
            assert(self@ =~= enabled_union.difference(
                atom_set(full_disable.subrange(ndis, ndis)),
            ));
        }
        while disable.len() > 0
            invariant
                self.wf(),
                disable@.len() <= ndis,
                disable@ == full_disable.subrange(0, disable@.len() as int),
                self@ == enabled_union.difference(
                    atom_set(full_disable.subrange(disable@.len() as int, ndis)),
                ),
            decreases disable@.len(),
        {
            let ghost k = disable@.len() as int;
            let atom = disable.pop().unwrap();
            proof {
                assert(atom == full_disable[k - 1]);
                assert(disable@ =~= full_disable.subrange(0, k - 1));
            }
            self.remove_atom(&atom);
            proof {
                assert(full_disable.subrange(k - 1, ndis) =~= seq![full_disable[k - 1]]
                    + full_disable.subrange(k, ndis));
                lemma_atom_set_cons(full_disable[k - 1], full_disable.subrange(k, ndis));
                assert(self@ =~= enabled_union.difference(
                    atom_set(full_disable.subrange(k - 1, ndis)),
                ));
            }
        }
    }

    /// The keys of all enabled atoms. The result lists one key for each
    /// enabled atom; as a set it equals the keys of the option set.
    pub fn get_cfg_keys(&self) -> (r: Vec<String>)
        ensures
            r@.map_values(|s: String| s@).to_set() == self@.map(|a: CfgAtomView| key_of(a)),
    {
        let n = self.enabled.len();
        let mut r: Vec<String> = Vec::new();
        for i in 0..n
            invariant
                n == self.enabled.len(),
                r@.len() == i,
                forall|j: int| 0 <= j < i ==> r@[j]@ == key_of(self.enabled@[j]@),
        {
            let key = match &self.enabled[i] {
                CfgAtom::Flag(key) => key.clone(),
                CfgAtom::KeyValue { key, .. } => key.clone(),
            };
            r.push(key);
        }
        proof {
            let lhs = r@.map_values(|s: String| s@).to_set();
            let rhs = self@.map(|a: CfgAtomView| key_of(a));
            assert forall|v: Seq<char>| lhs.contains(v) implies rhs.contains(v) by {
                let mapped = r@.map_values(|s: String| s@);
                let i = choose|i: int| 0 <= i < mapped.len() && mapped[i] == v;
                lemma_atom_set_contains(self.enabled@, self.enabled@[i]@);
                assert(self@.contains(self.enabled@[i]@));
                assert(key_of(self.enabled@[i]@) == v);
            }
            assert forall|v: Seq<char>| rhs.contains(v) implies lhs.contains(v) by {
                let a = choose|a: CfgAtomView| self@.contains(a) && key_of(a) == v;
                lemma_atom_set_contains(self.enabled@, a);
                let i = choose|i: int| 0 <= i < self.enabled@.len() && self.enabled@[i]@ == a;
                assert(r@.map_values(|s: String| s@)[i] == v);
            }
            assert(lhs =~= rhs);
        }
        r
    }

    /// The values paired with `cfg_key` among the enabled atoms.
    pub fn get_cfg_values(&self, cfg_key: &str) -> (r: Vec<String>)
        ensures
            r@.map_values(|s: String| s@).to_set() == Set::new(
                |v: Seq<char>| self@.contains(CfgAtomView::KeyValue(cfg_key@, v)),
            ),
    {
        let n = self.enabled.len();
        let mut r: Vec<String> = Vec::new();
        for i in 0..n
            invariant
                n == self.enabled.len(),
                forall|j: int|
                    0 <= j < r@.len() ==> self@.contains(
                        CfgAtomView::KeyValue(cfg_key@, #[trigger] r@[j]@),
                    ),
                forall|j: int| #![trigger self.enabled@[j]]
                    0 <= j < i ==> (self.enabled@[j]@ matches CfgAtomView::KeyValue(k, v) ==> (k
                        != cfg_key@ || r@.map_values(|s: String| s@).contains(v))),
        {
            let ghost prev = r@;
            match &self.enabled[i] {
                CfgAtom::KeyValue { key, value } => {
                    if crate::strings::str_eq_slice(key, cfg_key) {
                        r.push(value.clone());
                        proof {
                            lemma_atom_set_contains(self.enabled@, self.enabled@[i as int]@);
                            let prev_mapped = prev.map_values(|s: String| s@);
                            let cur_mapped = r@.map_values(|s: String| s@);
                            assert forall|v: Seq<char>|
                                prev_mapped.contains(v) implies cur_mapped.contains(v) by {
                                let j = choose|j: int|
                                    0 <= j < prev.len() && #[trigger] prev_mapped[j] == v;
                                assert(cur_mapped[j] == v);
                            }
                            assert(cur_mapped[prev.len() as int] == value@);
                        }
                    }
                },
                CfgAtom::Flag(_) => {},
            }
        }
        proof {
            let lhs = r@.map_values(|s: String| s@).to_set();
            let rhs = Set::new(|v: Seq<char>| self@.contains(CfgAtomView::KeyValue(cfg_key@, v)));
            assert forall|v: Seq<char>| lhs.contains(v) implies rhs.contains(v) by {
                let mapped = r@.map_values(|s: String| s@);
                let j = choose|j: int| 0 <= j < mapped.len() && mapped[j] == v;
                assert(self@.contains(CfgAtomView::KeyValue(cfg_key@, r@[j]@)));
            }
            assert forall|v: Seq<char>| rhs.contains(v) implies lhs.contains(v) by {
                lemma_atom_set_contains(self.enabled@, CfgAtomView::KeyValue(cfg_key@, v));
                let j = choose|j: int|
                    0 <= j < self.enabled@.len() && self.enabled@[j]@ == CfgAtomView::KeyValue(
                        cfg_key@,
                        v,
                    );
                assert(r@.map_values(|s: String| s@).contains(v));
            }
            assert(lhs =~= rhs);
        }
        r
    }
}

/// A pending edit of an option set: a list of atoms to enable and a list of
/// atoms to disable, with no atom mentioned twice across the two lists.
#[derive(Debug, Clone, PartialEq, Eq)]
pub struct CfgDiff {
    enable: Vec<CfgAtom>,
    disable: Vec<CfgAtom>,
}

impl CfgDiff {
    /// The atoms the diff enables, in list order.
    pub closed spec fn enable_atoms(&self) -> Seq<CfgAtomView> {
        self.enable@.map_values(|a: CfgAtom| a@)
    }

    /// The atoms the diff disables, in list order.
    pub closed spec fn disable_atoms(&self) -> Seq<CfgAtomView> {
        self.disable@.map_values(|a: CfgAtom| a@)
    }

    /// The atoms the diff enables.
    pub open spec fn enable_set(&self) -> Set<CfgAtomView> {
        self.enable_atoms().to_set()
    }

    /// The atoms the diff disables.
    pub open spec fn disable_set(&self) -> Set<CfgAtomView> {
        self.disable_atoms().to_set()
    }

    /// No atom is mentioned twice across the enable and disable lists.
    pub closed spec fn wf(&self) -> bool {
        atoms_no_dup(self.enable@ + self.disable@)
    }

    /// The number of atoms in the enable list.
    pub closed spec fn enable_len(&self) -> nat {
        self.enable@.len()
    }

    /// The number of atoms in the disable list.
    pub closed spec fn disable_len(&self) -> nat {
        self.disable@.len()
    }

    /// A diff's enable and disable sets never overlap.
    pub proof fn lemma_disjoint(&self)
        requires
            self.wf(),
        ensures
            self.enable_set().disjoint(self.disable_set()),
    {
        let cat = self.enable@ + self.disable@;
        assert forall|v: CfgAtomView| self.enable_set().contains(v) implies !self.disable_set()
            .contains(v) by {
            lemma_atom_set_contains(self.enable@, v);
            lemma_atom_set_contains(self.disable@, v);
            let i = choose|i: int| 0 <= i < self.enable@.len() && self.enable@[i]@ == v;
            if self.disable_set().contains(v) {
                let j = choose|j: int| 0 <= j < self.disable@.len() && self.disable@[j]@ == v;
                assert(cat[i]@ == v);
                assert(cat[self.enable@.len() + j]@ == v);
            }
        }
    }

    /// Builds a diff, rejecting any pair of lists in which some atom is
    /// mentioned more than once overall.
    pub fn new(enable: Vec<CfgAtom>, disable: Vec<CfgAtom>) -> (r: Option<CfgDiff>)
        ensures
            r is Some <==> atoms_no_dup(enable@ + disable@),
            r matches Some(d) ==> ({
                &&& d.wf()
                &&& d.enable_atoms() == enable@.map_values(|a: CfgAtom| a@)
                &&& d.disable_atoms() == disable@.map_values(|a: CfgAtom| a@)
                &&& d.enable_set() == atom_set(enable@)
                &&& d.disable_set() == atom_set(disable@)
                &&& d.enable_len() == enable@.len()
                &&& d.disable_len() == disable@.len()
            }),
    {
        let ghost cat = enable@ + disable@;
        let ne = enable.len();
        let nd = disable.len();
        if has_dup_pair(&enable, &enable, true) {
            proof {
                let (x, y) = choose|x: int, y: int|
                    0 <= x < enable@.len() && 0 <= y < enable@.len() && x < y && enable@[x]@
                        == enable@[y]@;
                assert(cat[x]@ == cat[y]@);
            }
            return None;
        }
        if has_dup_pair(&disable, &disable, true) {
            proof {
                let (x, y) = choose|x: int, y: int|
                    0 <= x < disable@.len() && 0 <= y < disable@.len() && x < y && disable@[x]@
                        == disable@[y]@;
                assert(cat[enable@.len() + x]@ == cat[enable@.len() + y]@);
            }
            return None;
        }
        if has_dup_pair(&enable, &disable, false) {
            proof {
                let (x, y) = choose|x: int, y: int|
                    0 <= x < enable@.len() && 0 <= y < disable@.len() && enable@[x]@
                        == disable@[y]@;
                assert(cat[x]@ == cat[enable@.len() + y]@);
            }
            return None;
        }
        proof {
            assert forall|x: int, y: int| 0 <= x < y < cat.len() implies cat[x]@ != cat[y]@ by {
                if y < enable@.len() {
                    assert(cat[x] == enable@[x]);
                    assert(cat[y] == enable@[y]);
                } else if x < enable@.len() {
                    assert(cat[x] == enable@[x]);
                    assert(cat[y] == disable@[y - enable@.len()]);
                } else {
                    assert(cat[x] == disable@[x - enable@.len()]);
                    assert(cat[y] == disable@[y - enable@.len()]);
                }
            }
        }
        Some(CfgDiff { enable, disable })
    }

    /// The total number of atoms changed by this diff.
    pub fn len(&self) -> (r: usize)
        requires
            self.enable_len() + self.disable_len() <= usize::MAX,
        ensures
            r == self.enable_len() + self.disable_len(),
    {
        self.enable.len() + self.disable.len()
    }

    /// The display form of the diff: the enabled atoms, then the disabled
    /// ones, each listing comma-separated.
    #[verifier::loop_isolation(false)]
    #[verifier::rlimit(60)]
    pub fn describe(&self) -> (r: String)
        ensures
            r@ == diff_text(self.enable_atoms(), self.disable_atoms()),
    {
        let ghost en = self.enable_atoms();
        let ghost dis = self.disable_atoms();
        let mut out = String::new();
        let ne = self.enable.len();
        let nd = self.disable.len();
        proof {
            assert(out@ =~= Seq::<char>::empty());
        }
        if ne > 0 {
            out.append("enable ");
            for i in 0..ne
                invariant
                    out@ == "enable "@ + atoms_listed(en, i as int, ne - 1),
            {
                if i > 0 {
                    if i == ne - 1 {
                        out.append(" and ");
                    } else {
                        out.append(", ");
                    }
                }
                let piece = atom_to_string(&self.enable[i]);
                out.append(piece.as_str());
                proof {
                    assert(en[i as int] == self.enable@[i as int]@);
                    assert(out@ =~= "enable "@ + atoms_listed(en, i + 1, ne - 1));
                }
            }
            if nd > 0 {
                out.append("; ");
            }
        }
        if nd > 0 {
            let ghost mid = out@;
            out.append("disable ");
            for i in 0..nd
                invariant
                    out@ == mid + "disable "@ + atoms_listed(dis, i as int, ne - 1),
            {
                if i > 0 {
                    if i + 1 == ne {
                        out.append(" and ");
                    } else {
                        out.append(", ");
                    }
                }
                let piece = atom_to_string(&self.disable[i]);
                out.append(piece.as_str());
                proof {
                    assert(dis[i as int] == self.disable@[i as int]@);
                    assert(sep_text(i as int, ne - 1) == (if i == 0 {
                        Seq::<char>::empty()
                    } else if i + 1 == ne {
                        " and "@
                    } else {
                        ", "@
                    }));
                    assert(out@ =~= mid + "disable "@ + atoms_listed(dis, i + 1, ne - 1));
                }
            }
        }
        proof {
            assert(out@ =~= diff_text(en, dis));
        }
        out
    }
}

/// Why an item gated by conditional compilation is inactive: the atoms that
/// are enabled and the atoms that are disabled among those the item's
/// condition needs the other way round.
#[derive(Debug, Clone, PartialEq, Eq)]
pub struct InactiveReason {
    enabled: Vec<CfgAtom>,
    disabled: Vec<CfgAtom>,
}

/// The display form of an inactive reason: the enabled atoms, then the
/// disabled atoms, each listing closed by `is`/`are` as its count asks.
pub open spec fn inactive_reason_text(en: Seq<CfgAtomView>, dis: Seq<CfgAtomView>) -> Seq<char> {
    let en_part = if en.len() > 0 {
        atoms_listed(en, en.len() as int, en.len() - 1) + (if en.len() == 1 {
            " is enabled"@
        } else {
            " are enabled"@
        }) + (if dis.len() > 0 {
            " and "@
        } else {
            Seq::empty()
        })
    } else {
        Seq::empty()
    };
    let dis_part = if dis.len() > 0 {
        atoms_listed(dis, dis.len() as int, dis.len() - 1) + (if dis.len() == 1 {
            " is disabled"@
        } else {
            " are disabled"@
        })
    } else {
        Seq::empty()
    };
    en_part + dis_part
}

impl InactiveReason {
    /// The atoms reported enabled, in list order.
    pub closed spec fn enabled_atoms(&self) -> Seq<CfgAtomView> {
        self.enabled@.map_values(|a: CfgAtom| a@)
    }

    /// The atoms reported disabled, in list order.
    pub closed spec fn disabled_atoms(&self) -> Seq<CfgAtomView> {
        self.disabled@.map_values(|a: CfgAtom| a@)
    }

    /// Packages the two listings of a report.
    pub fn new(enabled: Vec<CfgAtom>, disabled: Vec<CfgAtom>) -> (r: InactiveReason)
        ensures
            r.enabled_atoms() == enabled@.map_values(|a: CfgAtom| a@),
            r.disabled_atoms() == disabled@.map_values(|a: CfgAtom| a@),
    {
        InactiveReason { enabled, disabled }
    }

    /// The display form of the report.
    #[verifier::loop_isolation(false)]
    #[verifier::rlimit(60)]
    pub fn describe(&self) -> (r: String)
        ensures
            r@ == inactive_reason_text(self.enabled_atoms(), self.disabled_atoms()),
    {
        let ghost en = self.enabled_atoms();
        let ghost dis = self.disabled_atoms();
        let mut out = String::new();
        let ne = self.enabled.len();
        let nd = self.disabled.len();
        proof {
            assert(out@ =~= Seq::<char>::empty());
        }
        if ne > 0 {
            for i in 0..ne
                invariant
                    out@ == atoms_listed(en, i as int, ne - 1),
            {
                if i > 0 {
                    if i == ne - 1 {
                        out.append(" and ");
                    } else {
                        out.append(", ");
                    }
                }
                let piece = atom_to_string(&self.enabled[i]);
                out.append(piece.as_str());
                proof {
                    assert(en[i as int] == self.enabled@[i as int]@);
                    assert(out@ =~= atoms_listed(en, i + 1, ne - 1));
                }
            }
            if ne == 1 {
                out.append(" is enabled");
            } else {
                out.append(" are enabled");
            }
            if nd > 0 {
                out.append(" and ");
            }
        }
        if nd > 0 {
            let ghost mid = out@;
            for i in 0..nd
                invariant
                    out@ == mid + atoms_listed(dis, i as int, nd - 1),
            {
                if i > 0 {
                    if i == nd - 1 {
                        out.append(" and ");
                    } else {
                        out.append(", ");
                    }
                }
                let piece = atom_to_string(&self.disabled[i]);
                out.append(piece.as_str());
                proof {
                    assert(dis[i as int] == self.disabled@[i as int]@);
                    assert(out@ =~= mid + atoms_listed(dis, i + 1, nd - 1));
                }
            }
            proof {
                assert(mid + Seq::<char>::empty() =~= mid);
            }
            if nd == 1 {
                out.append(" is disabled");
            } else {
                out.append(" are disabled");
            }
        }
        proof {
            assert(out@ =~= inactive_reason_text(en, dis));
        }
        out
    }
}

/// The display form of one atom: the flag name, or `key = "value"`.
pub open spec fn atom_text(a: CfgAtomView) -> Seq<char> {
    match a {
        CfgAtomView::Flag(name) => name,
        CfgAtomView::KeyValue(key, value) => key + " = \""@ + value + "\""@,
    }
}

/// The separator written before the item at `i` of a listing whose final
/// separator position is `last`: nothing first, ` and ` before `last`,
/// a comma otherwise.
pub open spec fn sep_text(i: int, last: int) -> Seq<char> {
    if i == 0 {
        Seq::empty()
    } else if i == last {
        " and "@
    } else {
        ", "@
    }
}

/// The first `n` atoms listed with their separators.
pub open spec fn atoms_listed(atoms: Seq<CfgAtomView>, n: int, last: int) -> Seq<char>
    decreases n,
{
    if n <= 0 {
        Seq::empty()
    } else {
        atoms_listed(atoms, n - 1, last) + sep_text(n - 1, last) + atom_text(atoms[n - 1])
    }
}

/// The display form of a diff. The position given the ` and ` separator in
/// the disable listing is counted against the enable list's length, as the
/// rendering has always done.
pub open spec fn diff_text(en: Seq<CfgAtomView>, dis: Seq<CfgAtomView>) -> Seq<char> {
    let en_part = if en.len() > 0 {
        "enable "@ + atoms_listed(en, en.len() as int, en.len() - 1) + (if dis.len() > 0 {
            "; "@
        } else {
            Seq::empty()
        })
    } else {
        Seq::empty()
    };
    let dis_part = if dis.len() > 0 {
        "disable "@ + atoms_listed(dis, dis.len() as int, en.len() - 1)
    } else {
        Seq::empty()
    };
    en_part + dis_part
}

/// The display form of one atom.
pub fn atom_to_string(a: &CfgAtom) -> (r: String)
    ensures
        r@ == atom_text(a@),
{
    match a {
        CfgAtom::Flag(name) => name.clone(),
        CfgAtom::KeyValue { key, value } => {
            let mut out = key.clone();
            out.append(" = \"");
            out.append(value.as_str());
            out.append("\"");
            out
        },
    }
}

/// Applying a diff to an option set `s`: enabling `en`, then disabling `dis`.
pub open spec fn diff_applied(
    s: Set<CfgAtomView>,
    en: Set<CfgAtomView>,
    dis: Set<CfgAtomView>,
) -> Set<CfgAtomView> {
    s.union(en).difference(dis)
}

/// Evaluation is referentially transparent: the verdict of
/// [`CfgOptions::check`] is a pure function of the expression and the option
/// set, so any two evaluations of equal expressions against equal option
/// sets agree.
pub proof fn lemma_eval_deterministic(
    e1: CfgExpr,
    e2: CfgExpr,
    opts1: Set<CfgAtomView>,
    opts2: Set<CfgAtomView>,
)
    requires
        e1 == e2,
        opts1 == opts2,
    ensures
        eval_expr(e1, opts1) == eval_expr(e2, opts2),
{
}

/// Applying the same diff twice yields the same option set as applying it
/// once, for any diff whose enable and disable sets do not overlap — which
/// [`CfgDiff::new`] guarantees.
pub proof fn lemma_apply_diff_idempotent(
    s: Set<CfgAtomView>,
    en: Set<CfgAtomView>,
    dis: Set<CfgAtomView>,
)
    requires
        en.disjoint(dis),
    ensures
        diff_applied(diff_applied(s, en, dis), en, dis) == diff_applied(s, en, dis),
{
    assert(diff_applied(diff_applied(s, en, dis), en, dis) =~= diff_applied(s, en, dis));
}

impl Default for CfgOptions {
    /// The empty option set.
    fn default() -> (r: CfgOptions)
        ensures
            r.wf(),
            r@ == Set::<CfgAtomView>::empty(),
    {
        let r = CfgOptions { enabled: Vec::new() };
        proof {
            assert(r@ =~= Set::<CfgAtomView>::empty());
        }
        r
    }
}

} // verus!
