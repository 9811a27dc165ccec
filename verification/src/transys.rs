//! The structure of a transition system as the cone-of-influence reduction
//! reads it, and the reduction: the variables that the property, the
//! constraints and the fairness conditions depend on, through next-state
//! functions, initial values and definitions, are kept; the others go.
use vstd::prelude::*;
use std::collections::BTreeMap;
use crate::ghash::{
    code_set_contains, code_set_contents, code_set_insert, code_set_new, var_lit_map_contents,
    var_lit_map_entries, var_lit_map_get, var_lit_map_insert, var_lit_map_new, var_lit_map_remove, CodeSet,
    VarLitMap,
};
use crate::lit::{lemma_new_roundtrip, lemma_not_properties, Lit, Var};
use crate::litvec::LitVec;
use crate::frame::litvec_views;
use crate::relation::RelationData;
use crate::var2name::Var2Name;

verus! {

/// A transition system: inputs, latches with their next-state and
/// initial-value literals, the bad, constraint and justice literals, and
/// the relation by its dependency lists: `deps[v]` holds the variables that
/// the definition of `v` uses, for every variable `v` up to the largest.
/// The relation's clauses stay with the caller.
pub struct Transys {
    pub input: Vec<Var>,
    pub latch: Vec<Var>,
    pub next: VarLitMap,
    pub init: VarLitMap,
    pub bad: LitVec,
    pub constraint: LitVec,
    pub justice: LitVec,
    pub deps: Vec<Vec<Var>>,
}

/// What the reduction follows from a variable.
pub struct DepGraph {
    pub next: Map<u32, Lit>,
    pub init: Map<u32, Lit>,
    pub deps: Seq<Seq<Var>>,
}

/// `w` is the variable of the next-state literal or of the initial value of
/// `v`, or a variable that the definition of `v` uses.
pub open spec fn edge(g: DepGraph, v: u32, w: u32) -> bool {
    ||| g.next.contains_key(v) && g.next[v].spec_var().0 == w
    ||| g.init.contains_key(v) && g.init[v].spec_var().0 == w
    ||| v < g.deps.len() && g.deps[v as int].contains(Var(w))
}

pub open spec fn step(g: DepGraph, p: Seq<u32>, i: int) -> bool {
    edge(g, p[i], p[i + 1])
}

pub open spec fn is_path(g: DepGraph, p: Seq<u32>) -> bool {
    &&& p.len() > 0
    &&& forall|i: int| 0 <= i < p.len() - 1 ==> #[trigger] step(g, p, i)
}

/// Some path leads from a variable of `roots` to `w`.
pub open spec fn reaches(g: DepGraph, roots: Set<u32>, w: u32) -> bool {
    exists|p: Seq<u32>| #[trigger] is_path(g, p) && roots.contains(p[0]) && p.last() == w
}

/// The variables reachable from `roots`, `roots` included.
pub open spec fn reach(g: DepGraph, roots: Set<u32>) -> Set<u32> {
    Set::new(|w: u32| reaches(g, roots, w))
}

/// Every variable that `u` leads to is in `s`.
pub open spec fn closed_at(g: DepGraph, s: Set<u32>, u: u32) -> bool {
    forall|w: u32| #[trigger] edge(g, u, w) ==> s.contains(w)
}

proof fn lemma_root_reached(g: DepGraph, roots: Set<u32>, x: u32)
    requires
        roots.contains(x),
    ensures
        reach(g, roots).contains(x),
{
    let p = seq![x];
    assert(is_path(g, p));
    assert(reaches(g, roots, x));
}

proof fn lemma_reach_step(g: DepGraph, roots: Set<u32>, u: u32, w: u32)
    requires
        reach(g, roots).contains(u),
        edge(g, u, w),
    ensures
        reach(g, roots).contains(w),
{
    assert(reaches(g, roots, u));
    let p = choose|p: Seq<u32>| #[trigger] is_path(g, p) && roots.contains(p[0]) && p.last() == u;
    let q = p.push(w);
    assert forall|i: int| 0 <= i < q.len() - 1 implies #[trigger] step(g, q, i) by {
        if i < p.len() - 1 {
            assert(step(g, p, i));
            assert(q[i] == p[i] && q[i + 1] == p[i + 1]);
        } else {
            assert(q[i] == u && q[i + 1] == w);
        }
    }
    assert(is_path(g, q));
    assert(q[0] == p[0]);
    assert(reaches(g, roots, w));
}

proof fn lemma_path_inside(g: DepGraph, p: Seq<u32>, s: Set<u32>, k: int)
    requires
        is_path(g, p),
        s.contains(p[0]),
        forall|u: u32| #[trigger] s.contains(u) ==> closed_at(g, s, u),
        0 <= k < p.len(),
    ensures
        s.contains(p[k]),
    decreases k,
{
    if k > 0 {
        lemma_path_inside(g, p, s, k - 1);
        assert(step(g, p, k - 1));
        assert(closed_at(g, s, p[k - 1]));
        assert(edge(g, p[k - 1], p[k]));
    }
}

/// A set that holds `roots` and is closed under the edges holds all that
/// `roots` reach.
proof fn lemma_closed_holds_reach(g: DepGraph, roots: Set<u32>, s: Set<u32>)
    requires
        roots.subset_of(s),
        forall|u: u32| #[trigger] s.contains(u) ==> closed_at(g, s, u),
    ensures
        reach(g, roots).subset_of(s),
{
    assert forall|w: u32| reach(g, roots).contains(w) implies s.contains(w) by {
        assert(reaches(g, roots, w));
        let p = choose|p: Seq<u32>| #[trigger] is_path(g, p) && roots.contains(p[0]) && p.last() == w;
        lemma_path_inside(g, p, s, p.len() - 1);
    }
}

proof fn lemma_reach_monotone(g: DepGraph, a: Set<u32>, b: Set<u32>)
    requires
        a.subset_of(b),
    ensures
        reach(g, a).subset_of(reach(g, b)),
{
    assert forall|w: u32| reach(g, a).contains(w) implies reach(g, b).contains(w) by {
        assert(reaches(g, a, w));
        let p = choose|p: Seq<u32>| #[trigger] is_path(g, p) && a.contains(p[0]) && p.last() == w;
        assert(reaches(g, b, w));
    }
}

proof fn lemma_bounded_set_len(s: Set<u32>, n: nat)
    requires
        s.finite(),
        forall|x: u32| #[trigger] s.contains(x) ==> x < n,
    ensures
        s.len() <= n,
    decreases n,
{
    if n == 0 {
        if s.len() > 0 {
            let x = s.choose();
            assert(s.contains(x));
        }
    } else {
        let t = s.remove((n - 1) as u32);
        lemma_bounded_set_len(t, (n - 1) as nat);
    }
}

/// The variables of the literals of `s`.
pub open spec fn lits_vars(s: Seq<Lit>) -> Set<u32> {
    Set::new(|x: u32| exists|i: int| 0 <= i < s.len() && #[trigger] s[i].spec_var().0 == x)
}

/// The indices of the variables of `s`.
pub open spec fn vars_set(s: Seq<Var>) -> Set<u32> {
    Set::new(|x: u32| exists|i: int| 0 <= i < s.len() && #[trigger] s[i].0 == x)
}

/// What a step of the search keeps, from the marks `m0` and the queue `qp`
/// it started from: `qp` stays in front, every queued variable is marked,
/// the variables queued after `qp` were unmarked at the start, and every
/// newly marked variable is queued.
pub open spec fn step_state(m: Set<u32>, q: Seq<Var>, m0: Set<u32>, qp: Seq<Var>) -> bool {
    &&& m0.subset_of(m)
    &&& qp.len() <= q.len()
    &&& forall|i: int| 0 <= i < qp.len() ==> q[i] == qp[i]
    &&& forall|i: int| qp.len() <= i < q.len() ==> !m0.contains(#[trigger] q[i].0)
    &&& forall|i: int| 0 <= i < q.len() ==> m.contains(#[trigger] q[i].0)
    &&& forall|u: u32| #[trigger] m.contains(u) && !m0.contains(u) ==> q.contains(Var(u))
}

/// The variables of `s` whose indices are in `m`, in order.
pub open spec fn keep_marked(s: Seq<Var>, m: Set<u32>) -> Seq<Var>
    decreases s.len(),
{
    if s.len() == 0 {
        s
    } else if m.contains(s.last().0) {
        keep_marked(s.drop_last(), m).push(s.last())
    } else {
        keep_marked(s.drop_last(), m)
    }
}

/// The variables from 1 up to below `n` that are not in `m`, in order.
pub open spec fn unmarked_below(m: Set<u32>, n: int) -> Seq<Var>
    decreases n,
{
    if n <= 1 {
        Seq::empty()
    } else if m.contains((n - 1) as u32) {
        unmarked_below(m, n - 1)
    } else {
        unmarked_below(m, n - 1).push(Var((n - 1) as u32))
    }
}

/// The variable of current number `v` has an original number, and that
/// number a row of equivalence predicates.
pub open spec fn var_has_equiv_row(relation: &RelationData, names: &Var2Name, v: Var) -> bool {
    &&& names.origin_map().contains_key(v.0 as usize)
    &&& relation.equiv_map@.contains_key(names.origin_map()[v.0 as usize] as i64)
}

pub open spec fn equiv_pred_of(relation: &RelationData, names: &Var2Name, v: Var) -> Option<usize> {
    RelationData::predicate_new_spec(relation.equiv_map@, names, v.0 as usize)
}

/// `m` with, for each latch of `latches` in turn that is in the set so far,
/// the variable of its equivalence predicate added.
pub open spec fn pred_fold(relation: &RelationData, names: &Var2Name, m: Set<u32>, latches: Seq<Var>) -> Set<u32>
    decreases latches.len(),
{
    if latches.len() == 0 {
        m
    } else {
        let prev = pred_fold(relation, names, m, latches.drop_last());
        let v = latches.last();
        if prev.contains(v.0) {
            match equiv_pred_of(relation, names, v) {
                Some(p) => prev.insert(p as u32),
                None => prev,
            }
        } else {
            prev
        }
    }
}

/// The next-state literals, under `next`, of the literals of `lits` whose
/// variables have one, each negated for a negative literal, in order.
pub open spec fn next_lits(next: Map<u32, Lit>, lits: Seq<Lit>) -> Seq<Lit>
    decreases lits.len(),
{
    if lits.len() == 0 {
        Seq::empty()
    } else {
        let prev = next_lits(next, lits.drop_last());
        let l = lits.last();
        if next.contains_key(l.spec_var().0) {
            let n = next[l.spec_var().0];
            prev.push(if l.spec_polarity() { n } else { n.spec_not() })
        } else {
            prev
        }
    }
}

/// The latches of `latch` that have a next-state literal under `next`
/// (with `has`), or that have none (without), in order.
pub open spec fn latches_with_next(latch: Seq<Var>, next: Map<u32, Lit>, has: bool) -> Seq<Var>
    decreases latch.len(),
{
    if latch.len() == 0 {
        Seq::empty()
    } else {
        let prev = latches_with_next(latch.drop_last(), next, has);
        if next.contains_key(latch.last().0) == has {
            prev.push(latch.last())
        } else {
            prev
        }
    }
}

/// The clauses that tie latch or input `v` to its initial value `i`: a unit
/// clause where `i` is a constant, else the two clauses of `v == i`.
pub open spec fn init_clauses_for(v: Var, i: Lit) -> Seq<Seq<Lit>> {
    let x = Lit::spec_new(v, true);
    if i.spec_var().0 == 0 {
        seq![seq![if i == Lit::spec_new(Var(0), false) { x } else { x.spec_not() }]]
    } else {
        seq![seq![x, i.spec_not()], seq![x.spec_not(), i]]
    }
}

/// The initial-value clauses of the variables of `vs` that have an initial
/// value under `init`, in order.
pub open spec fn init_clauses_spec(vs: Seq<Var>, init: Map<u32, Lit>) -> Seq<Seq<Lit>>
    decreases vs.len(),
{
    if vs.len() == 0 {
        Seq::empty()
    } else {
        let v = vs.last();
        init_clauses_spec(vs.drop_last(), init) + if init.contains_key(v.0) {
            init_clauses_for(v, init[v.0])
        } else {
            Seq::empty()
        }
    }
}

/// An assignment `val` of truth values to variables makes `l` true.
pub open spec fn lit_true(val: spec_fn(u32) -> bool, l: Lit) -> bool {
    val(l.spec_var().0) == l.spec_polarity()
}

/// Some literal of clause `c` is true under `val`.
pub open spec fn clause_true(val: spec_fn(u32) -> bool, c: Seq<Lit>) -> bool {
    exists|k: int| 0 <= k < c.len() && #[trigger] lit_true(val, c[k])
}

/// Every clause of `cs` is true under `val`.
pub open spec fn clauses_true(val: spec_fn(u32) -> bool, cs: Seq<Seq<Lit>>) -> bool {
    forall|k: int| 0 <= k < cs.len() ==> #[trigger] clause_true(val, cs[k])
}

/// The clauses for the initial value `i` of `v` hold exactly under the
/// assignments (with the constant variable false) that give `v` the value
/// of `i`, whatever the polarity of `i`.
pub proof fn lemma_init_clauses_for_meaning(v: Var, i: Lit, val: spec_fn(u32) -> bool)
    requires
        v.0 < 0x8000_0000,
        !val(0),
    ensures
        clauses_true(val, init_clauses_for(v, i)) <==> (val(v.0) == lit_true(val, i)),
{
    let x = Lit::spec_new(v, true);
    lemma_new_roundtrip(v, true);
    lemma_not_properties(x);
    lemma_not_properties(i);
    let cs = init_clauses_for(v, i);
    if i.spec_var().0 == 0 {
        let u = if i == Lit::spec_new(Var(0), false) { x } else { x.spec_not() };
        assert(cs[0] == seq![u]);
        if i == Lit::spec_new(Var(0), false) {
            assert(lit_true(val, i));
        } else {
            assert(i.0 == 0);
            assert(!lit_true(val, i));
        }
        if clauses_true(val, cs) {
            assert(clause_true(val, cs[0]));
        }
        if val(v.0) == lit_true(val, i) {
            assert(lit_true(val, cs[0][0]));
            assert(clause_true(val, cs[0]));
        }
    } else {
        let c0 = cs[0];
        let c1 = cs[1];
        if clauses_true(val, cs) {
            assert(clause_true(val, c0));
            assert(clause_true(val, c1));
            let k0 = choose|k: int| 0 <= k < c0.len() && #[trigger] lit_true(val, c0[k]);
            let k1 = choose|k: int| 0 <= k < c1.len() && #[trigger] lit_true(val, c1[k]);
            assert(k0 == 0 || k0 == 1);
            assert(k1 == 0 || k1 == 1);
        }
        if val(v.0) == lit_true(val, i) {
            if val(v.0) {
                assert(lit_true(val, c0[0]));
                assert(lit_true(val, c1[1]));
            } else {
                assert(lit_true(val, c0[1]));
                assert(lit_true(val, c1[0]));
            }
            assert(clause_true(val, c0));
            assert(clause_true(val, c1));
            assert forall|k: int| 0 <= k < cs.len() implies #[trigger] clause_true(val, cs[k]) by {
                assert(k == 0 || k == 1);
            }
        }
    }
}

/// The initial-value clauses of the variables of `vs` hold exactly under the
/// assignments (with the constant variable false) that give each of them
/// with an initial value under `init` the value of that literal.
pub proof fn lemma_init_clauses_meaning(vs: Seq<Var>, init: Map<u32, Lit>, val: spec_fn(u32) -> bool)
    requires
        forall|k: int| 0 <= k < vs.len() ==> (#[trigger] vs[k]).0 < 0x8000_0000,
        !val(0),
    ensures
        clauses_true(val, init_clauses_spec(vs, init)) <==> (forall|k: int|
            0 <= k < vs.len() && init.contains_key(#[trigger] vs[k].0) ==> val(vs[k].0) == lit_true(val, init[vs[k].0])),
    decreases vs.len(),
{
    if vs.len() > 0 {
        let p = vs.drop_last();
        let n = vs.len() - 1;
        let v = vs[n];
        assert forall|k: int| 0 <= k < p.len() implies (#[trigger] p[k]).0 < 0x8000_0000 by {
            assert(p[k] == vs[k]);
        }
        lemma_init_clauses_meaning(p, init, val);
        let a = init_clauses_spec(p, init);
        let b = if init.contains_key(v.0) { init_clauses_for(v, init[v.0]) } else { Seq::empty() };
        assert(init_clauses_spec(vs, init) == a + b);
        if init.contains_key(v.0) {
            lemma_init_clauses_for_meaning(v, init[v.0], val);
        }
        let all = a + b;
        assert(clauses_true(val, all) <==> clauses_true(val, a) && clauses_true(val, b)) by {
            if clauses_true(val, all) {
                assert forall|k: int| 0 <= k < a.len() implies #[trigger] clause_true(val, a[k]) by {
                    assert(all[k] == a[k]);
                }
                assert forall|k: int| 0 <= k < b.len() implies #[trigger] clause_true(val, b[k]) by {
                    assert(all[a.len() + k] == b[k]);
                }
            }
            if clauses_true(val, a) && clauses_true(val, b) {
                assert forall|k: int| 0 <= k < all.len() implies #[trigger] clause_true(val, all[k]) by {
                    if k < a.len() {
                        assert(all[k] == a[k]);
                    } else {
                        assert(all[k] == b[k - a.len()]);
                    }
                }
            }
        }
        let q = forall|k: int|
            0 <= k < vs.len() && init.contains_key(#[trigger] vs[k].0) ==> val(vs[k].0) == lit_true(val, init[vs[k].0]);
        let qp = forall|k: int|
            0 <= k < p.len() && init.contains_key(#[trigger] p[k].0) ==> val(p[k].0) == lit_true(val, init[p[k].0]);
        assert(q <==> qp && (init.contains_key(v.0) ==> val(v.0) == lit_true(val, init[v.0]))) by {
            if qp && (init.contains_key(v.0) ==> val(v.0) == lit_true(val, init[v.0])) {
                assert forall|k: int| 0 <= k < vs.len() && init.contains_key(#[trigger] vs[k].0)
                    implies val(vs[k].0) == lit_true(val, init[vs[k].0]) by {
                    if k < n {
                        assert(p[k] == vs[k]);
                    }
                }
            }
            if q {
                assert forall|k: int| 0 <= k < p.len() && init.contains_key(#[trigger] p[k].0)
                    implies val(p[k].0) == lit_true(val, init[p[k].0]) by {
                    assert(p[k] == vs[k]);
                }
                assert(vs[n] == v);
            }
        }
        if !init.contains_key(v.0) {
            assert(clauses_true(val, b));
        }
    }
}

/// The map that inserting the pairs of `s` one by one, in order, builds:
/// a later pair for the same variable replaces an earlier one.
pub open spec fn pairs_map(s: Seq<(Var, Lit)>) -> Map<u32, Lit>
    decreases s.len(),
{
    if s.len() == 0 {
        Map::empty()
    } else {
        pairs_map(s.drop_last()).insert(s.last().0.0, s.last().1)
    }
}

/// The map that the pairs build has exactly their variables as keys, and the
/// literal under a variable is that of the last pair for it.
pub proof fn lemma_pairs_map_last_pair(s: Seq<(Var, Lit)>)
    ensures
        forall|v: u32| #[trigger] pairs_map(s).contains_key(v) <==> exists|i: int| 0 <= i < s.len() && s[i].0.0 == v,
        forall|v: u32, i: int|
            #![trigger pairs_map(s)[v], s[i]]
            0 <= i < s.len() && s[i].0.0 == v && (forall|j: int| i < j < s.len() ==> s[j].0.0 != v)
                ==> pairs_map(s)[v] == s[i].1,
    decreases s.len(),
{
    if s.len() > 0 {
        let p = s.drop_last();
        let n = s.len() - 1;
        lemma_pairs_map_last_pair(p);
        assert(pairs_map(s) == pairs_map(p).insert(s[n].0.0, s[n].1));
        assert forall|v: u32| #[trigger] pairs_map(s).contains_key(v) <==> exists|i: int| 0 <= i < s.len() && s[i].0.0 == v by {
            if pairs_map(s).contains_key(v) && v != s[n].0.0 {
                assert(pairs_map(p).contains_key(v));
                let i = choose|i: int| 0 <= i < p.len() && p[i].0.0 == v;
                assert(s[i] == p[i]);
            }
            if exists|i: int| 0 <= i < s.len() && s[i].0.0 == v {
                let i = choose|i: int| 0 <= i < s.len() && s[i].0.0 == v;
                if i < n {
                    assert(s[i] == p[i]);
                }
            }
        }
        assert forall|v: u32, i: int|
            0 <= i < s.len() && s[i].0.0 == v && (forall|j: int| i < j < s.len() ==> s[j].0.0 != v)
                implies #[trigger] pairs_map(s)[v] == #[trigger] s[i].1 by {
            if i < n {
                assert(s[n].0.0 != v);
                assert(s[i] == p[i]);
                assert forall|j: int| i < j < p.len() implies p[j].0.0 != v by {
                    assert(s[j] == p[j]);
                }
            }
        }
    }
}

/// What the cone-of-influence reduction asks of a system: its dependency
/// lists can be numbered by `u32`, the variables it keeps have one, and
/// every latch whose predicate is looked up has an original number with a
/// row.
pub open spec fn coi_refine_ready(t: &Transys, relation: &RelationData, names: &Var2Name) -> bool {
    &&& 1 <= t.deps@.len() <= 0x1_0000_0000
    &&& forall|u: u32| #[trigger] t.coi_marks(relation, names).contains(u) ==> u < t.deps@.len()
    &&& forall|k: int|
        #![trigger t.latch@[k]]
        0 <= k < t.latch@.len() && pred_fold(relation, names, reach(t.graph(), t.coi_roots()), t.latch@.take(k)).contains(
            t.latch@[k].0,
        ) ==> var_has_equiv_row(relation, names, t.latch@[k])
}

/// `t1` is `t0` reduced to the variables of `m`: the inputs and latches
/// outside `m` leave, with their next-state and initial-value literals, and
/// every variable from 1 on outside `m` loses its dependency list.
pub open spec fn coi_refined(t0: &Transys, t1: &Transys, m: Set<u32>) -> bool {
    let gone = Set::new(
        |x: u32| (vars_set(t0.input@).contains(x) || vars_set(t0.latch@).contains(x)) && !m.contains(x),
    );
    &&& t1.input@ == keep_marked(t0.input@, m)
    &&& t1.latch@ == keep_marked(t0.latch@, m)
    &&& t1.graph().next == t0.graph().next.remove_keys(gone)
    &&& t1.graph().init == t0.graph().init.remove_keys(gone)
    &&& t1.deps@.len() == t0.deps@.len()
    &&& forall|v: int|
        0 <= v < t0.deps@.len() ==> #[trigger] t1.deps@[v]@ == if 1 <= v && !m.contains(v as u32) {
            Seq::<Var>::empty()
        } else {
            t0.deps@[v]@
        }
    &&& t1.bad@ == t0.bad@
    &&& t1.constraint@ == t0.constraint@
    &&& t1.justice@ == t0.justice@
}

impl Transys {
    pub open spec fn graph(&self) -> DepGraph {
        DepGraph {
            next: var_lit_map_contents(self.next),
            init: var_lit_map_contents(self.init),
            deps: self.deps@.map_values(|d: Vec<Var>| d@),
        }
    }

    /// Where the reduction starts: the variables of the constraint, bad and
    /// justice literals, and every latch where there is a justice literal.
    pub open spec fn coi_roots(&self) -> Set<u32> {
        lits_vars(self.constraint@).union(lits_vars(self.bad@)).union(lits_vars(self.justice@)).union(
            if self.justice@.len() > 0 {
                vars_set(self.latch@)
            } else {
                Set::empty()
            },
        )
    }

    /// The variables the reduction keeps: those reachable from the roots,
    /// then, with the predicates of the latches among them added, those
    /// reachable from that.
    pub open spec fn coi_marks(&self, relation: &RelationData, names: &Var2Name) -> Set<u32> {
        reach(self.graph(), pred_fold(relation, names, reach(self.graph(), self.coi_roots()), self.latch@))
    }

    /// The next-state literal of `v`, if it is a latch with one.
    pub fn next_of(&self, v: Var) -> (r: Option<Lit>)
        ensures
            r == if self.graph().next.contains_key(v.0) {
                Some(self.graph().next[v.0])
            } else {
                None
            },
    {
        var_lit_map_get(&self.next, v.0)
    }

    /// The initial-value literal of `v`, if it has one.
    pub fn init_of(&self, v: Var) -> (r: Option<Lit>)
        ensures
            r == if self.graph().init.contains_key(v.0) {
                Some(self.graph().init[v.0])
            } else {
                None
            },
    {
        var_lit_map_get(&self.init, v.0)
    }

    pub fn add_input(&mut self, input: Var)
        ensures
            final(self).input@ == old(self).input@.push(input),
            final(self).latch@ == old(self).latch@,
            final(self).graph() == old(self).graph(),
    {
        self.input.push(input);
    }

    /// Adds a latch with its next-state literal and, where given, its
    /// initial value.
    pub fn add_latch(&mut self, latch: Var, init: Option<Lit>, next: Lit)
        ensures
            final(self).latch@ == old(self).latch@.push(latch),
            final(self).input@ == old(self).input@,
            final(self).graph().next == old(self).graph().next.insert(latch.0, next),
            final(self).graph().init == match init {
                Some(i) => old(self).graph().init.insert(latch.0, i),
                None => old(self).graph().init,
            },
            final(self).graph().deps == old(self).graph().deps,
    {
        self.latch.push(latch);
        var_lit_map_insert(&mut self.next, latch.0, next);
        if let Some(i) = init {
            var_lit_map_insert(&mut self.init, latch.0, i);
        }
    }

    pub fn add_init(&mut self, latch: Var, init: Lit)
        ensures
            final(self).graph().init == old(self).graph().init.insert(latch.0, init),
            final(self).graph().next == old(self).graph().next,
            final(self).graph().deps == old(self).graph().deps,
            final(self).input@ == old(self).input@,
            final(self).latch@ == old(self).latch@,
    {
        var_lit_map_insert(&mut self.init, latch.0, init);
    }

    /// The next-state literal of `lit`: that of its variable, negated for
    /// a negative `lit`; `None` where the variable has none.
    pub open spec fn next_spec(&self, lit: Lit) -> Option<Lit> {
        if self.graph().next.contains_key(lit.spec_var().0) {
            let n = self.graph().next[lit.spec_var().0];
            Some(if lit.spec_polarity() { n } else { n.spec_not() })
        } else {
            None
        }
    }

    /// The next-state literal of `lit` (see `next_spec`).
    pub fn next(&self, lit: Lit) -> (r: Option<Lit>)
        ensures
            r == self.next_spec(lit),
    {
        match var_lit_map_get(&self.next, lit.var().0) {
            Some(n) => Some(n.not_if(!lit.polarity())),
            None => None,
        }
    }

    /// The variable of the next-state literal of the positive literal of
    /// `v`: for `v` below `0x8000_0000`, that of the next-state literal of
    /// `v`.
    pub fn var_next(&self, v: Var) -> (r: Option<Var>)
        ensures
            r == match self.next_spec(Lit::spec_new(v, true)) {
                Some(n) => Some(n.spec_var()),
                None => None,
            },
            v.0 < 0x8000_0000 ==> r == if self.graph().next.contains_key(v.0) {
                Some(self.graph().next[v.0].spec_var())
            } else {
                None
            },
    {
        let l = v.lit();
        proof {
            if v.0 < 0x8000_0000 {
                lemma_new_roundtrip(v, true);
            }
        }
        match self.next(l) {
            Some(n) => Some(n.var()),
            None => None,
        }
    }

    /// The clauses that fix the initial values of the inputs and latches,
    /// for a solver to load (see `init_clauses_spec`).
    pub fn init_clauses(&self) -> (r: Vec<LitVec>)
        ensures
            litvec_views(r@) == init_clauses_spec(self.input@ + self.latch@, self.graph().init),
    {
        let mut r: Vec<LitVec> = Vec::new();
        let mut all: Vec<Var> = Vec::new();
        vars_into(&mut all, &self.input);
        vars_into(&mut all, &self.latch);
        let mut k: usize = 0;
        assert(all@.take(0) =~= Seq::<Var>::empty());
        while k < all.len()
            invariant
                k <= all@.len(),
                all@ == self.input@ + self.latch@,
                litvec_views(r@) == init_clauses_spec(all@.take(k as int), self.graph().init),
            decreases all@.len() - k,
        {
            let v = all[k];
            let ghost before = litvec_views(r@);
            assert(all@.take(k + 1).drop_last() =~= all@.take(k as int));
            assert(all@.take(k + 1).last() == v);
            if let Some(i) = var_lit_map_get(&self.init, v.0) {
                let x = v.lit();
                let ghost want = init_clauses_for(v, self.graph().init[v.0]);
                if i.var().0 == 0 {
                    let t = Lit::constant(true);
                    let c = i == t;
                    let u = LitVec::from_lit(x.not_if(!c));
                    let ghost ru = r@;
                    r.push(u);
                    assert(r@ == ru.push(u));
                    assert(u@ == want[0]);
                    assert(litvec_views(r@) =~= before + want);
                } else {
                    let mut a = LitVec::new();
                    a.push(x);
                    a.push(i.not());
                    let mut b = LitVec::new();
                    b.push(x.not());
                    b.push(i);
                    let ghost ru = r@;
                    r.push(a);
                    r.push(b);
                    assert(r@ == ru.push(a).push(b));
                    assert(a@ =~= want[0]);
                    assert(b@ =~= want[1]);
                    assert(litvec_views(r@) =~= before + want);
                }
            } else {
                assert(litvec_views(r@) =~= before);
            }
            k = k + 1;
        }
        assert(all@.take(all@.len() as int) =~= all@);
        r
    }

    /// The next-state literals of those of `lits` that have one, in order.
    pub fn lits_next(&self, lits: &[Lit]) -> (r: LitVec)
        ensures
            r@ == next_lits(self.graph().next, lits@),
    {
        let mut r = LitVec::new();
        let mut k: usize = 0;
        while k < lits.len()
            invariant
                k <= lits@.len(),
                r@ == next_lits(self.graph().next, lits@.take(k as int)),
            decreases lits@.len() - k,
        {
            let l = lits[k];
            assert(lits@.take(k + 1).drop_last() =~= lits@.take(k as int));
            assert(lits@.take(k + 1).last() == l);
            if let Some(n) = self.next(l) {
                r.push(n);
            }
            k = k + 1;
        }
        assert(lits@.take(lits@.len() as int) =~= lits@);
        r
    }

    /// The latches with a next-state literal, in order.
    pub fn latch_had_next(&self) -> (r: Vec<Var>)
        ensures
            r@ == latches_with_next(self.latch@, self.graph().next, true),
    {
        self.latches_by_next(true)
    }

    /// The latches without a next-state literal, in order.
    pub fn latch_no_next(&self) -> (r: Vec<Var>)
        ensures
            r@ == latches_with_next(self.latch@, self.graph().next, false),
    {
        self.latches_by_next(false)
    }

    fn latches_by_next(&self, has: bool) -> (r: Vec<Var>)
        ensures
            r@ == latches_with_next(self.latch@, self.graph().next, has),
    {
        let mut r: Vec<Var> = Vec::new();
        let mut k: usize = 0;
        while k < self.latch.len()
            invariant
                k <= self.latch@.len(),
                r@ == latches_with_next(self.latch@.take(k as int), self.graph().next, has),
            decreases self.latch@.len() - k,
        {
            let v = self.latch[k];
            assert(self.latch@.take(k + 1).drop_last() =~= self.latch@.take(k as int));
            assert(self.latch@.take(k + 1).last() == v);
            if var_lit_map_get(&self.next, v.0).is_some() == has {
                r.push(v);
            }
            k = k + 1;
        }
        assert(self.latch@.take(self.latch@.len() as int) =~= self.latch@);
        r
    }

    /// A system from its parts; a later pair for the same variable wins.
    pub fn new(
        input: Vec<Var>,
        latch: Vec<Var>,
        next: &[(Var, Lit)],
        init: &[(Var, Lit)],
        bad: LitVec,
        constraint: LitVec,
        justice: LitVec,
        deps: Vec<Vec<Var>>,
    ) -> (r: Transys)
        ensures
            r.input@ == input@,
            r.latch@ == latch@,
            r.graph().next == pairs_map(next@),
            r.graph().init == pairs_map(init@),
            r.bad@ == bad@,
            r.constraint@ == constraint@,
            r.justice@ == justice@,
            r.deps@ == deps@,
    {
        let nm = Self::map_of_pairs(next);
        let im = Self::map_of_pairs(init);
        Transys { input, latch, next: nm, init: im, bad, constraint, justice, deps }
    }

    /// Inserts the pairs of `s` into an empty map, in order.
    fn map_of_pairs(s: &[(Var, Lit)]) -> (m: VarLitMap)
        ensures
            var_lit_map_contents(m) == pairs_map(s@),
    {
        let mut m = var_lit_map_new();
        let mut i: usize = 0;
        assert(s@.take(0) =~= Seq::<(Var, Lit)>::empty());
        while i < s.len()
            invariant
                i <= s@.len(),
                var_lit_map_contents(m) == pairs_map(s@.take(i as int)),
            decreases s@.len() - i,
        {
            let (v, l) = s[i];
            var_lit_map_insert(&mut m, v.0, l);
            assert(s@.take(i + 1).drop_last() =~= s@.take(i as int));
            assert(s@.take(i + 1).last() == (v, l));
            i = i + 1;
        }
        assert(s@.take(s@.len() as int) =~= s@);
        m
    }

    /// Marks `w` and queues it, where it is not marked yet.
    fn mark_var(mark: &mut CodeSet, queue: &mut Vec<Var>, w: Var, Ghost(m0): Ghost<Set<u32>>, Ghost(qp): Ghost<Seq<Var>>)
        requires
            step_state(code_set_contents(*old(mark)), old(queue)@, m0, qp),
        ensures
            step_state(code_set_contents(*final(mark)), final(queue)@, m0, qp),
            code_set_contents(*final(mark)) == code_set_contents(*old(mark)).insert(w.0),
            code_set_contents(*old(mark)).finite() ==> code_set_contents(*final(mark)).finite(),
    {
        proof {
            vstd::set_lib::lemma_set_insert_finite_iff(code_set_contents(*mark), w.0);
        }
        let ghost q = queue@;
        if !code_set_contains(mark, w.0) {
            code_set_insert(mark, w.0);
            queue.push(w);
            proof {
                let m = code_set_contents(*mark);
                assert(queue@[q.len() as int] == w);
                assert forall|u: u32| #[trigger] m.contains(u) && !m0.contains(u) implies queue@.contains(Var(u)) by {
                    if u == w.0 {
                        assert(queue@[q.len() as int] == Var(u));
                    } else {
                        let t = choose|t: int| 0 <= t < q.len() && q[t] == Var(u);
                        assert(queue@[t] == Var(u));
                    }
                }
                assert forall|i: int| 0 <= i < queue@.len() implies m.contains(#[trigger] queue@[i].0) by {
                    if i < q.len() {
                        assert(queue@[i] == q[i]);
                    }
                }
                assert forall|i: int| qp.len() <= i < queue@.len() implies !m0.contains(#[trigger] queue@[i].0) by {
                    if i < q.len() {
                        assert(queue@[i] == q[i]);
                    }
                }
            }
        } else {
            assert(code_set_contents(*mark).insert(w.0) =~= code_set_contents(*mark));
        }
    }

    /// Follows the edges from the queued variables until nothing new is
    /// marked: the marks then hold exactly what `base` reaches.
    fn close_marks(&self, mark: &mut CodeSet, queue: &mut Vec<Var>, Ghost(base): Ghost<Set<u32>>)
        requires
            base.subset_of(code_set_contents(*old(mark))),
            code_set_contents(*old(mark)).subset_of(reach(self.graph(), base)),
            forall|u: u32| #[trigger] reach(self.graph(), base).contains(u) ==> u < self.deps@.len(),
            code_set_contents(*old(mark)).finite(),
            forall|u: u32|
                #[trigger] code_set_contents(*old(mark)).contains(u) ==> old(queue)@.contains(Var(u)) || closed_at(
                    self.graph(),
                    code_set_contents(*old(mark)),
                    u,
                ),
            forall|i: int| 0 <= i < old(queue)@.len() ==> code_set_contents(*old(mark)).contains(#[trigger] old(queue)@[i].0),
        ensures
            code_set_contents(*final(mark)) == reach(self.graph(), base),
            code_set_contents(*final(mark)).finite(),
            final(queue)@.len() == 0,
    {
        let ghost g = self.graph();
        let ghost r = reach(g, base);
        proof {
            lemma_bounded_set_len(code_set_contents(*mark), self.deps@.len());
        }
        while queue.len() > 0
            invariant
                g == self.graph(),
                r == reach(g, base),
                base.subset_of(code_set_contents(*mark)),
                code_set_contents(*mark).subset_of(r),
                forall|u: u32| #[trigger] r.contains(u) ==> u < self.deps@.len(),
                code_set_contents(*mark).finite(),
                code_set_contents(*mark).len() <= self.deps@.len(),
                forall|u: u32|
                    #[trigger] code_set_contents(*mark).contains(u) ==> queue@.contains(Var(u)) || closed_at(
                        g,
                        code_set_contents(*mark),
                        u,
                    ),
                forall|i: int| 0 <= i < queue@.len() ==> code_set_contents(*mark).contains(#[trigger] queue@[i].0),
            decreases self.deps@.len() - code_set_contents(*mark).len(), queue@.len(),
        {
            let ghost m0 = code_set_contents(*mark);
            let ghost q0 = queue@;
            let v = queue.pop().unwrap();
            let ghost qp = queue@;
            proof {
                assert(q0 == qp.push(v));
                assert(m0.contains(q0[q0.len() - 1].0));
                assert(r.contains(v.0));
                assert forall|i: int| 0 <= i < qp.len() implies m0.contains(#[trigger] qp[i].0) by {
                    assert(qp[i] == q0[i]);
                }
            }
            if let Some(n) = var_lit_map_get(&self.next, v.0) {
                proof {
                    assert(edge(g, v.0, n.spec_var().0));
                    lemma_reach_step(g, base, v.0, n.spec_var().0);
                }
                Self::mark_var(mark, queue, n.var(), Ghost(m0), Ghost(qp));
            }
            if let Some(i) = var_lit_map_get(&self.init, v.0) {
                proof {
                    assert(edge(g, v.0, i.spec_var().0));
                    lemma_reach_step(g, base, v.0, i.spec_var().0);
                }
                Self::mark_var(mark, queue, i.var(), Ghost(m0), Ghost(qp));
            }
            let ds = &self.deps[v.0 as usize];
            assert(g.deps[v.0 as int] == ds@);
            let mut j: usize = 0;
            while j < ds.len()
                invariant
                    g == self.graph(),
                    r == reach(g, base),
                    r.contains(v.0),
                    v.0 < g.deps.len(),
                    g.deps[v.0 as int] == ds@,
                    j <= ds@.len(),
                    step_state(code_set_contents(*mark), queue@, m0, qp),
                    code_set_contents(*mark).subset_of(r),
                    code_set_contents(*mark).finite(),
                    g.next.contains_key(v.0) ==> code_set_contents(*mark).contains(g.next[v.0].spec_var().0),
                    g.init.contains_key(v.0) ==> code_set_contents(*mark).contains(g.init[v.0].spec_var().0),
                    forall|k: int| 0 <= k < j ==> code_set_contents(*mark).contains(#[trigger] ds@[k].0),
                decreases ds@.len() - j,
            {
                let d = ds[j];
                proof {
                    assert(g.deps[v.0 as int].contains(d));
                    assert(edge(g, v.0, d.0));
                    lemma_reach_step(g, base, v.0, d.0);
                }
                Self::mark_var(mark, queue, d, Ghost(m0), Ghost(qp));
                j = j + 1;
            }
            proof {
                let m2 = code_set_contents(*mark);
                assert forall|w: u32| #[trigger] edge(g, v.0, w) implies m2.contains(w) by {
                    if g.next.contains_key(v.0) && g.next[v.0].spec_var().0 == w {
                    } else if g.init.contains_key(v.0) && g.init[v.0].spec_var().0 == w {
                    } else {
                        let k = choose|k: int| 0 <= k < ds@.len() && ds@[k] == Var(w);
                        assert(m2.contains(ds@[k].0));
                    }
                }
                assert forall|u: u32| #[trigger] m2.contains(u) implies queue@.contains(Var(u)) || closed_at(g, m2, u) by {
                    if u == v.0 {
                    } else if m0.contains(u) {
                        if q0.contains(Var(u)) {
                            let t = choose|t: int| 0 <= t < q0.len() && q0[t] == Var(u);
                            assert(t < q0.len() - 1);
                            assert(qp[t] == Var(u));
                            assert(queue@[t] == Var(u));
                        } else {
                            assert(closed_at(g, m0, u));
                            assert forall|w: u32| #[trigger] edge(g, u, w) implies m2.contains(w) by {
                                assert(m0.contains(w));
                            }
                        }
                    }
                }
                lemma_bounded_set_len(m2, self.deps@.len());
                if m2.len() == m0.len() {
                    vstd::set_lib::lemma_subset_equality(m0, m2);
                    assert(queue@.len() == qp.len()) by {
                        if queue@.len() > qp.len() {
                            assert(!m0.contains(queue@[qp.len() as int].0));
                            assert(m2.contains(queue@[qp.len() as int].0));
                        }
                    }
                } else {
                    vstd::set_lib::lemma_len_subset(m0, m2);
                }
            }
        }
        proof {
            let m = code_set_contents(*mark);
            assert forall|u: u32| #[trigger] m.contains(u) implies closed_at(g, m, u) by {
                assert(!queue@.contains(Var(u)));
            }
            lemma_closed_holds_reach(g, base, m);
            assert(m =~= r);
        }
    }
}

impl Transys {
    /// Marks and queues a root variable.
    fn push_root(mark: &mut CodeSet, queue: &mut Vec<Var>, w: Var)
        requires
            code_set_contents(*old(mark)).finite(),
            forall|u: u32| #[trigger] code_set_contents(*old(mark)).contains(u) ==> old(queue)@.contains(Var(u)),
            forall|i: int| 0 <= i < old(queue)@.len() ==> code_set_contents(*old(mark)).contains(#[trigger] old(queue)@[i].0),
        ensures
            code_set_contents(*final(mark)) == code_set_contents(*old(mark)).insert(w.0),
            code_set_contents(*final(mark)).finite(),
            forall|u: u32| #[trigger] code_set_contents(*final(mark)).contains(u) ==> final(queue)@.contains(Var(u)),
            forall|i: int| 0 <= i < final(queue)@.len() ==> code_set_contents(*final(mark)).contains(#[trigger] final(queue)@[i].0),
    {
        proof {
            vstd::set_lib::lemma_set_insert_finite_iff(code_set_contents(*mark), w.0);
        }
        let ghost q = queue@;
        if !code_set_contains(mark, w.0) {
            code_set_insert(mark, w.0);
            queue.push(w);
            proof {
                let m = code_set_contents(*mark);
                assert forall|u: u32| #[trigger] m.contains(u) implies queue@.contains(Var(u)) by {
                    if u == w.0 {
                        assert(queue@[q.len() as int] == Var(u));
                    } else {
                        let t = choose|t: int| 0 <= t < q.len() && q[t] == Var(u);
                        assert(queue@[t] == Var(u));
                    }
                }
                assert forall|i: int| 0 <= i < queue@.len() implies m.contains(#[trigger] queue@[i].0) by {
                    if i < q.len() {
                        assert(queue@[i] == q[i]);
                    }
                }
            }
        } else {
            assert(code_set_contents(*mark).insert(w.0) =~= code_set_contents(*mark));
        }
    }

    /// Marks and queues the variables of the literals of `s`.
    fn push_root_lits(mark: &mut CodeSet, queue: &mut Vec<Var>, s: &LitVec)
        requires
            code_set_contents(*old(mark)).finite(),
            forall|u: u32| #[trigger] code_set_contents(*old(mark)).contains(u) ==> old(queue)@.contains(Var(u)),
            forall|i: int| 0 <= i < old(queue)@.len() ==> code_set_contents(*old(mark)).contains(#[trigger] old(queue)@[i].0),
        ensures
            code_set_contents(*final(mark)) == code_set_contents(*old(mark)).union(lits_vars(s@)),
            code_set_contents(*final(mark)).finite(),
            forall|u: u32| #[trigger] code_set_contents(*final(mark)).contains(u) ==> final(queue)@.contains(Var(u)),
            forall|i: int| 0 <= i < final(queue)@.len() ==> code_set_contents(*final(mark)).contains(#[trigger] final(queue)@[i].0),
    {
        let ghost m0 = code_set_contents(*mark);
        let mut k: usize = 0;
        assert(lits_vars(s@.take(0)) =~= Set::<u32>::empty());
        assert(m0.union(Set::<u32>::empty()) =~= m0);
        while k < s.len()
            invariant
                k <= s@.len(),
                code_set_contents(*mark) == m0.union(lits_vars(s@.take(k as int))),
                code_set_contents(*mark).finite(),
                forall|u: u32| #[trigger] code_set_contents(*mark).contains(u) ==> queue@.contains(Var(u)),
                forall|i: int| 0 <= i < queue@.len() ==> code_set_contents(*mark).contains(#[trigger] queue@[i].0),
            decreases s@.len() - k,
        {
            let l = s.get(k);
            Self::push_root(mark, queue, l.var());
            proof {
                let t1 = s@.take(k + 1);
                let t0 = s@.take(k as int);
                assert(t1[k as int] == l);
                assert forall|x: u32| #[trigger] code_set_contents(*mark).contains(x) == m0.union(lits_vars(t1)).contains(x) by {
                    if x == l.spec_var().0 {
                        assert(t1[k as int].spec_var().0 == x);
                        assert(lits_vars(t1).contains(x));
                    } else if lits_vars(t0).contains(x) {
                        let i = choose|i: int| 0 <= i < t0.len() && #[trigger] t0[i].spec_var().0 == x;
                        assert(t1[i] == t0[i]);
                        assert(lits_vars(t1).contains(x));
                    }
                    if lits_vars(t1).contains(x) {
                        let i = choose|i: int| 0 <= i < t1.len() && #[trigger] t1[i].spec_var().0 == x;
                        if i < k {
                            assert(t0[i] == t1[i]);
                            assert(lits_vars(t0).contains(x));
                        }
                    }
                }
                assert(code_set_contents(*mark) =~= m0.union(lits_vars(t1)));
            }
            k = k + 1;
        }
        assert(s@.take(s@.len() as int) =~= s@);
    }

    /// Marks and queues the variables of `s`.
    fn push_root_vars(mark: &mut CodeSet, queue: &mut Vec<Var>, s: &Vec<Var>)
        requires
            code_set_contents(*old(mark)).finite(),
            forall|u: u32| #[trigger] code_set_contents(*old(mark)).contains(u) ==> old(queue)@.contains(Var(u)),
            forall|i: int| 0 <= i < old(queue)@.len() ==> code_set_contents(*old(mark)).contains(#[trigger] old(queue)@[i].0),
        ensures
            code_set_contents(*final(mark)) == code_set_contents(*old(mark)).union(vars_set(s@)),
            code_set_contents(*final(mark)).finite(),
            forall|u: u32| #[trigger] code_set_contents(*final(mark)).contains(u) ==> final(queue)@.contains(Var(u)),
            forall|i: int| 0 <= i < final(queue)@.len() ==> code_set_contents(*final(mark)).contains(#[trigger] final(queue)@[i].0),
    {
        let ghost m0 = code_set_contents(*mark);
        let mut k: usize = 0;
        assert(vars_set(s@.take(0)) =~= Set::<u32>::empty());
        assert(m0.union(Set::<u32>::empty()) =~= m0);
        while k < s.len()
            invariant
                k <= s@.len(),
                code_set_contents(*mark) == m0.union(vars_set(s@.take(k as int))),
                code_set_contents(*mark).finite(),
                forall|u: u32| #[trigger] code_set_contents(*mark).contains(u) ==> queue@.contains(Var(u)),
                forall|i: int| 0 <= i < queue@.len() ==> code_set_contents(*mark).contains(#[trigger] queue@[i].0),
            decreases s@.len() - k,
        {
            let v = s[k];
            Self::push_root(mark, queue, v);
            proof {
                let t1 = s@.take(k + 1);
                let t0 = s@.take(k as int);
                assert(t1[k as int] == v);
                assert forall|x: u32| #[trigger] code_set_contents(*mark).contains(x) == m0.union(vars_set(t1)).contains(x) by {
                    if x == v.0 {
                        assert(t1[k as int].0 == x);
                        assert(vars_set(t1).contains(x));
                    } else if vars_set(t0).contains(x) {
                        let i = choose|i: int| 0 <= i < t0.len() && #[trigger] t0[i].0 == x;
                        assert(t1[i] == t0[i]);
                        assert(vars_set(t1).contains(x));
                    }
                    if vars_set(t1).contains(x) {
                        let i = choose|i: int| 0 <= i < t1.len() && #[trigger] t1[i].0 == x;
                        if i < k {
                            assert(t0[i] == t1[i]);
                            assert(vars_set(t0).contains(x));
                        }
                    }
                }
                assert(code_set_contents(*mark) =~= m0.union(vars_set(t1)));
            }
            k = k + 1;
        }
        assert(s@.take(s@.len() as int) =~= s@);
    }

    /// The variables of `s` that are marked, in order.
    fn keep_vars(s: &Vec<Var>, mark: &CodeSet) -> (r: Vec<Var>)
        ensures
            r@ == keep_marked(s@, code_set_contents(*mark)),
    {
        let mut r: Vec<Var> = Vec::new();
        let mut k: usize = 0;
        while k < s.len()
            invariant
                k <= s@.len(),
                r@ == keep_marked(s@.take(k as int), code_set_contents(*mark)),
            decreases s@.len() - k,
        {
            let v = s[k];
            assert(s@.take(k + 1).drop_last() =~= s@.take(k as int));
            assert(s@.take(k + 1).last() == v);
            if code_set_contains(mark, v.0) {
                r.push(v);
            }
            k = k + 1;
        }
        assert(s@.take(s@.len() as int) =~= s@);
        r
    }

    /// Drops the next-state and initial-value literals of the unmarked
    /// variables of `s`.
    fn drop_unmarked(&mut self, s: &Vec<Var>, mark: &CodeSet)
        ensures
            final(self).graph().next == old(self).graph().next.remove_keys(
                Set::new(|x: u32| vars_set(s@).contains(x) && !code_set_contents(*mark).contains(x)),
            ),
            final(self).graph().init == old(self).graph().init.remove_keys(
                Set::new(|x: u32| vars_set(s@).contains(x) && !code_set_contents(*mark).contains(x)),
            ),
            final(self).input@ == old(self).input@,
            final(self).latch@ == old(self).latch@,
            final(self).deps@ == old(self).deps@,
            final(self).bad@ == old(self).bad@,
            final(self).constraint@ == old(self).constraint@,
            final(self).justice@ == old(self).justice@,
    {
        let ghost m = code_set_contents(*mark);
        let ghost n0 = old(self).graph().next;
        let ghost i0 = old(self).graph().init;
        let mut k: usize = 0;
        assert(n0.remove_keys(Set::new(|x: u32| vars_set(s@.take(0)).contains(x) && !m.contains(x))) =~= n0);
        assert(i0.remove_keys(Set::new(|x: u32| vars_set(s@.take(0)).contains(x) && !m.contains(x))) =~= i0);
        while k < s.len()
            invariant
                k <= s@.len(),
                m == code_set_contents(*mark),
                n0 == old(self).graph().next,
                i0 == old(self).graph().init,
                self.graph().next == n0.remove_keys(Set::new(|x: u32| vars_set(s@.take(k as int)).contains(x) && !m.contains(x))),
                self.graph().init == i0.remove_keys(Set::new(|x: u32| vars_set(s@.take(k as int)).contains(x) && !m.contains(x))),
                self.input@ == old(self).input@,
                self.latch@ == old(self).latch@,
                self.deps@ == old(self).deps@,
                self.bad@ == old(self).bad@,
                self.constraint@ == old(self).constraint@,
                self.justice@ == old(self).justice@,
            decreases s@.len() - k,
        {
            let v = s[k];
            let ghost t0 = s@.take(k as int);
            let ghost t1 = s@.take(k + 1);
            let ghost a = Set::new(|x: u32| vars_set(t0).contains(x) && !m.contains(x));
            let ghost b = Set::new(|x: u32| vars_set(t1).contains(x) && !m.contains(x));
            proof {
                assert(t1[k as int] == v);
                assert forall|x: u32| #[trigger] vars_set(t1).contains(x) == (vars_set(t0).contains(x) || x == v.0) by {
                    if x == v.0 {
                        assert(t1[k as int].0 == x);
                    } else if vars_set(t0).contains(x) {
                        let i = choose|i: int| 0 <= i < t0.len() && #[trigger] t0[i].0 == x;
                        assert(t1[i] == t0[i]);
                    }
                    if vars_set(t1).contains(x) {
                        let i = choose|i: int| 0 <= i < t1.len() && #[trigger] t1[i].0 == x;
                        if i < k {
                            assert(t0[i] == t1[i]);
                        }
                    }
                }
            }
            if !code_set_contains(mark, v.0) {
                var_lit_map_remove(&mut self.init, v.0);
                var_lit_map_remove(&mut self.next, v.0);
                assert forall|x: u32| #[trigger] b.contains(x) == a.insert(v.0).contains(x) by {
                    assert(vars_set(t1).contains(x) == (vars_set(t0).contains(x) || x == v.0));
                }
                assert(b =~= a.insert(v.0));
                assert(self.graph().next =~= n0.remove_keys(b));
                assert(self.graph().init =~= i0.remove_keys(b));
            } else {
                assert forall|x: u32| #[trigger] b.contains(x) == a.contains(x) by {
                    assert(vars_set(t1).contains(x) == (vars_set(t0).contains(x) || x == v.0));
                }
                assert(b =~= a);
            }
            k = k + 1;
        }
        assert(s@.take(s@.len() as int) =~= s@);
    }

    /// Adds, for each latch in turn that is marked, the variable of its
    /// equivalence predicate.
    #[verifier::rlimit(60)]
    fn add_predicates(
        &self,
        mark: &mut CodeSet,
        queue: &mut Vec<Var>,
        relation: &RelationData,
        names: &Var2Name,
        Ghost(roots): Ghost<Set<u32>>,
    )
        requires
            code_set_contents(*old(mark)) == reach(self.graph(), roots),
            code_set_contents(*old(mark)).finite(),
            old(queue)@.len() == 0,
            forall|j: int|
                #![trigger self.latch@[j]]
                0 <= j < self.latch@.len() && pred_fold(relation, names, reach(self.graph(), roots), self.latch@.take(j)).contains(
                    self.latch@[j].0,
                ) ==> var_has_equiv_row(relation, names, self.latch@[j]),
        ensures
            code_set_contents(*final(mark)) == pred_fold(relation, names, reach(self.graph(), roots), self.latch@),
            code_set_contents(*final(mark)).finite(),
            forall|u: u32|
                #[trigger] code_set_contents(*final(mark)).contains(u) ==> final(queue)@.contains(Var(u)) || closed_at(
                    self.graph(),
                    code_set_contents(*final(mark)),
                    u,
                ),
            forall|i: int| 0 <= i < final(queue)@.len() ==> code_set_contents(*final(mark)).contains(#[trigger] final(queue)@[i].0),
    {
        let ghost g = self.graph();
        let ghost m1 = reach(g, roots);
        proof {
            assert forall|u: u32| #[trigger] m1.contains(u) implies closed_at(g, m1, u) by {
                assert forall|w: u32| #[trigger] edge(g, u, w) implies m1.contains(w) by {
                    lemma_reach_step(g, roots, u, w);
                }
            }
        }
        let mut k: usize = 0;
        assert(self.latch@.take(0) =~= Seq::<Var>::empty());
        while k < self.latch.len()
            invariant
                g == self.graph(),
                m1 == reach(g, roots),
                k <= self.latch@.len(),
                code_set_contents(*mark) == pred_fold(relation, names, m1, self.latch@.take(k as int)),
                code_set_contents(*mark).finite(),
                m1.subset_of(code_set_contents(*mark)),
                forall|u: u32| #[trigger] code_set_contents(*mark).contains(u) && !m1.contains(u) ==> queue@.contains(Var(u)),
                forall|i: int| 0 <= i < queue@.len() ==> code_set_contents(*mark).contains(#[trigger] queue@[i].0),
                forall|j: int|
                    #![trigger self.latch@[j]]
                    0 <= j < self.latch@.len() && pred_fold(relation, names, m1, self.latch@.take(j)).contains(
                        self.latch@[j].0,
                    ) ==> var_has_equiv_row(relation, names, self.latch@[j]),
            decreases self.latch@.len() - k,
        {
            let v = self.latch[k];
            proof {
                assert(self.latch@.take(k + 1).drop_last() =~= self.latch@.take(k as int));
                assert(self.latch@.take(k + 1).last() == v);
            }
            if code_set_contains(mark, v.0) {
                assert(var_has_equiv_row(relation, names, self.latch@[k as int]));
                if let Some(pr) = relation.get_equiv_predicate_new(names, v.0 as usize) {
                    let pv = Var::new(pr);
                    let ghost mb = code_set_contents(*mark);
                    let ghost qb = queue@;
                    proof {
                        vstd::set_lib::lemma_set_insert_finite_iff(mb, pv.0);
                    }
                    if !code_set_contains(mark, pv.0) {
                        code_set_insert(mark, pv.0);
                        queue.push(pv);
                        proof {
                            let m = code_set_contents(*mark);
                            assert forall|u: u32| #[trigger] m.contains(u) && !m1.contains(u) implies queue@.contains(Var(u)) by {
                                if u == pv.0 {
                                    assert(queue@[qb.len() as int] == Var(u));
                                } else {
                                    let t = choose|t: int| 0 <= t < qb.len() && qb[t] == Var(u);
                                    assert(queue@[t] == Var(u));
                                }
                            }
                            assert forall|i: int| 0 <= i < queue@.len() implies m.contains(#[trigger] queue@[i].0) by {
                                if i < qb.len() {
                                    assert(queue@[i] == qb[i]);
                                }
                            }
                        }
                    } else {
                        assert(mb.insert(pv.0) =~= mb);
                    }
                }
            }
            k = k + 1;
        }
        proof {
            assert(self.latch@.take(self.latch@.len() as int) =~= self.latch@);
            let m = code_set_contents(*mark);
            assert forall|u: u32| #[trigger] m.contains(u) implies queue@.contains(Var(u)) || closed_at(g, m, u) by {
                if m1.contains(u) {
                    assert forall|w: u32| #[trigger] edge(g, u, w) implies m.contains(w) by {
                        assert(closed_at(g, m1, u));
                    }
                }
            }
        }
        proof {
            assert(self.latch@.take(self.latch@.len() as int) =~= self.latch@);
            let m = code_set_contents(*mark);
            assert forall|u: u32| #[trigger] m.contains(u) implies queue@.contains(Var(u)) || closed_at(g, m, u) by {
                if m1.contains(u) {
                    assert forall|w: u32| #[trigger] edge(g, u, w) implies m.contains(w) by {
                        assert(closed_at(g, m1, u));
                    }
                }
            }
        }
    }

    /// Empties the dependency lists of the unmarked variables from 1 on, and
    /// returns those variables in order.
    fn drop_definitions(&mut self, mark: &CodeSet) -> (deleted: Vec<Var>)
        requires
            old(self).deps@.len() <= 0x1_0000_0000,
        ensures
            deleted@ == unmarked_below(code_set_contents(*mark), old(self).deps@.len() as int),
            final(self).deps@.len() == old(self).deps@.len(),
            forall|t: int|
                0 <= t < old(self).deps@.len() ==> #[trigger] final(self).deps@[t]@ == if 1 <= t && !code_set_contents(
                    *mark,
                ).contains(t as u32) {
                    Seq::<Var>::empty()
                } else {
                    old(self).deps@[t]@
                },
            final(self).graph().next == old(self).graph().next,
            final(self).graph().init == old(self).graph().init,
            final(self).input@ == old(self).input@,
            final(self).latch@ == old(self).latch@,
            final(self).bad@ == old(self).bad@,
            final(self).constraint@ == old(self).constraint@,
            final(self).justice@ == old(self).justice@,
    {
        let ghost mf = code_set_contents(*mark);
        let mut deleted: Vec<Var> = Vec::new();
        let n = self.deps.len();
        if n == 0 {
            return deleted;
        }
        let mut v: usize = 1;
        while v < n
            invariant
                1 <= v <= n,
                n == self.deps@.len(),
                n == old(self).deps@.len(),
                n <= 0x1_0000_0000,
                mf == code_set_contents(*mark),
                deleted@ == unmarked_below(mf, v as int),
                forall|t: int|
                    0 <= t < n ==> #[trigger] self.deps@[t]@ == if 1 <= t < v && !mf.contains(t as u32) {
                        Seq::<Var>::empty()
                    } else {
                        old(self).deps@[t]@
                    },
                self.next == old(self).next,
                self.init == old(self).init,
                self.input@ == old(self).input@,
                self.latch@ == old(self).latch@,
                self.bad@ == old(self).bad@,
                self.constraint@ == old(self).constraint@,
                self.justice@ == old(self).justice@,
            decreases n - v,
        {
            if !code_set_contains(mark, v as u32) {
                deleted.push(Var(v as u32));
                self.deps.set(v, Vec::new());
            }
            v = v + 1;
        }
        deleted
    }

    /// The cone-of-influence reduction (see `coi_marks` for the variables
    /// kept). Inputs and latches that are not kept leave, with their
    /// next-state and initial-value literals; every variable from 1 up to
    /// the largest that is not kept loses its definition (its dependency
    /// list is emptied here) and is returned, in order, for the caller to
    /// drop from the relation and from its restoration map. The variables
    /// kept must be below the number of dependency lists, and every latch
    /// whose predicate is looked up must have an original number with a
    /// row. What it leaves is reduced already: the same variables are kept,
    /// a second reduction may be made, and it changes nothing.
    #[verifier::rlimit(60)]
    pub fn coi_refine(&mut self, relation: &RelationData, names: &Var2Name) -> (deleted: Vec<Var>)
        requires
            coi_refine_ready(old(self), relation, names),
        ensures
            coi_refined(old(self), final(self), old(self).coi_marks(relation, names)),
            deleted@ == unmarked_below(old(self).coi_marks(relation, names), old(self).deps@.len() as int),
            final(self).coi_marks(relation, names) == old(self).coi_marks(relation, names),
            coi_refine_ready(final(self), relation, names),
            coi_refined(final(self), final(self), final(self).coi_marks(relation, names)),
    {
        let ghost g = old(self).graph();
        let ghost roots = old(self).coi_roots();
        let ghost m1 = reach(g, roots);
        let ghost pf = pred_fold(relation, names, m1, old(self).latch@);
        let ghost mf = reach(g, pf);
        proof {
            lemma_pred_fold_grows(relation, names, m1, self.latch@);
            assert forall|x: u32| roots.contains(x) implies m1.contains(x) by {
                lemma_root_reached(g, roots, x);
            }
            lemma_reach_monotone(g, roots, pf);
            assert forall|x: u32| pf.contains(x) implies mf.contains(x) by {
                lemma_root_reached(g, pf, x);
            }
        }
        let mut mark = code_set_new();
        let mut queue: Vec<Var> = Vec::new();
        Self::push_root_lits(&mut mark, &mut queue, &self.constraint);
        Self::push_root_lits(&mut mark, &mut queue, &self.bad);
        Self::push_root_lits(&mut mark, &mut queue, &self.justice);
        if self.justice.len() > 0 {
            Self::push_root_vars(&mut mark, &mut queue, &self.latch);
        }
        proof {
            assert(code_set_contents(mark) =~= roots);
            assert(mf == old(self).coi_marks(relation, names));
            assert forall|u: u32| #[trigger] m1.contains(u) implies u < self.deps@.len() by {
                assert(mf.contains(u));
                assert(old(self).coi_marks(relation, names).contains(u));
            }
        }
        self.close_marks(&mut mark, &mut queue, Ghost(roots));
        proof {
            assert forall|u: u32| #[trigger] m1.contains(u) implies closed_at(g, m1, u) by {
                assert forall|w: u32| #[trigger] edge(g, u, w) implies m1.contains(w) by {
                    lemma_reach_step(g, roots, u, w);
                }
            }
        }
        self.add_predicates(&mut mark, &mut queue, relation, names, Ghost(roots));
        self.close_marks(&mut mark, &mut queue, Ghost(pf));
        let input = self.input.clone();
        let latch = self.latch.clone();
        self.drop_unmarked(&input, &mark);
        self.drop_unmarked(&latch, &mark);
        self.input = Self::keep_vars(&input, &mark);
        self.latch = Self::keep_vars(&latch, &mark);
        let deleted = self.drop_definitions(&mark);
        proof {
            let a = Set::new(|x: u32| vars_set(input@).contains(x) && !mf.contains(x));
            let b = Set::new(|x: u32| vars_set(latch@).contains(x) && !mf.contains(x));
            let gone = Set::new(|x: u32| (vars_set(input@).contains(x) || vars_set(latch@).contains(x)) && !mf.contains(x));
            assert(gone =~= a.union(b));
            assert(old(self).graph().next.remove_keys(a).remove_keys(b) =~= old(self).graph().next.remove_keys(gone));
            assert(old(self).graph().init.remove_keys(a).remove_keys(b) =~= old(self).graph().init.remove_keys(gone));
            assert(coi_refined(old(self), self, old(self).coi_marks(relation, names)));
            lemma_coi_refined_fixed(old(self), self, relation, names);
        }
        deleted
    }
}

/// The variables the reduction keeps include the roots, and everything a
/// kept variable leads to is kept.
pub proof fn lemma_coi_marks_closed(t: &Transys, relation: &RelationData, names: &Var2Name)
    ensures
        t.coi_roots().subset_of(t.coi_marks(relation, names)),
        forall|u: u32, w: u32|
            #![trigger t.coi_marks(relation, names).contains(u), edge(t.graph(), u, w)]
            t.coi_marks(relation, names).contains(u) && edge(t.graph(), u, w) ==> t.coi_marks(relation, names).contains(w),
{
    let g = t.graph();
    let roots = t.coi_roots();
    let m1 = reach(g, roots);
    let pf = pred_fold(relation, names, m1, t.latch@);
    lemma_pred_fold_grows(relation, names, m1, t.latch@);
    assert forall|x: u32| roots.contains(x) implies t.coi_marks(relation, names).contains(x) by {
        lemma_root_reached(g, roots, x);
        lemma_root_reached(g, pf, x);
    }
    assert forall|u: u32, w: u32| t.coi_marks(relation, names).contains(u) && edge(g, u, w) implies t.coi_marks(relation, names).contains(w) by {
        lemma_reach_step(g, pf, u, w);
    }
}

/// Every variable that `keep_marked` keeps is in `m`.
proof fn lemma_keep_marked_in(s: Seq<Var>, m: Set<u32>)
    ensures
        forall|i: int| 0 <= i < keep_marked(s, m).len() ==> m.contains(#[trigger] keep_marked(s, m)[i].0),
    decreases s.len(),
{
    if s.len() > 0 {
        let kp = keep_marked(s.drop_last(), m);
        lemma_keep_marked_in(s.drop_last(), m);
        assert forall|i: int| 0 <= i < keep_marked(s, m).len() implies m.contains(#[trigger] keep_marked(s, m)[i].0) by {
            if i < kp.len() {
                assert(keep_marked(s, m)[i] == kp[i]);
            }
        }
    }
}

/// `keep_marked` keeps a sequence whose variables are all in `m`.
proof fn lemma_keep_marked_all(s: Seq<Var>, m: Set<u32>)
    requires
        forall|i: int| 0 <= i < s.len() ==> m.contains(#[trigger] s[i].0),
    ensures
        keep_marked(s, m) == s,
    decreases s.len(),
{
    if s.len() > 0 {
        let p = s.drop_last();
        assert forall|i: int| 0 <= i < p.len() implies m.contains(#[trigger] p[i].0) by {
            assert(p[i] == s[i]);
        }
        lemma_keep_marked_all(p, m);
        assert(m.contains(s[s.len() - 1].0));
        assert(p.push(s.last()) =~= s);
    }
}

/// Element `k` of what `keep_marked` keeps of `s` is element `k0` of `s`,
/// and what it keeps before it is what it keeps of the first `k0`.
proof fn lemma_keep_marked_index(s: Seq<Var>, m: Set<u32>, k: int) -> (k0: int)
    requires
        0 <= k < keep_marked(s, m).len(),
    ensures
        0 <= k0 < s.len(),
        keep_marked(s, m)[k] == s[k0],
        keep_marked(s, m).take(k) == keep_marked(s.take(k0), m),
    decreases s.len(),
{
    let p = s.drop_last();
    let kp = keep_marked(p, m);
    if m.contains(s.last().0) && k == kp.len() {
        assert(s.take(s.len() - 1) =~= p);
        assert(keep_marked(s, m).take(k) =~= kp);
        s.len() - 1
    } else {
        let k0 = lemma_keep_marked_index(p, m, k);
        assert(p.take(k0) =~= s.take(k0));
        if m.contains(s.last().0) {
            assert(keep_marked(s, m).take(k) =~= kp.take(k));
        }
        k0
    }
}

/// The predicates that a prefix of the latches adds are among those that
/// all of them add.
proof fn lemma_pred_fold_prefix(relation: &RelationData, names: &Var2Name, m: Set<u32>, s: Seq<Var>, j: int)
    requires
        0 <= j <= s.len(),
    ensures
        pred_fold(relation, names, m, s.take(j)).subset_of(pred_fold(relation, names, m, s)),
    decreases s.len(),
{
    if j == s.len() {
        assert(s.take(j) =~= s);
    } else {
        let p = s.drop_last();
        assert(p.take(j) =~= s.take(j));
        lemma_pred_fold_prefix(relation, names, m, p, j);
    }
}

/// Leaving out latches outside `m` changes nothing in what the predicates
/// add, when all that they add stays in `m`.
proof fn lemma_pred_fold_keep_marked(relation: &RelationData, names: &Var2Name, m1: Set<u32>, s: Seq<Var>, m: Set<u32>)
    requires
        pred_fold(relation, names, m1, s).subset_of(m),
    ensures
        pred_fold(relation, names, m1, keep_marked(s, m)) == pred_fold(relation, names, m1, s),
    decreases s.len(),
{
    if s.len() > 0 {
        let p = s.drop_last();
        let v = s.last();
        lemma_pred_fold_prefix(relation, names, m1, s, s.len() - 1);
        assert(s.take(s.len() - 1) =~= p);
        lemma_pred_fold_keep_marked(relation, names, m1, p, m);
        if m.contains(v.0) {
            let ks = keep_marked(s, m);
            assert(ks.drop_last() == keep_marked(p, m));
            assert(ks.last() == v);
        }
    }
}

/// Two graphs reach the same variables from `roots` inside `s`, when `s`
/// holds the roots and is closed in the first, the second has no edge the
/// first lacks, and has every edge of the first from a variable of `s`.
proof fn lemma_reach_same(g: DepGraph, g1: DepGraph, s: Set<u32>, roots: Set<u32>)
    requires
        roots.subset_of(s),
        forall|u: u32| #[trigger] s.contains(u) ==> closed_at(g, s, u),
        forall|u: u32, w: u32| #[trigger] edge(g1, u, w) ==> edge(g, u, w),
        forall|u: u32, w: u32| s.contains(u) && #[trigger] edge(g, u, w) ==> edge(g1, u, w),
    ensures
        reach(g1, roots) == reach(g, roots),
{
    assert forall|w: u32| reach(g1, roots).contains(w) implies reach(g, roots).contains(w) by {
        assert(reaches(g1, roots, w));
        let p = choose|p: Seq<u32>| #[trigger] is_path(g1, p) && roots.contains(p[0]) && p.last() == w;
        assert forall|i: int| 0 <= i < p.len() - 1 implies #[trigger] step(g, p, i) by {
            assert(step(g1, p, i));
        }
        assert(is_path(g, p));
    }
    assert forall|w: u32| reach(g, roots).contains(w) implies reach(g1, roots).contains(w) by {
        assert(reaches(g, roots, w));
        let p = choose|p: Seq<u32>| #[trigger] is_path(g, p) && roots.contains(p[0]) && p.last() == w;
        assert forall|i: int| 0 <= i < p.len() - 1 implies #[trigger] step(g1, p, i) by {
            assert(step(g, p, i));
            lemma_path_inside(g, p, s, i);
        }
        assert(is_path(g1, p));
    }
    assert(reach(g1, roots) =~= reach(g, roots));
}

/// The edges of a reduced system are those of the system it came from, and
/// it has all of them from the variables kept.
proof fn lemma_coi_refined_edges(t0: &Transys, t1: &Transys, m: Set<u32>)
    requires
        coi_refined(t0, t1, m),
    ensures
        forall|u: u32, w: u32| #[trigger] edge(t1.graph(), u, w) ==> edge(t0.graph(), u, w),
        forall|u: u32, w: u32| m.contains(u) && #[trigger] edge(t0.graph(), u, w) ==> edge(t1.graph(), u, w),
{
    let g = t0.graph();
    let g1 = t1.graph();
    let gone = Set::new(
        |x: u32| (vars_set(t0.input@).contains(x) || vars_set(t0.latch@).contains(x)) && !m.contains(x),
    );
    assert forall|u: u32, w: u32| #[trigger] edge(g1, u, w) implies edge(g, u, w) by {
        if u < g1.deps.len() && g1.deps[u as int].contains(Var(w)) {
            assert(t1.deps@[u as int]@ == g1.deps[u as int]);
        }
    }
    assert forall|u: u32, w: u32| m.contains(u) && #[trigger] edge(g, u, w) implies edge(g1, u, w) by {
        assert(!gone.contains(u));
        if u < g.deps.len() && g.deps[u as int].contains(Var(w)) {
            assert(t1.deps@[u as int]@ == t0.deps@[u as int]@);
        }
    }
}

/// The variables a reduction keeps are kept again by a second one.
proof fn lemma_coi_refined_marks(t0: &Transys, t1: &Transys, relation: &RelationData, names: &Var2Name)
    requires
        coi_refined(t0, t1, t0.coi_marks(relation, names)),
    ensures
        t1.coi_marks(relation, names) == t0.coi_marks(relation, names),
        reach(t1.graph(), t1.coi_roots()) == reach(t0.graph(), t0.coi_roots()),
        pred_fold(relation, names, reach(t0.graph(), t0.coi_roots()), t0.latch@).subset_of(t0.coi_marks(relation, names)),
{
    let g = t0.graph();
    let g1 = t1.graph();
    let m = t0.coi_marks(relation, names);
    let roots = t0.coi_roots();
    let m1 = reach(g, roots);
    let pf = pred_fold(relation, names, m1, t0.latch@);
    lemma_coi_marks_closed(t0, relation, names);
    assert forall|u: u32| #[trigger] m.contains(u) implies closed_at(g, m, u) by {
        assert forall|w: u32| #[trigger] edge(g, u, w) implies m.contains(w) by {}
    }
    lemma_coi_refined_edges(t0, t1, m);
    if t0.justice@.len() > 0 {
        assert forall|i: int| 0 <= i < t0.latch@.len() implies m.contains(#[trigger] t0.latch@[i].0) by {
            assert(vars_set(t0.latch@).contains(t0.latch@[i].0));
        }
        lemma_keep_marked_all(t0.latch@, m);
    }
    assert(t1.coi_roots() =~= roots);
    lemma_closed_holds_reach(g, roots, m);
    lemma_reach_same(g, g1, m, roots);
    lemma_pred_fold_grows(relation, names, m1, t0.latch@);
    assert forall|x: u32| pf.contains(x) implies m.contains(x) by {
        lemma_root_reached(g, pf, x);
    }
    lemma_pred_fold_keep_marked(relation, names, m1, t0.latch@, m);
    lemma_reach_same(g, g1, m, pf);
}

/// What a reduction leaves is reduced already: it keeps the same
/// variables, the reduction can be applied to it again, and that leaves it
/// as it is.
proof fn lemma_coi_refined_fixed(t0: &Transys, t1: &Transys, relation: &RelationData, names: &Var2Name)
    requires
        coi_refine_ready(t0, relation, names),
        coi_refined(t0, t1, t0.coi_marks(relation, names)),
    ensures
        t1.coi_marks(relation, names) == t0.coi_marks(relation, names),
        coi_refine_ready(t1, relation, names),
        coi_refined(t1, t1, t1.coi_marks(relation, names)),
{
    let m = t0.coi_marks(relation, names);
    let m1 = reach(t0.graph(), t0.coi_roots());
    lemma_coi_refined_marks(t0, t1, relation, names);
    // The second call may be made.
    assert forall|k: int|
        0 <= k < t1.latch@.len() && pred_fold(relation, names, reach(t1.graph(), t1.coi_roots()), t1.latch@.take(k)).contains(
            #[trigger] t1.latch@[k].0,
        ) implies var_has_equiv_row(relation, names, t1.latch@[k]) by {
        let k0 = lemma_keep_marked_index(t0.latch@, m, k);
        lemma_pred_fold_prefix(relation, names, m1, t0.latch@, k0);
        lemma_pred_fold_keep_marked(relation, names, m1, t0.latch@.take(k0), m);
        assert(t0.latch@[k0] == t1.latch@[k]);
    }
    // It keeps everything.
    lemma_keep_marked_in(t0.latch@, m);
    lemma_keep_marked_in(t0.input@, m);
    lemma_keep_marked_all(t1.input@, m);
    lemma_keep_marked_all(t1.latch@, m);
    let gone1 = Set::new(
        |x: u32| (vars_set(t1.input@).contains(x) || vars_set(t1.latch@).contains(x)) && !m.contains(x),
    );
    assert(gone1 =~= Set::<u32>::empty());
    assert(t1.graph().next.remove_keys(gone1) =~= t1.graph().next);
    assert(t1.graph().init.remove_keys(gone1) =~= t1.graph().init);
    assert forall|v: int| 0 <= v < t1.deps@.len() implies #[trigger] t1.deps@[v]@ == if 1 <= v && !m.contains(v as u32) {
        Seq::<Var>::empty()
    } else {
        t1.deps@[v]@
    } by {
        assert(t1.deps@[v]@ == if 1 <= v && !m.contains(v as u32) { Seq::<Var>::empty() } else { t0.deps@[v]@ });
    }
}

/// The reduction is done in one call: on the system it leaves it keeps every
/// variable, and a second call can be made and changes nothing but what it
/// returns, which is what the first call returned.
pub proof fn lemma_coi_refine_idempotent(
    t0: &Transys,
    t1: &Transys,
    t2: &Transys,
    relation: &RelationData,
    names: &Var2Name,
)
    requires
        coi_refine_ready(t0, relation, names),
        coi_refined(t0, t1, t0.coi_marks(relation, names)),
        coi_refined(t1, t2, t1.coi_marks(relation, names)),
    ensures
        t1.coi_marks(relation, names) == t0.coi_marks(relation, names),
        coi_refine_ready(t1, relation, names),
        unmarked_below(t1.coi_marks(relation, names), t1.deps@.len() as int)
            == unmarked_below(t0.coi_marks(relation, names), t0.deps@.len() as int),
        t2.input@ == t1.input@,
        t2.latch@ == t1.latch@,
        t2.graph().next == t1.graph().next,
        t2.graph().init == t1.graph().init,
        t2.deps@.len() == t1.deps@.len(),
        forall|v: int| 0 <= v < t1.deps@.len() ==> #[trigger] t2.deps@[v]@ == t1.deps@[v]@,
        t2.bad@ == t1.bad@,
        t2.constraint@ == t1.constraint@,
        t2.justice@ == t1.justice@,
{
    lemma_coi_refined_fixed(t0, t1, relation, names);
    let m = t1.coi_marks(relation, names);
    assert forall|v: int| 0 <= v < t1.deps@.len() implies #[trigger] t2.deps@[v]@ == t1.deps@[v]@ by {
        assert(t1.deps@[v]@ == if 1 <= v && !m.contains(v as u32) { Seq::<Var>::empty() } else { t1.deps@[v]@ });
    }
}

/// The variables of the literals of `s`, in order.
pub open spec fn lit_vars_seq(s: Seq<Lit>) -> Seq<Var> {
    s.map_values(|l: Lit| l.spec_var())
}

/// For each latch in turn, the variable of its initial value and that of
/// its next-state literal, where it has them.
pub open spec fn latch_links(latch: Seq<Var>, init: Map<u32, Lit>, next: Map<u32, Lit>) -> Seq<Var>
    decreases latch.len(),
{
    if latch.len() == 0 {
        Seq::empty()
    } else {
        let l = latch.last();
        let a = if init.contains_key(l.0) { seq![init[l.0].spec_var()] } else { Seq::empty() };
        let b = if next.contains_key(l.0) { seq![next[l.0].spec_var()] } else { Seq::empty() };
        latch_links(latch.drop_last(), init, next) + a + b
    }
}

/// The literal `l` with its variable renamed by `dm`.
pub open spec fn map_lit(dm: Map<u32, u32>, l: Lit) -> Lit {
    Lit::spec_new(Var(dm[l.spec_var().0]), l.spec_polarity())
}

/// `dm` renames every variable of `s` to one below `0x8000_0000`.
pub open spec fn renames_lits(dm: Map<u32, u32>, s: Seq<Lit>) -> bool {
    forall|i: int| 0 <= i < s.len() ==> dm.contains_key(#[trigger] s[i].spec_var().0) && dm[s[i].spec_var().0] < 0x8000_0000
}

/// `dm` renames every variable of `s`.
pub open spec fn renames_vars(dm: Map<u32, u32>, s: Seq<Var>) -> bool {
    forall|i: int| 0 <= i < s.len() ==> dm.contains_key(#[trigger] s[i].0)
}

/// `dm` renames every key of `m` and every variable of its literals, the
/// latter to variables below `0x8000_0000`.
pub open spec fn renames_map(dm: Map<u32, u32>, m: Map<u32, Lit>) -> bool {
    forall|v: u32|
        #[trigger] m.contains_key(v) ==> dm.contains_key(v) && dm.contains_key(m[v].spec_var().0) && dm[m[v].spec_var().0]
            < 0x8000_0000
}

/// `r` is `m` with keys and literals renamed by `dm`: its keys are the
/// renamed keys of `m`, and each holds the renamed literal of a key renamed
/// to it.
pub open spec fn renamed_map(r: Map<u32, Lit>, m: Map<u32, Lit>, dm: Map<u32, u32>) -> bool {
    &&& forall|v: u32| #[trigger] m.contains_key(v) ==> r.contains_key(dm[v])
    &&& forall|k: u32|
        #[trigger] r.contains_key(k) ==> exists|v: u32| m.contains_key(v) && dm[v] == k && r[k] == map_lit(dm, m[v])
}

fn lit_vars_into(out: &mut Vec<Var>, s: &LitVec)
    ensures
        final(out)@ == old(out)@ + lit_vars_seq(s@),
{
    let mut k: usize = 0;
    while k < s.len()
        invariant
            k <= s@.len(),
            out@ == old(out)@ + lit_vars_seq(s@.take(k as int)),
        decreases s@.len() - k,
    {
        out.push(s.get(k).var());
        assert(lit_vars_seq(s@.take(k + 1)) =~= lit_vars_seq(s@.take(k as int)).push(s@[k as int].spec_var()));
        k = k + 1;
    }
    assert(s@.take(s@.len() as int) =~= s@);
}

fn vars_into(out: &mut Vec<Var>, s: &Vec<Var>)
    ensures
        final(out)@ == old(out)@ + s@,
{
    let mut k: usize = 0;
    while k < s.len()
        invariant
            k <= s@.len(),
            out@ == old(out)@ + s@.take(k as int),
        decreases s@.len() - k,
    {
        out.push(s[k]);
        assert(s@.take(k + 1) =~= s@.take(k as int).push(s@[k as int]));
        k = k + 1;
    }
    assert(s@.take(s@.len() as int) =~= s@);
}

fn rename_lits(s: &LitVec, dm: &BTreeMap<u32, u32>) -> (r: LitVec)
    requires
        renames_lits(dm@, s@),
    ensures
        r@ == s@.map_values(|l: Lit| map_lit(dm@, l)),
{
    let mut r = LitVec::new();
    let mut k: usize = 0;
    while k < s.len()
        invariant
            k <= s@.len(),
            renames_lits(dm@, s@),
            r@ == s@.take(k as int).map_values(|l: Lit| map_lit(dm@, l)),
        decreases s@.len() - k,
    {
        let l = s.get(k);
        assert(dm@.contains_key(s@[k as int].spec_var().0));
        let v = *dm.get(&l.var().0).unwrap();
        r.push(Lit::new(Var(v), l.polarity()));
        assert(s@.take(k + 1).map_values(|l: Lit| map_lit(dm@, l)) =~= s@.take(k as int).map_values(
            |l: Lit| map_lit(dm@, l),
        ).push(map_lit(dm@, l)));
        k = k + 1;
    }
    assert(s@.take(s@.len() as int) =~= s@);
    r
}

fn rename_vars(s: &Vec<Var>, dm: &BTreeMap<u32, u32>) -> (r: Vec<Var>)
    requires
        renames_vars(dm@, s@),
    ensures
        r@ == s@.map_values(|v: Var| Var(dm@[v.0])),
{
    let mut r: Vec<Var> = Vec::new();
    let mut k: usize = 0;
    while k < s.len()
        invariant
            k <= s@.len(),
            renames_vars(dm@, s@),
            r@ == s@.take(k as int).map_values(|v: Var| Var(dm@[v.0])),
        decreases s@.len() - k,
    {
        let v = s[k];
        assert(dm@.contains_key(s@[k as int].0));
        let w = *dm.get(&v.0).unwrap();
        r.push(Var(w));
        assert(s@.take(k + 1).map_values(|v: Var| Var(dm@[v.0])) =~= s@.take(k as int).map_values(
            |v: Var| Var(dm@[v.0]),
        ).push(Var(dm@[v.0])));
        k = k + 1;
    }
    assert(s@.take(s@.len() as int) =~= s@);
    r
}

fn rename_map(m: &VarLitMap, dm: &BTreeMap<u32, u32>) -> (r: VarLitMap)
    requires
        renames_map(dm@, var_lit_map_contents(*m)),
    ensures
        renamed_map(var_lit_map_contents(r), var_lit_map_contents(*m), dm@),
{
    let ghost mm = var_lit_map_contents(*m);
    let entries = var_lit_map_entries(m);
    let ghost es = entries@;
    let mut r = var_lit_map_new();
    let mut k: usize = 0;
    while k < entries.len()
        invariant
            k <= es.len(),
            es == entries@,
            mm == var_lit_map_contents(*m),
            renames_map(dm@, mm),
            forall|i: int| 0 <= i < es.len() ==> mm.contains_key(#[trigger] es[i].0) && es[i].1 == mm[es[i].0],
            forall|i: int| 0 <= i < k ==> var_lit_map_contents(r).contains_key(dm@[(#[trigger] es[i]).0]),
            forall|kk: u32|
                #[trigger] var_lit_map_contents(r).contains_key(kk) ==> exists|v: u32|
                    mm.contains_key(v) && dm@[v] == kk && var_lit_map_contents(r)[kk] == map_lit(dm@, mm[v]),
        decreases es.len() - k,
    {
        let (v, l) = entries[k];
        assert(mm.contains_key(es[k as int].0));
        let nv = *dm.get(&v).unwrap();
        let w = *dm.get(&l.var().0).unwrap();
        let nl = Lit::new(Var(w), l.polarity());
        let ghost before = var_lit_map_contents(r);
        var_lit_map_insert(&mut r, nv, nl);
        proof {
            let after = var_lit_map_contents(r);
            assert forall|kk: u32| #[trigger] after.contains_key(kk) implies exists|x: u32|
                mm.contains_key(x) && dm@[x] == kk && after[kk] == map_lit(dm@, mm[x]) by {
                if kk == nv {
                    assert(mm.contains_key(v) && dm@[v] == kk && after[kk] == map_lit(dm@, mm[v]));
                } else {
                    assert(before.contains_key(kk));
                    let x = choose|x: u32| mm.contains_key(x) && dm@[x] == kk && before[kk] == map_lit(dm@, mm[x]);
                    assert(after[kk] == before[kk]);
                }
            }
        }
        k = k + 1;
    }
    proof {
        let rr = var_lit_map_contents(r);
        let keys = es.map_values(|e: (u32, Lit)| e.0);
        assert(keys.to_set() == mm.dom());
        assert forall|v: u32| #[trigger] mm.contains_key(v) implies rr.contains_key(dm@[v]) by {
            assert(keys.to_set().contains(v));
            let t = choose|t: int| 0 <= t < keys.len() && keys[t] == v;
            assert(keys[t] == es[t].0);
        }
    }
    r
}

impl Transys {
    /// The variables a renumbering of the relation must keep, in order: the
    /// constant, the variables of the constraint, bad and justice literals,
    /// the inputs, the latches, and for each latch the variables of its
    /// initial value and next-state literal.
    pub open spec fn rearrange_domain_spec(&self) -> Seq<Var> {
        seq![Var(0)] + lit_vars_seq(self.constraint@) + lit_vars_seq(self.bad@) + lit_vars_seq(self.justice@)
            + self.input@ + self.latch@ + latch_links(self.latch@, self.graph().init, self.graph().next)
    }

    /// The variables the simplification of the relation must leave alone,
    /// in order: as `rearrange_domain_spec`, with the bad literals before
    /// the constraints.
    pub open spec fn simplify_frozens_spec(&self) -> Seq<Var> {
        seq![Var(0)] + lit_vars_seq(self.bad@) + lit_vars_seq(self.constraint@) + lit_vars_seq(self.justice@)
            + self.input@ + self.latch@ + latch_links(self.latch@, self.graph().init, self.graph().next)
    }

    fn latch_links_into(&self, out: &mut Vec<Var>)
        ensures
            final(out)@ == old(out)@ + latch_links(self.latch@, self.graph().init, self.graph().next),
    {
        let g = Ghost(self.graph());
        let mut k: usize = 0;
        assert(self.latch@.take(0) =~= Seq::<Var>::empty());
        while k < self.latch.len()
            invariant
                k <= self.latch@.len(),
                g@ == self.graph(),
                out@ == old(out)@ + latch_links(self.latch@.take(k as int), g@.init, g@.next),
            decreases self.latch@.len() - k,
        {
            let l = self.latch[k];
            let ghost before = out@;
            if let Some(i) = var_lit_map_get(&self.init, l.0) {
                out.push(i.var());
            }
            if let Some(n) = var_lit_map_get(&self.next, l.0) {
                out.push(n.var());
            }
            proof {
                let t = self.latch@.take(k + 1);
                assert(t.drop_last() =~= self.latch@.take(k as int));
                assert(t.last() == l);
                let a = if g@.init.contains_key(l.0) { seq![g@.init[l.0].spec_var()] } else { Seq::<Var>::empty() };
                let b = if g@.next.contains_key(l.0) { seq![g@.next[l.0].spec_var()] } else { Seq::<Var>::empty() };
                assert(out@ =~= before + a + b);
                assert(out@ =~= old(out)@ + latch_links(t, g@.init, g@.next));
            }
            k = k + 1;
        }
        assert(self.latch@.take(self.latch@.len() as int) =~= self.latch@);
    }

    /// The variables a renumbering of the relation must keep (see
    /// `rearrange_domain_spec`).
    pub fn rearrange_domain(&self) -> (r: Vec<Var>)
        ensures
            r@ == self.rearrange_domain_spec(),
    {
        let mut r: Vec<Var> = Vec::new();
        r.push(Var(0));
        lit_vars_into(&mut r, &self.constraint);
        lit_vars_into(&mut r, &self.bad);
        lit_vars_into(&mut r, &self.justice);
        vars_into(&mut r, &self.input);
        vars_into(&mut r, &self.latch);
        self.latch_links_into(&mut r);
        r
    }

    /// The variables the simplification of the relation must leave alone
    /// (see `simplify_frozens_spec`).
    pub fn simplify_frozens(&self) -> (r: Vec<Var>)
        ensures
            r@ == self.simplify_frozens_spec(),
    {
        let mut r: Vec<Var> = Vec::new();
        r.push(Var(0));
        lit_vars_into(&mut r, &self.bad);
        lit_vars_into(&mut r, &self.constraint);
        lit_vars_into(&mut r, &self.justice);
        vars_into(&mut r, &self.input);
        vars_into(&mut r, &self.latch);
        self.latch_links_into(&mut r);
        r
    }

    /// Renames every variable by `dm`, the renumbering that the relation
    /// went through, and takes `deps`, the dependency lists of the
    /// renumbered relation. Every variable of the system must be renamed,
    /// and the variables of literals to variables below `0x8000_0000`.
    pub fn apply_rearrange(&mut self, dm: &BTreeMap<u32, u32>, deps: Vec<Vec<Var>>)
        requires
            renames_vars(dm@, old(self).input@),
            renames_vars(dm@, old(self).latch@),
            renames_map(dm@, old(self).graph().init),
            renames_map(dm@, old(self).graph().next),
            renames_lits(dm@, old(self).bad@),
            renames_lits(dm@, old(self).constraint@),
            renames_lits(dm@, old(self).justice@),
        ensures
            final(self).input@ == old(self).input@.map_values(|v: Var| Var(dm@[v.0])),
            final(self).latch@ == old(self).latch@.map_values(|v: Var| Var(dm@[v.0])),
            renamed_map(final(self).graph().init, old(self).graph().init, dm@),
            renamed_map(final(self).graph().next, old(self).graph().next, dm@),
            final(self).bad@ == old(self).bad@.map_values(|l: Lit| map_lit(dm@, l)),
            final(self).constraint@ == old(self).constraint@.map_values(|l: Lit| map_lit(dm@, l)),
            final(self).justice@ == old(self).justice@.map_values(|l: Lit| map_lit(dm@, l)),
            final(self).deps@ == deps@,
    {
        let input = rename_vars(&self.input, dm);
        let latch = rename_vars(&self.latch, dm);
        let init = rename_map(&self.init, dm);
        let next = rename_map(&self.next, dm);
        let bad = rename_lits(&self.bad, dm);
        let constraint = rename_lits(&self.constraint, dm);
        let justice = rename_lits(&self.justice, dm);
        *self = Transys { input, latch, next, init, bad, constraint, justice, deps };
    }
}

proof fn lemma_pred_fold_grows(relation: &RelationData, names: &Var2Name, m: Set<u32>, latches: Seq<Var>)
    ensures
        m.subset_of(pred_fold(relation, names, m, latches)),
    decreases latches.len(),
{
    if latches.len() > 0 {
        lemma_pred_fold_grows(relation, names, m, latches.drop_last());
    }
}

} // verus!
