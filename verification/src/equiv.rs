//! Generalization of a cube by equivalence predicates. Literals of the cube
//! are grouped by the equivalence predicate of their variable; a group whose
//! literals meet their symmetric partners in the cube may be replaced by the
//! predicate's literal. Each candidate cube has to be checked by the
//! engine's solver, so the searches are state machines: the caller asks for
//! the next candidate, checks it, and hands back the inductive core where
//! the check succeeded.
use vstd::prelude::*;
use std::collections::VecDeque;
use crate::ghash::{
    mask_set_contains, mask_set_contents, mask_set_insert, mask_set_new, pred_map_contents,
    pred_map_entries, pred_map_new, pred_map_push, code_set_contains, code_set_contents,
    code_set_insert, code_set_new, MaskSet,
};
use crate::lit::{Lit, Var};
use crate::litvec::{slice_contains, LitVec};
use crate::relation::RelationData;
use crate::var2name::Var2Name;

verus! {

/// The positive literal of predicate variable `p`.
pub open spec fn pred_lit(p: usize) -> Lit {
    Lit::spec_new(Var(p as u32), true)
}

/// The equivalence predicate of the variable of `l`.
pub open spec fn equiv_pred(relation: &RelationData, names: &Var2Name, l: Lit) -> Option<usize> {
    RelationData::predicate_new_spec(relation.equiv_map@, names, l.spec_var().0 as usize)
}

/// The variable of `l` has an original number, and that number a row of
/// equivalence predicates.
pub open spec fn has_equiv_row(relation: &RelationData, names: &Var2Name, l: Lit) -> bool {
    &&& names.origin_map().contains_key(l.spec_var().0 as usize)
    &&& relation.equiv_map@.contains_key(names.origin_map()[l.spec_var().0 as usize] as i64)
}

/// The partner that `l` is matched with: the negated positive literal of
/// the symmetric variable for a positive `l`, that positive literal itself
/// for a negative `l`.
pub open spec fn sym_target(relation: &RelationData, names: &Var2Name, l: Lit) -> Option<Lit> {
    match relation.sym_var_new_spec(names, l.spec_var().0 as usize) {
        Some(sv) => {
            let s = Lit::spec_new(Var(sv as u32), true);
            Some(if l.spec_polarity() { s.spec_not() } else { s })
        },
        None => None,
    }
}

/// Whether the partner of `l` is in `c`.
pub open spec fn paired(relation: &RelationData, names: &Var2Name, l: Lit, c: Seq<Lit>) -> bool {
    match sym_target(relation, names, l) {
        Some(t) => c.contains(t),
        None => false,
    }
}

/// The literals of `s` that have an equivalence predicate, by predicate, in
/// order; with `paired_only`, only those whose partner is in `c`.
pub open spec fn pred_groups_spec(
    relation: &RelationData,
    names: &Var2Name,
    s: Seq<Lit>,
    c: Seq<Lit>,
    paired_only: bool,
) -> Map<usize, Seq<Lit>>
    decreases s.len(),
{
    if s.len() == 0 {
        Map::empty()
    } else {
        let m = pred_groups_spec(relation, names, s.drop_last(), c, paired_only);
        let l = s.last();
        match equiv_pred(relation, names, l) {
            Some(p) => if !paired_only || paired(relation, names, l, c) {
                m.insert(p, if m.contains_key(p) { m[p].push(l) } else { seq![l] })
            } else {
                m
            },
            None => m,
        }
    }
}

pub open spec fn entries_view(r: Seq<(usize, Vec<Lit>)>) -> Seq<(usize, Seq<Lit>)> {
    r.map_values(|e: (usize, Vec<Lit>)| (e.0, e.1@))
}

/// `gs` lists every entry of the finite map `m` once.
pub open spec fn lists_map(gs: Seq<(usize, Seq<Lit>)>, m: Map<usize, Seq<Lit>>) -> bool {
    &&& m.dom().finite()
    &&& gs.len() == m.dom().len()
    &&& forall|i: int| 0 <= i < gs.len() ==> m.contains_key(#[trigger] gs[i].0) && gs[i].1 == m[gs[i].0]
    &&& forall|i: int, j: int| 0 <= i < j < gs.len() ==> #[trigger] gs[i].0 != #[trigger] gs[j].0
}

proof fn lemma_pred_groups_facts(
    relation: &RelationData,
    names: &Var2Name,
    s: Seq<Lit>,
    c: Seq<Lit>,
    paired_only: bool,
)
    ensures
        pred_groups_spec(relation, names, s, c, paired_only).dom().finite(),
        forall|p: usize, x: Lit|
            pred_groups_spec(relation, names, s, c, paired_only).contains_key(p)
                && #[trigger] pred_groups_spec(relation, names, s, c, paired_only)[p].contains(x) ==> s.contains(x),
    decreases s.len(),
{
    if s.len() > 0 {
        let t = s.drop_last();
        lemma_pred_groups_facts(relation, names, t, c, paired_only);
        let m = pred_groups_spec(relation, names, t, c, paired_only);
        let r = pred_groups_spec(relation, names, s, c, paired_only);
        assert forall|p: usize, x: Lit| r.contains_key(p) && #[trigger] r[p].contains(x) implies s.contains(x) by {
            if m.contains_key(p) && m[p].contains(x) {
                let k = choose|k: int| 0 <= k < t.len() && t[k] == x;
                assert(s[k] == x);
            } else if x == s.last() {
                assert(s[s.len() - 1] == x);
            } else {
                let l = s.last();
                let q = equiv_pred(relation, names, l).unwrap();
                if q == p && m.contains_key(p) {
                    let k = choose|k: int| 0 <= k < m[p].push(l).len() && m[p].push(l)[k] == x;
                    assert(k < m[p].len());
                    assert(m[p][k] == x);
                } else if q == p {
                    assert(seq![l][0] == l);
                }
            }
        }
    }
}

/// The literals of `cube` grouped by equivalence predicate (with
/// `paired_only`, only those whose partner is in `cube`), one entry per
/// predicate, in the walk order of a hash map, which is left open. Every
/// variable of `cube` must have an original number with a row.
pub fn group_by_equiv_predicate(
    cube: &LitVec,
    relation: &RelationData,
    names: &Var2Name,
    paired_only: bool,
) -> (r: Vec<(usize, Vec<Lit>)>)
    requires
        forall|i: int| 0 <= i < cube@.len() ==> has_equiv_row(relation, names, #[trigger] cube@[i]),
    ensures
        lists_map(entries_view(r@), pred_groups_spec(relation, names, cube@, cube@, paired_only)),
{
    let mut m = pred_map_new();
    let mut i: usize = 0;
    assert(cube@.take(0) =~= Seq::<Lit>::empty());
    while i < cube.len()
        invariant
            i <= cube@.len(),
            forall|k: int| 0 <= k < cube@.len() ==> has_equiv_row(relation, names, #[trigger] cube@[k]),
            pred_map_contents(m) == pred_groups_spec(relation, names, cube@.take(i as int), cube@, paired_only),
        decreases cube@.len() - i,
    {
        let l = cube.get(i);
        proof {
            assert(cube@.take(i + 1).drop_last() =~= cube@.take(i as int));
            assert(cube@.take(i + 1).last() == l);
            assert(has_equiv_row(relation, names, cube@[i as int]));
        }
        let var = l.var();
        if let Some(p) = relation.get_equiv_predicate_new(names, var.0 as usize) {
            if paired_only {
                if let Some(sym_id) = relation.get_sym_var_new(names, var.0 as usize) {
                    let sym_lit = Var::new(sym_id).lit();
                    let target = if l.polarity() { sym_lit.not() } else { sym_lit };
                    if cube.contains(target) {
                        pred_map_push(&mut m, p, l);
                    }
                }
            } else {
                pred_map_push(&mut m, p, l);
            }
        }
        i = i + 1;
    }
    assert(cube@.take(cube@.len() as int) =~= cube@);
    proof {
        lemma_pred_groups_facts(relation, names, cube@, cube@, paired_only);
    }
    let ghost mm = pred_map_contents(m);
    let r = pred_map_entries(m);
    assert forall|a: int| 0 <= a < entries_view(r@).len() implies mm.contains_key(
        #[trigger] entries_view(r@)[a].0,
    ) && entries_view(r@)[a].1 == mm[entries_view(r@)[a].0] by {
        assert(entries_view(r@)[a] == (r@[a].0, r@[a].1@));
    }
    assert forall|a: int, b: int| 0 <= a < b < entries_view(r@).len() implies #[trigger] entries_view(r@)[a].0
        != #[trigger] entries_view(r@)[b].0 by {
        assert(entries_view(r@)[a].0 == r@[a].0);
        assert(entries_view(r@)[b].0 == r@[b].0);
    }
    r
}

/// Every literal of the groups has an original number in `names`.
pub open spec fn group_lits_known(gs: Seq<(usize, Seq<Lit>)>, names: &Var2Name) -> bool {
    forall|k: int, i: int|
        0 <= k < gs.len() && 0 <= i < gs[k].1.len() ==> names.origin_map().contains_key(
            #[trigger] gs[k].1[i].spec_var().0 as usize,
        )
}

proof fn lemma_groups_known(
    relation: &RelationData,
    names: &Var2Name,
    cube: Seq<Lit>,
    paired_only: bool,
    gs: Seq<(usize, Seq<Lit>)>,
)
    requires
        forall|i: int| 0 <= i < cube.len() ==> has_equiv_row(relation, names, #[trigger] cube[i]),
        lists_map(gs, pred_groups_spec(relation, names, cube, cube, paired_only)),
    ensures
        group_lits_known(gs, names),
{
    lemma_pred_groups_facts(relation, names, cube, cube, paired_only);
    let m = pred_groups_spec(relation, names, cube, cube, paired_only);
    assert forall|k: int, i: int| 0 <= k < gs.len() && 0 <= i < gs[k].1.len() implies names.origin_map().contains_key(
        #[trigger] gs[k].1[i].spec_var().0 as usize,
    ) by {
        let p = gs[k].0;
        let x = gs[k].1[i];
        assert(m.contains_key(p));
        assert(m[p][i] == x);
        assert(m[p].contains(x));
        let j = choose|j: int| 0 <= j < cube.len() && cube[j] == x;
        assert(has_equiv_row(relation, names, cube[j]));
    }
}

/// The variables of the literals of `lits` whose partner is in `c`,
/// together with their partners' variables.
pub open spec fn pair_vars(relation: &RelationData, names: &Var2Name, lits: Seq<Lit>, c: Seq<Lit>) -> Set<u32>
    decreases lits.len(),
{
    if lits.len() == 0 {
        Set::empty()
    } else {
        let s = pair_vars(relation, names, lits.drop_last(), c);
        let l = lits.last();
        if paired(relation, names, l, c) {
            s.insert(l.spec_var().0).insert(
                relation.sym_var_new_spec(names, l.spec_var().0 as usize).unwrap() as u32,
            )
        } else {
            s
        }
    }
}

/// Whether some literal of `lits` has its partner in `c`.
pub open spec fn any_paired(relation: &RelationData, names: &Var2Name, lits: Seq<Lit>, c: Seq<Lit>) -> bool
    decreases lits.len(),
{
    lits.len() > 0 && (any_paired(relation, names, lits.drop_last(), c) || paired(
        relation,
        names,
        lits.last(),
        c,
    ))
}

/// `c` without the literals whose variables are in `s`.
pub open spec fn drop_vars(c: Seq<Lit>, s: Set<u32>) -> Seq<Lit>
    decreases c.len(),
{
    if c.len() == 0 {
        c
    } else {
        let p = drop_vars(c.drop_last(), s);
        if s.contains(c.last().spec_var().0) {
            p
        } else {
            p.push(c.last())
        }
    }
}

/// The candidate for group `g` against `c`: `c` without the matched
/// variables and their partners, followed by the predicate's literal.
pub open spec fn iter_candidate_spec(
    relation: &RelationData,
    names: &Var2Name,
    g: (usize, Seq<Lit>),
    c: Seq<Lit>,
) -> Seq<Lit> {
    drop_vars(c, pair_vars(relation, names, g.1, c)).push(pred_lit(g.0))
}

/// The first group from `j` on that has a literal with its partner in `c`.
pub open spec fn first_match_from(
    relation: &RelationData,
    names: &Var2Name,
    gs: Seq<(usize, Seq<Lit>)>,
    c: Seq<Lit>,
    j: int,
) -> int
    decreases gs.len() - j,
{
    if j >= gs.len() {
        gs.len() as int
    } else if any_paired(relation, names, gs[j].1, c) {
        j
    } else {
        first_match_from(relation, names, gs, c, j + 1)
    }
}

/// `c` without the literals whose variables are in `removed`.
fn without_vars(c: &LitVec, removed: &crate::ghash::CodeSet) -> (r: LitVec)
    ensures
        r@ == drop_vars(c@, code_set_contents(*removed)),
{
    let mut r = LitVec::new();
    let mut i: usize = 0;
    assert(c@.take(0) =~= Seq::<Lit>::empty());
    while i < c.len()
        invariant
            i <= c@.len(),
            r@ == drop_vars(c@.take(i as int), code_set_contents(*removed)),
        decreases c@.len() - i,
    {
        let l = c.get(i);
        assert(c@.take(i + 1).drop_last() =~= c@.take(i as int));
        assert(c@.take(i + 1).last() == l);
        if !code_set_contains(removed, l.var().0) {
            r.push(l);
        }
        i = i + 1;
    }
    assert(c@.take(c@.len() as int) =~= c@);
    r
}

/// The candidate of one group against `cube`, where some literal of the
/// group meets its partner in `cube`.
fn iter_candidate(
    cube: &LitVec,
    pred: usize,
    lits: &Vec<Lit>,
    relation: &RelationData,
    names: &Var2Name,
) -> (r: Option<LitVec>)
    requires
        forall|i: int| 0 <= i < lits@.len() ==> names.origin_map().contains_key(#[trigger] lits@[i].spec_var().0 as usize),
    ensures
        match r {
            Some(c) => any_paired(relation, names, lits@, cube@) && c@ == iter_candidate_spec(
                relation,
                names,
                (pred, lits@),
                cube@,
            ),
            None => !any_paired(relation, names, lits@, cube@),
        },
{
    let mut to_remove = code_set_new();
    let mut matched = false;
    let mut j: usize = 0;
    assert(lits@.take(0) =~= Seq::<Lit>::empty());
    while j < lits.len()
        invariant
            j <= lits@.len(),
            forall|i: int| 0 <= i < lits@.len() ==> names.origin_map().contains_key(#[trigger] lits@[i].spec_var().0 as usize),
            code_set_contents(to_remove) == pair_vars(relation, names, lits@.take(j as int), cube@),
            matched == any_paired(relation, names, lits@.take(j as int), cube@),
        decreases lits@.len() - j,
    {
        let lit = lits[j];
        proof {
            assert(lits@.take(j + 1).drop_last() =~= lits@.take(j as int));
            assert(lits@.take(j + 1).last() == lit);
            assert(names.origin_map().contains_key(lits@[j as int].spec_var().0 as usize));
        }
        let var = lit.var();
        if let Some(sym_id) = relation.get_sym_var_new(names, var.0 as usize) {
            let sym_var = Var::new(sym_id);
            let sym_lit = sym_var.lit();
            let target = if lit.polarity() { sym_lit.not() } else { sym_lit };
            if cube.contains(target) {
                matched = true;
                code_set_insert(&mut to_remove, var.0);
                code_set_insert(&mut to_remove, sym_var.0);
            }
        }
        j = j + 1;
    }
    assert(lits@.take(lits@.len() as int) =~= lits@);
    if matched {
        let mut new_cube = without_vars(cube, &to_remove);
        new_cube.push(Var::new(pred).lit());
        Some(new_cube)
    } else {
        None
    }
}

/// The search that tries one replacement per predicate group, in turn,
/// against the cube as it stands.
pub struct EquivIterSearch {
    cube: LitVec,
    groups: Vec<(usize, Vec<Lit>)>,
    next: usize,
}

impl EquivIterSearch {
    pub closed spec fn cube_view(&self) -> Seq<Lit> {
        self.cube@
    }

    pub closed spec fn groups_view(&self) -> Seq<(usize, Seq<Lit>)> {
        entries_view(self.groups@)
    }

    /// The first group not considered yet.
    pub closed spec fn next_index(&self) -> int {
        self.next as int
    }

    pub closed spec fn wf(&self) -> bool {
        self.next <= self.groups@.len()
    }

    /// Starts the search on `cube`, whose literals are grouped by
    /// equivalence predicate. Every variable of `cube` must have an original
    /// number with a row.
    pub fn new(cube: LitVec, relation: &RelationData, names: &Var2Name) -> (r: EquivIterSearch)
        requires
            forall|i: int| 0 <= i < cube@.len() ==> has_equiv_row(relation, names, #[trigger] cube@[i]),
        ensures
            r.wf(),
            r.cube_view() == cube@,
            lists_map(r.groups_view(), pred_groups_spec(relation, names, cube@, cube@, false)),
            group_lits_known(r.groups_view(), names),
            r.next_index() == 0,
    {
        let groups = group_by_equiv_predicate(&cube, relation, names, false);
        proof {
            lemma_groups_known(relation, names, cube@, false, entries_view(groups@));
        }
        EquivIterSearch { cube, groups, next: 0 }
    }

    /// The next candidate: that of the first group, from the next one on,
    /// with a literal whose partner is in the current cube; `None` when no
    /// group is left.
    pub fn next_candidate(&mut self, relation: &RelationData, names: &Var2Name) -> (r: Option<LitVec>)
        requires
            old(self).wf(),
            group_lits_known(old(self).groups_view(), names),
        ensures
            final(self).wf(),
            final(self).cube_view() == old(self).cube_view(),
            final(self).groups_view() == old(self).groups_view(),
            ({
                let k = first_match_from(
                    relation,
                    names,
                    old(self).groups_view(),
                    old(self).cube_view(),
                    old(self).next_index(),
                );
                if k < old(self).groups_view().len() {
                    &&& final(self).next_index() == k + 1
                    &&& r matches Some(c) && c@ == iter_candidate_spec(
                        relation,
                        names,
                        old(self).groups_view()[k],
                        old(self).cube_view(),
                    )
                } else {
                    &&& final(self).next_index() == old(self).groups_view().len()
                    &&& r is None
                }
            }),
    {
        let ghost gs = old(self).groups_view();
        let ghost c = old(self).cube_view();
        let ghost start = old(self).next as int;
        let ghost g0 = self.groups@;
        while self.next < self.groups.len()
            invariant
                self.wf(),
                gs == self.groups_view(),
                g0 == self.groups@,
                c == self.cube_view(),
                self.cube@ == old(self).cube@,
                self.groups@ == old(self).groups@,
                group_lits_known(gs, names),
                start == old(self).next as int,
                gs == old(self).groups_view(),
                c == old(self).cube_view(),
                start <= self.next,
                first_match_from(relation, names, gs, c, start) == first_match_from(
                    relation,
                    names,
                    gs,
                    c,
                    self.next as int,
                ),
            decreases self.groups@.len() - self.next,
        {
            let k = self.next;
            proof {
                assert(gs[k as int] == (self.groups@[k as int].0, self.groups@[k as int].1@));
                assert forall|i: int| 0 <= i < self.groups@[k as int].1@.len() implies names.origin_map().contains_key(
                    #[trigger] self.groups@[k as int].1@[i].spec_var().0 as usize,
                ) by {
                    assert(gs[k as int].1[i] == self.groups@[k as int].1@[i]);
                }
            }
            let cand = iter_candidate(&self.cube, self.groups[k].0, &self.groups[k].1, relation, names);
            self.next = k + 1;
            if cand.is_some() {
                assert(first_match_from(relation, names, gs, c, k as int) == k);
                return cand;
            }
        }
        None
    }

    /// Takes the outcome of the check of the last candidate: the inductive
    /// core where it succeeded, which becomes the cube.
    pub fn on_result(&mut self, res: Option<LitVec>)
        ensures
            final(self).groups_view() == old(self).groups_view(),
            final(self).next_index() == old(self).next_index(),
            old(self).wf() ==> final(self).wf(),
            final(self).cube_view() == match res {
                Some(c) => c@,
                None => old(self).cube_view(),
            },
    {
        if let Some(c) = res {
            self.cube = c;
        }
    }

    /// The cube the search ends with.
    pub fn into_cube(self) -> (r: LitVec)
        ensures
            r@ == self.cube_view(),
    {
        self.cube
    }
}

/// `c` without the literals of `lits`.
pub open spec fn drop_lits(c: Seq<Lit>, lits: Seq<Lit>) -> Seq<Lit>
    decreases c.len(),
{
    if c.len() == 0 {
        c
    } else {
        let p = drop_lits(c.drop_last(), lits);
        if lits.contains(c.last()) {
            p
        } else {
            p.push(c.last())
        }
    }
}

/// `c` with every group marked in `mask`, among the first `k`, replaced by
/// its predicate: the group's literals are removed and the predicate's
/// literal is appended.
pub open spec fn apply_mask(c: Seq<Lit>, gs: Seq<(usize, Seq<Lit>)>, mask: Seq<bool>, k: int) -> Seq<Lit>
    decreases k,
{
    if k <= 0 {
        c
    } else {
        let prev = apply_mask(c, gs, mask, k - 1);
        if mask[k - 1] {
            drop_lits(prev, gs[k - 1].1).push(pred_lit(gs[k - 1].0))
        } else {
            prev
        }
    }
}

pub open spec fn all_false(m: Seq<bool>) -> bool {
    forall|i: int| 0 <= i < m.len() ==> !m[i]
}

/// The first mask of `q`, from `j` on, that marks some group.
pub open spec fn first_live_from(q: Seq<Seq<bool>>, j: int) -> int
    decreases q.len() - j,
{
    if j >= q.len() {
        q.len() as int
    } else if !all_false(q[j]) {
        j
    } else {
        first_live_from(q, j + 1)
    }
}

/// The masks with one of the first `k` marks of `rep` cleared, in order,
/// that are not in `tried`.
pub open spec fn children_upto(rep: Seq<bool>, tried: Set<Seq<bool>>, k: int) -> Seq<Seq<bool>>
    decreases k,
{
    if k <= 0 {
        Seq::empty()
    } else {
        let prev = children_upto(rep, tried, k - 1);
        let child = rep.update(k - 1, false);
        if rep[k - 1] && !tried.contains(child) {
            prev.push(child)
        } else {
            prev
        }
    }
}

pub open spec fn masks_view(q: Seq<Vec<bool>>) -> Seq<Seq<bool>> {
    q.map_values(|m: Vec<bool>| m@)
}

fn without_lits(c: &LitVec, lits: &Vec<Lit>) -> (r: LitVec)
    ensures
        r@ == drop_lits(c@, lits@),
{
    let mut r = LitVec::new();
    let mut i: usize = 0;
    assert(c@.take(0) =~= Seq::<Lit>::empty());
    while i < c.len()
        invariant
            i <= c@.len(),
            r@ == drop_lits(c@.take(i as int), lits@),
        decreases c@.len() - i,
    {
        let l = c.get(i);
        assert(c@.take(i + 1).drop_last() =~= c@.take(i as int));
        assert(c@.take(i + 1).last() == l);
        if !slice_contains(lits.as_slice(), l) {
            r.push(l);
        }
        i = i + 1;
    }
    assert(c@.take(c@.len() as int) =~= c@);
    r
}

fn apply_groups(cube: &LitVec, groups: &Vec<(usize, Vec<Lit>)>, mask: &Vec<bool>) -> (r: LitVec)
    requires
        mask@.len() == groups@.len(),
    ensures
        r@ == apply_mask(cube@, entries_view(groups@), mask@, groups@.len() as int),
{
    let ghost gs = entries_view(groups@);
    let mut new_cube = LitVec::new_from_slice(cube.as_slice());
    let mut i: usize = 0;
    while i < groups.len()
        invariant
            i <= groups@.len(),
            mask@.len() == groups@.len(),
            gs == entries_view(groups@),
            new_cube@ == apply_mask(cube@, gs, mask@, i as int),
        decreases groups@.len() - i,
    {
        if mask[i] {
            assert(gs[i as int] == (groups@[i as int].0, groups@[i as int].1@));
            let mut next = without_lits(&new_cube, &groups[i].1);
            next.push(Var::new(groups[i].0).lit());
            new_cube = next;
        }
        i = i + 1;
    }
    new_cube
}

fn is_all_false(m: &Vec<bool>) -> (b: bool)
    ensures
        b == all_false(m@),
{
    let mut i: usize = 0;
    while i < m.len()
        invariant
            i <= m@.len(),
            forall|j: int| 0 <= j < i ==> !m@[j],
        decreases m@.len() - i,
    {
        if m[i] {
            return false;
        }
        i = i + 1;
    }
    true
}

fn mask_without(rep: &Vec<bool>, k: usize) -> (r: Vec<bool>)
    requires
        k < rep@.len(),
    ensures
        r@ == rep@.update(k as int, false),
{
    let mut r: Vec<bool> = Vec::new();
    let mut i: usize = 0;
    while i < rep.len()
        invariant
            i <= rep@.len(),
            k < rep@.len(),
            r@ == rep@.update(k as int, false).take(i as int),
        decreases rep@.len() - i,
    {
        if i == k {
            r.push(false);
        } else {
            r.push(rep[i]);
        }
        assert(rep@.update(k as int, false).take(i + 1) =~= rep@.update(k as int, false).take(i as int).push(
            rep@.update(k as int, false)[i as int],
        ));
        i = i + 1;
    }
    assert(rep@.update(k as int, false).take(rep@.len() as int) =~= rep@.update(k as int, false));
    r
}

/// The search that tries sets of predicate replacements, breadth first from
/// all of them, dropping one replacement at a time after a failed check,
/// until one check succeeds.
pub struct EquivExhaustiveSearch {
    cube: LitVec,
    groups: Vec<(usize, Vec<Lit>)>,
    queue: VecDeque<Vec<bool>>,
    tried: MaskSet,
    current: Option<Vec<bool>>,
    done: bool,
}

impl EquivExhaustiveSearch {
    pub closed spec fn cube_view(&self) -> Seq<Lit> {
        self.cube@
    }

    pub closed spec fn groups_view(&self) -> Seq<(usize, Seq<Lit>)> {
        entries_view(self.groups@)
    }

    /// The masks waiting to be tried, in order.
    pub closed spec fn queue_view(&self) -> Seq<Seq<bool>> {
        masks_view(self.queue@)
    }

    /// The masks whose check failed.
    pub closed spec fn tried_view(&self) -> Set<Seq<bool>> {
        mask_set_contents(self.tried)
    }

    /// The mask whose candidate is being checked.
    pub closed spec fn current_view(&self) -> Option<Seq<bool>> {
        match self.current {
            Some(m) => Some(m@),
            None => None,
        }
    }

    /// Whether a check has succeeded.
    pub closed spec fn is_done(&self) -> bool {
        self.done
    }

    /// Every mask has one mark per group.
    pub closed spec fn wf(&self) -> bool {
        &&& forall|i: int| 0 <= i < self.queue@.len() ==> (#[trigger] self.queue@[i])@.len() == self.groups@.len()
        &&& self.current matches Some(m) ==> m@.len() == self.groups@.len()
    }

    /// Starts the search on `cube`: its literals whose partner is in `cube`
    /// are grouped by equivalence predicate, and the first mask marks every
    /// group. Every variable of `cube` must have an original number with a
    /// row.
    pub fn new(cube: LitVec, relation: &RelationData, names: &Var2Name) -> (r: EquivExhaustiveSearch)
        requires
            forall|i: int| 0 <= i < cube@.len() ==> has_equiv_row(relation, names, #[trigger] cube@[i]),
        ensures
            r.wf(),
            r.cube_view() == cube@,
            lists_map(r.groups_view(), pred_groups_spec(relation, names, cube@, cube@, true)),
            r.queue_view() == seq![Seq::new(r.groups_view().len(), |i: int| true)],
            r.tried_view() == Set::<Seq<bool>>::empty(),
            r.current_view() is None,
            !r.is_done(),
    {
        let groups = group_by_equiv_predicate(&cube, relation, names, true);
        let mut all: Vec<bool> = Vec::new();
        let mut i: usize = 0;
        while i < groups.len()
            invariant
                i <= groups@.len(),
                all@ == Seq::new(i as nat, |k: int| true),
            decreases groups@.len() - i,
        {
            all.push(true);
            i = i + 1;
        }
        let mut queue: VecDeque<Vec<bool>> = VecDeque::new();
        queue.push_back(all);
        let r = EquivExhaustiveSearch { cube, groups, queue, tried: mask_set_new(), current: None, done: false };
        assert(r.queue_view() =~= seq![Seq::new(r.groups_view().len(), |i: int| true)]);
        r
    }

    /// The candidate of the first waiting mask that marks some group; the
    /// masks before it are dropped. `None` when no mask is left or a check
    /// has succeeded.
    pub fn next_candidate(&mut self) -> (r: Option<LitVec>)
        requires
            old(self).wf(),
            old(self).current_view() is None,
        ensures
            final(self).wf(),
            final(self).cube_view() == old(self).cube_view(),
            final(self).groups_view() == old(self).groups_view(),
            final(self).tried_view() == old(self).tried_view(),
            final(self).is_done() == old(self).is_done(),
            old(self).is_done() ==> r is None && final(self).queue_view() == old(self).queue_view()
                && final(self).current_view() is None,
            !old(self).is_done() ==> ({
                let q = old(self).queue_view();
                let k = first_live_from(q, 0);
                if k < q.len() {
                    &&& final(self).queue_view() == q.skip(k + 1)
                    &&& final(self).current_view() == Some(q[k])
                    &&& r matches Some(c) && c@ == apply_mask(
                        old(self).cube_view(),
                        old(self).groups_view(),
                        q[k],
                        old(self).groups_view().len() as int,
                    )
                } else {
                    &&& final(self).queue_view() == Seq::<Seq<bool>>::empty()
                    &&& final(self).current_view() is None
                    &&& r is None
                }
            }),
    {
        if self.done {
            return None;
        }
        let ghost q = old(self).queue_view();
        let ghost j: int = 0;
        assert(q.skip(0) =~= q);
        while self.queue.len() > 0
            invariant
                self.wf(),
                self.current is None,
                !self.done,
                self.cube@ == old(self).cube@,
                self.groups@ == old(self).groups@,
                self.tried == old(self).tried,
                self.done == old(self).done,
                q == old(self).queue_view(),
                0 <= j <= q.len(),
                self.queue_view() == q.skip(j),
                first_live_from(q, 0) == first_live_from(q, j),
            decreases self.queue@.len(),
        {
            let ghost before = self.queue@;
            let rep = self.queue.pop_front().unwrap();
            proof {
                assert(masks_view(before) == q.skip(j));
                assert(before.len() > 0);
                assert(masks_view(before)[0] == before[0]@);
                assert(q.skip(j).len() == q.len() - j);
                assert(q.skip(j)[0] == q[j]);
                assert(rep == before[0]);
                assert(rep@ == q[j]);
                assert(self.queue@ =~= before.subrange(1, before.len() as int));
                assert forall|t: int| 0 <= t < q.len() - (j + 1) implies #[trigger] masks_view(self.queue@)[t] == q.skip(j + 1)[t] by {
                    assert(masks_view(self.queue@)[t] == before[t + 1]@);
                    assert(masks_view(before)[t + 1] == q.skip(j)[t + 1]);
                }
                assert(masks_view(self.queue@) =~= q.skip(j + 1));
                j = j + 1;
            }
            if !is_all_false(&rep) {
                let cand = apply_groups(&self.cube, &self.groups, &rep);
                self.current = Some(rep);
                return Some(cand);
            }
        }
        assert(q.skip(j) =~= Seq::<Seq<bool>>::empty());
        None
    }

    /// Takes the outcome of the check of the current candidate: the
    /// inductive core where it succeeded, which becomes the cube and ends
    /// the search; else the masks with one mark of the current mask cleared
    /// that have not failed yet are queued, and the current mask is recorded
    /// as failed.
    pub fn on_result(&mut self, res: Option<LitVec>)
        requires
            old(self).wf(),
            old(self).current_view() is Some,
            !old(self).is_done(),
        ensures
            final(self).wf(),
            final(self).groups_view() == old(self).groups_view(),
            final(self).current_view() is None,
            match res {
                Some(c) => {
                    &&& final(self).cube_view() == c@
                    &&& final(self).is_done()
                    &&& final(self).queue_view() == old(self).queue_view()
                    &&& final(self).tried_view() == old(self).tried_view()
                },
                None => {
                    let rep = old(self).current_view().unwrap();
                    &&& final(self).cube_view() == old(self).cube_view()
                    &&& !final(self).is_done()
                    &&& final(self).queue_view() == old(self).queue_view() + children_upto(
                        rep,
                        old(self).tried_view(),
                        rep.len() as int,
                    )
                    &&& final(self).tried_view() == old(self).tried_view().insert(rep)
                },
            },
    {
        match res {
            Some(c) => {
                self.cube = c;
                self.done = true;
                self.current = None;
            },
            None => {
                let rep = self.current.take().unwrap();
                let ghost q0 = self.queue_view();
                let ghost t0 = self.tried_view();
                let mut i: usize = 0;
                while i < rep.len()
                    invariant
                        i <= rep@.len(),
                        rep@.len() == self.groups@.len(),
                        forall|k: int| 0 <= k < self.queue@.len() ==> (#[trigger] self.queue@[k])@.len() == self.groups@.len(),
                        self.tried_view() == t0,
                        self.queue_view() == q0 + children_upto(rep@, t0, i as int),
                        self.current is None,
                        self.groups@ == old(self).groups@,
                        self.cube@ == old(self).cube@,
                        self.done == old(self).done,
                    decreases rep@.len() - i,
                {
                    if rep[i] {
                        let child = mask_without(&rep, i);
                        if !mask_set_contains(&self.tried, &child) {
                            let ghost before = self.queue@;
                            self.queue.push_back(child);
                            assert(masks_view(self.queue@) =~= masks_view(before).push(child@));
                        }
                    }
                    i = i + 1;
                }
                mask_set_insert(&mut self.tried, rep);
            },
        }
    }

    /// The cube the search ends with.
    pub fn into_cube(self) -> (r: LitVec)
        ensures
            r@ == self.cube_view(),
    {
        self.cube
    }
}

} // verus!
