use vstd::prelude::*;
use giputils::hash::GHashSet;
use crate::lit::{Lit, Var, lemma_not_properties};

verus! {

/// A sequence of literals, read as a cube (conjunction) or a clause
/// (disjunction) depending on the caller.
pub struct LitVec {
    lits: Vec<Lit>,
}

impl Clone for LitVec {
    fn clone(&self) -> (r: Self)
        ensures
            r@ == self@,
    {
        LitVec { lits: self.lits.clone() }
    }
}

impl View for LitVec {
    type V = Seq<Lit>;

    closed spec fn view(&self) -> Seq<Lit> {
        self.lits@
    }
}

/// Literal codes never decrease along `s`.
pub open spec fn sorted(s: Seq<Lit>) -> bool {
    forall|i: int, j: int| 0 <= i <= j < s.len() ==> s[i].0 <= s[j].0
}

/// Literal codes strictly increase along `s`.
pub open spec fn strictly_sorted(s: Seq<Lit>) -> bool {
    forall|i: int, j: int| 0 <= i < j < s.len() ==> s[i].0 < s[j].0
}

/// `a` subsumes `o`: it is no longer than `o` and each of its literals occurs in `o`.
pub open spec fn spec_subsume(a: Seq<Lit>, o: Seq<Lit>) -> bool {
    &&& a.len() <= o.len()
    &&& forall|i: int| 0 <= i < a.len() ==> o.contains(#[trigger] a[i])
}

/// Index of the first literal of `o` at or after `k` whose variable is `v`
/// (`o.len()` when there is none).
pub open spec fn first_var_from(o: Seq<Lit>, v: Var, k: int) -> int
    decreases o.len() - k,
{
    if k < 0 || k >= o.len() {
        o.len() as int
    } else if o[k].spec_var() == v {
        k
    } else {
        first_var_from(o, v, k + 1)
    }
}

/// Index of the first literal of `o` at or after `k` whose variable index is
/// at least `v` (`o.len()` when there is none).
pub open spec fn first_var_ge_from(o: Seq<Lit>, v: u32, k: int) -> int
    decreases o.len() - k,
{
    if k < 0 || k >= o.len() {
        o.len() as int
    } else if o[k].spec_var().0 >= v {
        k
    } else {
        first_var_ge_from(o, v, k + 1)
    }
}

pub proof fn lemma_first_var_is(o: Seq<Lit>, v: Var, j: int, k: int)
    requires
        0 <= k <= j <= o.len(),
        forall|m: int| k <= m < j ==> o[m].spec_var() != v,
        j == o.len() || o[j].spec_var() == v,
    ensures
        first_var_from(o, v, k) == j,
    decreases j - k,
{
    if k < j {
        lemma_first_var_is(o, v, j, k + 1);
    }
}

pub proof fn lemma_first_var_ge_is(o: Seq<Lit>, v: u32, j: int, k: int)
    requires
        0 <= k <= j <= o.len(),
        forall|m: int| k <= m < j ==> o[m].spec_var().0 < v,
        j == o.len() || o[j].spec_var().0 >= v,
    ensures
        first_var_ge_from(o, v, k) == j,
    decreases j - k,
{
    if k < j {
        lemma_first_var_ge_is(o, v, j, k + 1);
    }
}

/// The first index found by `first_var_from` is within bounds, matches, and
/// nothing before it matches.
pub proof fn lemma_first_var_facts(o: Seq<Lit>, v: Var, k: int)
    requires
        0 <= k <= o.len(),
    ensures
        k <= first_var_from(o, v, k) <= o.len(),
        first_var_from(o, v, k) < o.len() ==> o[first_var_from(o, v, k)].spec_var() == v,
        forall|m: int| k <= m < first_var_from(o, v, k) ==> o[m].spec_var() != v,
    decreases o.len() - k,
{
    if k < o.len() && o[k].spec_var() != v {
        lemma_first_var_facts(o, v, k + 1);
    }
}

/// One step of `subsume_execpt_one`: `None` is failure, `Some(d)` carries the
/// literal (if any) whose negation was matched.
pub open spec fn execpt_one_step(st: Option<Option<Lit>>, x: Lit, o: Seq<Lit>) -> Option<Option<Lit>> {
    match st {
        None => None,
        Some(None) => {
            let k = first_var_from(o, x.spec_var(), 0);
            if k >= o.len() {
                None
            } else if o[k] == x {
                Some(None)
            } else {
                Some(Some(x))
            }
        },
        Some(Some(d)) => if o.contains(x) {
            Some(Some(d))
        } else {
            None
        },
    }
}

/// `execpt_one_step` applied to the literals of `a` in order.
pub open spec fn execpt_one_fold(a: Seq<Lit>, o: Seq<Lit>) -> Option<Option<Lit>>
    decreases a.len(),
{
    if a.len() == 0 {
        Some(None)
    } else {
        execpt_one_step(execpt_one_fold(a.drop_last(), o), a.last(), o)
    }
}

/// Result of `subsume_execpt_one`: `a` subsumes `o`, possibly except one
/// literal of `a` whose negation the first same-variable literal of `o` is.
pub open spec fn spec_subsume_execpt_one(a: Seq<Lit>, o: Seq<Lit>) -> (bool, Option<Lit>) {
    if a.len() > o.len() {
        (false, None)
    } else {
        match execpt_one_fold(a, o) {
            None => (false, None),
            Some(d) => (d is None, d),
        }
    }
}

/// One step of `ordered_subsume_execpt_one`, looking only at the first literal
/// of `o` whose variable is not below that of `x`.
pub open spec fn ordered_execpt_one_step(st: Option<Option<Lit>>, x: Lit, o: Seq<Lit>) -> Option<
    Option<Lit>,
> {
    match st {
        None => None,
        Some(d) => {
            let k = first_var_ge_from(o, x.spec_var().0, 0);
            if k >= o.len() {
                None
            } else if o[k] == x {
                Some(d)
            } else if d is None && o[k].spec_var() == x.spec_var() {
                Some(Some(x))
            } else {
                None
            }
        },
    }
}

pub open spec fn ordered_execpt_one_fold(a: Seq<Lit>, o: Seq<Lit>) -> Option<Option<Lit>>
    decreases a.len(),
{
    if a.len() == 0 {
        Some(None)
    } else {
        ordered_execpt_one_step(ordered_execpt_one_fold(a.drop_last(), o), a.last(), o)
    }
}

pub open spec fn spec_ordered_subsume_execpt_one(a: Seq<Lit>, o: Seq<Lit>) -> (bool, Option<Lit>) {
    if a.len() > o.len() {
        (false, None)
    } else {
        match ordered_execpt_one_fold(a, o) {
            None => (false, None),
            Some(d) => (d is None, d),
        }
    }
}

/// The literals of `a` that occur in `c`, in the order of `a`.
pub open spec fn keep_in(a: Seq<Lit>, c: Seq<Lit>) -> Seq<Lit>
    decreases a.len(),
{
    if a.len() == 0 {
        Seq::empty()
    } else if c.contains(a.last()) {
        keep_in(a.drop_last(), c).push(a.last())
    } else {
        keep_in(a.drop_last(), c)
    }
}

/// The literals of `a` whose variable is not `v`, in order.
pub open spec fn without_var(a: Seq<Lit>, v: Var) -> Seq<Lit>
    decreases a.len(),
{
    if a.len() == 0 {
        Seq::empty()
    } else if a.last().spec_var() != v {
        without_var(a.drop_last(), v).push(a.last())
    } else {
        without_var(a.drop_last(), v)
    }
}

/// The part of a resolvent contributed by the shorter side `xs`: each literal
/// not on `v` is kept when `ys` has no literal of its variable, dropped when
/// the first such literal of `ys` equals it, and the resolvent does not exist
/// (`None`) when that literal is its negation.
pub open spec fn resolve_keep(xs: Seq<Lit>, ys: Seq<Lit>, v: Var) -> Option<Seq<Lit>>
    decreases xs.len(),
{
    if xs.len() == 0 {
        Some(Seq::empty())
    } else {
        match resolve_keep(xs.drop_last(), ys, v) {
            None => None,
            Some(acc) => {
                let x = xs.last();
                if x.spec_var() == v {
                    Some(acc)
                } else {
                    let k = first_var_from(ys, x.spec_var(), 0);
                    if k >= ys.len() {
                        Some(acc.push(x))
                    } else if x == ys[k].spec_not() {
                        None
                    } else {
                        Some(acc)
                    }
                }
            },
        }
    }
}

/// The resolvent of `a` and `b` on `v`, as computed by `resolvent`.
pub open spec fn spec_resolvent(a: Seq<Lit>, b: Seq<Lit>, v: Var) -> Option<Seq<Lit>> {
    let xs = if a.len() < b.len() { a } else { b };
    let ys = if a.len() < b.len() { b } else { a };
    match resolve_keep(xs, ys, v) {
        None => None,
        Some(k) => Some(k + without_var(ys, v)),
    }
}

/// Some literal occurs in `s` together with its negation.
pub open spec fn has_complementary(s: Seq<Lit>) -> bool {
    exists|l: Lit| s.contains(l) && s.contains(l.spec_not())
}

/// `r` is the clause `s` normalized: strictly sorted, with exactly the
/// literals of `s`.
pub open spec fn normalized_of(r: Seq<Lit>, s: Seq<Lit>) -> bool {
    &&& strictly_sorted(r)
    &&& forall|l: Lit| r.contains(l) <==> s.contains(l)
}

/// `r` is what `cls_simp` makes of the clause `s`.
pub open spec fn cls_simp_result(r: Seq<Lit>, s: Seq<Lit>) -> bool {
    &&& has_complementary(s) ==> r.len() == 0
    &&& !has_complementary(s) ==> normalized_of(r, s)
}

/// Three-way lexicographic comparison of literal codes from position `i` on,
/// with a shorter prefix ordered first: negative, zero or positive.
pub open spec fn lex_order_from(a: Seq<Lit>, b: Seq<Lit>, i: int) -> int
    decreases a.len() - i,
{
    if i < 0 || i >= a.len() || i >= b.len() {
        if a.len() < b.len() {
            -1
        } else if a.len() == b.len() {
            0
        } else {
            1
        }
    } else if a[i].0 < b[i].0 {
        -1
    } else if a[i].0 > b[i].0 {
        1
    } else {
        lex_order_from(a, b, i + 1)
    }
}

pub open spec fn lex_order_at(a: Seq<Lit>, b: Seq<Lit>, i: usize) -> int {
    lex_order_from(a, b, i as int)
}

pub open spec fn lex_order(a: Seq<Lit>, b: Seq<Lit>) -> int {
    lex_order_from(a, b, 0)
}

/// Every literal negated.
pub open spec fn negated(s: Seq<Lit>) -> Seq<Lit> {
    s.map_values(|l: Lit| l.spec_not())
}

impl LitVec {
    pub fn new() -> (r: LitVec)
        ensures
            r@ == Seq::<Lit>::empty(),
    {
        LitVec { lits: Vec::new() }
    }

    /// An empty vector; the capacity hint does not change the contents.
    pub fn new_with(c: usize) -> (r: LitVec)
        ensures
            r@ == Seq::<Lit>::empty(),
    {
        LitVec { lits: Vec::with_capacity(c) }
    }

    pub fn new_from_slice(slice: &[Lit]) -> (r: LitVec)
        ensures
            r@ == slice@,
    {
        let mut lits: Vec<Lit> = Vec::new();
        let mut i: usize = 0;
        while i < slice.len()
            invariant
                i <= slice@.len(),
                lits@ == slice@.take(i as int),
            decreases slice@.len() - i,
        {
            lits.push(slice[i]);
            i = i + 1;
            assert(lits@ =~= slice@.take(i as int));
        }
        assert(slice@.take(slice@.len() as int) =~= slice@);
        LitVec { lits }
    }

    /// The vector holding one literal.
    pub fn from_lit(l: Lit) -> (r: LitVec)
        ensures
            r@ == seq![l],
    {
        let mut lits: Vec<Lit> = Vec::new();
        lits.push(l);
        assert(lits@ =~= seq![l]);
        LitVec { lits }
    }

    /// The vector holding the literals of `v`, in order.
    pub fn from_vec(v: Vec<Lit>) -> (r: LitVec)
        ensures
            r@ == v@,
    {
        LitVec { lits: v }
    }

    /// The literals, in order.
    pub fn into_vec(self) -> (r: Vec<Lit>)
        ensures
            r@ == self@,
    {
        self.lits
    }

    pub fn as_slice(&self) -> (r: &[Lit])
        ensures
            r@ == self@,
    {
        self.lits.as_slice()
    }

    pub fn len(&self) -> (n: usize)
        ensures
            n == self@.len(),
    {
        self.lits.len()
    }

    pub fn is_empty(&self) -> (b: bool)
        ensures
            b == (self@.len() == 0),
    {
        self.lits.len() == 0
    }

    pub fn get(&self, i: usize) -> (l: Lit)
        requires
            i < self@.len(),
        ensures
            l == self@[i as int],
    {
        self.lits[i]
    }

    pub fn push(&mut self, l: Lit)
        ensures
            final(self)@ == old(self)@.push(l),
    {
        self.lits.push(l);
    }

    pub fn clear(&mut self)
        ensures
            final(self)@ == Seq::<Lit>::empty(),
    {
        self.lits.clear();
    }

    /// The last literal; the vector must not be empty.
    pub fn last(&self) -> (l: Lit)
        requires
            self@.len() > 0,
        ensures
            l == self@.last(),
    {
        self.lits[self.lits.len() - 1]
    }

    pub fn contains(&self, l: Lit) -> (b: bool)
        ensures
            b == self@.contains(l),
    {
        slice_contains(self.lits.as_slice(), l)
    }

    /// Whether `self` subsumes `o`: `self` is no longer than `o` and every
    /// literal of `self` occurs in `o`.
    pub fn subsume(&self, o: &[Lit]) -> (r: bool)
        ensures
            r == spec_subsume(self@, o@),
    {
        if self.lits.len() > o.len() {
            return false;
        }
        let mut i: usize = 0;
        while i < self.lits.len()
            invariant
                i <= self@.len(),
                forall|k: int| 0 <= k < i ==> o@.contains(#[trigger] self@[k]),
            decreases self@.len() - i,
        {
            if !slice_contains(o, self.lits[i]) {
                return false;
            }
            i = i + 1;
        }
        true
    }

    /// Like `subsume`, but allows one literal of `self` to occur negated in
    /// `other`; that literal is returned. The result is `(true, None)` when
    /// `self` subsumes `other` outright.
    pub fn subsume_execpt_one(&self, o: &[Lit]) -> (r: (bool, Option<Lit>))
        ensures
            r == spec_subsume_execpt_one(self@, o@),
    {
        if self.lits.len() > o.len() {
            return (false, None);
        }
        let mut diff: Option<Lit> = None;
        let mut i: usize = 0;
        while i < self.lits.len()
            invariant
                i <= self@.len(),
                self@.len() <= o@.len(),
                execpt_one_fold(self@.take(i as int), o@) == Some(diff),
            decreases self@.len() - i,
        {
            let x = self.lits[i];
            proof {
                assert(self@.take(i + 1).drop_last() =~= self@.take(i as int));
                assert(self@.take(i + 1).last() == x);
            }
            match diff {
                None => {
                    let k = first_var_index(o, x.var());
                    proof { lemma_first_var_facts(o@, x.spec_var(), 0); }
                    if k == o.len() {
                        proof { lemma_execpt_one_none_persists(self@, o@, i + 1); }
                        return (false, None);
                    }
                    if o[k] != x {
                        diff = Some(x);
                    }
                },
                Some(_) => {
                    if !slice_contains(o, x) {
                        proof { lemma_execpt_one_none_persists(self@, o@, i + 1); }
                        return (false, None);
                    }
                },
            }
            i = i + 1;
        }
        assert(self@.take(self@.len() as int) =~= self@);
        (diff.is_none(), diff)
    }

    /// `subsume_execpt_one` for sorted vectors, by one merge pass over variables.
    pub fn ordered_subsume_execpt_one(&self, cube: &LitVec) -> (r: (bool, Option<Lit>))
        requires
            sorted(self@),
            sorted(cube@),
        ensures
            r == spec_ordered_subsume_execpt_one(self@, cube@),
    {
        let mut diff: Option<Lit> = None;
        if self.lits.len() > cube.lits.len() {
            return (false, None);
        }
        let mut j: usize = 0;
        let mut i: usize = 0;
        while i < self.lits.len()
            invariant
                i <= self@.len(),
                j <= cube@.len(),
                sorted(self@),
                self@.len() <= cube@.len(),
                ordered_execpt_one_fold(self@.take(i as int), cube@) == Some(diff),
                forall|m: int, p: int|
                    0 <= m < j && i <= p < self@.len() ==> cube@[m].spec_var().0 < self@[p].spec_var().0,
            decreases self@.len() - i,
        {
            let x = self.lits[i];
            while j < cube.lits.len() && x.var().0 > cube.lits[j].var().0
                invariant
                    i < self@.len(),
                    x == self@[i as int],
                    j <= cube@.len(),
                    sorted(self@),
                    forall|m: int, p: int|
                        0 <= m < j && i <= p < self@.len() ==> cube@[m].spec_var().0 < self@[p].spec_var().0,
                decreases cube@.len() - j,
            {
                proof {
                    assert forall|p: int| i <= p < self@.len() implies cube@[j as int].spec_var().0 < self@[p].spec_var().0 by {
                        assert(self@[i as int].0 <= self@[p].0);
                    }
                }
                j = j + 1;
            }
            proof {
                lemma_first_var_ge_is(cube@, x.spec_var().0, j as int, 0);
                assert(self@.take(i + 1).drop_last() =~= self@.take(i as int));
                assert(self@.take(i + 1).last() == x);
            }
            if j == cube.lits.len() {
                proof { lemma_ordered_execpt_one_none_persists(self@, cube@, i + 1); }
                return (false, None);
            }
            if x != cube.lits[j] {
                if diff.is_none() && x.var() == cube.lits[j].var() {
                    diff = Some(x);
                } else {
                    proof { lemma_ordered_execpt_one_none_persists(self@, cube@, i + 1); }
                    return (false, None);
                }
            }
            i = i + 1;
        }
        assert(self@.take(self@.len() as int) =~= self@);
        (diff.is_none(), diff)
    }

    /// The literals common to both vectors, each once, in the order in which
    /// a hash set yields them.
    pub fn intersection(&self, cube: &LitVec) -> (r: LitVec)
        ensures
            r@.no_duplicates(),
            forall|l: Lit| #[trigger] r@.contains(l) <==> (self@.contains(l) && cube@.contains(l)),
    {
        LitVec { lits: hash_set_intersection(self.lits.as_slice(), cube.lits.as_slice()) }
    }

    /// The literals of `self` that occur in `cube`, in order, for two sorted
    /// vectors, by one merge pass.
    pub fn ordered_intersection(&self, cube: &LitVec) -> (r: LitVec)
        requires
            sorted(self@),
            sorted(cube@),
        ensures
            r@ == keep_in(self@, cube@),
    {
        let mut res = LitVec::new();
        let mut i: usize = 0;
        let mut k: usize = 0;
        while k < self.lits.len()
            invariant
                k <= self@.len(),
                i <= cube@.len(),
                sorted(self@),
                sorted(cube@),
                res@ == keep_in(self@.take(k as int), cube@),
                forall|m: int, p: int| 0 <= m < i && k <= p < self@.len() ==> cube@[m].0 < self@[p].0,
            decreases self@.len() - k,
        {
            let l = self.lits[k];
            while i < cube.lits.len() && cube.lits[i].0 < l.0
                invariant
                    k < self@.len(),
                    l == self@[k as int],
                    i <= cube@.len(),
                    sorted(self@),
                    forall|m: int, p: int| 0 <= m < i && k <= p < self@.len() ==> cube@[m].0 < self@[p].0,
                decreases cube@.len() - i,
            {
                proof {
                    assert forall|p: int| k <= p < self@.len() implies cube@[i as int].0 < self@[p].0 by {
                        assert(self@[k as int].0 <= self@[p].0);
                    }
                }
                i = i + 1;
            }
            if i == cube.lits.len() {
                proof {
                    // no remaining literal of `self` occurs in `cube`
                    assert forall|n: int| k <= n <= self@.len() implies keep_in(self@.take(n), cube@) == keep_in(self@.take(k as int), cube@) by {
                        lemma_keep_in_tail_absent(self@, cube@, k as int, n);
                    }
                    assert(self@.take(self@.len() as int) =~= self@);
                }
                return res;
            }
            proof {
                assert(self@.take(k + 1).drop_last() =~= self@.take(k as int));
                assert(self@.take(k + 1).last() == l);
                if cube@.contains(l) {
                    let m = choose|m: int| 0 <= m < cube@.len() && cube@[m] == l;
                    if m < i {
                        assert(cube@[m].0 < l.0);
                    } else {
                        assert(cube@[i as int].0 <= cube@[m].0);
                    }
                }
            }
            if l == cube.lits[i] {
                res.push(l);
            }
            k = k + 1;
        }
        assert(self@.take(self@.len() as int) =~= self@);
        res
    }

    /// The resolvent of `self` and `other` on variable `v`: the literals of the
    /// shorter vector not on `v` and not already in the longer one, followed by
    /// the literals of the longer one not on `v`; `None` when the two hold
    /// opposite literals of another variable.
    pub fn resolvent(&self, other: &LitVec, v: Var) -> (r: Option<LitVec>)
        ensures
            match r {
                None => spec_resolvent(self@, other@, v) is None,
                Some(res) => spec_resolvent(self@, other@, v) == Some(res@),
            },
    {
        let self_shorter = self.lits.len() < other.lits.len();
        let x = if self_shorter { self } else { other };
        let y = if self_shorter { other } else { self };
        let mut new = LitVec::new();
        let mut i: usize = 0;
        while i < x.lits.len()
            invariant
                i <= x@.len(),
                x@ == (if self@.len() < other@.len() { self@ } else { other@ }),
                y@ == (if self@.len() < other@.len() { other@ } else { self@ }),
                resolve_keep(x@.take(i as int), y@, v) == Some(new@),
            decreases x@.len() - i,
        {
            let xl = x.lits[i];
            proof {
                assert(x@.take(i + 1).drop_last() =~= x@.take(i as int));
                assert(x@.take(i + 1).last() == xl);
            }
            if xl.var() != v {
                let k = first_var_index(y.lits.as_slice(), xl.var());
                proof { lemma_first_var_facts(y@, xl.spec_var(), 0); }
                if k == y.lits.len() {
                    new.push(xl);
                } else if xl == y.lits[k].not() {
                    proof {
                        lemma_resolve_keep_none_persists(x@, y@, v, i + 1);
                    }
                    return None;
                }
            }
            i = i + 1;
        }
        assert(x@.take(x@.len() as int) =~= x@);
        let ghost kept = new@;
        let mut j: usize = 0;
        while j < y.lits.len()
            invariant
                j <= y@.len(),
                new@ == kept + without_var(y@.take(j as int), v),
                resolve_keep(x@, y@, v) == Some(kept),
                x@ == (if self@.len() < other@.len() { self@ } else { other@ }),
                y@ == (if self@.len() < other@.len() { other@ } else { self@ }),

            decreases y@.len() - j,
        {
            let yl = y.lits[j];
            proof {
                assert(y@.take(j + 1).drop_last() =~= y@.take(j as int));
                assert(y@.take(j + 1).last() == yl);
            }
            if yl.var() != v {
                new.push(yl);
                assert(new@ =~= kept + without_var(y@.take(j + 1), v));
            }
            j = j + 1;
        }
        assert(y@.take(y@.len() as int) =~= y@);
        Some(new)
    }

    /// `resolvent` for two sorted vectors, finding the literals of each variable
    /// by one merge pass; it returns what `resolvent` returns.
    #[verifier::rlimit(40)]
    pub fn ordered_resolvent(&self, other: &LitVec, v: Var) -> (r: Option<LitVec>)
        requires
            sorted(self@),
            sorted(other@),
        ensures
            match r {
                None => spec_resolvent(self@, other@, v) is None,
                Some(res) => spec_resolvent(self@, other@, v) == Some(res@),
            },
    {
        let self_shorter = self.lits.len() < other.lits.len();
        let x = if self_shorter { self } else { other };
        let y = if self_shorter { other } else { self };
        let mut new = LitVec::new();
        let mut i: usize = 0;
        let mut j: usize = 0;
        while i < x.lits.len()
            invariant
                i <= x@.len(),
                j <= y@.len(),
                x@ == (if self@.len() < other@.len() { self@ } else { other@ }),
                y@ == (if self@.len() < other@.len() { other@ } else { self@ }),

                sorted(x@),
                sorted(y@),
                resolve_keep(x@.take(i as int), y@, v) == Some(new@),
                forall|m: int, p: int|
                    0 <= m < j && i <= p < x@.len() ==> y@[m].spec_var().0 < x@[p].spec_var().0,
            decreases x@.len() - i,
        {
            let xl = x.lits[i];
            proof {
                assert(x@.take(i + 1).drop_last() =~= x@.take(i as int));
                assert(x@.take(i + 1).last() == xl);
            }
            if xl.var() == v {
                i = i + 1;
                continue;
            }
            while j < y.lits.len() && y.lits[j].var().0 < xl.var().0
                invariant
                    i < x@.len(),
                    xl == x@[i as int],
                    j <= y@.len(),
                    sorted(x@),
                    forall|m: int, p: int|
                        0 <= m < j && i <= p < x@.len() ==> y@[m].spec_var().0 < x@[p].spec_var().0,
                decreases y@.len() - j,
            {
                proof {
                    assert forall|p: int| i <= p < x@.len() implies y@[j as int].spec_var().0 < x@[p].spec_var().0 by {
                        assert(x@[i as int].0 <= x@[p].0);
                    }
                }
                j = j + 1;
            }
            proof { lemma_sorted_first_var(y@, xl.spec_var(), j as int); }
            if j < y.lits.len() && xl.var() == y.lits[j].var() {
                if xl == y.lits[j].not() {
                    proof { lemma_resolve_keep_none_persists(x@, y@, v, i + 1); }
                    return None;
                }
            } else {
                new.push(xl);
            }
            i = i + 1;
        }
        assert(x@.take(x@.len() as int) =~= x@);
        let ghost kept = new@;
        let mut k: usize = 0;
        while k < y.lits.len()
            invariant
                k <= y@.len(),
                new@ == kept + without_var(y@.take(k as int), v),
                resolve_keep(x@, y@, v) == Some(kept),
                x@ == (if self@.len() < other@.len() { self@ } else { other@ }),
                y@ == (if self@.len() < other@.len() { other@ } else { self@ }),

            decreases y@.len() - k,
        {
            let yl = y.lits[k];
            proof {
                assert(y@.take(k + 1).drop_last() =~= y@.take(k as int));
                assert(y@.take(k + 1).last() == yl);
            }
            if yl.var() != v {
                new.push(yl);
                assert(new@ =~= kept + without_var(y@.take(k + 1), v));
            }
            k = k + 1;
        }
        assert(y@.take(y@.len() as int) =~= y@);
        Some(new)
    }

    /// Simplifies a clause: sorts it and removes repeated literals; a clause
    /// holding a literal and its negation becomes empty.
    pub fn cls_simp(&mut self)
        ensures
            cls_simp_result(final(self)@, old(self)@),
    {
        let mut res: Vec<Lit> = Vec::new();
        let mut i: usize = 0;
        while i < self.lits.len()
            invariant
                i <= self@.len(),
                strictly_sorted(res@),
                forall|l: Lit| res@.contains(l) <==> self@.take(i as int).contains(l),
            decreases self@.len() - i,
        {
            let x = self.lits[i];
            let mut p: usize = 0;
            while p < res.len() && res[p].0 < x.0
                invariant
                    p <= res@.len(),
                    i < self@.len(),
                    x == self@[i as int],
                    strictly_sorted(res@),
                    forall|l: Lit| res@.contains(l) <==> self@.take(i as int).contains(l),
                    forall|m: int| 0 <= m < p ==> res@[m].0 < x.0,
                decreases res@.len() - p,
            {
                p = p + 1;
            }
            proof {
                assert(self@.take(i + 1) =~= self@.take(i as int).push(x));
                assert forall|l: Lit| self@.take(i + 1).contains(l) <==> (self@.take(i as int).contains(l) || l == x) by {
                    if l == x {
                        assert(self@.take(i + 1)[i as int] == x);
                    }
                    if self@.take(i + 1).contains(l) && l != x {
                        let m = choose|m: int| 0 <= m < i + 1 && #[trigger] self@.take(i + 1)[m] == l;
                        assert(self@.take(i as int)[m] == l);
                    }
                    if self@.take(i as int).contains(l) {
                        let m = choose|m: int| 0 <= m < i && #[trigger] self@.take(i as int)[m] == l;
                        assert(self@.take(i + 1)[m] == l);
                    }
                }
            }
            if p < res.len() && res[p] == x {
                assert(res@[p as int] == x);
                assert(res@.contains(x));
                assert(forall|l: Lit| res@.contains(l) <==> self@.take(i + 1).contains(l));
            } else {
                let ghost old_res = res@;
                assert(forall|l: Lit| old_res.contains(l) <==> self@.take(i as int).contains(l));
                res.insert(p, x);
                proof {
                    old_res.insert_ensures(p as int, x);
                    assert forall|a: int, b: int| 0 <= a < b < res@.len() implies res@[a].0 < res@[b].0 by {
                        if b < p {
                        } else if a > p {
                            assert(old_res[a - 1].0 < old_res[b - 1].0);
                        } else if a == p {
                            assert(x.0 <= old_res[b - 1].0);
                            assert(old_res[p as int].0 <= old_res[b - 1].0);
                        } else if b == p {
                        } else {
                            assert(old_res[b - 1].0 >= old_res[p as int].0);
                        }
                    }
                    assert forall|l: Lit| res@.contains(l) <==> (old_res.contains(l) || l == x) by {
                        if l == x {
                            assert(res@[p as int] == x);
                        }
                        if res@.contains(l) && l != x {
                            let m = choose|m: int| 0 <= m < res@.len() && res@[m] == l;
                            if m < p {
                                assert(old_res[m] == l);
                            } else {
                                assert(old_res[m - 1] == l);
                            }
                        }
                        if old_res.contains(l) {
                            let m = choose|m: int| 0 <= m < old_res.len() && old_res[m] == l;
                            if m < p {
                                assert(res@[m] == l);
                            } else {
                                assert(res@[m + 1] == l);
                            }
                        }
                    }
                    assert forall|l: Lit| res@.contains(l) <==> self@.take(i + 1).contains(l) by {
                        assert(old_res.contains(l) <==> self@.take(i as int).contains(l));
                        assert(self@.take(i + 1).contains(l) <==> (self@.take(i as int).contains(l) || l == x));
                    }
                }
            }
            i = i + 1;
        }
        proof {
            assert(self@.take(self@.len() as int) =~= self@);
        }
        let ghost orig = self@;
        let mut k: usize = 1;
        while k < res.len()
            invariant
                1 <= k,
                strictly_sorted(res@),
                forall|l: Lit| res@.contains(l) <==> orig.contains(l),
                orig == old(self)@,
                self@ == orig,
                forall|m: int| 1 <= m < k && m < res@.len() ==> #[trigger] res@[m] != res@[m - 1].spec_not(),
            decreases res@.len() - k,
        {
            if res[k] == res[k - 1].not() {
                proof {
                    let l = res@[k - 1];
                    assert(res@.contains(l));
                    assert(res@[k as int] == l.spec_not());
                    assert(res@.contains(l.spec_not()));
                    assert(orig.contains(l));
                    assert(orig.contains(l.spec_not()));
                }
                self.lits = Vec::new();
                return;
            }
            k = k + 1;
        }
        proof {
            assert forall|l: Lit| !(res@.contains(l) && res@.contains(l.spec_not())) by {
                if res@.contains(l) && res@.contains(l.spec_not()) {
                    let a = choose|a: int| 0 <= a < res@.len() && res@[a] == l;
                    let b = choose|b: int| 0 <= b < res@.len() && res@[b] == l.spec_not();
                    if l.0 % 2 == 0 {
                        // l then its negation, adjacent in a strictly sorted sequence
                        if b <= a {
                            assert(res@[b].0 <= res@[a].0);
                        }
                        assert(a < b);
                        if b > a + 1 {
                            assert(res@[a].0 < res@[a + 1].0 < res@[b].0);
                        }
                        assert(res@[b] == res@[b - 1].spec_not());
                    } else {
                        if a <= b {
                            assert(res@[a].0 <= res@[b].0);
                        }
                        assert(b < a);
                        if a > b + 1 {
                            assert(res@[b].0 < res@[b + 1].0 < res@[a].0);
                        }
                        assert(res@[a] == res@[a - 1].spec_not());
                    }
                }
            }
        }
        self.lits = res;
    }

    /// Applies `f` to every literal, in order.
    pub fn map<F: Fn(Lit) -> Lit>(&self, f: F) -> (r: LitVec)
        requires
            forall|i: int| 0 <= i < self@.len() ==> f.requires((self@[i],)),
        ensures
            r@.len() == self@.len(),
            forall|i: int| 0 <= i < self@.len() ==> f.ensures((self@[i],), #[trigger] r@[i]),
    {
        let mut res: Vec<Lit> = Vec::new();
        let mut i: usize = 0;
        while i < self.lits.len()
            invariant
                i <= self@.len(),
                res@.len() == i,
                forall|k: int| 0 <= k < self@.len() ==> f.requires((self@[k],)),
                forall|k: int| 0 <= k < i ==> f.ensures((self@[k],), #[trigger] res@[k]),
            decreases self@.len() - i,
        {
            let l = f(self.lits[i]);
            res.push(l);
            i = i + 1;
        }
        LitVec { lits: res }
    }

    /// The vector of negated literals, in order (a cube turned into the
    /// clause that blocks it, and back).
    pub fn not(&self) -> (r: LitVec)
        ensures
            r@ == negated(self@),
    {
        let mut res: Vec<Lit> = Vec::new();
        let mut i: usize = 0;
        while i < self.lits.len()
            invariant
                i <= self@.len(),
                res@ == negated(self@.take(i as int)),
            decreases self@.len() - i,
        {
            res.push(self.lits[i].not());
            i = i + 1;
            assert(res@ =~= negated(self@.take(i as int)));
        }
        assert(self@.take(self@.len() as int) =~= self@);
        LitVec { lits: res }
    }

    /// Lexicographic order of literal codes; of two vectors where one is a
    /// prefix of the other, the shorter comes first.
    pub fn cmp(&self, other: &LitVec) -> (r: core::cmp::Ordering)
        requires
            sorted(self@),
            sorted(other@),
        ensures
            match r {
                core::cmp::Ordering::Less => lex_order(self@, other@) < 0,
                core::cmp::Ordering::Equal => lex_order(self@, other@) == 0,
                core::cmp::Ordering::Greater => lex_order(self@, other@) > 0,
            },
    {
        let min_index = if self.lits.len() < other.lits.len() {
            self.lits.len()
        } else {
            other.lits.len()
        };
        let mut i: usize = 0;
        while i < min_index
            invariant
                i <= min_index,
                min_index == if self@.len() < other@.len() { self@.len() } else { other@.len() },
                lex_order(self@, other@) == lex_order_at(self@, other@, i),
            decreases min_index - i,
        {
            if self.lits[i].0 < other.lits[i].0 {
                return core::cmp::Ordering::Less;
            } else if self.lits[i].0 > other.lits[i].0 {
                return core::cmp::Ordering::Greater;
            }
            i = i + 1;
        }
        if self.lits.len() < other.lits.len() {
            core::cmp::Ordering::Less
        } else if self.lits.len() == other.lits.len() {
            core::cmp::Ordering::Equal
        } else {
            core::cmp::Ordering::Greater
        }
    }

    /// The literals sorted by code, repeated literals kept (the cube of an
    /// ordered lemma).
    pub fn sorted_copy(&self) -> (r: LitVec)
        ensures
            sorted(r@),
            r@.to_multiset() == self@.to_multiset(),
            r@.len() == self@.len(),
    {
        let mut res: Vec<Lit> = Vec::new();
        let mut i: usize = 0;
        assert(self@.take(0) =~= res@);
        while i < self.lits.len()
            invariant
                i <= self@.len(),
                sorted(res@),
                res@.to_multiset() == self@.take(i as int).to_multiset(),
            decreases self@.len() - i,
        {
            let x = self.lits[i];
            let mut p: usize = 0;
            while p < res.len() && res[p].0 <= x.0
                invariant
                    p <= res@.len(),
                    i < self@.len(),
                    x == self@[i as int],
                    sorted(res@),
                    res@.to_multiset() == self@.take(i as int).to_multiset(),
                    forall|m: int| 0 <= m < p ==> res@[m].0 <= x.0,
                decreases res@.len() - p,
            {
                p = p + 1;
            }
            let ghost old_res = res@;
            res.insert(p, x);
            proof {
                old_res.insert_ensures(p as int, x);
                assert(self@.take(i + 1) =~= self@.take(i as int).push(x));
                assert(res@ == old_res.insert(p as int, x));
                vstd::seq_lib::to_multiset_insert(old_res, p as int, x);
                vstd::seq_lib::to_multiset_build(self@.take(i as int), x);
                assert forall|a: int, b: int| 0 <= a <= b < res@.len() implies res@[a].0 <= res@[b].0 by {
                    if b < p {
                    } else if a > p {
                        assert(old_res[a - 1].0 <= old_res[b - 1].0);
                    } else if a == p {
                        if b > p {
                            assert(old_res[p as int].0 <= old_res[b - 1].0);
                        }
                    } else if b == p {
                    } else {
                        assert(old_res[a].0 <= old_res[p as int].0);
                        assert(old_res[p as int].0 <= old_res[b - 1].0);
                    }
                }
            }
            i = i + 1;
        }
        assert(self@.take(self@.len() as int) =~= self@);
        proof {
            vstd::seq_lib::to_multiset_len(res@);
            vstd::seq_lib::to_multiset_len(self@);
        }
        LitVec { lits: res }
    }

    /// Whether the two vectors hold the same literals in the same order.
    pub fn eq_lits(&self, other: &LitVec) -> (b: bool)
        ensures
            b == (self@ == other@),
    {
        if self.lits.len() != other.lits.len() {
            return false;
        }
        let mut i: usize = 0;
        while i < self.lits.len()
            invariant
                i <= self@.len(),
                self@.len() == other@.len(),
                forall|k: int| 0 <= k < i ==> self@[k] == other@[k],
            decreases self@.len() - i,
        {
            if self.lits[i] != other.lits[i] {
                return false;
            }
            i = i + 1;
        }
        assert(self@ =~= other@);
        true
    }

    /// Whether `self` subsumes `cube`, for two sorted vectors, by one merge pass.
    pub fn ordered_subsume(&self, cube: &LitVec) -> (r: bool)
        requires
            sorted(self@),
            sorted(cube@),
        ensures
            r == spec_subsume(self@, cube@),
    {
        if self.lits.len() > cube.lits.len() {
            return false;
        }
        let mut j: usize = 0;
        let mut i: usize = 0;
        while i < self.lits.len()
            invariant
                i <= self@.len(),
                j <= cube@.len(),
                sorted(self@),
                sorted(cube@),
                self@.len() <= cube@.len(),
                forall|k: int| 0 <= k < i ==> cube@.contains(#[trigger] self@[k]),
                forall|m: int, p: int| 0 <= m < j && i <= p < self@.len() ==> cube@[m].0 < self@[p].0,
            decreases self@.len() - i,
        {
            while j < cube.lits.len() && self.lits[i].0 > cube.lits[j].0
                invariant
                    i < self@.len(),
                    j <= cube@.len(),
                    sorted(self@),
                    forall|m: int, p: int| 0 <= m < j && i <= p < self@.len() ==> cube@[m].0 < self@[p].0,
                decreases cube@.len() - j,
            {
                j = j + 1;
            }
            if j == cube.lits.len() || self.lits[i] != cube.lits[j] {
                proof {
                    let x = self@[i as int];
                    assert forall|m: int| 0 <= m < cube@.len() implies cube@[m] != x by {
                        if m < j {
                            assert(cube@[m].0 < x.0);
                        } else {
                            assert(cube@[j as int].0 <= cube@[m].0);
                        }
                    }
                    assert(!cube@.contains(x));
                }
                return false;
            }
            assert(cube@[j as int] == self@[i as int]);
            i = i + 1;
        }
        true
    }
}

proof fn lemma_execpt_one_none_persists(a: Seq<Lit>, o: Seq<Lit>, n: int)
    requires
        0 <= n <= a.len(),
        execpt_one_fold(a.take(n), o) is None,
    ensures
        execpt_one_fold(a, o) is None,
    decreases a.len() - n,
{
    if n < a.len() {
        assert(a.take(n + 1).drop_last() =~= a.take(n));
        lemma_execpt_one_none_persists(a, o, n + 1);
    } else {
        assert(a.take(n) =~= a);
    }
}

proof fn lemma_ordered_execpt_one_none_persists(a: Seq<Lit>, o: Seq<Lit>, n: int)
    requires
        0 <= n <= a.len(),
        ordered_execpt_one_fold(a.take(n), o) is None,
    ensures
        ordered_execpt_one_fold(a, o) is None,
    decreases a.len() - n,
{
    if n < a.len() {
        assert(a.take(n + 1).drop_last() =~= a.take(n));
        lemma_ordered_execpt_one_none_persists(a, o, n + 1);
    } else {
        assert(a.take(n) =~= a);
    }
}

proof fn lemma_resolve_keep_none_persists(a: Seq<Lit>, o: Seq<Lit>, v: Var, n: int)
    requires
        0 <= n <= a.len(),
        resolve_keep(a.take(n), o, v) is None,
    ensures
        resolve_keep(a, o, v) is None,
    decreases a.len() - n,
{
    if n < a.len() {
        assert(a.take(n + 1).drop_last() =~= a.take(n));
        lemma_resolve_keep_none_persists(a, o, v, n + 1);
    } else {
        assert(a.take(n) =~= a);
    }
}

/// In a sorted vector, once the first literal whose variable is not below
/// `vv` is known, the first literal on `vv` is that one or none.
proof fn lemma_sorted_first_var(y: Seq<Lit>, vv: Var, j: int)
    requires
        sorted(y),
        0 <= j <= y.len(),
        forall|m: int| 0 <= m < j ==> y[m].spec_var().0 < vv.0,
        j == y.len() || y[j].spec_var().0 >= vv.0,
    ensures
        first_var_from(y, vv, 0) == (if j < y.len() && y[j].spec_var() == vv { j } else { y.len() as int }),
{
    if j < y.len() && y[j].spec_var() == vv {
        lemma_first_var_is(y, vv, j, 0);
    } else {
        assert forall|m: int| 0 <= m < y.len() implies y[m].spec_var() != vv by {
            if m >= j {
                assert(y[j].0 <= y[m].0);
            }
        }
        lemma_first_var_is(y, vv, y.len() as int, 0);
    }
}

/// Past the point where every remaining literal of sorted `a` is above all of
/// `c`, `keep_in` gains nothing.
proof fn lemma_keep_in_tail_absent(a: Seq<Lit>, c: Seq<Lit>, k: int, n: int)
    requires
        0 <= k <= n <= a.len(),
        forall|m: int, p: int| 0 <= m < c.len() && k <= p < a.len() ==> c[m].0 < a[p].0,
    ensures
        keep_in(a.take(n), c) == keep_in(a.take(k), c),
    decreases n - k,
{
    if n > k {
        lemma_keep_in_tail_absent(a, c, k, n - 1);
        assert(a.take(n).drop_last() =~= a.take(n - 1));
        assert(a.take(n).last() == a[n - 1]);
        if c.contains(a[n - 1]) {
            let m = choose|m: int| 0 <= m < c.len() && c[m] == a[n - 1];
            assert(c[m].0 < a[n - 1].0);
        }
    }
}

/// Wraps `giputils::hash::GHashSet` (a `std::collections::HashSet` with a
/// fixed-seed `ahash` hasher) and `HashSet::intersection`: both slices are
/// collected into sets and the intersection is collected into a vector. The
/// contract states which literals come back, each once; the order is that of
/// the set's iteration and is left open.
#[verifier::external_body]
fn hash_set_intersection(x: &[Lit], y: &[Lit]) -> (r: Vec<Lit>)
    ensures
        r@.no_duplicates(),
        forall|l: Lit| #[trigger] r@.contains(l) <==> (x@.contains(l) && y@.contains(l)),
{
    let xs = x.iter().collect::<GHashSet<&Lit>>();
    let ys = y.iter().collect::<GHashSet<&Lit>>();
    xs.intersection(&ys).copied().copied().collect()
}

/// Whether `l` occurs in `o`.
pub fn slice_contains(o: &[Lit], l: Lit) -> (b: bool)
    ensures
        b == o@.contains(l),
{
    let mut j: usize = 0;
    while j < o.len()
        invariant
            j <= o@.len(),
            forall|m: int| 0 <= m < j ==> o@[m] != l,
        decreases o@.len() - j,
    {
        if o[j] == l {
            assert(o@[j as int] == l);
            return true;
        }
        j = j + 1;
    }
    false
}

/// Index of the first literal of `o` whose variable is `v`, or `o.len()`.
pub fn first_var_index(o: &[Lit], v: Var) -> (k: usize)
    ensures
        k == first_var_from(o@, v, 0),
{
    let mut j: usize = 0;
    while j < o.len()
        invariant
            j <= o@.len(),
            forall|m: int| 0 <= m < j ==> o@[m].spec_var() != v,
        decreases o@.len() - j,
    {
        if o[j].var() == v {
            proof { lemma_first_var_is(o@, v, j as int, 0); }
            return j;
        }
        j = j + 1;
    }
    proof { lemma_first_var_is(o@, v, j as int, 0); }
    j
}

} // verus!

verus! {

/// Two different literals on one variable are each other's negation.
pub proof fn lemma_same_var_differ_is_not(a: Lit, b: Lit)
    requires
        a.spec_var() == b.spec_var(),
        a != b,
    ensures
        a == b.spec_not(),
        b == a.spec_not(),
{
}

proof fn lemma_execpt_one_fold_facts(a: Seq<Lit>, o: Seq<Lit>)
    ensures
        execpt_one_fold(a, o) == Some(None::<Lit>) ==> forall|i: int| 0 <= i < a.len() ==> o.contains(#[trigger] a[i]),
        execpt_one_fold(a, o) matches Some(Some(d)) ==> {
            &&& a.contains(d)
            &&& o.contains(d.spec_not())
            &&& forall|i: int| 0 <= i < a.len() && a[i] != d ==> o.contains(#[trigger] a[i])
        },
    decreases a.len(),
{
    if a.len() > 0 {
        let p = a.drop_last();
        let x = a.last();
        lemma_execpt_one_fold_facts(p, o);
        lemma_first_var_facts(o, x.spec_var(), 0);
        let k = first_var_from(o, x.spec_var(), 0);
        let st = execpt_one_fold(p, o);
        assert(execpt_one_fold(a, o) == execpt_one_step(st, x, o));
        assert(a[a.len() - 1] == x);
        match st {
            None => {},
            Some(None) => {
                if k < o.len() {
                    if o[k] == x {
                        assert forall|i: int| 0 <= i < a.len() implies o.contains(#[trigger] a[i]) by {
                            if i < p.len() {
                                assert(a[i] == p[i]);
                            } else {
                                assert(o[k] == a[i]);
                            }
                        }
                    } else {
                        lemma_same_var_differ_is_not(o[k], x);
                        assert(o[k] == x.spec_not());
                        assert(a.contains(x));
                        assert(o.contains(x.spec_not()));
                        assert forall|i: int| 0 <= i < a.len() && a[i] != x implies o.contains(#[trigger] a[i]) by {
                            assert(a[i] == p[i]);
                        }
                    }
                }
            },
            Some(Some(d)) => {
                if o.contains(x) {
                    let j = choose|j: int| 0 <= j < p.len() && p[j] == d;
                    assert(a[j] == d);
                    assert forall|i: int| 0 <= i < a.len() && a[i] != d implies o.contains(#[trigger] a[i]) by {
                        if i < p.len() {
                            assert(a[i] == p[i]);
                        }
                    }
                }
            },
        }
    }
}

/// When `subsume_execpt_one` reports success, `a` subsumes `o`; when it
/// names a literal, that literal is in `a`, its negation is in `o`, and every
/// other literal of `a` is in `o`.
pub proof fn lemma_subsume_execpt_one_sound(a: Seq<Lit>, o: Seq<Lit>)
    ensures
        spec_subsume_execpt_one(a, o).0 ==> spec_subsume(a, o) && spec_subsume_execpt_one(a, o).1 is None,
        spec_subsume_execpt_one(a, o).1 matches Some(d) ==> {
            &&& !spec_subsume_execpt_one(a, o).0
            &&& a.contains(d)
            &&& o.contains(d.spec_not())
            &&& forall|i: int| 0 <= i < a.len() && a[i] != d ==> o.contains(#[trigger] a[i])
        },
{
    lemma_execpt_one_fold_facts(a, o);
}

proof fn lemma_execpt_one_fold_complete(a: Seq<Lit>, o: Seq<Lit>)
    requires
        forall|i: int| 0 <= i < a.len() ==> o.contains(#[trigger] a[i]),
        !has_complementary(o),
    ensures
        execpt_one_fold(a, o) == Some(None::<Lit>),
    decreases a.len(),
{
    if a.len() > 0 {
        let p = a.drop_last();
        let x = a.last();
        assert forall|i: int| 0 <= i < p.len() implies o.contains(#[trigger] p[i]) by {
            assert(a[i] == p[i]);
        }
        lemma_execpt_one_fold_complete(p, o);
        lemma_first_var_facts(o, x.spec_var(), 0);
        assert(o.contains(a[a.len() - 1]));
        let j = choose|j: int| 0 <= j < o.len() && o[j] == x;
        let k = first_var_from(o, x.spec_var(), 0);
        if k >= o.len() {
            assert(o[j].spec_var() == x.spec_var());
        } else if o[k] != x {
            lemma_same_var_differ_is_not(o[k], x);
            assert(o.contains(o[k]));
            assert(o.contains(x.spec_not()));
        }
    }
}

/// On a cube `o` free of complementary literals, `subsume_execpt_one`
/// reports plain subsumption exactly when `subsume` holds.
pub proof fn lemma_subsume_execpt_one_complete(a: Seq<Lit>, o: Seq<Lit>)
    requires
        !has_complementary(o),
    ensures
        spec_subsume_execpt_one(a, o).0 == spec_subsume(a, o),
{
    lemma_execpt_one_fold_facts(a, o);
    if spec_subsume(a, o) {
        lemma_execpt_one_fold_complete(a, o);
    }
}

proof fn lemma_first_var_ge_facts(o: Seq<Lit>, v: u32, k: int)
    requires
        0 <= k <= o.len(),
    ensures
        k <= first_var_ge_from(o, v, k) <= o.len(),
        first_var_ge_from(o, v, k) < o.len() ==> o[first_var_ge_from(o, v, k)].spec_var().0 >= v,
        forall|m: int| k <= m < first_var_ge_from(o, v, k) ==> o[m].spec_var().0 < v,
    decreases o.len() - k,
{
    if k < o.len() && o[k].spec_var().0 < v {
        lemma_first_var_ge_facts(o, v, k + 1);
    }
}

proof fn lemma_ordered_fold_facts(a: Seq<Lit>, o: Seq<Lit>)
    ensures
        ordered_execpt_one_fold(a, o) == Some(None::<Lit>) ==> forall|i: int|
            0 <= i < a.len() ==> o.contains(#[trigger] a[i]),
        ordered_execpt_one_fold(a, o) matches Some(Some(d)) ==> {
            &&& a.contains(d)
            &&& o.contains(d.spec_not())
            &&& forall|i: int| 0 <= i < a.len() && a[i] != d ==> o.contains(#[trigger] a[i])
        },
    decreases a.len(),
{
    if a.len() > 0 {
        let p = a.drop_last();
        let x = a.last();
        lemma_ordered_fold_facts(p, o);
        lemma_first_var_ge_facts(o, x.spec_var().0, 0);
        let k = first_var_ge_from(o, x.spec_var().0, 0);
        let st = ordered_execpt_one_fold(p, o);
        assert(ordered_execpt_one_fold(a, o) == ordered_execpt_one_step(st, x, o));
        assert(a[a.len() - 1] == x);
        match st {
            None => {},
            Some(d0) => {
                if k < o.len() {
                    if o[k] == x {
                        assert forall|i: int| 0 <= i < a.len() && (d0 matches Some(d) ==> a[i] != d) implies o.contains(#[trigger] a[i]) by {
                            if i < p.len() {
                                assert(a[i] == p[i]);
                            } else {
                                assert(o[k] == a[i]);
                            }
                        }
                        if let Some(d) = d0 {
                            let j = choose|j: int| 0 <= j < p.len() && p[j] == d;
                            assert(a[j] == d);
                        }
                    } else if d0 is None && o[k].spec_var() == x.spec_var() {
                        lemma_same_var_differ_is_not(o[k], x);
                        assert(o[k] == x.spec_not());
                        assert(a.contains(x));
                        assert(o.contains(x.spec_not()));
                        assert forall|i: int| 0 <= i < a.len() && a[i] != x implies o.contains(#[trigger] a[i]) by {
                            assert(a[i] == p[i]);
                        }
                    }
                }
            },
        }
    }
}

/// The facts of `lemma_subsume_execpt_one_sound` hold of
/// `ordered_subsume_execpt_one` as well.
pub proof fn lemma_ordered_subsume_execpt_one_sound(a: Seq<Lit>, o: Seq<Lit>)
    ensures
        spec_ordered_subsume_execpt_one(a, o).0 ==> spec_subsume(a, o) && spec_ordered_subsume_execpt_one(a, o).1 is None,
        spec_ordered_subsume_execpt_one(a, o).1 matches Some(d) ==> {
            &&& !spec_ordered_subsume_execpt_one(a, o).0
            &&& a.contains(d)
            &&& o.contains(d.spec_not())
            &&& forall|i: int| 0 <= i < a.len() && a[i] != d ==> o.contains(#[trigger] a[i])
        },
{
    lemma_ordered_fold_facts(a, o);
}

proof fn lemma_ordered_fold_complete(a: Seq<Lit>, o: Seq<Lit>)
    requires
        sorted(o),
        forall|i: int| 0 <= i < a.len() ==> o.contains(#[trigger] a[i]),
        !has_complementary(o),
    ensures
        ordered_execpt_one_fold(a, o) == Some(None::<Lit>),
    decreases a.len(),
{
    if a.len() > 0 {
        let p = a.drop_last();
        let x = a.last();
        assert forall|i: int| 0 <= i < p.len() implies o.contains(#[trigger] p[i]) by {
            assert(a[i] == p[i]);
        }
        lemma_ordered_fold_complete(p, o);
        lemma_first_var_ge_facts(o, x.spec_var().0, 0);
        assert(o.contains(a[a.len() - 1]));
        let j = choose|j: int| 0 <= j < o.len() && o[j] == x;
        let k = first_var_ge_from(o, x.spec_var().0, 0);
        if k >= o.len() {
            assert(o[j].spec_var().0 >= x.spec_var().0);
        } else if o[k] != x {
            if k > j {
                assert(o[j].spec_var().0 < x.spec_var().0);
            }
            assert(o[k].0 <= o[j].0);
            assert(o[k].spec_var() == x.spec_var());
            lemma_same_var_differ_is_not(o[k], x);
            assert(o.contains(o[k]));
            assert(o.contains(x.spec_not()));
        }
    }
}

/// For sorted vectors and a cube `o` free of complementary literals,
/// `ordered_subsume_execpt_one` reports plain subsumption exactly when
/// `subsume` holds.
pub proof fn lemma_ordered_subsume_execpt_one_complete(a: Seq<Lit>, o: Seq<Lit>)
    requires
        sorted(o),
        !has_complementary(o),
    ensures
        spec_ordered_subsume_execpt_one(a, o).0 == spec_subsume(a, o),
{
    lemma_ordered_fold_facts(a, o);
    if spec_subsume(a, o) {
        lemma_ordered_fold_complete(a, o);
    }
}

} // verus!

verus! {

pub proof fn lemma_push_contains<A>(s: Seq<A>, x: A)
    ensures
        forall|l: A| #[trigger] s.push(x).contains(l) <==> (s.contains(l) || l == x),
{
    assert forall|l: A| #[trigger] s.push(x).contains(l) <==> (s.contains(l) || l == x) by {
        if s.push(x).contains(l) {
            let j = choose|j: int| 0 <= j < s.len() + 1 && s.push(x)[j] == l;
            if j < s.len() {
                assert(s[j] == l);
            }
        }
        if s.contains(l) {
            let j = choose|j: int| 0 <= j < s.len() && s[j] == l;
            assert(s.push(x)[j] == l);
        }
        assert(s.push(x)[s.len() as int] == x);
    }
}

pub proof fn lemma_drop_last_contains<A>(s: Seq<A>)
    requires
        s.len() > 0,
    ensures
        forall|l: A| #[trigger] s.contains(l) <==> (s.drop_last().contains(l) || l == s.last()),
{
    assert(s.drop_last().push(s.last()) =~= s);
    lemma_push_contains(s.drop_last(), s.last());
}

pub proof fn lemma_concat_contains<A>(a: Seq<A>, b: Seq<A>)
    ensures
        forall|l: A| #[trigger] (a + b).contains(l) <==> (a.contains(l) || b.contains(l)),
{
    assert forall|l: A| #[trigger] (a + b).contains(l) <==> (a.contains(l) || b.contains(l)) by {
        if (a + b).contains(l) {
            let j = choose|j: int| 0 <= j < (a + b).len() && (a + b)[j] == l;
            if j < a.len() {
                assert(a[j] == l);
            } else {
                assert(b[j - a.len()] == l);
            }
        }
        if a.contains(l) {
            let j = choose|j: int| 0 <= j < a.len() && a[j] == l;
            assert((a + b)[j] == l);
        }
        if b.contains(l) {
            let j = choose|j: int| 0 <= j < b.len() && b[j] == l;
            assert((a + b)[a.len() + j] == l);
        }
    }
}

proof fn lemma_without_var_contains(ys: Seq<Lit>, v: Var)
    ensures
        forall|l: Lit|
            #![trigger without_var(ys, v).contains(l)]
            #![trigger ys.contains(l)]
            without_var(ys, v).contains(l) <==> (ys.contains(l) && l.spec_var() != v),
    decreases ys.len(),
{
    if ys.len() > 0 {
        let p = ys.drop_last();
        lemma_without_var_contains(p, v);
        lemma_drop_last_contains(ys);
        lemma_push_contains(without_var(p, v), ys.last());
        assert forall|l: Lit| without_var(ys, v).contains(l) <==> (ys.contains(l) && l.spec_var() != v) by {
            if ys.last().spec_var() != v {
                assert(without_var(ys, v) == without_var(p, v).push(ys.last()));
                assert(without_var(p, v).push(ys.last()).contains(l) <==> (without_var(p, v).contains(l) || l == ys.last()));
            } else {
                assert(without_var(ys, v) == without_var(p, v));
            }
            assert(ys.contains(l) <==> (p.contains(l) || l == ys.last()));
            assert(without_var(p, v).contains(l) <==> (p.contains(l) && l.spec_var() != v));
        }
    }
}

proof fn lemma_resolve_keep_facts(xs: Seq<Lit>, ys: Seq<Lit>, v: Var)
    ensures
        resolve_keep(xs, ys, v) matches Some(k) ==> forall|l: Lit|
            #![trigger k.contains(l)]
            (k.contains(l) ==> xs.contains(l) && l.spec_var() != v) && (xs.contains(l) && l.spec_var() != v
                ==> k.contains(l) || ys.contains(l)),
        resolve_keep(xs, ys, v) is None ==> exists|l: Lit|
            #![trigger xs.contains(l)]
            xs.contains(l) && l.spec_var() != v && ys.contains(l.spec_not()),
    decreases xs.len(),
{
    if xs.len() > 0 {
        let p = xs.drop_last();
        let x = xs.last();
        lemma_resolve_keep_facts(p, ys, v);
        lemma_first_var_facts(ys, x.spec_var(), 0);
        let kk = first_var_from(ys, x.spec_var(), 0);
        assert(xs[xs.len() - 1] == x);
        assert forall|l: Lit| p.contains(l) implies xs.contains(l) by {
            let j = choose|j: int| 0 <= j < p.len() && p[j] == l;
            assert(xs[j] == l);
        }
        assert forall|l: Lit| xs.contains(l) implies p.contains(l) || l == x by {
            let j = choose|j: int| 0 <= j < xs.len() && xs[j] == l;
            if j < p.len() {
                assert(p[j] == l);
            }
        }
        match resolve_keep(p, ys, v) {
            None => {
                let l = choose|l: Lit| p.contains(l) && l.spec_var() != v && ys.contains(l.spec_not());
                assert(xs.contains(l));
            },
            Some(acc) => {
                if x.spec_var() != v && kk < ys.len() {
                    if x == ys[kk].spec_not() {
                        lemma_not_properties(ys[kk]);
                        assert(ys.contains(ys[kk]));
                        assert(xs.contains(x));
                    } else {
                        assert(ys[kk] != x.spec_not());
                        if ys[kk] != x {
                            lemma_same_var_differ_is_not(ys[kk], x);
                        }
                        assert(ys.contains(ys[kk]));
                    }
                }
                if x.spec_var() != v && kk >= ys.len() {
                    let k2 = acc.push(x);
                    assert forall|l: Lit| k2.contains(l) <==> (acc.contains(l) || l == x) by {
                        if k2.contains(l) {
                            let j = choose|j: int| 0 <= j < k2.len() && k2[j] == l;
                            if j < acc.len() {
                                assert(acc[j] == l);
                            }
                        }
                        if acc.contains(l) {
                            let j = choose|j: int| 0 <= j < acc.len() && acc[j] == l;
                            assert(k2[j] == l);
                        }
                        assert(k2[acc.len() as int] == x);
                    }
                }
            },
        }
    }
}

/// Resolution as a set law: the resolvent on `v`, when it exists, holds
/// exactly the literals of either side that are not on `v`.
pub proof fn lemma_resolvent_literals(a: Seq<Lit>, b: Seq<Lit>, v: Var)
    ensures
        spec_resolvent(a, b, v) matches Some(r) ==> forall|l: Lit|
            #![trigger r.contains(l)]
            #![trigger a.contains(l)]
            #![trigger b.contains(l)]
            r.contains(l) <==> ((a.contains(l) || b.contains(l)) && l.spec_var() != v),
{
    let xs = if a.len() < b.len() { a } else { b };
    let ys = if a.len() < b.len() { b } else { a };
    lemma_resolve_keep_facts(xs, ys, v);
    lemma_without_var_contains(ys, v);
    if let Some(k) = resolve_keep(xs, ys, v) {
        let w = without_var(ys, v);
        lemma_concat_contains(k, w);
        assert(spec_resolvent(a, b, v) == Some(k + w));
        assert forall|l: Lit| #![trigger (k + w).contains(l)] (k + w).contains(l) <==> ((a.contains(l) || b.contains(l)) && l.spec_var() != v) by {
            assert((k + w).contains(l) <==> (k.contains(l) || w.contains(l)));
            assert(w.contains(l) <==> (ys.contains(l) && l.spec_var() != v));
            if k.contains(l) {
                assert(xs.contains(l) && l.spec_var() != v);
            }
            if xs.contains(l) && l.spec_var() != v {
                assert(k.contains(l) || ys.contains(l));
            }
        }
        let r = spec_resolvent(a, b, v).unwrap();
        assert(r == k + w);
        assert forall|l: Lit| #![trigger r.contains(l)] r.contains(l) <==> ((a.contains(l) || b.contains(l)) && l.spec_var() != v) by {
            assert((k + w).contains(l) <==> ((a.contains(l) || b.contains(l)) && l.spec_var() != v));
        }
    }
}

/// A resolvent fails to exist only because the two sides hold opposite
/// literals of a variable other than `v`.
pub proof fn lemma_resolvent_none_clash(a: Seq<Lit>, b: Seq<Lit>, v: Var)
    ensures
        spec_resolvent(a, b, v) is None ==> exists|l: Lit|
            #![trigger a.contains(l)]
            a.contains(l) && b.contains(l.spec_not()) && l.spec_var() != v,
{
    let xs = if a.len() < b.len() { a } else { b };
    let ys = if a.len() < b.len() { b } else { a };
    lemma_resolve_keep_facts(xs, ys, v);
    if resolve_keep(xs, ys, v) is None {
        let x = choose|l: Lit| xs.contains(l) && l.spec_var() != v && ys.contains(l.spec_not());
        lemma_not_properties(x);
        if a.len() < b.len() {
            assert(a.contains(x) && b.contains(x.spec_not()));
        } else {
            assert(a.contains(x.spec_not()) && b.contains(x.spec_not().spec_not()));
        }
    }
}

proof fn lemma_resolve_keep_clash(xs: Seq<Lit>, ys: Seq<Lit>, v: Var, x: Lit)
    requires
        xs.contains(x),
        x.spec_var() != v,
        ys.contains(x.spec_not()),
        !ys.contains(x),
    ensures
        resolve_keep(xs, ys, v) is None,
    decreases xs.len(),
{
    let p = xs.drop_last();
    let j = choose|j: int| 0 <= j < xs.len() && xs[j] == x;
    if j < p.len() {
        assert(p[j] == x);
        lemma_resolve_keep_clash(p, ys, v, x);
    } else {
        assert(xs.last() == x);
        if resolve_keep(p, ys, v) is Some {
            lemma_first_var_facts(ys, x.spec_var(), 0);
            let m = choose|m: int| 0 <= m < ys.len() && ys[m] == x.spec_not();
            lemma_not_properties(x);
            let kk = first_var_from(ys, x.spec_var(), 0);
            assert(kk <= m);
            assert(ys[kk] != x);
            lemma_same_var_differ_is_not(ys[kk], x);
            lemma_not_properties(ys[kk]);
        }
    }
}

/// For two clauses free of complementary literals, the resolvent on `v`
/// fails to exist exactly when they clash on another variable.
pub proof fn lemma_resolvent_none_iff_clash(a: Seq<Lit>, b: Seq<Lit>, v: Var)
    requires
        !has_complementary(a),
        !has_complementary(b),
    ensures
        spec_resolvent(a, b, v) is None <==> exists|l: Lit|
            #![trigger a.contains(l)]
            a.contains(l) && b.contains(l.spec_not()) && l.spec_var() != v,
{
    lemma_resolvent_none_clash(a, b, v);
    if exists|l: Lit| #![trigger a.contains(l)] a.contains(l) && b.contains(l.spec_not()) && l.spec_var() != v {
        let l = choose|l: Lit| #![trigger a.contains(l)] a.contains(l) && b.contains(l.spec_not()) && l.spec_var() != v;
        lemma_not_properties(l);
        if a.len() < b.len() {
            lemma_resolve_keep_clash(a, b, v, l);
        } else {
            assert(b.contains(l.spec_not()) && a.contains(l.spec_not().spec_not()));
            lemma_resolve_keep_clash(b, a, v, l.spec_not());
        }
    }
}

/// `ordered_intersection` keeps exactly the common literals, and keeps a
/// sorted vector sorted.
pub proof fn lemma_keep_in_facts(a: Seq<Lit>, c: Seq<Lit>)
    ensures
        forall|l: Lit| keep_in(a, c).contains(l) <==> (a.contains(l) && c.contains(l)),
        sorted(a) ==> sorted(keep_in(a, c)),
    decreases a.len(),
{
    if a.len() > 0 {
        let p = a.drop_last();
        let x = a.last();
        lemma_keep_in_facts(p, c);
        let kp = keep_in(p, c);
        assert(a[a.len() - 1] == x);
        assert forall|l: Lit| p.contains(l) implies a.contains(l) by {
            let j = choose|j: int| 0 <= j < p.len() && p[j] == l;
            assert(a[j] == l);
        }
        assert forall|l: Lit| a.contains(l) implies p.contains(l) || l == x by {
            let j = choose|j: int| 0 <= j < a.len() && a[j] == l;
            if j < p.len() {
                assert(p[j] == l);
            }
        }
        lemma_drop_last_contains(a);
        if c.contains(x) {
            lemma_push_contains(kp, x);
            if sorted(a) {
                assert(sorted(p));
                let k2 = kp.push(x);
                assert forall|i: int, j: int| 0 <= i <= j < k2.len() implies k2[i].0 <= k2[j].0 by {
                    if j == kp.len() && i < j {
                        assert(k2[i] == kp[i]);
                        assert(kp.contains(kp[i]));
                        assert(p.contains(kp[i]));
                        let m = choose|m: int| 0 <= m < p.len() && p[m] == kp[i];
                        assert(a[m] == kp[i]);
                    } else if j < kp.len() {
                        assert(k2[i] == kp[i] && k2[j] == kp[j]);
                    }
                }
            }
        }
    }
}

/// Negating twice gives the vector back.
pub proof fn lemma_negated_involution(s: Seq<Lit>)
    ensures
        negated(negated(s)) == s,
{
    assert forall|i: int| 0 <= i < s.len() implies negated(negated(s))[i] == s[i] by {
        lemma_not_properties(s[i]);
    }
    assert(negated(negated(s)) =~= s);
}

proof fn lemma_lex_from_antisym(a: Seq<Lit>, b: Seq<Lit>, i: int)
    requires
        0 <= i,
    ensures
        lex_order_from(a, b, i) == -lex_order_from(b, a, i),
        lex_order_from(a, b, i) == 0 <==> (a.len() == b.len() && forall|j: int| i <= j < a.len() ==> a[j] == b[j]),
    decreases a.len() - i,
{
    if i < a.len() && i < b.len() && a[i].0 == b[i].0 {
        lemma_lex_from_antisym(a, b, i + 1);
        if a.len() == b.len() && forall|j: int| i + 1 <= j < a.len() ==> a[j] == b[j] {
            assert forall|j: int| i <= j < a.len() implies a[j] == b[j] by {
                if j == i {
                    assert(a[i] == b[i]);
                }
            }
        }
    }
}

/// The comparison of `cmp` is antisymmetric, and reports equality exactly for
/// equal vectors.
pub proof fn lemma_lex_order_laws(a: Seq<Lit>, b: Seq<Lit>)
    ensures
        lex_order(a, b) == -lex_order(b, a),
        lex_order(a, b) == 0 <==> a == b,
{
    lemma_lex_from_antisym(a, b, 0);
    if lex_order(a, b) == 0 {
        assert(a =~= b);
    }
}

proof fn lemma_lex_from_skip(a: Seq<Lit>, b: Seq<Lit>, k: int, i: int)
    requires
        0 <= k <= i,
        i <= a.len(),
        i <= b.len(),
        forall|j: int| k <= j < i ==> a[j] == b[j],
    ensures
        lex_order_from(a, b, k) == lex_order_from(a, b, i),
    decreases i - k,
{
    if k < i {
        assert(a[k] == b[k]);
        lemma_lex_from_skip(a, b, k + 1, i);
    }
}

/// The first position where the codes differ decides the order of literal
/// vectors, whatever the lengths: the vector with the smaller code there comes first.
pub proof fn lemma_lex_order_first_difference(a: Seq<Lit>, b: Seq<Lit>, i: int)
    requires
        0 <= i < a.len(),
        i < b.len(),
        forall|j: int| 0 <= j < i ==> a[j] == b[j],
        a[i].0 < b[i].0,
    ensures
        lex_order(a, b) < 0,
        lex_order(b, a) > 0,
{
    lemma_lex_from_skip(a, b, 0, i);
    lemma_lex_from_antisym(a, b, 0);
}

/// Length decides the order of literal vectors only between a vector and a
/// longer one that it begins: the shorter comes first.
pub proof fn lemma_lex_order_prefix(a: Seq<Lit>, b: Seq<Lit>)
    requires
        a.len() < b.len(),
        forall|j: int| 0 <= j < a.len() ==> a[j] == b[j],
    ensures
        lex_order(a, b) < 0,
        lex_order(b, a) > 0,
{
    lemma_lex_from_skip(a, b, 0, a.len() as int);
    lemma_lex_from_antisym(a, b, 0);
}

/// The sorted arrangement of the literals of `s`.
pub open spec fn sorted_of(s: Seq<Lit>) -> Seq<Lit> {
    choose|t: Seq<Lit>| sorted(t) && t.to_multiset() == s.to_multiset()
}

/// A sorted vector with the literals of `s` is `sorted_of(s)`.
pub proof fn lemma_sorted_of(s: Seq<Lit>, r: Seq<Lit>)
    requires
        sorted(r),
        r.to_multiset() == s.to_multiset(),
    ensures
        r == sorted_of(s),
{
    let t = sorted_of(s);
    assert(sorted(t) && t.to_multiset() == s.to_multiset());
    lemma_sorted_unique(r, t);
}

/// A sorted vector is determined by its literals, counted with repetition.
pub proof fn lemma_sorted_unique(a: Seq<Lit>, b: Seq<Lit>)
    requires
        sorted(a),
        sorted(b),
        a.to_multiset() == b.to_multiset(),
    ensures
        a == b,
    decreases a.len(),
{
    a.to_multiset_ensures();
    b.to_multiset_ensures();
    if a.len() == 0 {
        assert(a =~= b);
    } else {
        let n = a.len() - 1;
        let x = a[n];
        let y = b[n];
        assert(a.contains(x));
        assert(a.to_multiset().count(x) > 0);
        assert(b.contains(x));
        let k = choose|k: int| 0 <= k < b.len() && b[k] == x;
        assert(b[k].0 <= b[n].0);
        assert(b.contains(y));
        assert(b.to_multiset().count(y) > 0);
        assert(a.contains(y));
        let m = choose|m: int| 0 <= m < a.len() && a[m] == y;
        assert(a[m].0 <= a[n].0);
        assert(x == y);
        let a2 = a.drop_last();
        let b2 = b.drop_last();
        a2.to_multiset_ensures();
        b2.to_multiset_ensures();
        assert(a2.push(x) =~= a);
        assert(b2.push(x) =~= b);
        assert(a2.to_multiset() =~= a2.to_multiset().insert(x).remove(x));
        assert(b2.to_multiset() =~= b2.to_multiset().insert(x).remove(x));
        lemma_sorted_unique(a2, b2);
        assert(a =~= b);
    }
}

/// A strictly sorted vector is determined by its set of literals.
pub proof fn lemma_normalized_unique(r1: Seq<Lit>, r2: Seq<Lit>)
    requires
        strictly_sorted(r1),
        strictly_sorted(r2),
        forall|l: Lit| r1.contains(l) <==> r2.contains(l),
    ensures
        r1 == r2,
    decreases r1.len(),
{
    if r1.len() == 0 {
        if r2.len() > 0 {
            assert(r2.contains(r2[0]));
        }
        assert(r1 =~= r2);
    } else {
        assert(r1.contains(r1[0]));
        assert(r2.len() > 0);
        assert(r2.contains(r2[0]));
        let j1 = choose|j: int| 0 <= j < r1.len() && r1[j] == r2[0];
        let j2 = choose|j: int| 0 <= j < r2.len() && r2[j] == r1[0];
        if j1 > 0 {
            assert(r1[0].0 < r1[j1].0);
        }
        if j2 > 0 {
            assert(r2[0].0 < r2[j2].0);
        }
        assert(r1[0] == r2[0]);
        let t1 = r1.drop_first();
        let t2 = r2.drop_first();
        assert forall|l: Lit| t1.contains(l) <==> t2.contains(l) by {
            if t1.contains(l) {
                let j = choose|j: int| 0 <= j < t1.len() && t1[j] == l;
                assert(r1[j + 1] == l);
                assert(r1[0].0 < l.0);
                assert(r2.contains(l));
                let m = choose|m: int| 0 <= m < r2.len() && r2[m] == l;
                assert(r2[0] == r1[0]);
                assert(m != 0);
                assert(t2[m - 1] == l);
            }
            if t2.contains(l) {
                let j = choose|j: int| 0 <= j < t2.len() && t2[j] == l;
                assert(r2[j + 1] == l);
                assert(r2[0].0 < l.0);
                assert(r1.contains(l));
                let m = choose|m: int| 0 <= m < r1.len() && r1[m] == l;
                assert(r2[0] == r1[0]);
                assert(m != 0);
                assert(t1[m - 1] == l);
            }
        }
        lemma_normalized_unique(t1, t2);
        assert(r1.len() == r2.len());
        assert forall|i: int| 0 <= i < r1.len() implies r1[i] == r2[i] by {
            if i > 0 {
                assert(r1[i] == t1[i - 1]);
                assert(r2[i] == t2[i - 1]);
            }
        }
        assert(r1 =~= r2);
    }
}

/// `cls_simp` is idempotent: simplifying a simplified clause changes nothing.
pub proof fn lemma_cls_simp_idempotent(s: Seq<Lit>, r: Seq<Lit>, r2: Seq<Lit>)
    requires
        cls_simp_result(r, s),
        cls_simp_result(r2, r),
    ensures
        r2 == r,
{
    if has_complementary(s) {
        assert(r.len() == 0);
        if has_complementary(r) {
            let l = choose|l: Lit| r.contains(l) && r.contains(l.spec_not());
        }
        assert(strictly_sorted(r2));
        if r2.len() > 0 {
            assert(r2.contains(r2[0]));
        }
        assert(r2 =~= r);
    } else {
        if has_complementary(r) {
            let l = choose|l: Lit| r.contains(l) && r.contains(l.spec_not());
            assert(s.contains(l) && s.contains(l.spec_not()));
        }
        lemma_normalized_unique(r2, r);
    }
}

} // verus!
