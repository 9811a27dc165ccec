use vstd::prelude::*;
use crate::config::IC3Options;
use crate::lit::Lit;
use crate::litvec::{LitVec, keep_in, lemma_keep_in_facts, slice_contains};

verus! {

/// Parameters of generalization by dropping literals: the budget of
/// recursive blocking, the number of counterexamples to generalization to
/// try in a row, and the nesting level (0: plain dropping).
#[derive(Clone, Copy, Debug)]
pub struct DropVarParameter {
    pub limit: usize,
    pub max: usize,
    pub level: usize,
}

impl DropVarParameter {
    pub fn new(limit: usize, max: usize, level: usize) -> (r: DropVarParameter)
        ensures
            r.limit == limit,
            r.max == max,
            r.level == level,
    {
        DropVarParameter { limit, max, level }
    }

    /// The parameter one nesting level down.
    pub fn sub_level(self) -> (r: DropVarParameter)
        requires
            self.level > 0,
        ensures
            r.limit == self.limit,
            r.max == self.max,
            r.level == self.level - 1,
    {
        DropVarParameter { limit: self.limit, max: self.max, level: self.level - 1 }
    }

    /// All zero: plain dropping without counterexamples to generalization.
    pub fn zero() -> (r: DropVarParameter)
        ensures
            r.limit == 0 && r.max == 0 && r.level == 0,
    {
        DropVarParameter { limit: 0, max: 0, level: 0 }
    }
}

/// How to generalize a blocked cube.
#[derive(Clone, Copy, Debug)]
pub enum MicType {
    NoMic,
    DropVar(DropVarParameter),
    EquivPredIterative,
    EquivPredExhaustive,
}

impl MicType {
    /// Dropping literals, with counterexamples to generalization at level 1
    /// (bounded by the options' limit and maximum) unless they are disabled.
    pub fn from_options(options: &IC3Options) -> (r: MicType)
        ensures
            match r {
                MicType::DropVar(p) => if options.no_ctg {
                    p.limit == 0 && p.max == 0 && p.level == 0
                } else {
                    p.limit == options.ctg_limit && p.max == options.ctg_max && p.level == 1
                },
                _ => false,
            },
    {
        let p = if !options.no_ctg {
            DropVarParameter { limit: options.ctg_limit, max: options.ctg_max, level: 1 }
        } else {
            DropVarParameter::zero()
        };
        MicType::DropVar(p)
    }
}

/// Index of the first literal of `f` at or after `k` that `p` does not
/// contain (`f.len()` when there is none).
pub open spec fn first_outside(f: Seq<Lit>, p: Seq<Lit>, k: int) -> int
    decreases f.len() - k,
{
    if k < 0 || k >= f.len() {
        f.len() as int
    } else if !p.contains(f[k]) {
        k
    } else {
        first_outside(f, p, k + 1)
    }
}

proof fn lemma_first_outside_is(f: Seq<Lit>, p: Seq<Lit>, j: int, k: int)
    requires
        0 <= k <= j <= f.len(),
        forall|m: int| k <= m < j ==> p.contains(#[trigger] f[m]),
        j == f.len() || !p.contains(f[j]),
    ensures
        first_outside(f, p, k) == j,
    decreases j - k,
{
    if k < j {
        lemma_first_outside_is(f, p, j, k + 1);
    }
}

/// What a successful drop leaves: the literals of `cube` that the smaller
/// blocked cube kept, in the order of `cube`, and where to continue: the
/// first of them not among the literals already tried.
pub open spec fn down_success_spec(cube: Seq<Lit>, i: int, new_cube: Seq<Lit>) -> (Seq<Lit>, int) {
    let f = keep_in(cube, new_cube);
    (f, first_outside(f, cube.take(i), 0))
}

/// The check that `handle_down_success` makes: the literal it continues with
/// is not the one just dropped.
pub open spec fn down_success_ok(cube: Seq<Lit>, i: int, new_cube: Seq<Lit>) -> bool {
    let (f, ni) = down_success_spec(cube, i, new_cube);
    &&& 0 <= i < cube.len()
    &&& ni < f.len() ==> f[ni] != cube[i]
}

/// Whether `l` occurs among the first `n` literals of `s`.
fn prefix_contains(s: &[Lit], n: usize, l: Lit) -> (b: bool)
    requires
        n <= s@.len(),
    ensures
        b == s@.take(n as int).contains(l),
{
    let mut j: usize = 0;
    while j < n
        invariant
            j <= n <= s@.len(),
            forall|m: int| 0 <= m < j ==> s@[m] != l,
        decreases n - j,
    {
        if s[j] == l {
            assert(s@.take(n as int)[j as int] == l);
            return true;
        }
        j = j + 1;
    }
    proof {
        if s@.take(n as int).contains(l) {
            let m = choose|m: int| 0 <= m < n && s@.take(n as int)[m] == l;
            assert(s@[m] == l);
        }
    }
    false
}

/// Evaluates `down_success_ok`.
pub fn check_down_success(cube: &LitVec, i: usize, new_cube: &LitVec) -> (b: bool)
    ensures
        b == down_success_ok(cube@, i as int, new_cube@),
{
    if i >= cube.len() {
        return false;
    }
    let (f, ni) = down_success_parts(cube, i, new_cube);
    if ni < f.len() {
        f.get(ni) != cube.get(i)
    } else {
        true
    }
}

fn down_success_parts(cube: &LitVec, i: usize, new_cube: &LitVec) -> (r: (LitVec, usize))
    requires
        i < cube@.len(),
    ensures
        r.0@ == down_success_spec(cube@, i as int, new_cube@).0,
        r.1 as int == down_success_spec(cube@, i as int, new_cube@).1,
{
    let mut f = LitVec::new();
    let mut k: usize = 0;
    while k < cube.len()
        invariant
            k <= cube@.len(),
            f@ == keep_in(cube@.take(k as int), new_cube@),
        decreases cube@.len() - k,
    {
        let l = cube.get(k);
        proof {
            assert(cube@.take(k + 1).drop_last() =~= cube@.take(k as int));
            assert(cube@.take(k + 1).last() == l);
        }
        if new_cube.contains(l) {
            f.push(l);
        }
        k = k + 1;
    }
    assert(cube@.take(cube@.len() as int) =~= cube@);
    let n = i;
    let mut j: usize = 0;
    while j < f.len()
        invariant
            j <= f@.len(),
            n == i,
            n < cube@.len(),
            f@ == keep_in(cube@, new_cube@),
            forall|m: int| 0 <= m < j ==> cube@.take(i as int).contains(#[trigger] f@[m]),
        decreases f@.len() - j,
    {
        if !prefix_contains(cube.as_slice(), n, f.get(j)) {
            proof { lemma_first_outside_is(f@, cube@.take(i as int), j as int, 0); }
            return (f, j);
        }
        j = j + 1;
    }
    proof { lemma_first_outside_is(f@, cube@.take(i as int), j as int, 0); }
    (f, j)
}

/// After dropping the literal at `i` succeeded with the smaller cube
/// `new_cube`: the literals of `cube` in `new_cube`, in the order of `cube`,
/// and the index to continue from. Requires the check of `down_success_ok`.
pub fn handle_down_success(cube: &LitVec, i: usize, new_cube: &LitVec) -> (r: (LitVec, usize))
    requires
        down_success_ok(cube@, i as int, new_cube@),
    ensures
        r.0@ == down_success_spec(cube@, i as int, new_cube@).0,
        r.1 as int == down_success_spec(cube@, i as int, new_cube@).1,
{
    down_success_parts(cube, i, new_cube)
}

/// The outer loop of generalization by dropping literals, as a state: the
/// current cube, the position of the next literal to try, and the literals
/// that could not be dropped. The caller asks the solver whether the cube
/// without the current literal can be blocked and hands the answer back.
pub struct DropVarSearch {
    cube: LitVec,
    i: usize,
    keep: LitVec,
}

impl DropVarSearch {
    pub closed spec fn cube_view(&self) -> Seq<Lit> {
        self.cube@
    }

    pub closed spec fn index(&self) -> int {
        self.i as int
    }

    pub closed spec fn keep_view(&self) -> Seq<Lit> {
        self.keep@
    }

    /// Starts with `cube`, nothing tried yet.
    pub fn new(cube: LitVec) -> (r: DropVarSearch)
        ensures
            r.cube_view() == cube@,
            r.index() == 0,
            r.keep_view() == Seq::<Lit>::empty(),
    {
        DropVarSearch { cube, i: 0, keep: LitVec::new() }
    }

    /// Moves past the literals that could not be dropped, and returns the cube
    /// without the current literal, or `None` when every literal was tried.
    pub fn next_candidate(&mut self) -> (r: Option<LitVec>)
        ensures
            final(self).cube_view() == old(self).cube_view(),
            final(self).keep_view() == old(self).keep_view(),
            old(self).index() <= final(self).index(),
            forall|m: int| old(self).index() <= m < final(self).index() && m < old(self).cube_view().len()
                ==> old(self).keep_view().contains(#[trigger] old(self).cube_view()[m]),
            match r {
                Some(c) => {
                    &&& final(self).index() < final(self).cube_view().len()
                    &&& !final(self).keep_view().contains(final(self).cube_view()[final(self).index()])
                    &&& c@ == final(self).cube_view().remove(final(self).index())
                },
                None => final(self).index() >= final(self).cube_view().len(),
            },
    {
        while self.i < self.cube.len() && self.keep.contains(self.cube.get(self.i))
            invariant
                self.cube@ == old(self).cube@,
                self.keep@ == old(self).keep@,
                old(self).i <= self.i,
                forall|m: int| old(self).i <= m < self.i && m < old(self).cube@.len()
                    ==> old(self).keep@.contains(#[trigger] old(self).cube@[m]),
            decreases self.cube@.len() - self.i,
        {
            self.i = self.i + 1;
        }
        if self.i >= self.cube.len() {
            return None;
        }
        let mut removed = LitVec::new();
        let mut k: usize = 0;
        while k < self.cube.len()
            invariant
                k <= self.cube@.len(),
                self.i < self.cube@.len(),
                removed@ == (if k <= self.i { self.cube@.take(k as int) } else { self.cube@.take(k as int).remove(self.i as int) }),
            decreases self.cube@.len() - k,
        {
            if k != self.i {
                removed.push(self.cube.get(k));
            }
            k = k + 1;
            assert(removed@ =~= (if k <= self.i { self.cube@.take(k as int) } else { self.cube@.take(k as int).remove(self.i as int) }));
        }
        assert(self.cube@.take(self.cube@.len() as int) =~= self.cube@);
        Some(removed)
    }

    /// Takes the answer for the current literal: `Some(c)` when the cube
    /// without it was blocked with the smaller cube `c` (which must pass
    /// `down_success_ok`), `None` when it was not, so the literal is kept.
    pub fn on_result(&mut self, res: Option<LitVec>)
        requires
            old(self).index() < old(self).cube_view().len(),
            res matches Some(c) ==> down_success_ok(old(self).cube_view(), old(self).index(), c@),
        ensures
            match res {
                Some(c) => {
                    &&& final(self).cube_view() == down_success_spec(old(self).cube_view(), old(self).index(), c@).0
                    &&& final(self).index() == down_success_spec(old(self).cube_view(), old(self).index(), c@).1
                    &&& final(self).keep_view() == old(self).keep_view()
                },
                None => {
                    &&& final(self).cube_view() == old(self).cube_view()
                    &&& final(self).index() == old(self).index() + 1
                    &&& final(self).keep_view() == old(self).keep_view().push(old(self).cube_view()[old(self).index()])
                },
            },
    {
        match res {
            Some(c) => {
                let (nc, ni) = handle_down_success(&self.cube, self.i, &c);
                self.cube = nc;
                self.i = ni;
            },
            None => {
                let _n = self.cube.len();
                let l = self.cube.get(self.i);
                self.keep.push(l);
                self.i = self.i + 1;
            },
        }
    }

    /// Whether every literal was tried.
    pub fn is_done(&self) -> (b: bool)
        ensures
            b == (self.index() >= self.cube_view().len()),
    {
        self.i >= self.cube.len()
    }

    /// The generalized cube.
    pub fn into_cube(self) -> (r: LitVec)
        ensures
            r@ == self.cube_view(),
    {
        self.cube
    }
}

/// Dropping only ever removes literals: the cube after a successful drop holds
/// only literals of the cube before it.
pub proof fn lemma_drop_shrinks(cube: Seq<Lit>, i: int, new_cube: Seq<Lit>)
    ensures
        forall|l: Lit| #[trigger] down_success_spec(cube, i, new_cube).0.contains(l) ==> cube.contains(l) && new_cube.contains(l),
        down_success_spec(cube, i, new_cube).0.len() <= cube.len(),
{
    lemma_keep_in_facts(cube, new_cube);
    lemma_keep_in_len(cube, new_cube);
}

proof fn lemma_keep_in_len(a: Seq<Lit>, c: Seq<Lit>)
    ensures
        keep_in(a, c).len() <= a.len(),
    decreases a.len(),
{
    if a.len() > 0 {
        lemma_keep_in_len(a.drop_last(), c);
    }
}

} // verus!
