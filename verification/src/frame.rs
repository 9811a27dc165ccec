use vstd::prelude::*;
use crate::lit::Lit;
use crate::litvec::{LitVec, spec_subsume, sorted, negated, lemma_push_contains, lemma_concat_contains, sorted_of, lemma_sorted_of};

verus! {

/// A lemma of a frame: a sorted cube that the frame blocks, with the proof
/// obligation (of the caller's type `P`) it came from.
pub struct FrameLemma<P> {
    lemma: LitVec,
    po: Option<P>,
    _ctp: Option<LitVec>,
}

impl<P> FrameLemma<P> {
    pub closed spec fn cube_view(&self) -> Seq<Lit> {
        self.lemma@
    }

    pub closed spec fn po_view(&self) -> Option<P> {
        self.po
    }

    /// The counterexample to propagation stored with the lemma, if any.
    pub closed spec fn ctp_view(&self) -> Option<Seq<Lit>> {
        match self._ctp {
            Some(c) => Some(c@),
            None => None,
        }
    }

    pub fn new(lemma: LitVec, po: Option<P>, ctp: Option<LitVec>) -> (r: FrameLemma<P>)
        ensures
            r.cube_view() == lemma@,
            r.po_view() == po,
            r.ctp_view() == (match ctp {
                Some(c) => Some(c@),
                None => None::<Seq<Lit>>,
            }),
    {
        FrameLemma { lemma, po, _ctp: ctp }
    }

    /// The proof obligation the lemma came from.
    pub fn po(&self) -> (r: &Option<P>)
        ensures
            *r == self.po_view(),
    {
        &self.po
    }

    /// Replaces the proof obligation.
    pub fn set_po(&mut self, po: Option<P>)
        ensures
            final(self).po_view() == po,
            final(self).cube_view() == old(self).cube_view(),
    {
        self.po = po;
    }

    /// The blocked cube.
    pub fn cube(&self) -> (r: &LitVec)
        ensures
            r@ == self.cube_view(),
    {
        &self.lemma
    }

    /// The counterexample to propagation stored with the lemma.
    pub fn ctp(&self) -> (r: &Option<LitVec>)
        ensures
            (match *r {
                Some(c) => Some(c@),
                None => None::<Seq<Lit>>,
            }) == self.ctp_view(),
    {
        &self._ctp
    }
}

/// The lemmas of one frame, in order.
pub struct Frame<P> {
    lemmas: Vec<FrameLemma<P>>,
}

pub open spec fn cubes_of<P>(ls: Seq<FrameLemma<P>>) -> Seq<Seq<Lit>> {
    ls.map_values(|l: FrameLemma<P>| l.cube_view())
}

impl<P> Frame<P> {
    /// The cubes of the lemmas, in order.
    pub closed spec fn cubes(&self) -> Seq<Seq<Lit>> {
        cubes_of(self.lemmas@)
    }

    /// The proof obligations of the lemmas, in order.
    pub closed spec fn pos(&self) -> Seq<Option<P>> {
        self.lemmas@.map_values(|l: FrameLemma<P>| l.po_view())
    }

    pub fn new() -> (r: Frame<P>)
        ensures
            r.cubes() == Seq::<Seq<Lit>>::empty(),
    {
        let r = Frame { lemmas: Vec::new() };
        assert(r.cubes() =~= Seq::<Seq<Lit>>::empty());
        r
    }

    pub fn len(&self) -> (n: usize)
        ensures
            n == self.cubes().len(),
    {
        self.lemmas.len()
    }

    pub fn is_empty(&self) -> (b: bool)
        ensures
            b == (self.cubes().len() == 0),
    {
        self.lemmas.len() == 0
    }

    pub fn get(&self, j: usize) -> (r: &FrameLemma<P>)
        requires
            j < self.cubes().len(),
        ensures
            r.cube_view() == self.cubes()[j as int],
    {
        &self.lemmas[j]
    }

    pub fn push(&mut self, l: FrameLemma<P>)
        ensures
            final(self).cubes() == old(self).cubes().push(l.cube_view()),
            final(self).pos() == old(self).pos().push(l.po_view()),
    {
        let ghost c = l.cube_view();
        let ghost o = l.po_view();
        self.lemmas.push(l);
        assert(self.cubes() =~= old(self).cubes().push(c));
        assert(self.pos() =~= old(self).pos().push(o));
    }

    /// Removes lemma `j`, moving the last lemma into its place.
    pub fn swap_remove(&mut self, j: usize) -> (r: FrameLemma<P>)
        requires
            j < old(self).cubes().len(),
        ensures
            final(self).cubes() == swap_removed(old(self).cubes(), j as int),
            final(self).pos() == swap_removed(old(self).pos(), j as int),
            r.cube_view() == old(self).cubes()[j as int],
            r.po_view() == old(self).pos()[j as int],
    {
        let r = self.lemmas.swap_remove(j);
        assert(self.cubes() =~= swap_removed(old(self).cubes(), j as int));
        assert(self.pos() =~= swap_removed(old(self).pos(), j as int));
        r
    }
}

/// `s` with element `j` replaced by the last one and the last one dropped.
pub open spec fn swap_removed<A>(s: Seq<A>, j: int) -> Seq<A> {
    s.update(j, s.last()).drop_last()
}

/// The frame with cubes `c` and proof obligations `p` holds a lemma with cube
/// `cube` and proof obligation `po`.
pub open spec fn holds_lemma<P>(c: Seq<Seq<Lit>>, p: Seq<Option<P>>, cube: Seq<Lit>, po: Option<P>) -> bool {
    exists|y: int| 0 <= y < c.len() && c[y] == cube && p[y] == po
}

/// Each lemma of the frame `(c1, p1)` is, with its proof obligation, a lemma
/// of the frame `(c0, p0)`.
pub open spec fn kept_with_pos<P>(c1: Seq<Seq<Lit>>, p1: Seq<Option<P>>, c0: Seq<Seq<Lit>>, p0: Seq<Option<P>>) -> bool {
    forall|x: int| 0 <= x < c1.len() ==> #[trigger] holds_lemma(c0, p0, c1[x], p1[x])
}

proof fn lemma_kept_refl<P>(c: Seq<Seq<Lit>>, p: Seq<Option<P>>)
    ensures
        kept_with_pos(c, p, c, p),
{
    assert forall|x: int| 0 <= x < c.len() implies #[trigger] holds_lemma(c, p, c[x], p[x]) by {
        assert(c[x] == c[x] && p[x] == p[x]);
    }
}

proof fn lemma_kept_trans<P>(
    c2: Seq<Seq<Lit>>,
    p2: Seq<Option<P>>,
    c1: Seq<Seq<Lit>>,
    p1: Seq<Option<P>>,
    c0: Seq<Seq<Lit>>,
    p0: Seq<Option<P>>,
)
    requires
        kept_with_pos(c2, p2, c1, p1),
        kept_with_pos(c1, p1, c0, p0),
    ensures
        kept_with_pos(c2, p2, c0, p0),
{
    assert forall|x: int| 0 <= x < c2.len() implies #[trigger] holds_lemma(c0, p0, c2[x], p2[x]) by {
        assert(holds_lemma(c1, p1, c2[x], p2[x]));
        let y = choose|y: int| 0 <= y < c1.len() && c1[y] == c2[x] && p1[y] == p2[x];
        assert(holds_lemma(c0, p0, c1[y], p1[y]));
    }
}

proof fn lemma_kept_swap_removed<P>(c1: Seq<Seq<Lit>>, p1: Seq<Option<P>>, c0: Seq<Seq<Lit>>, p0: Seq<Option<P>>, j: int)
    requires
        kept_with_pos(c1, p1, c0, p0),
        0 <= j < c1.len(),
        p1.len() == c1.len(),
    ensures
        kept_with_pos(swap_removed(c1, j), swap_removed(p1, j), c0, p0),
{
    let c2 = swap_removed(c1, j);
    let p2 = swap_removed(p1, j);
    assert forall|x: int| 0 <= x < c2.len() implies #[trigger] holds_lemma(c0, p0, c2[x], p2[x]) by {
        let k = if x == j { c1.len() - 1 } else { x };
        assert(c2[x] == c1[k] && p2[x] == p1[k]);
        assert(holds_lemma(c0, p0, c1[k], p1[k]));
    }
}

/// Index of the first cube of `ls` at or after `j` that subsumes `c`
/// (`ls.len()` when there is none).
pub open spec fn first_subsumer_from(ls: Seq<Seq<Lit>>, c: Seq<Lit>, j: int) -> int
    decreases ls.len() - j,
{
    if j < 0 || j >= ls.len() {
        ls.len() as int
    } else if spec_subsume(ls[j], c) {
        j
    } else {
        first_subsumer_from(ls, c, j + 1)
    }
}

/// The first frame at or after `i` holding a cube that subsumes `c`, with the
/// index of the first such cube in it.
pub open spec fn first_frame_subsumer_from(fs: Seq<Seq<Seq<Lit>>>, c: Seq<Lit>, i: int) -> Option<(usize, usize)>
    decreases fs.len() - i,
{
    if i < 0 || i >= fs.len() {
        None
    } else if first_subsumer_from(fs[i], c, 0) < fs[i].len() {
        Some((i as usize, first_subsumer_from(fs[i], c, 0) as usize))
    } else {
        first_frame_subsumer_from(fs, c, i + 1)
    }
}

/// Where `trivial_contained` finds a lemma subsuming `c`: in the frames from
/// `frame` on (when a frame is given), else in the infinite frame.
pub open spec fn contained_spec(fs: Seq<Seq<Seq<Lit>>>, inf: Seq<Seq<Lit>>, frame: Option<usize>, c: Seq<Lit>) -> Option<(Option<usize>, usize)> {
    let in_frames = match frame {
        Some(f) => first_frame_subsumer_from(fs, c, f as int),
        None => None,
    };
    match in_frames {
        Some((i, j)) => Some((Some(i), j)),
        None => if first_subsumer_from(inf, c, 0) < inf.len() {
            Some((None, first_subsumer_from(inf, c, 0) as usize))
        } else {
            None
        },
    }
}

/// What `first_subsumer_from` finds: the first cube from `j` on that
/// subsumes `c`, or the length where there is none.
proof fn lemma_first_subsumer_facts(ls: Seq<Seq<Lit>>, c: Seq<Lit>, j: int)
    requires
        0 <= j <= ls.len(),
    ensures
        j <= first_subsumer_from(ls, c, j) <= ls.len(),
        first_subsumer_from(ls, c, j) < ls.len() ==> spec_subsume(ls[first_subsumer_from(ls, c, j)], c),
        forall|m: int| j <= m < first_subsumer_from(ls, c, j) ==> !spec_subsume(#[trigger] ls[m], c),
    decreases ls.len() - j,
{
    if j < ls.len() && !spec_subsume(ls[j], c) {
        lemma_first_subsumer_facts(ls, c, j + 1);
    }
}

/// What `first_frame_subsumer_from` finds: the first frame from `i` on
/// holding a cube that subsumes `c`, with the first such cube in it.
proof fn lemma_first_frame_subsumer_facts(fs: Seq<Seq<Seq<Lit>>>, c: Seq<Lit>, i: int)
    requires
        0 <= i,
        fs.len() <= usize::MAX,
        forall|k: int| 0 <= k < fs.len() ==> #[trigger] fs[k].len() <= usize::MAX,
    ensures
        match first_frame_subsumer_from(fs, c, i) {
            Some((a, b)) => {
                &&& i <= a < fs.len()
                &&& b < fs[a as int].len()
                &&& spec_subsume(fs[a as int][b as int], c)
                &&& forall|y: int| 0 <= y < b ==> !spec_subsume(#[trigger] fs[a as int][y], c)
                &&& forall|k: int, y: int| i <= k < a && 0 <= y < fs[k].len() ==> !spec_subsume(#[trigger] fs[k][y], c)
            },
            None => forall|k: int, y: int| i <= k < fs.len() && 0 <= y < fs[k].len() ==> !spec_subsume(#[trigger] fs[k][y], c),
        },
    decreases fs.len() - i,
{
    if i < fs.len() {
        lemma_first_subsumer_facts(fs[i], c, 0);
        lemma_first_frame_subsumer_facts(fs, c, i + 1);
    }
}

/// Where `trivial_contained` finds a lemma subsuming `c`, searching from
/// frame `f` on: the first frame from `f` itself on that holds one, at the
/// first such lemma; only where no frame from `f` on holds one, the first
/// such lemma of the infinite frame; else nothing.
pub proof fn lemma_contained_first(fs: Seq<Seq<Seq<Lit>>>, inf: Seq<Seq<Lit>>, f: usize, c: Seq<Lit>)
    requires
        fs.len() <= usize::MAX,
        forall|k: int| 0 <= k < fs.len() ==> #[trigger] fs[k].len() <= usize::MAX,
        inf.len() <= usize::MAX,
    ensures
        match contained_spec(fs, inf, Some(f), c) {
            Some((Some(i), j)) => {
                &&& f <= i < fs.len()
                &&& j < fs[i as int].len()
                &&& spec_subsume(fs[i as int][j as int], c)
                &&& forall|y: int| 0 <= y < j ==> !spec_subsume(#[trigger] fs[i as int][y], c)
                &&& forall|k: int, y: int| f <= k < i && 0 <= y < fs[k].len() ==> !spec_subsume(#[trigger] fs[k][y], c)
            },
            Some((None, j)) => {
                &&& forall|k: int, y: int| f <= k < fs.len() && 0 <= y < fs[k].len() ==> !spec_subsume(#[trigger] fs[k][y], c)
                &&& j < inf.len()
                &&& spec_subsume(inf[j as int], c)
                &&& forall|y: int| 0 <= y < j ==> !spec_subsume(#[trigger] inf[y], c)
            },
            None => {
                &&& forall|k: int, y: int| f <= k < fs.len() && 0 <= y < fs[k].len() ==> !spec_subsume(#[trigger] fs[k][y], c)
                &&& forall|y: int| 0 <= y < inf.len() ==> !spec_subsume(#[trigger] inf[y], c)
            },
        },
{
    lemma_first_frame_subsumer_facts(fs, c, f as int);
    lemma_first_subsumer_facts(inf, c, 0);
}

/// Without a frame to start from, `trivial_contained` searches the infinite
/// frame alone, and finds its first lemma that subsumes `c`.
pub proof fn lemma_contained_inf(fs: Seq<Seq<Seq<Lit>>>, inf: Seq<Seq<Lit>>, c: Seq<Lit>)
    requires
        inf.len() <= usize::MAX,
    ensures
        match contained_spec(fs, inf, None, c) {
            Some((Some(_), _)) => false,
            Some((None, j)) => {
                &&& j < inf.len()
                &&& spec_subsume(inf[j as int], c)
                &&& forall|y: int| 0 <= y < j ==> !spec_subsume(#[trigger] inf[y], c)
            },
            None => forall|y: int| 0 <= y < inf.len() ==> !spec_subsume(#[trigger] inf[y], c),
        },
{
    lemma_first_subsumer_facts(inf, c, 0);
}

proof fn lemma_first_subsumer_is(ls: Seq<Seq<Lit>>, c: Seq<Lit>, j: int, k: int)
    requires
        0 <= k <= j <= ls.len(),
        forall|m: int| k <= m < j ==> !spec_subsume(#[trigger] ls[m], c),
        j == ls.len() || spec_subsume(ls[j], c),
    ensures
        first_subsumer_from(ls, c, k) == j,
    decreases j - k,
{
    if k < j {
        lemma_first_subsumer_is(ls, c, j, k + 1);
    }
}

impl<P> Frame<P> {
    /// Index of the first lemma subsuming `c`, or the number of lemmas.
    pub fn first_subsumer(&self, c: &LitVec) -> (j: usize)
        ensures
            j == first_subsumer_from(self.cubes(), c@, 0),
            j <= self.cubes().len(),
    {
        let mut j: usize = 0;
        while j < self.lemmas.len()
            invariant
                j <= self.cubes().len(),
                forall|m: int| 0 <= m < j ==> !spec_subsume(#[trigger] self.cubes()[m], c@),
            decreases self.cubes().len() - j,
        {
            if self.lemmas[j].lemma.subsume(c.as_slice()) {
                proof { lemma_first_subsumer_is(self.cubes(), c@, j as int, 0); }
                return j;
            }
            j = j + 1;
        }
        proof { lemma_first_subsumer_is(self.cubes(), c@, j as int, 0); }
        j
    }
}

/// What scanning one frame for a new lemma finds: nothing, a lemma equal to
/// it (at the index given), or a lemma strictly subsuming it.
#[derive(Clone, Copy, PartialEq, Eq, Structural, Debug)]
pub enum ScanHit {
    NoHit,
    Equal(usize),
    Strict,
}

/// Scanning the lemmas `ls` of a frame from index `j` for the new lemma `c`:
/// a lemma that subsumes `c` stops the scan; a lemma that `c` subsumes is
/// removed (the last lemma takes its place and is looked at next).
pub open spec fn scan_frame_spec(ls: Seq<Seq<Lit>>, c: Seq<Lit>, j: int) -> (Seq<Seq<Lit>>, ScanHit)
    decreases ls.len() - j,
{
    if j < 0 || j >= ls.len() {
        (ls, ScanHit::NoHit)
    } else if spec_subsume(ls[j], c) {
        if ls[j] == c {
            (ls, ScanHit::Equal(j as usize))
        } else {
            (ls, ScanHit::Strict)
        }
    } else if spec_subsume(c, ls[j]) {
        scan_frame_spec(swap_removed(ls, j), c, j)
    } else {
        scan_frame_spec(ls, c, j + 1)
    }
}

impl<P> Frame<P> {
    /// Scans this frame for the new lemma `c` (see `scan_frame_spec`).
    pub fn scan_for(&mut self, c: &LitVec) -> (r: ScanHit)
        ensures
            (final(self).cubes(), r) == scan_frame_spec(old(self).cubes(), c@, 0),
            kept_with_pos(final(self).cubes(), final(self).pos(), old(self).cubes(), old(self).pos()),
    {
        let mut j: usize = 0;
        proof { lemma_kept_refl(self.cubes(), self.pos()); }
        while j < self.lemmas.len()
            invariant
                j <= self.cubes().len(),
                scan_frame_spec(old(self).cubes(), c@, 0) == scan_frame_spec(self.cubes(), c@, j as int),
                kept_with_pos(self.cubes(), self.pos(), old(self).cubes(), old(self).pos()),
            decreases self.cubes().len() - j,
        {
            assert(self.cubes()[j as int] == self.lemmas@[j as int].cube_view());
            if self.lemmas[j].lemma.subsume(c.as_slice()) {
                if self.lemmas[j].lemma.eq_lits(c) {
                    return ScanHit::Equal(j);
                } else {
                    return ScanHit::Strict;
                }
            }
            if c.subsume(self.lemmas[j].lemma.as_slice()) {
                proof { lemma_kept_swap_removed(self.cubes(), self.pos(), old(self).cubes(), old(self).pos(), j as int); }
                self.swap_remove(j);
            } else {
                j = j + 1;
            }
        }
        ScanHit::NoHit
    }
}

/// How scanning the frames for a new lemma ends: at a lemma equal to it
/// (frame, index), at a lemma strictly subsuming it (frame, and whether a
/// frame below the target was found empty on the way), or after frame 1
/// (whether an empty frame was found).
#[derive(Clone, Copy, PartialEq, Eq, Structural, Debug)]
pub enum ScanOutcome {
    Equal(usize, usize),
    Strict(usize, bool),
    Done(bool),
}

/// Scanning frames `i`, `i - 1`, ..., 1 for a new lemma `c` bound for frame
/// `frame`, each with `scan_frame_spec`; `inv` records whether a scanned frame
/// other than `frame` was left empty.
pub open spec fn scan_frames_spec(fs: Seq<Seq<Seq<Lit>>>, c: Seq<Lit>, i: int, frame: int, inv: bool) -> (
    Seq<Seq<Seq<Lit>>>,
    ScanOutcome,
)
    decreases i,
{
    if i < 1 || i >= fs.len() {
        (fs, ScanOutcome::Done(inv))
    } else {
        let (ls, hit) = scan_frame_spec(fs[i], c, 0);
        let fs1 = fs.update(i, ls);
        match hit {
            ScanHit::Equal(j) => (fs1, ScanOutcome::Equal(i as usize, j)),
            ScanHit::Strict => (fs1, ScanOutcome::Strict(i as usize, inv)),
            ScanHit::NoHit => scan_frames_spec(fs1, c, i - 1, frame, inv || (i != frame && ls.len() == 0)),
        }
    }
}

/// A solver that a clause goes to: the solver of a frame, or the solver of
/// the bad states.
#[derive(Clone, Copy, PartialEq, Eq, Structural, Debug)]
pub enum SolverTarget {
    Frame(usize),
    Bad,
}

/// A clause to add to a solver.
pub struct ClauseAction {
    pub target: SolverTarget,
    pub clause: LitVec,
}

pub open spec fn action_view(a: ClauseAction) -> (SolverTarget, Seq<Lit>) {
    (a.target, a.clause@)
}

pub open spec fn actions_view(v: Seq<ClauseAction>) -> Seq<(SolverTarget, Seq<Lit>)> {
    v.map_values(|a: ClauseAction| action_view(a))
}

/// The clause of each frame solver from `begin` to `frame`, each followed by
/// the symmetric clause (sent to solver `sym_target` when given, else to the
/// same solver).
pub open spec fn frame_clauses_spec(
    begin: int,
    frame: int,
    clause: Seq<Lit>,
    sym: Option<Seq<Lit>>,
    sym_target: Option<usize>,
) -> Seq<(SolverTarget, Seq<Lit>)>
    decreases frame - begin + 1,
{
    if begin > frame {
        Seq::empty()
    } else {
        let own = seq![(SolverTarget::Frame(begin as usize), clause)];
        let with_sym = match sym {
            Some(sc) => own.push(
                (SolverTarget::Frame(
                    match sym_target {
                        Some(t) => t,
                        None => begin as usize,
                    },
                ), sc),
            ),
            None => own,
        };
        with_sym + frame_clauses_spec(begin + 1, frame, clause, sym, sym_target)
    }
}

/// The clauses for the solver of bad states, when predicate propagation is on
/// and the lemma goes to the top frame.
pub open spec fn bad_clauses_spec(pred_prop: bool, level: usize, frame: usize, clause: Seq<Lit>, sym: Option<Seq<Lit>>) -> Seq<(SolverTarget, Seq<Lit>)> {
    if pred_prop && level == frame {
        match sym {
            Some(sc) => seq![(SolverTarget::Bad, clause), (SolverTarget::Bad, sc)],
            None => seq![(SolverTarget::Bad, clause)],
        }
    } else {
        Seq::empty()
    }
}

pub open spec fn min_usize(a: usize, b: usize) -> usize {
    if a < b { a } else { b }
}

/// What adding the (sorted) lemma `c` to frame `frame` does: the frames
/// after, the new `early`, the result (whether a frame below became empty,
/// which means an inductive invariant was found), and the clauses to add to
/// the solvers. `sym` is the negation of the symmetric lemma, when used.
pub open spec fn add_lemma_spec(
    fs: Seq<Seq<Seq<Lit>>>,
    inf: Seq<Seq<Lit>>,
    early: usize,
    frame: usize,
    c: Seq<Lit>,
    sym: Option<Seq<Lit>>,
    contained_check: bool,
    level: usize,
    pred_prop: bool,
) -> (Seq<Seq<Seq<Lit>>>, usize, bool, Seq<(SolverTarget, Seq<Lit>)>) {
    let clause = negated(c);
    let bad = bad_clauses_spec(pred_prop, level, frame, clause, sym);
    if frame == 0 {
        let own = seq![(SolverTarget::Frame(0), clause)];
        let with_sym = match sym {
            Some(sc) => own.push((SolverTarget::Frame(0), sc)),
            None => own,
        };
        (fs.update(0, fs[0].push(c)), early, false, with_sym + bad)
    } else if contained_check && contained_spec(fs, inf, Some(frame), c) is Some {
        (fs, early, false, Seq::empty())
    } else {
        let (fs1, out) = scan_frames_spec(fs, c, frame as int, frame as int, false);
        match out {
            ScanOutcome::Equal(i, j) => {
                let fs2 = fs1.update(i as int, swap_removed(fs1[i as int], j as int));
                let fs3 = fs2.update(frame as int, fs2[frame as int].push(c));
                (
                    fs3,
                    min_usize(early, (i + 1) as usize),
                    fs3[i as int].len() == 0,
                    frame_clauses_spec(i + 1, frame as int, clause, sym, None) + bad,
                )
            },
            ScanOutcome::Strict(i, inv) => (
                fs1.update(frame as int, fs1[frame as int].push(c)),
                min_usize(early, (i + 1) as usize),
                inv,
                frame_clauses_spec(i + 1, frame as int, clause, sym, Some(0)) + bad,
            ),
            ScanOutcome::Done(inv) => (
                fs1.update(frame as int, fs1[frame as int].push(c)),
                min_usize(early, 1),
                inv,
                frame_clauses_spec(1, frame as int, clause, sym, Some(0)) + bad,
            ),
        }
    }
}

/// The frame solvers from 1 on that `frame_clauses_spec` addresses are
/// exactly those from `begin` to `frame`, and each of them gets `clause`.
proof fn lemma_frame_clauses_targets(
    begin: int,
    frame: int,
    clause: Seq<Lit>,
    sym: Option<Seq<Lit>>,
    sym_target: Option<usize>,
)
    requires
        1 <= begin,
        frame <= usize::MAX,
        sym_target is None || sym_target == Some(0usize),
    ensures
        forall|k: usize| 1 <= k ==> (#[trigger] frame_clauses_spec(begin, frame, clause, sym, sym_target).contains(
            (SolverTarget::Frame(k), clause)) <==> begin <= k <= frame),
        forall|k: usize, cl: Seq<Lit>| 1 <= k && #[trigger] frame_clauses_spec(begin, frame, clause, sym, sym_target).contains(
            (SolverTarget::Frame(k), cl)) ==> begin <= k <= frame,
        forall|t: SolverTarget, cl: Seq<Lit>| #[trigger] frame_clauses_spec(begin, frame, clause, sym, sym_target).contains((t, cl))
            ==> t is Frame && (cl == clause || sym == Some(cl)),
    decreases frame - begin + 1,
{
    if begin <= frame {
        let own = seq![(SolverTarget::Frame(begin as usize), clause)];
        let with_sym = match sym {
            Some(sc) => own.push(
                (SolverTarget::Frame(
                    match sym_target {
                        Some(t) => t,
                        None => begin as usize,
                    },
                ), sc),
            ),
            None => own,
        };
        let rest = frame_clauses_spec(begin + 1, frame, clause, sym, sym_target);
        lemma_frame_clauses_targets(begin + 1, frame, clause, sym, sym_target);
        lemma_concat_contains(with_sym, rest);
        lemma_push_contains(own, (SolverTarget::Frame(begin as usize), clause));
        if let Some(sc) = sym {
            lemma_push_contains(own, (SolverTarget::Frame(match sym_target { Some(t) => t, None => begin as usize }), sc));
        }
        assert(own.contains((SolverTarget::Frame(begin as usize), clause))) by {
            assert(own[0] == (SolverTarget::Frame(begin as usize), clause));
        }
        assert forall|x: (SolverTarget, Seq<Lit>)| own.contains(x) implies x == (SolverTarget::Frame(begin as usize), clause) by {
            let m = choose|m: int| 0 <= m < own.len() && own[m] == x;
        }
        assert(frame_clauses_spec(begin, frame, clause, sym, sym_target) == with_sym + rest);
    } else {
        assert forall|x: (SolverTarget, Seq<Lit>)| !frame_clauses_spec(begin, frame, clause, sym, sym_target).contains(x) by {}
    }
}

/// The clauses for the solver of bad states go to that solver alone.
proof fn lemma_bad_clauses_targets(pred_prop: bool, level: usize, frame: usize, clause: Seq<Lit>, sym: Option<Seq<Lit>>)
    ensures
        forall|t: SolverTarget, cl: Seq<Lit>| #[trigger] bad_clauses_spec(pred_prop, level, frame, clause, sym).contains((t, cl))
            ==> t is Bad && (cl == clause || sym == Some(cl)),
        bad_clauses_spec(pred_prop, level, frame, clause, sym).contains((SolverTarget::Bad, clause)) <==> (pred_prop && level == frame),
{
    let b = bad_clauses_spec(pred_prop, level, frame, clause, sym);
    assert forall|t: SolverTarget, cl: Seq<Lit>| #[trigger] b.contains((t, cl)) implies t is Bad && (cl == clause || sym == Some(cl)) by {
        let m = choose|m: int| 0 <= m < b.len() && b[m] == (t, cl);
    }
    if pred_prop && level == frame {
        assert(b[0] == (SolverTarget::Bad, clause));
    }
}

/// Adding a lemma to frame 1 or later, where it is not found contained
/// already, sends its negation to the solver of every frame from just above
/// the frame where the scan of the frames stopped (from frame 1 when it did
/// not stop) up to the target, and to no other frame solver from 1 on: when
/// a lemma equal to the new one is met in frame `i`, to the solvers of the
/// frames `i + 1` to the target. The solver of bad states gets it exactly
/// when predicate propagation is on and the target is the top frame.
pub proof fn lemma_add_lemma_clause_targets(
    fs: Seq<Seq<Seq<Lit>>>,
    inf: Seq<Seq<Lit>>,
    early: usize,
    frame: usize,
    c: Seq<Lit>,
    sym: Option<Seq<Lit>>,
    contained_check: bool,
    level: usize,
    pred_prop: bool,
)
    requires
        1 <= frame < fs.len() <= usize::MAX,
        forall|k: int| 0 <= k < fs.len() ==> #[trigger] fs[k].len() <= usize::MAX,
        !(contained_check && contained_spec(fs, inf, Some(frame), c) is Some),
    ensures
        ({
            let acts = add_lemma_spec(fs, inf, early, frame, c, sym, contained_check, level, pred_prop).3;
            let b: int = match scan_frames_spec(fs, c, frame as int, frame as int, false).1 {
                ScanOutcome::Equal(i, _) => i + 1,
                ScanOutcome::Strict(i, _) => i + 1,
                ScanOutcome::Done(_) => 1,
            };
            &&& 1 <= b <= frame + 1
            &&& forall|k: usize| 1 <= k ==> (#[trigger] acts.contains((SolverTarget::Frame(k), negated(c))) <==> b <= k <= frame)
            &&& forall|k: usize, cl: Seq<Lit>| 1 <= k && #[trigger] acts.contains((SolverTarget::Frame(k), cl)) ==> b <= k <= frame
            &&& acts.contains((SolverTarget::Bad, negated(c))) <==> (pred_prop && level == frame)
        }),
{
    let clause = negated(c);
    lemma_scan_frames_facts(fs, c, frame as int, frame as int, false);
    let out = scan_frames_spec(fs, c, frame as int, frame as int, false).1;
    let (begin, st): (int, Option<usize>) = match out {
        ScanOutcome::Equal(i, _) => (i + 1, None),
        ScanOutcome::Strict(i, _) => (i + 1, Some(0usize)),
        ScanOutcome::Done(_) => (1, Some(0usize)),
    };
    let fc = frame_clauses_spec(begin, frame as int, clause, sym, st);
    let bad = bad_clauses_spec(pred_prop, level, frame, clause, sym);
    lemma_frame_clauses_targets(begin, frame as int, clause, sym, st);
    lemma_bad_clauses_targets(pred_prop, level, frame, clause, sym);
    lemma_concat_contains(fc, bad);
    assert(add_lemma_spec(fs, inf, early, frame, c, sym, contained_check, level, pred_prop).3 == fc + bad);
    assert(!fc.contains((SolverTarget::Bad, clause)));
    assert forall|k: usize| 1 <= k implies !#[trigger] bad.contains((SolverTarget::Frame(k), clause)) by {}
}

/// What `Frames::add_lemma` hands back: the sorted lemma and symmetric lemma
/// it used, whether an inductive invariant was found, and the clauses for the
/// solvers, in order.
pub struct AddLemmaPlan {
    pub lemma: LitVec,
    pub sym_lemma: Option<LitVec>,
    pub inv_found: bool,
    pub actions: Vec<ClauseAction>,
}

pub open spec fn opt_view(o: Option<LitVec>) -> Option<Seq<Lit>> {
    match o {
        Some(v) => Some(v@),
        None => None,
    }
}

pub open spec fn opt_negated(o: Option<Seq<Lit>>) -> Option<Seq<Lit>> {
    match o {
        Some(v) => Some(negated(v)),
        None => None,
    }
}

fn push_action(actions: &mut Vec<ClauseAction>, target: SolverTarget, clause: &LitVec)
    ensures
        actions_view(final(actions)@) == actions_view(old(actions)@).push((target, clause@)),
{
    actions.push(ClauseAction { target, clause: clause.clone() });
    assert(actions_view(actions@) =~= actions_view(old(actions)@).push((target, clause@)));
}

/// Appends the clauses of `frame_clauses_spec`.
fn push_frame_clauses(
    actions: &mut Vec<ClauseAction>,
    begin: usize,
    frame: usize,
    clause: &LitVec,
    sym: &Option<LitVec>,
    sym_target: Option<usize>,
)
    requires
        frame < usize::MAX,
    ensures
        actions_view(final(actions)@) == actions_view(old(actions)@) + frame_clauses_spec(
            begin as int,
            frame as int,
            clause@,
            opt_view(*sym),
            sym_target,
        ),
{
    let mut k = begin;
    while k <= frame
        invariant
            begin <= k,
            frame < usize::MAX,
            actions_view(actions@) + frame_clauses_spec(k as int, frame as int, clause@, opt_view(*sym), sym_target)
                == actions_view(old(actions)@) + frame_clauses_spec(begin as int, frame as int, clause@, opt_view(*sym), sym_target),
        decreases frame - k + 1,
    {
        let ghost before = actions_view(actions@);
        push_action(actions, SolverTarget::Frame(k), clause);
        match sym {
            Some(sc) => {
                let t = match sym_target {
                    Some(t) => t,
                    None => k,
                };
                push_action(actions, SolverTarget::Frame(t), sc);
            },
            None => {},
        }
        proof {
            let own = seq![(SolverTarget::Frame(k), clause@)];
            let with_sym = match opt_view(*sym) {
                Some(sc) => own.push(
                    (SolverTarget::Frame(
                        match sym_target {
                            Some(t) => t,
                            None => k,
                        },
                    ), sc),
                ),
                None => own,
            };
            assert(actions_view(actions@) =~= before + with_sym);
            assert(frame_clauses_spec(k as int, frame as int, clause@, opt_view(*sym), sym_target) == with_sym
                + frame_clauses_spec(k + 1, frame as int, clause@, opt_view(*sym), sym_target));
            assert(before + frame_clauses_spec(k as int, frame as int, clause@, opt_view(*sym), sym_target)
                =~= (before + with_sym) + frame_clauses_spec(k + 1, frame as int, clause@, opt_view(*sym), sym_target));
        }
        k = k + 1;
    }
    assert(actions_view(actions@) + frame_clauses_spec(k as int, frame as int, clause@, opt_view(*sym), sym_target) =~= actions_view(actions@));
}

/// Appends the clauses of `bad_clauses_spec`.
fn push_bad_clauses(
    actions: &mut Vec<ClauseAction>,
    pred_prop: bool,
    level: usize,
    frame: usize,
    clause: &LitVec,
    sym: &Option<LitVec>,
)
    ensures
        actions_view(final(actions)@) == actions_view(old(actions)@) + bad_clauses_spec(
            pred_prop,
            level,
            frame,
            clause@,
            opt_view(*sym),
        ),
{
    if pred_prop && level == frame {
        push_action(actions, SolverTarget::Bad, clause);
        match sym {
            Some(sc) => push_action(actions, SolverTarget::Bad, sc),
            None => {},
        }
    }
    assert(actions_view(actions@) =~= actions_view(old(actions)@) + bad_clauses_spec(
        pred_prop,
        level,
        frame,
        clause@,
        opt_view(*sym),
    ));
}

/// The cubes of all the frames, frame after frame.
pub open spec fn concat_frames(fs: Seq<Seq<Seq<Lit>>>) -> Seq<Seq<Lit>>
    decreases fs.len(),
{
    if fs.len() == 0 {
        Seq::empty()
    } else {
        concat_frames(fs.drop_last()) + fs.last()
    }
}

/// Index of the first empty frame at or after `i` (`fs.len()` when none).
pub open spec fn first_empty_from(fs: Seq<Seq<Seq<Lit>>>, i: int) -> int
    decreases fs.len() - i,
{
    if i < 0 || i >= fs.len() {
        fs.len() as int
    } else if fs[i].len() == 0 {
        i
    } else {
        first_empty_from(fs, i + 1)
    }
}

/// The cubes of `ls` that subsume `c`, in order.
pub open spec fn subsumers(ls: Seq<Seq<Lit>>, c: Seq<Lit>) -> Seq<Seq<Lit>>
    decreases ls.len(),
{
    if ls.len() == 0 {
        Seq::empty()
    } else if spec_subsume(ls.last(), c) {
        subsumers(ls.drop_last(), c).push(ls.last())
    } else {
        subsumers(ls.drop_last(), c)
    }
}

/// The cubes of `ls` other than `c`, in order.
pub open spec fn without_cube(ls: Seq<Seq<Lit>>, c: Seq<Lit>) -> Seq<Seq<Lit>>
    decreases ls.len(),
{
    if ls.len() == 0 {
        Seq::empty()
    } else if ls.last() != c {
        without_cube(ls.drop_last(), c).push(ls.last())
    } else {
        without_cube(ls.drop_last(), c)
    }
}

pub open spec fn litvec_views(v: Seq<LitVec>) -> Seq<Seq<Lit>> {
    v.map_values(|c: LitVec| c@)
}

/// The text of the frame sizes: `frames [n]: ` with `n` one more than the
/// number of frames, then the lemma count of each frame shown (with `... `
/// first when not all are shown), then that of the infinite frame, each
/// followed by a space.
pub open spec fn statistic_spec(fs: Seq<Seq<Seq<Lit>>>, inf_len: nat, compact: bool) -> Seq<char> {
    let total = fs.len() + 1;
    let head = seq!['f', 'r', 'a', 'm', 'e', 's', ' ', '['] + crate::text::decimal(total) + seq![']', ':', ' '];
    let shown = if compact && total > 50 { fs.skip(total - 50) } else { fs };
    let dots = if compact && total > 50 { seq!['.', '.', '.', ' '] } else { Seq::empty() };
    head + dots + counts_text(shown) + crate::text::decimal(inf_len) + seq![' ']
}

/// Each frame's lemma count followed by a space.
pub open spec fn counts_text(fs: Seq<Seq<Seq<Lit>>>) -> Seq<char>
    decreases fs.len(),
{
    if fs.len() == 0 {
        Seq::empty()
    } else {
        counts_text(fs.drop_last()) + crate::text::decimal(fs.last().len()) + seq![' ']
    }
}

/// Appends clones of the cubes of `f`.
fn append_cubes<P>(out: &mut Vec<LitVec>, f: &Frame<P>)
    ensures
        litvec_views(final(out)@) == litvec_views(old(out)@) + f.cubes(),
{
    let mut j: usize = 0;
    while j < f.len()
        invariant
            j <= f.cubes().len(),
            litvec_views(out@) == litvec_views(old(out)@) + f.cubes().take(j as int),
        decreases f.cubes().len() - j,
    {
        let c = f.get(j).cube().clone();
        let ghost before = out@;
        out.push(c);
        assert(f.cubes().take(j + 1) =~= f.cubes().take(j as int).push(f.cubes()[j as int]));
        assert(litvec_views(out@) =~= litvec_views(before).push(c@));
        assert(litvec_views(out@) =~= litvec_views(old(out)@) + f.cubes().take(j + 1));
        j = j + 1;
    }
    assert(f.cubes().take(f.cubes().len() as int) =~= f.cubes());
}

impl<P> Frame<P> {
    /// Removes the lemmas equal to `c`, keeping the others in order.
    pub fn retain_other(&mut self, c: &LitVec)
        ensures
            final(self).cubes() == without_cube(old(self).cubes(), c@),
    {
        let ghost orig = self.cubes();
        let ghost n: int = orig.len() as int;
        let mut rev: Vec<FrameLemma<P>> = Vec::new();
        while self.lemmas.len() > 0
            invariant
                orig == old(self).cubes(),
                n == orig.len(),
                self.cubes().len() + rev@.len() == n,
                forall|m: int| 0 <= m < self.cubes().len() ==> #[trigger] self.cubes()[m] == orig[m],
                forall|m: int| 0 <= m < rev@.len() ==> #[trigger] rev@[m].cube_view() == orig[n - 1 - m],
            decreases self.lemmas@.len(),
        {
            let ghost before = self.cubes();
            let ghost rb = rev@;
            let l = self.lemmas.pop().unwrap();
            assert(self.cubes() =~= before.drop_last());
            assert(l.cube_view() == before.last());
            rev.push(l);
            assert(rev@ == rb.push(l));
        }
        while rev.len() > 0
            invariant
                orig == old(self).cubes(),
                n == orig.len(),
                rev@.len() <= n,
                self.cubes() == without_cube(orig.take(n - rev@.len()), c@),
                forall|m: int| 0 <= m < rev@.len() ==> #[trigger] rev@[m].cube_view() == orig[n - 1 - m],
            decreases rev@.len(),
        {
            let ghost k = n - rev@.len();
            let l = rev.pop().unwrap();
            proof {
                assert(l.cube_view() == orig[k]);
                assert(orig.take(k + 1).drop_last() =~= orig.take(k));
                assert(orig.take(k + 1).last() == orig[k]);
            }
            if !l.lemma.eq_lits(c) {
                let ghost before = self.cubes();
                self.lemmas.push(l);
                assert(self.cubes() =~= before.push(orig[k]));
            }
        }
        assert(orig.take(n) =~= orig);
    }
}

/// The frames of IC3: frame `i` holds the lemmas blocked up to step `i`,
/// the infinite frame those proved inductive.
pub struct Frames<P> {
    frames: Vec<Frame<P>>,
    inf: Frame<P>,
    early: usize,
}

pub open spec fn frames_cubes<P>(fs: Seq<Frame<P>>) -> Seq<Seq<Seq<Lit>>> {
    fs.map_values(|f: Frame<P>| f.cubes())
}

impl<P> Frames<P> {
    /// The cubes of each frame.
    pub closed spec fn cubes(&self) -> Seq<Seq<Seq<Lit>>> {
        frames_cubes(self.frames@)
    }

    /// The frames and their lemmas are counted by `usize`.
    pub proof fn lemma_len_bounds(&self)
        ensures
            self.cubes().len() <= usize::MAX,
            forall|i: int| 0 <= i < self.cubes().len() ==> #[trigger] self.cubes()[i].len() <= usize::MAX,
    {
        assert(self.frames.len() == self.frames@.len());
        assert forall|i: int| 0 <= i < self.cubes().len() implies #[trigger] self.cubes()[i].len() <= usize::MAX by {
            assert(self.frames@[i].lemmas.len() == self.frames@[i].lemmas@.len());
        }
    }

    /// The proof obligations of the lemmas of frame `i`, in order.
    pub closed spec fn frame_pos(&self, i: int) -> Seq<Option<P>> {
        self.frames@[i].pos()
    }

    /// The cubes of the infinite frame.
    pub closed spec fn inf_cubes(&self) -> Seq<Seq<Lit>> {
        self.inf.cubes()
    }

    /// The lowest frame that may have changed since the last propagation.
    pub closed spec fn early_view(&self) -> usize {
        self.early
    }

    pub fn inf(&self) -> (r: &Frame<P>)
        ensures
            r.cubes() == self.inf_cubes(),
    {
        &self.inf
    }

    pub fn early(&self) -> (r: usize)
        ensures
            r == self.early_view(),
    {
        self.early
    }

    pub fn set_early(&mut self, e: usize)
        ensures
            final(self).early_view() == e,
            final(self).cubes() == old(self).cubes(),
            final(self).inf_cubes() == old(self).inf_cubes(),
    {
        self.early = e;
    }

    /// No frames, an empty infinite frame, and `early` at 1.
    pub fn new() -> (r: Frames<P>)
        ensures
            r.cubes() == Seq::<Seq<Seq<Lit>>>::empty(),
            r.inf_cubes() == Seq::<Seq<Lit>>::empty(),
            r.early_view() == 1,
    {
        let r = Frames { frames: Vec::new(), inf: Frame::new(), early: 1 };
        assert(r.cubes() =~= Seq::<Seq<Seq<Lit>>>::empty());
        r
    }

    pub fn len(&self) -> (n: usize)
        ensures
            n == self.cubes().len(),
    {
        self.frames.len()
    }

    /// The frames themselves, to be changed in place; the infinite frame and
    /// `early` stay as they are.
    pub fn get_mut(&mut self) -> (r: &mut Vec<Frame<P>>)
        ensures
            frames_cubes(r@) == old(self).cubes(),
            final(self).cubes() == frames_cubes(final(r)@),
            final(self).inf_cubes() == old(self).inf_cubes(),
            final(self).early_view() == old(self).early_view(),
    {
        &mut self.frames
    }

    pub fn frame(&self, i: usize) -> (r: &Frame<P>)
        requires
            i < self.cubes().len(),
        ensures
            r.cubes() == self.cubes()[i as int],
    {
        &self.frames[i]
    }

    /// Appends an empty frame.
    pub fn push(&mut self, f: Frame<P>)
        ensures
            final(self).cubes() == old(self).cubes().push(f.cubes()),
            final(self).inf_cubes() == old(self).inf_cubes(),
            final(self).early_view() == old(self).early_view(),
    {
        let ghost c = f.cubes();
        self.frames.push(f);
        assert(self.cubes() =~= old(self).cubes().push(c));
    }

    /// Each frame has as many proof obligations as cubes.
    proof fn lemma_pos_len(&self)
        ensures
            forall|k: int| 0 <= k < self.cubes().len() ==> #[trigger] self.frame_pos(k).len() == self.cubes()[k].len(),
    {
        assert forall|k: int| 0 <= k < self.cubes().len() implies #[trigger] self.frame_pos(k).len() == self.cubes()[k].len() by {
            assert(self.cubes()[k] == self.frames@[k].cubes());
        }
    }

    /// After a push of a lemma to frame `i` of `s0`: every other frame is kept
    /// with its proof obligations, and frame `i` without its last lemma.
    proof fn lemma_after_push(&self, s0: &Self, i: int)
        requires
            0 <= i < s0.cubes().len(),
            self.cubes() == s0.cubes().update(i, s0.cubes()[i].push(self.cubes()[i].last())),
            self.frame_pos(i) == s0.frame_pos(i).push(self.frame_pos(i).last()),
            forall|k: int| 0 <= k < s0.cubes().len() && k != i ==> #[trigger] self.frame_pos(k) == s0.frame_pos(k),
        ensures
            forall|k: int| 0 <= k < s0.cubes().len() && k != i ==> #[trigger] kept_with_pos(
                self.cubes()[k], self.frame_pos(k), s0.cubes()[k], s0.frame_pos(k)),
            kept_with_pos(self.cubes()[i].drop_last(), self.frame_pos(i).drop_last(), s0.cubes()[i], s0.frame_pos(i)),
    {
        assert forall|k: int| 0 <= k < s0.cubes().len() && k != i implies #[trigger] kept_with_pos(
            self.cubes()[k], self.frame_pos(k), s0.cubes()[k], s0.frame_pos(k)) by {
            lemma_kept_refl(s0.cubes()[k], s0.frame_pos(k));
        }
        assert(self.cubes()[i].drop_last() =~= s0.cubes()[i]);
        assert(self.frame_pos(i).drop_last() =~= s0.frame_pos(i));
        lemma_kept_refl(s0.cubes()[i], s0.frame_pos(i));
    }

    /// After removing lemma `j` of frame `i` of `s1`, which keeps the lemmas
    /// of `s0` with their proof obligations, so does the result.
    proof fn lemma_after_swap_remove(&self, s1: &Self, s0: &Self, i: int, j: int)
        requires
            0 <= i < s1.cubes().len(),
            0 <= j < s1.cubes()[i].len(),
            s1.cubes().len() == s0.cubes().len(),
            s1.frame_pos(i).len() == s1.cubes()[i].len(),
            self.cubes() == s1.cubes().update(i, swap_removed(s1.cubes()[i], j)),
            self.frame_pos(i) == swap_removed(s1.frame_pos(i), j),
            forall|k: int| 0 <= k < s1.cubes().len() && k != i ==> #[trigger] self.frame_pos(k) == s1.frame_pos(k),
            forall|k: int| 0 <= k < s0.cubes().len() ==> #[trigger] kept_with_pos(
                s1.cubes()[k], s1.frame_pos(k), s0.cubes()[k], s0.frame_pos(k)),
        ensures
            forall|k: int| 0 <= k < s0.cubes().len() ==> #[trigger] kept_with_pos(
                self.cubes()[k], self.frame_pos(k), s0.cubes()[k], s0.frame_pos(k)),
    {
        assert forall|k: int| 0 <= k < s0.cubes().len() implies #[trigger] kept_with_pos(
            self.cubes()[k], self.frame_pos(k), s0.cubes()[k], s0.frame_pos(k)) by {
            assert(kept_with_pos(s1.cubes()[k], s1.frame_pos(k), s0.cubes()[k], s0.frame_pos(k)));
            if k == i {
                lemma_kept_swap_removed(s1.cubes()[k], s1.frame_pos(k), s0.cubes()[k], s0.frame_pos(k), j);
            }
        }
    }

    /// Frames with the same frame list keep the lemmas of `s0` alike.
    proof fn lemma_kept_same(a: &Self, b: &Self, s0: &Self)
        requires
            a.frames@ == b.frames@,
            forall|k: int| 0 <= k < s0.cubes().len() ==> #[trigger] kept_with_pos(
                a.cubes()[k], a.frame_pos(k), s0.cubes()[k], s0.frame_pos(k)),
        ensures
            a.cubes() == b.cubes(),
            forall|k: int| 0 <= k < s0.cubes().len() ==> #[trigger] kept_with_pos(
                b.cubes()[k], b.frame_pos(k), s0.cubes()[k], s0.frame_pos(k)),
    {
        assert(a.cubes() =~= b.cubes());
        assert forall|k: int| 0 <= k < s0.cubes().len() implies #[trigger] kept_with_pos(
            b.cubes()[k], b.frame_pos(k), s0.cubes()[k], s0.frame_pos(k)) by {
            assert(kept_with_pos(a.cubes()[k], a.frame_pos(k), s0.cubes()[k], s0.frame_pos(k)));
            assert(a.frame_pos(k) == b.frame_pos(k));
        }
    }

    /// Chains `lemma_after_push` onto frames that keep the lemmas of `s0`.
    proof fn lemma_kept_chain(s2: &Self, s3: &Self, s0: &Self, i: int)
        requires
            0 <= i < s0.cubes().len(),
            s2.cubes().len() == s0.cubes().len(),
            forall|k: int| 0 <= k < s0.cubes().len() ==> #[trigger] kept_with_pos(
                s2.cubes()[k], s2.frame_pos(k), s0.cubes()[k], s0.frame_pos(k)),
            forall|k: int| 0 <= k < s2.cubes().len() && k != i ==> #[trigger] kept_with_pos(
                s3.cubes()[k], s3.frame_pos(k), s2.cubes()[k], s2.frame_pos(k)),
            kept_with_pos(s3.cubes()[i].drop_last(), s3.frame_pos(i).drop_last(), s2.cubes()[i], s2.frame_pos(i)),
        ensures
            forall|k: int| 0 <= k < s0.cubes().len() && k != i ==> #[trigger] kept_with_pos(
                s3.cubes()[k], s3.frame_pos(k), s0.cubes()[k], s0.frame_pos(k)),
            kept_with_pos(s3.cubes()[i].drop_last(), s3.frame_pos(i).drop_last(), s0.cubes()[i], s0.frame_pos(i)),
    {
        assert forall|k: int| 0 <= k < s0.cubes().len() && k != i implies #[trigger] kept_with_pos(
            s3.cubes()[k], s3.frame_pos(k), s0.cubes()[k], s0.frame_pos(k)) by {
            assert(kept_with_pos(s2.cubes()[k], s2.frame_pos(k), s0.cubes()[k], s0.frame_pos(k)));
            lemma_kept_trans(s3.cubes()[k], s3.frame_pos(k), s2.cubes()[k], s2.frame_pos(k), s0.cubes()[k], s0.frame_pos(k));
        }
        assert(kept_with_pos(s2.cubes()[i], s2.frame_pos(i), s0.cubes()[i], s0.frame_pos(i)));
        lemma_kept_trans(s3.cubes()[i].drop_last(), s3.frame_pos(i).drop_last(), s2.cubes()[i], s2.frame_pos(i), s0.cubes()[i], s0.frame_pos(i));
    }

    /// Adds a lemma to frame `i`.
    pub fn push_lemma(&mut self, i: usize, l: FrameLemma<P>)
        requires
            i < old(self).cubes().len(),
        ensures
            final(self).cubes() == old(self).cubes().update(i as int, old(self).cubes()[i as int].push(l.cube_view())),
            final(self).frame_pos(i as int) == old(self).frame_pos(i as int).push(l.po_view()),
            forall|k: int| 0 <= k < old(self).cubes().len() && k != i ==> #[trigger] final(self).frame_pos(k) == old(self).frame_pos(k),
            final(self).inf_cubes() == old(self).inf_cubes(),
            final(self).early_view() == old(self).early_view(),
    {
        let ghost c = l.cube_view();
        self.frames[i].push(l);
        assert(self.cubes() =~= old(self).cubes().update(i as int, old(self).cubes()[i as int].push(c)));
    }



    /// The cubes of every frame from the first empty one on, then those of the
    /// infinite frame: an inductive invariant once a frame is empty. Some
    /// frame must be empty.
    pub fn invariant_lemmas(&self) -> (r: Vec<LitVec>)
        requires
            exists|i: int| 0 <= i < self.cubes().len() && (#[trigger] self.cubes()[i]).len() == 0,
        ensures
            litvec_views(r@) == concat_frames(
                self.cubes().subrange(first_empty_from(self.cubes(), 0), self.cubes().len() as int),
            ) + self.inf_cubes(),
    {
        let mut p: usize = 0;
        while p < self.frames.len() && !self.frames[p].is_empty()
            invariant
                p <= self.cubes().len(),
                first_empty_from(self.cubes(), 0) == first_empty_from(self.cubes(), p as int),
            decreases self.cubes().len() - p,
        {
            assert(self.cubes()[p as int] == self.frames@[p as int].cubes());
            p = p + 1;
        }
        if p < self.frames.len() {
            assert(self.cubes()[p as int] == self.frames@[p as int].cubes());
        }
        let mut out: Vec<LitVec> = Vec::new();
        let mut i: usize = p;
        while i < self.frames.len()
            invariant
                p <= i <= self.cubes().len(),
                p == first_empty_from(self.cubes(), 0),
                litvec_views(out@) == concat_frames(self.cubes().subrange(p as int, i as int)),
            decreases self.cubes().len() - i,
        {
            let ghost before = litvec_views(out@);
            append_cubes(&mut out, &self.frames[i]);
            proof {
                assert(self.cubes()[i as int] == self.frames@[i as int].cubes());
                let sub = self.cubes().subrange(p as int, i + 1);
                assert(sub.drop_last() =~= self.cubes().subrange(p as int, i as int));
                assert(sub.last() == self.cubes()[i as int]);
            }
            i = i + 1;
        }
        append_cubes(&mut out, &self.inf);
        out
    }

    /// The first lemma of frame `frame - 1` that subsumes `lemma`; none for
    /// frame 1.
    pub fn parent_lemma(&self, lemma: &[Lit], frame: usize) -> (r: Option<LitVec>)
        requires
            frame == 1 || 2 <= frame <= self.cubes().len(),
        ensures
            frame == 1 ==> r is None,
            frame != 1 ==> match r {
                Some(c) => {
                    let k = first_subsumer_from(self.cubes()[frame - 1], lemma@, 0);
                    k < self.cubes()[frame - 1].len() && c@ == self.cubes()[frame - 1][k]
                },
                None => first_subsumer_from(self.cubes()[frame - 1], lemma@, 0) == self.cubes()[frame - 1].len(),
            },
    {
        if frame == 1 {
            return None;
        }
        let c = LitVec::new_from_slice(lemma);
        let f = &self.frames[frame - 1];
        assert(self.cubes()[frame - 1] == f.cubes());
        let k = f.first_subsumer(&c);
        assert(c@ == lemma@);
        if k < f.len() {
            Some(f.get(k).cube().clone())
        } else {
            None
        }
    }

    /// All lemmas of frame `frame - 1` that subsume `lemma`, in order; none
    /// for frame 1.
    pub fn _parent_lemmas(&self, lemma: &LitVec, frame: usize) -> (r: Vec<LitVec>)
        requires
            frame == 1 || 2 <= frame <= self.cubes().len(),
        ensures
            frame == 1 ==> r@.len() == 0,
            frame != 1 ==> litvec_views(r@) == subsumers(self.cubes()[frame - 1], lemma@),
    {
        let mut res: Vec<LitVec> = Vec::new();
        if frame == 1 {
            return res;
        }
        let f = &self.frames[frame - 1];
        assert(self.cubes()[frame - 1] == f.cubes());
        let mut j: usize = 0;
        while j < f.len()
            invariant
                j <= f.cubes().len(),
                litvec_views(res@) == subsumers(f.cubes().take(j as int), lemma@),
            decreases f.cubes().len() - j,
        {
            let c = f.get(j).cube();
            proof {
                assert(f.cubes().take(j + 1).drop_last() =~= f.cubes().take(j as int));
                assert(f.cubes().take(j + 1).last() == c@);
            }
            if c.subsume(lemma.as_slice()) {
                res.push(c.clone());
                assert(litvec_views(res@) =~= subsumers(f.cubes().take(j + 1), lemma@));
            }
            j = j + 1;
        }
        assert(f.cubes().take(f.cubes().len() as int) =~= f.cubes());
        res
    }

    /// The lemma counts of the frames as text (see `statistic_spec`).
    pub fn statistic(&self, compact: bool) -> (r: String)
        requires
            self.cubes().len() < usize::MAX,
        ensures
            r@ == statistic_spec(self.cubes(), self.inf_cubes().len(), compact),
    {
        let mut s: Vec<char> = Vec::new();
        s.push('f');
        s.push('r');
        s.push('a');
        s.push('m');
        s.push('e');
        s.push('s');
        s.push(' ');
        s.push('[');
        let total: usize = self.frames.len() + 1;
        crate::text::push_decimal(&mut s, total as u64);
        s.push(']');
        s.push(':');
        s.push(' ');
        let start: usize = if compact && total > 50 {
            s.push('.');
            s.push('.');
            s.push('.');
            s.push(' ');
            total - 50
        } else {
            0
        };
        let ghost head = s@;
        let mut i: usize = start;
        while i < self.frames.len()
            invariant
                start <= i <= self.cubes().len(),
                s@ == head + counts_text(self.cubes().subrange(start as int, i as int)),
            decreases self.cubes().len() - i,
        {
            assert(self.cubes()[i as int] == self.frames@[i as int].cubes());
            let n = self.frames[i].len();
            crate::text::push_decimal(&mut s, n as u64);
            s.push(' ');
            proof {
                let sub = self.cubes().subrange(start as int, i + 1);
                assert(sub.drop_last() =~= self.cubes().subrange(start as int, i as int));
                assert(sub.last() == self.cubes()[i as int]);
            }
            assert(s@ =~= head + counts_text(self.cubes().subrange(start as int, i + 1)));
            i = i + 1;
        }
        crate::text::push_decimal(&mut s, self.inf.len() as u64);
        s.push(' ');
        proof {
            if compact && total > 50 {
                assert(self.cubes().subrange(start as int, self.cubes().len() as int) =~= self.cubes().skip(start as int));
            } else {
                assert(self.cubes().subrange(0, self.cubes().len() as int) =~= self.cubes());
            }
        }
        assert(s@ =~= statistic_spec(self.cubes(), self.inf_cubes().len(), compact));
        crate::text::string_from_chars(s.as_slice())
    }

    /// Moves a lemma proved inductive from the last frame to the infinite
    /// frame, and returns its clause for the solver of the infinite frame.
    /// The lemma is sorted first; no lemma of the infinite frame may subsume
    /// it, and the last frame must hold it exactly once.
    pub fn add_inf_lemma(&mut self, lemma: LitVec) -> (r: LitVec)
        requires
            contained_spec(old(self).cubes(), old(self).inf_cubes(), None, sorted_of(lemma@)) is None,
            old(self).cubes().len() > 0,
            without_cube(old(self).cubes().last(), sorted_of(lemma@)).len() + 1 == old(self).cubes().last().len(),
        ensures
            r@ == negated(sorted_of(lemma@)),
            final(self).cubes() == old(self).cubes().update(
                old(self).cubes().len() - 1,
                without_cube(old(self).cubes().last(), sorted_of(lemma@)),
            ),
            final(self).inf_cubes() == old(self).inf_cubes().push(sorted_of(lemma@)),
            final(self).early_view() == old(self).early_view(),
    {
        let ord = lemma.sorted_copy();
        proof { lemma_sorted_of(lemma@, ord@); }
        let last = self.frames.len() - 1;
        assert(self.cubes()[last as int] == self.frames@[last as int].cubes());
        self.frames[last].retain_other(&ord);
        assert(self.cubes() =~= old(self).cubes().update(
            old(self).cubes().len() - 1,
            without_cube(old(self).cubes().last(), ord@),
        ));
        let clause = ord.not();
        self.inf.push(FrameLemma::new(ord, None, None));
        clause
    }

    /// Scans frames `frame`, `frame - 1`, ..., 1 for the new lemma `c` (see
    /// `scan_frames_spec`).
    fn scan_frames(&mut self, c: &LitVec, frame: usize) -> (r: ScanOutcome)
        requires
            frame < old(self).cubes().len(),
        ensures
            (final(self).cubes(), r) == scan_frames_spec(old(self).cubes(), c@, frame as int, frame as int, false),
            final(self).inf_cubes() == old(self).inf_cubes(),
            final(self).early_view() == old(self).early_view(),
            forall|k: int| 0 <= k < old(self).cubes().len() ==> #[trigger] kept_with_pos(
                final(self).cubes()[k], final(self).frame_pos(k), old(self).cubes()[k], old(self).frame_pos(k)),
    {
        let mut i = frame;
        let mut inv_found = false;
        proof {
            assert forall|k: int| 0 <= k < self.cubes().len() implies #[trigger] kept_with_pos(
                self.cubes()[k], self.frame_pos(k), old(self).cubes()[k], old(self).frame_pos(k)) by {
                lemma_kept_refl(self.cubes()[k], self.frame_pos(k));
            }
        }
        while i >= 1
            invariant
                i <= frame < self.cubes().len(),
                self.cubes().len() == old(self).cubes().len(),
                forall|k: int| 0 <= k < old(self).cubes().len() ==> #[trigger] kept_with_pos(
                    self.cubes()[k], self.frame_pos(k), old(self).cubes()[k], old(self).frame_pos(k)),
                self.inf == old(self).inf,
                self.early == old(self).early,
                scan_frames_spec(old(self).cubes(), c@, frame as int, frame as int, false) == scan_frames_spec(
                    self.cubes(),
                    c@,
                    i as int,
                    frame as int,
                    inv_found,
                ),
            decreases i,
        {
            let ghost before = self.cubes();
            let ghost fi = self.frames@[i as int].cubes();
            assert(before[i as int] == fi);
            let ghost pb = self.frames@[i as int].pos();
            let ghost fb = self.frames@;
            let ghost sb = *self;
            assert(self.frame_pos(i as int) == pb);
            let hit = self.frames[i].scan_for(c);
            proof {
                assert(self.cubes() =~= before.update(i as int, self.frames@[i as int].cubes()));
                assert forall|k: int| 0 <= k < old(self).cubes().len() implies #[trigger] kept_with_pos(
                    self.cubes()[k], self.frame_pos(k), old(self).cubes()[k], old(self).frame_pos(k)) by {
                    if k == i {
                        lemma_kept_trans(self.cubes()[k], self.frame_pos(k), fi, pb, old(self).cubes()[k], old(self).frame_pos(k));
                    } else {
                        assert(kept_with_pos(sb.cubes()[k], sb.frame_pos(k), old(self).cubes()[k], old(self).frame_pos(k)));
                        assert(self.frames@[k] == fb[k]);
                        assert(self.cubes()[k] == sb.cubes()[k]);
                        assert(self.frame_pos(k) == sb.frame_pos(k));
                    }
                }
            }
            match hit {
                ScanHit::Equal(j) => {
                    return ScanOutcome::Equal(i, j);
                },
                ScanHit::Strict => {
                    return ScanOutcome::Strict(i, inv_found);
                },
                ScanHit::NoHit => {
                    inv_found = inv_found || (i != frame && self.frames[i].is_empty());
                    i = i - 1;
                },
            }
        }
        ScanOutcome::Done(inv_found)
    }

    /// Adds a lemma to frame `frame`, as IC3 does: the lemma is sorted; at
    /// frame 0 it is simply added; otherwise, unless `contained_check` finds a
    /// lemma from `frame` on (or in the infinite frame) that already subsumes
    /// it, the frames from `frame` down are scanned (see `scan_frames_spec`),
    /// the lemma joins frame `frame`, and the plan lists the blocking clauses
    /// for the solvers. `sym` is the symmetric lemma, when symmetry is used;
    /// `level` is the top frame and `pred_prop` whether the solver of bad
    /// states also gets the clauses.
    pub fn add_lemma(
        &mut self,
        frame: usize,
        lemma: LitVec,
        po: Option<P>,
        sym: Option<LitVec>,
        contained_check: bool,
        level: usize,
        pred_prop: bool,
    ) -> (r: AddLemmaPlan)
        requires
            frame < old(self).cubes().len(),
            frame == 0 ==> old(self).cubes().len() == 1,
        ensures
            sorted(r.lemma@),
            r.lemma@.to_multiset() == lemma@.to_multiset(),
            match sym {
                None => r.sym_lemma is None,
                Some(s0) => r.sym_lemma matches Some(t) && sorted(t@) && t@.to_multiset() == s0@.to_multiset(),
            },
            (final(self).cubes(), final(self).early_view(), r.inv_found, actions_view(r.actions@))
                == add_lemma_spec(
                old(self).cubes(),
                old(self).inf_cubes(),
                old(self).early_view(),
                frame,
                r.lemma@,
                opt_negated(opt_view(r.sym_lemma)),
                contained_check,
                level,
                pred_prop,
            ),
            final(self).inf_cubes() == old(self).inf_cubes(),
            frame == 0 || !(contained_check && contained_spec(old(self).cubes(), old(self).inf_cubes(), Some(frame), r.lemma@) is Some)
                ==> final(self).frame_pos(frame as int).last() == po && kept_with_pos(
                final(self).cubes()[frame as int].drop_last(),
                final(self).frame_pos(frame as int).drop_last(),
                old(self).cubes()[frame as int],
                old(self).frame_pos(frame as int),
            ),
            forall|k: int| 0 <= k < old(self).cubes().len() && k != frame ==> #[trigger] kept_with_pos(
                final(self).cubes()[k], final(self).frame_pos(k), old(self).cubes()[k], old(self).frame_pos(k)),
            frame != 0 && contained_check && contained_spec(old(self).cubes(), old(self).inf_cubes(), Some(frame), r.lemma@) is Some
                ==> forall|k: int| 0 <= k < old(self).cubes().len() ==> #[trigger] final(self).frame_pos(k) == old(self).frame_pos(k),
    {
        let ord = lemma.sorted_copy();
        let sym_ord: Option<LitVec> = match &sym {
            Some(s0) => Some(s0.sorted_copy()),
            None => None,
        };
        let sym_clause: Option<LitVec> = match &sym_ord {
            Some(t) => Some(t.not()),
            None => None,
        };
        assert(opt_view(sym_clause) == opt_negated(opt_view(sym_ord)));
        let clause = ord.not();
        let mut actions: Vec<ClauseAction> = Vec::new();
        if frame == 0 {
            push_action(&mut actions, SolverTarget::Frame(0), &clause);
            match &sym_clause {
                Some(sc) => push_action(&mut actions, SolverTarget::Frame(0), sc),
                None => {},
            }
            push_bad_clauses(&mut actions, pred_prop, level, frame, &clause, &sym_clause);
            self.push_lemma(0, FrameLemma::new(ord.clone(), po, None));
            proof {
                self.lemma_after_push(old(self), 0);
                let own = seq![(SolverTarget::Frame(0), clause@)];
                let with_sym = match opt_view(sym_clause) {
                    Some(sc) => own.push((SolverTarget::Frame(0), sc)),
                    None => own,
                };
                assert(actions_view(actions@) =~= with_sym + bad_clauses_spec(pred_prop, level, frame, clause@, opt_view(sym_clause)));
            }
            return AddLemmaPlan { lemma: ord, sym_lemma: sym_ord, inv_found: false, actions };
        }
        if contained_check && self.trivial_contained(Some(frame), &ord).is_some() {
            assert(actions_view(actions@) =~= Seq::<(SolverTarget, Seq<Lit>)>::empty());
            proof {
                assert forall|k: int| 0 <= k < old(self).cubes().len() && k != frame implies #[trigger] kept_with_pos(
                    self.cubes()[k], self.frame_pos(k), old(self).cubes()[k], old(self).frame_pos(k)) by {
                    lemma_kept_refl(self.cubes()[k], self.frame_pos(k));
                }
            }
            return AddLemmaPlan { lemma: ord, sym_lemma: sym_ord, inv_found: false, actions };
        }
        proof { self.lemma_len_bounds(); }
        let out = self.scan_frames(&ord, frame);
        let ghost fs1 = self.cubes();
        let ghost s_scan = *self;
        match out {
            ScanOutcome::Equal(i, j) => {
                proof { lemma_scan_equal_bounds(old(self).cubes(), ord@, frame as int, frame as int, false); }
                proof { self.lemma_pos_len(); }
                let ghost s1 = *self;
                let _removed = self.swap_remove_at(i, j);
                proof { self.lemma_after_swap_remove(&s1, old(self), i as int, j as int); }
                let ghost s_sw = *self;
                push_frame_clauses(&mut actions, i + 1, frame, &clause, &sym_clause, None);
                push_bad_clauses(&mut actions, pred_prop, level, frame, &clause, &sym_clause);
                let e = if self.early < i + 1 { self.early } else { i + 1 };
                self.early = e;
                let ghost s2 = *self;
                proof { Self::lemma_kept_same(&s_sw, &s2, old(self)); }
                self.push_lemma(frame, FrameLemma::new(ord.clone(), po, None));
                proof { self.lemma_after_push(&s2, frame as int); Self::lemma_kept_chain(&s2, self, old(self), frame as int); }
                assert(self.cubes().len() == self.frames@.len());
                let res = self.frames[i].is_empty();
                assert(actions_view(actions@) =~= frame_clauses_spec(i + 1, frame as int, clause@, opt_view(sym_clause), None)
                    + bad_clauses_spec(pred_prop, level, frame, clause@, opt_view(sym_clause)));
                AddLemmaPlan { lemma: ord, sym_lemma: sym_ord, inv_found: res, actions }
            },
            ScanOutcome::Strict(i, inv) => {
                proof { lemma_scan_strict_bounds(old(self).cubes(), ord@, frame as int, frame as int, false); }
                push_frame_clauses(&mut actions, i + 1, frame, &clause, &sym_clause, Some(0));
                push_bad_clauses(&mut actions, pred_prop, level, frame, &clause, &sym_clause);
                let e = if self.early < i + 1 { self.early } else { i + 1 };
                self.early = e;
                let ghost s2 = *self;
                proof { Self::lemma_kept_same(&s_scan, &s2, old(self)); }
                self.push_lemma(frame, FrameLemma::new(ord.clone(), po, None));
                proof { self.lemma_after_push(&s2, frame as int); Self::lemma_kept_chain(&s2, self, old(self), frame as int); }
                assert(actions_view(actions@) =~= frame_clauses_spec(i + 1, frame as int, clause@, opt_view(sym_clause), Some(0))
                    + bad_clauses_spec(pred_prop, level, frame, clause@, opt_view(sym_clause)));
                AddLemmaPlan { lemma: ord, sym_lemma: sym_ord, inv_found: inv, actions }
            },
            ScanOutcome::Done(inv) => {
                proof { lemma_scan_strict_bounds(old(self).cubes(), ord@, frame as int, frame as int, false); }
                push_frame_clauses(&mut actions, 1, frame, &clause, &sym_clause, Some(0));
                push_bad_clauses(&mut actions, pred_prop, level, frame, &clause, &sym_clause);
                let e = if self.early < 1 { self.early } else { 1 };
                self.early = e;
                let ghost s2 = *self;
                proof { Self::lemma_kept_same(&s_scan, &s2, old(self)); }
                self.push_lemma(frame, FrameLemma::new(ord.clone(), po, None));
                proof { self.lemma_after_push(&s2, frame as int); Self::lemma_kept_chain(&s2, self, old(self), frame as int); }
                assert(actions_view(actions@) =~= frame_clauses_spec(1, frame as int, clause@, opt_view(sym_clause), Some(0))
                    + bad_clauses_spec(pred_prop, level, frame, clause@, opt_view(sym_clause)));
                AddLemmaPlan { lemma: ord, sym_lemma: sym_ord, inv_found: inv, actions }
            },
        }
    }

    /// Removes lemma `j` of frame `i`, moving that frame's last lemma into its place.
    pub fn swap_remove_at(&mut self, i: usize, j: usize) -> (r: FrameLemma<P>)
        requires
            i < old(self).cubes().len(),
            j < old(self).cubes()[i as int].len(),
        ensures
            final(self).cubes() == old(self).cubes().update(i as int, swap_removed(old(self).cubes()[i as int], j as int)),
            final(self).inf_cubes() == old(self).inf_cubes(),
            final(self).early_view() == old(self).early_view(),
            r.cube_view() == old(self).cubes()[i as int][j as int],
            final(self).frame_pos(i as int) == swap_removed(old(self).frame_pos(i as int), j as int),
            forall|k: int| 0 <= k < old(self).cubes().len() && k != i ==> #[trigger] final(self).frame_pos(k) == old(self).frame_pos(k),
            r.po_view() == old(self).frame_pos(i as int)[j as int],
    {
        let r = self.frames[i].swap_remove(j);
        assert(self.cubes() =~= old(self).cubes().update(i as int, swap_removed(old(self).cubes()[i as int], j as int)));
        r
    }

    /// Finds a lemma that subsumes `lemma`: first in the frames from `frame`
    /// on, when `frame` is given, then in the infinite frame. The result
    /// names the frame (`None` for the infinite one) and the lemma's index.
    pub fn trivial_contained(&self, frame: Option<usize>, lemma: &LitVec) -> (r: Option<(Option<usize>, usize)>)
        ensures
            r == contained_spec(self.cubes(), self.inf_cubes(), frame, lemma@),
    {
        if let Some(f0) = frame {
            let mut i: usize = f0;
            while i < self.frames.len()
                invariant
                    f0 <= i,
                    frame == Some(f0),
                    first_frame_subsumer_from(self.cubes(), lemma@, f0 as int) == first_frame_subsumer_from(
                        self.cubes(),
                        lemma@,
                        i as int,
                    ),
                decreases self.cubes().len() - i,
            {
                let j = self.frames[i].first_subsumer(lemma);
                assert(self.cubes()[i as int] == self.frames@[i as int].cubes());
                if j < self.frames[i].len() {
                    return Some((Some(i), j));
                }
                i = i + 1;
            }
        }
        let j = self.inf.first_subsumer(lemma);
        if j < self.inf.len() {
            Some((None, j))
        } else {
            None
        }
    }
}


proof fn lemma_scan_frame_preserves_len_bound(ls: Seq<Seq<Lit>>, c: Seq<Lit>, j: int)
    requires
        0 <= j,
        ls.len() <= usize::MAX,
    ensures
        scan_frame_spec(ls, c, j).1 matches ScanHit::Equal(k) ==> k < scan_frame_spec(ls, c, j).0.len()
            && scan_frame_spec(ls, c, j).0[k as int] == c,
    decreases ls.len() - j,
{
    if j < ls.len() && !spec_subsume(ls[j], c) {
        if spec_subsume(c, ls[j]) {
            lemma_scan_frame_preserves_len_bound(swap_removed(ls, j), c, j);
        } else {
            lemma_scan_frame_preserves_len_bound(ls, c, j + 1);
        }
    }
}

proof fn lemma_scan_frame_len(ls: Seq<Seq<Lit>>, c: Seq<Lit>, j: int)
    requires
        0 <= j,
    ensures
        scan_frame_spec(ls, c, j).0.len() <= ls.len(),
    decreases ls.len() - j,
{
    if j < ls.len() && !spec_subsume(ls[j], c) {
        if spec_subsume(c, ls[j]) {
            lemma_scan_frame_len(swap_removed(ls, j), c, j);
        } else {
            lemma_scan_frame_len(ls, c, j + 1);
        }
    }
}

proof fn lemma_scan_equal_bounds(fs: Seq<Seq<Seq<Lit>>>, c: Seq<Lit>, i: int, frame: int, inv: bool)
    requires
        i <= frame < fs.len(),
        fs.len() <= usize::MAX,
        forall|k: int| 0 <= k < fs.len() ==> #[trigger] fs[k].len() <= usize::MAX,
    ensures
        scan_frames_spec(fs, c, i, frame, inv).0.len() == fs.len(),
        scan_frames_spec(fs, c, i, frame, inv).1 matches ScanOutcome::Equal(a, b) ==> 1 <= a <= i && b
            < scan_frames_spec(fs, c, i, frame, inv).0[a as int].len(),
    decreases i,
{
    if 1 <= i {
        lemma_scan_frame_preserves_len_bound(fs[i], c, 0);
        let (ls, hit) = scan_frame_spec(fs[i], c, 0);
        if hit is NoHit {
            lemma_scan_frame_len(fs[i], c, 0);
            lemma_scan_equal_bounds(fs.update(i, ls), c, i - 1, frame, inv || (i != frame && ls.len() == 0));
        }
    }
}

proof fn lemma_scan_strict_bounds(fs: Seq<Seq<Seq<Lit>>>, c: Seq<Lit>, i: int, frame: int, inv: bool)
    requires
        i <= frame < fs.len(),
        fs.len() <= usize::MAX,
        forall|k: int| 0 <= k < fs.len() ==> #[trigger] fs[k].len() <= usize::MAX,
    ensures
        scan_frames_spec(fs, c, i, frame, inv).0.len() == fs.len(),
        scan_frames_spec(fs, c, i, frame, inv).1 matches ScanOutcome::Strict(a, _) ==> 1 <= a <= i,
    decreases i,
{
    if 1 <= i {
        let (ls, hit) = scan_frame_spec(fs[i], c, 0);
        if hit is NoHit {
            lemma_scan_frame_len(fs[i], c, 0);
            lemma_scan_strict_bounds(fs.update(i, ls), c, i - 1, frame, inv || (i != frame && ls.len() == 0));
        }
    }
}

proof fn lemma_swap_removed_contains(ls: Seq<Seq<Lit>>, j: int)
    requires
        0 <= j < ls.len(),
    ensures
        forall|x: Seq<Lit>| #[trigger] swap_removed(ls, j).contains(x) ==> ls.contains(x),
        forall|x: Seq<Lit>| ls.contains(x) && x != ls[j] ==> #[trigger] swap_removed(ls, j).contains(x),
        forall|k: int| 0 <= k < j ==> #[trigger] swap_removed(ls, j)[k] == ls[k],
{
    let r = swap_removed(ls, j);
    assert forall|x: Seq<Lit>| #[trigger] r.contains(x) implies ls.contains(x) by {
        let k = choose|k: int| 0 <= k < r.len() && r[k] == x;
        if k == j {
            assert(ls[ls.len() - 1] == x);
        } else {
            assert(ls[k] == x);
        }
    }
    assert forall|x: Seq<Lit>| ls.contains(x) && x != ls[j] implies #[trigger] r.contains(x) by {
        let k = choose|k: int| 0 <= k < ls.len() && ls[k] == x;
        if k == ls.len() - 1 {
            if j < ls.len() - 1 {
                assert(r[j] == x);
            }
        } else {
            assert(r[k] == x);
        }
    }
}

proof fn lemma_scan_frame_sets(ls: Seq<Seq<Lit>>, c: Seq<Lit>, j: int)
    requires
        0 <= j <= ls.len(),
        forall|k: int| 0 <= k < j ==> !spec_subsume(#[trigger] ls[k], c) && !spec_subsume(c, ls[k]),
    ensures
        (scan_frame_spec(ls, c, j).1 is NoHit) <==> !(exists|x: Seq<Lit>| #[trigger] ls.contains(x) && spec_subsume(x, c)),
        scan_frame_spec(ls, c, j).1 is NoHit ==> forall|x: Seq<Lit>|
            #[trigger] scan_frame_spec(ls, c, j).0.contains(x) <==> (ls.contains(x) && !spec_subsume(c, x)),
    decreases ls.len() - j,
{
    let r = scan_frame_spec(ls, c, j);
    if j == ls.len() {
        assert forall|x: Seq<Lit>| ls.contains(x) implies !spec_subsume(x, c) && !spec_subsume(c, x) by {
            let k = choose|k: int| 0 <= k < ls.len() && ls[k] == x;
        }
    } else if spec_subsume(ls[j], c) {
        assert(ls.contains(ls[j]));
    } else if spec_subsume(c, ls[j]) {
        let ls2 = swap_removed(ls, j);
        lemma_swap_removed_contains(ls, j);
        lemma_scan_frame_sets(ls2, c, j);
        assert forall|x: Seq<Lit>| ls.contains(x) && spec_subsume(x, c) implies ls2.contains(x) by {
            assert(x != ls[j]);
        }
        if r.1 is NoHit {
            assert forall|x: Seq<Lit>| #[trigger] r.0.contains(x) <==> (ls.contains(x) && !spec_subsume(c, x)) by {
                if ls.contains(x) && !spec_subsume(c, x) {
                    assert(x != ls[j]);
                }
            }
        }
    } else {
        lemma_scan_frame_sets(ls, c, j + 1);
    }
}

/// Scanning a frame for a new lemma `c` stops exactly when the frame holds a
/// lemma that subsumes `c`; when it does not stop, the frame keeps exactly
/// its lemmas that `c` does not subsume.
pub proof fn lemma_scan_frame_law(ls: Seq<Seq<Lit>>, c: Seq<Lit>)
    ensures
        (scan_frame_spec(ls, c, 0).1 is NoHit) <==> !(exists|x: Seq<Lit>| #[trigger] ls.contains(x) && spec_subsume(x, c)),
        scan_frame_spec(ls, c, 0).1 is NoHit ==> forall|x: Seq<Lit>|
            #[trigger] scan_frame_spec(ls, c, 0).0.contains(x) <==> (ls.contains(x) && !spec_subsume(c, x)),
{
    lemma_scan_frame_sets(ls, c, 0);
}


/// No two positions of `s` hold the same cube.
pub open spec fn no_dup(s: Seq<Seq<Lit>>) -> bool {
    forall|x: int, y: int| 0 <= x < y < s.len() ==> #[trigger] s[x] != #[trigger] s[y]
}

/// Frame `k` of `fs1` keeps exactly the lemmas of frame `k` of `fs` that `c`
/// does not subsume.
pub open spec fn frame_filtered(fs: Seq<Seq<Seq<Lit>>>, fs1: Seq<Seq<Seq<Lit>>>, c: Seq<Lit>, k: int) -> bool {
    forall|x: Seq<Lit>| #[trigger] fs1[k].contains(x) <==> (fs[k].contains(x) && !spec_subsume(c, x))
}

proof fn lemma_swap_removed_no_dup(ls: Seq<Seq<Lit>>, j: int)
    requires
        0 <= j < ls.len(),
        no_dup(ls),
    ensures
        no_dup(swap_removed(ls, j)),
        !swap_removed(ls, j).contains(ls[j]),
{
    let r = swap_removed(ls, j);
    let n = ls.len() - 1;
    assert forall|x: int, y: int| 0 <= x < y < r.len() implies #[trigger] r[x] != #[trigger] r[y] by {
        let px = if x == j { n } else { x };
        let py = if y == j { n } else { y };
        assert(r[x] == ls[px] && r[y] == ls[py]);
        if px < py {
            assert(ls[px] != ls[py]);
        } else {
            assert(ls[py] != ls[px]);
        }
    }
    if r.contains(ls[j]) {
        let x = choose|x: int| 0 <= x < r.len() && r[x] == ls[j];
        let px = if x == j { n } else { x };
        assert(r[x] == ls[px]);
        if px < j {
            assert(ls[px] != ls[j]);
        } else {
            assert(ls[j] != ls[px]);
        }
    }
}

/// What scanning one frame for `c` leaves: some of its lemmas, none twice
/// where none was twice; on a hit, the lemma found.
proof fn lemma_scan_frame_facts(ls: Seq<Seq<Lit>>, c: Seq<Lit>, j: int)
    requires
        0 <= j <= ls.len(),
        ls.len() <= usize::MAX,
    ensures
        forall|x: Seq<Lit>| #[trigger] scan_frame_spec(ls, c, j).0.contains(x) ==> ls.contains(x),
        no_dup(ls) ==> no_dup(scan_frame_spec(ls, c, j).0),
        scan_frame_spec(ls, c, j).1 matches ScanHit::Equal(k) ==> 0 <= k < scan_frame_spec(ls, c, j).0.len()
            && scan_frame_spec(ls, c, j).0[k as int] == c,
        scan_frame_spec(ls, c, j).1 is Strict ==> exists|l: Seq<Lit>| #[trigger] ls.contains(l) && spec_subsume(l, c) && l != c,
    decreases ls.len() - j,
{
    if j < ls.len() {
        if spec_subsume(ls[j], c) {
            assert(ls.contains(ls[j]));
        } else if spec_subsume(c, ls[j]) {
            let ls2 = swap_removed(ls, j);
            lemma_swap_removed_contains(ls, j);
            if no_dup(ls) {
                lemma_swap_removed_no_dup(ls, j);
            }
            lemma_scan_frame_facts(ls2, c, j);
            if scan_frame_spec(ls, c, j).1 is Strict {
                let l = choose|l: Seq<Lit>| #[trigger] ls2.contains(l) && spec_subsume(l, c) && l != c;
                assert(ls.contains(l));
            }
        } else {
            lemma_scan_frame_facts(ls, c, j + 1);
        }
    }
}

/// What scanning frames `i` down to 1 for `c` leaves: frames outside that
/// range unchanged, each frame some of its lemmas (none twice where none was
/// twice), and, down to where the scan stopped, exactly the lemmas `c` does
/// not subsume.
proof fn lemma_scan_frames_facts(fs: Seq<Seq<Seq<Lit>>>, c: Seq<Lit>, i: int, frame: int, inv: bool)
    requires
        0 <= i < fs.len(),
        fs.len() <= usize::MAX,
        forall|k: int| 0 <= k < fs.len() ==> #[trigger] fs[k].len() <= usize::MAX,
    ensures
        ({
            let (fs1, out) = scan_frames_spec(fs, c, i, frame, inv);
            &&& fs1.len() == fs.len()
            &&& forall|k: int| 0 <= k < fs.len() && (k < 1 || k > i) ==> #[trigger] fs1[k] == fs[k]
            &&& forall|k: int, x: Seq<Lit>| 0 <= k < fs.len() && #[trigger] fs1[k].contains(x) ==> fs[k].contains(x)
            &&& forall|k: int| 0 <= k < fs.len() && no_dup(fs[k]) ==> no_dup(#[trigger] fs1[k])
            &&& match out {
                ScanOutcome::Done(b) => (forall|k: int| 1 <= k <= i ==> #[trigger] frame_filtered(fs, fs1, c, k))
                    && (b ==> inv || exists|k: int| 1 <= k <= i && k != frame && (#[trigger] fs1[k]).len() == 0),
                ScanOutcome::Strict(a, b) => 1 <= a <= i
                    && (forall|k: int| a < k <= i ==> #[trigger] frame_filtered(fs, fs1, c, k))
                    && (forall|k: int| 0 <= k < a ==> #[trigger] fs1[k] == fs[k])
                    && (exists|l: Seq<Lit>| #[trigger] fs[a as int].contains(l) && spec_subsume(l, c) && l != c)
                    && (b ==> inv || exists|k: int| a < k <= i && k != frame && (#[trigger] fs1[k]).len() == 0),
                ScanOutcome::Equal(a, j) => 1 <= a <= i
                    && (forall|k: int| a < k <= i ==> #[trigger] frame_filtered(fs, fs1, c, k))
                    && (forall|k: int| 0 <= k < a ==> #[trigger] fs1[k] == fs[k])
                    && 0 <= j < fs1[a as int].len() && fs1[a as int][j as int] == c,
            }
        }),
    decreases i,
{
    if i >= 1 {
        let (ls, hit) = scan_frame_spec(fs[i], c, 0);
        let fs1 = fs.update(i, ls);
        lemma_scan_frame_facts(fs[i], c, 0);
        lemma_scan_frame_law(fs[i], c);
        if hit is NoHit {
            lemma_scan_frame_len(fs[i], c, 0);
            assert forall|k: int| 0 <= k < fs1.len() implies #[trigger] fs1[k].len() <= usize::MAX by {
                if k != i {
                    assert(fs1[k] == fs[k]);
                }
            }
            let inv1 = inv || (i != frame && ls.len() == 0);
            lemma_scan_frames_facts(fs1, c, i - 1, frame, inv1);
            let (fs2, out) = scan_frames_spec(fs1, c, i - 1, frame, inv1);
            assert(fs2[i] == ls);
            assert(frame_filtered(fs, fs2, c, i));
            assert forall|k: int| 0 <= k < fs.len() && (k < 1 || k > i) implies #[trigger] fs2[k] == fs[k] by {
                assert(fs2[k] == fs1[k]);
            }
            assert forall|k: int, x: Seq<Lit>| 0 <= k < fs.len() && #[trigger] fs2[k].contains(x) implies fs[k].contains(x) by {
                assert(fs1[k].contains(x));
            }
            assert forall|k: int| 0 <= k < fs.len() && no_dup(fs[k]) implies no_dup(#[trigger] fs2[k]) by {
                assert(no_dup(fs1[k]));
            }
            match out {
                ScanOutcome::Done(b) => {
                    assert forall|k: int| 1 <= k <= i implies #[trigger] frame_filtered(fs, fs2, c, k) by {
                        if k < i {
                            assert(frame_filtered(fs1, fs2, c, k));
                            assert(fs1[k] == fs[k]);
                        }
                    }
                    if b && !inv && !(exists|k: int| 1 <= k <= i - 1 && k != frame && (#[trigger] fs2[k]).len() == 0) {
                        assert(fs2[i].len() == 0);
                    }
                },
                ScanOutcome::Strict(a, b) => {
                    assert forall|k: int| a < k <= i implies #[trigger] frame_filtered(fs, fs2, c, k) by {
                        if k < i {
                            assert(frame_filtered(fs1, fs2, c, k));
                            assert(fs1[k] == fs[k]);
                        }
                    }
                    assert(fs1[a as int] == fs[a as int]);
                    if b && !inv && !(exists|k: int| a < k <= i - 1 && k != frame && (#[trigger] fs2[k]).len() == 0) {
                        assert(fs2[i].len() == 0);
                    }
                },
                ScanOutcome::Equal(a, j) => {
                    assert forall|k: int| a < k <= i implies #[trigger] frame_filtered(fs, fs2, c, k) by {
                        if k < i {
                            assert(frame_filtered(fs1, fs2, c, k));
                            assert(fs1[k] == fs[k]);
                        }
                    }
                },
            }
        }
    }
}


/// No lemma of frame 1 or later is subsumed by a lemma at another position
/// of the same frame or of a later one.
pub open spec fn frames_reduced(fs: Seq<Seq<Seq<Lit>>>) -> bool {
    forall|i: int, j: int, x: int, y: int|
        #![trigger fs[i][x], fs[j][y]]
        1 <= i <= j < fs.len() && 0 <= x < fs[i].len() && 0 <= y < fs[j].len() && (i != j || x != y)
            ==> !spec_subsume(fs[j][y], fs[i][x])
}

/// `frames_reduced`, stated over which cubes the frames hold.
spec fn reduced_sets(fs: Seq<Seq<Seq<Lit>>>) -> bool {
    &&& forall|k: int| 1 <= k < fs.len() ==> no_dup(#[trigger] fs[k])
    &&& forall|i: int, j: int, a: Seq<Lit>, b: Seq<Lit>|
        #![trigger fs[i].contains(a), fs[j].contains(b)]
        1 <= i <= j < fs.len() && fs[i].contains(a) && fs[j].contains(b) && (i != j || a != b)
            ==> !spec_subsume(b, a)
}

proof fn lemma_subsume_refl(a: Seq<Lit>)
    ensures
        spec_subsume(a, a),
{
    assert forall|i: int| 0 <= i < a.len() implies a.contains(#[trigger] a[i]) by {}
}

proof fn lemma_subsume_trans(a: Seq<Lit>, b: Seq<Lit>, c: Seq<Lit>)
    requires
        spec_subsume(a, b),
        spec_subsume(b, c),
    ensures
        spec_subsume(a, c),
{
    assert forall|i: int| 0 <= i < a.len() implies c.contains(#[trigger] a[i]) by {
        assert(b.contains(a[i]));
        let k = choose|k: int| 0 <= k < b.len() && b[k] == a[i];
        assert(c.contains(b[k]));
    }
}

proof fn lemma_reduced_sets(fs: Seq<Seq<Seq<Lit>>>)
    ensures
        frames_reduced(fs) <==> reduced_sets(fs),
{
    if frames_reduced(fs) {
        assert forall|k: int| 1 <= k < fs.len() implies no_dup(#[trigger] fs[k]) by {
            assert forall|x: int, y: int| 0 <= x < y < fs[k].len() implies #[trigger] fs[k][x] != #[trigger] fs[k][y] by {
                lemma_subsume_refl(fs[k][x]);
            }
        }
        assert forall|i: int, j: int, a: Seq<Lit>, b: Seq<Lit>|
            1 <= i <= j < fs.len() && #[trigger] fs[i].contains(a) && #[trigger] fs[j].contains(b) && (i != j || a != b)
            implies !spec_subsume(b, a) by {
            let x = choose|x: int| 0 <= x < fs[i].len() && fs[i][x] == a;
            let y = choose|y: int| 0 <= y < fs[j].len() && fs[j][y] == b;
        }
    }
    if reduced_sets(fs) {
        assert forall|i: int, j: int, x: int, y: int|
            1 <= i <= j < fs.len() && 0 <= x < fs[i].len() && 0 <= y < fs[j].len() && (i != j || x != y)
            implies !spec_subsume(#[trigger] fs[j][y], #[trigger] fs[i][x]) by {
            assert(fs[i].contains(fs[i][x]));
            assert(fs[j].contains(fs[j][y]));
            if i == j && x < y {
                assert(fs[i][x] != fs[i][y]);
            }
            if i == j && y < x {
                assert(fs[i][y] != fs[i][x]);
            }
        }
    }
}

/// When no lemma of the frames from `i` on subsumes `c`, there is none to find.
proof fn lemma_no_frame_subsumer(fs: Seq<Seq<Seq<Lit>>>, c: Seq<Lit>, i: int)
    requires
        0 <= i,
        forall|j: int, y: int| i <= j < fs.len() && 0 <= y < fs[j].len() ==> !spec_subsume(#[trigger] fs[j][y], c),
    ensures
        first_frame_subsumer_from(fs, c, i) is None,
    decreases fs.len() - i,
{
    if i < fs.len() {
        assert forall|m: int| 0 <= m < fs[i].len() implies !spec_subsume(#[trigger] fs[i][m], c) by {}
        lemma_first_subsumer_is(fs[i], c, fs[i].len() as int, 0);
        lemma_no_frame_subsumer(fs, c, i + 1);
    }
}

/// Adding a lemma to frame 1 or later keeps the frames reduced, when no lemma
/// of that frame or a later one, nor of the infinite frame, subsumes it: the
/// lemma ends that frame, `early` does not grow, and where an inductive
/// invariant is reported, a frame below the target is empty. A lemma below
/// the target with the same literals as the new one, repeated differently,
/// must not occur: the scan would stop at it and leave it in place.
pub proof fn lemma_add_lemma_keeps_frames_reduced(
    fs: Seq<Seq<Seq<Lit>>>,
    inf: Seq<Seq<Lit>>,
    early: usize,
    frame: usize,
    c: Seq<Lit>,
    sym: Option<Seq<Lit>>,
    contained_check: bool,
    level: usize,
    pred_prop: bool,
)
    requires
        1 <= frame < fs.len() <= usize::MAX,
        forall|k: int| 0 <= k < fs.len() ==> #[trigger] fs[k].len() <= usize::MAX,
        frames_reduced(fs),
        forall|k: int, y: int|
            1 <= k < frame && 0 <= y < fs[k].len() && spec_subsume(c, #[trigger] fs[k][y]) && spec_subsume(fs[k][y], c)
                ==> fs[k][y] == c,
        forall|j: int, y: int| frame <= j < fs.len() && 0 <= y < fs[j].len() ==> !spec_subsume(#[trigger] fs[j][y], c),
        forall|y: int| 0 <= y < inf.len() ==> !spec_subsume(#[trigger] inf[y], c),
    ensures
        ({
            let (fs2, early2, inv_found, _) = add_lemma_spec(fs, inf, early, frame, c, sym, contained_check, level, pred_prop);
            &&& fs2.len() == fs.len()
            &&& frames_reduced(fs2)
            &&& fs2[frame as int].len() > 0 && fs2[frame as int].last() == c
            &&& early2 <= early
            &&& inv_found ==> exists|i: int| 1 <= i < frame && (#[trigger] fs2[i]).len() == 0
        }),
{
    let fr = frame as int;
    lemma_no_frame_subsumer(fs, c, fr);
    assert forall|m: int| 0 <= m < inf.len() implies !spec_subsume(#[trigger] inf[m], c) by {}
    lemma_first_subsumer_is(inf, c, inf.len() as int, 0);
    assert(contained_spec(fs, inf, Some(frame), c) is None);
    lemma_reduced_sets(fs);
    lemma_scan_frames_facts(fs, c, fr, fr, false);
    lemma_subsume_refl(c);
    let (fs1, out) = scan_frames_spec(fs, c, fr, fr, false);
    // c is in no frame from the target on, so not in what is left of it.
    assert(!fs[fr].contains(c)) by {
        if fs[fr].contains(c) {
            let y = choose|y: int| 0 <= y < fs[fr].len() && fs[fr][y] == c;
        }
    }
    // What is left of the old lemmas, before `c` is pushed.
    let kept: Seq<Seq<Seq<Lit>>> = match out {
        ScanOutcome::Equal(a, j) => fs1.update(a as int, swap_removed(fs1[a as int], j as int)),
        _ => fs1,
    };
    let fs2 = kept.update(fr, kept[fr].push(c));
    assert(fs2 == add_lemma_spec(fs, inf, early, frame, c, sym, contained_check, level, pred_prop).0);
    // Where the scan stopped lies below the target frame.
    match out {
        ScanOutcome::Strict(a, _) => {
            if a as int == fr {
                let l = choose|l: Seq<Lit>| #[trigger] fs[a as int].contains(l) && spec_subsume(l, c) && l != c;
                let y = choose|y: int| 0 <= y < fs[fr].len() && fs[fr][y] == l;
            }
        },
        ScanOutcome::Equal(a, j) => {
            if a as int == fr {
                assert(fs1[fr].contains(c));
            }
        },
        _ => {},
    }
    // The old lemmas kept are old lemmas; none is there twice.
    assert forall|k: int, x: Seq<Lit>| 0 <= k < fs.len() && #[trigger] kept[k].contains(x) implies fs[k].contains(x) by {
        if let ScanOutcome::Equal(a, j) = out {
            if k == a as int {
                lemma_swap_removed_contains(fs1[k], j as int);
            }
        }
        assert(fs1[k].contains(x));
    }
    assert forall|k: int| 1 <= k < fs.len() implies no_dup(#[trigger] kept[k]) by {
        assert(no_dup(fs1[k]));
        if let ScanOutcome::Equal(a, j) = out {
            if k == a as int {
                lemma_swap_removed_no_dup(fs1[k], j as int);
            }
        }
    }
    // `c` subsumes none of the old lemmas kept in frames 1 to the target.
    assert forall|k: int, x: Seq<Lit>| 1 <= k <= fr && #[trigger] kept[k].contains(x) implies !spec_subsume(c, x) by {
        assert(fs[k].contains(x));
        match out {
            ScanOutcome::Done(_) => {
                assert(frame_filtered(fs, fs1, c, k));
            },
            ScanOutcome::Strict(a, _) => {
                if k > a as int {
                    assert(frame_filtered(fs, fs1, c, k));
                } else if spec_subsume(c, x) {
                    let l = choose|l: Seq<Lit>| #[trigger] fs[a as int].contains(l) && spec_subsume(l, c) && l != c;
                    lemma_subsume_trans(l, c, x);
                    if k == a as int && x == l {
                        let y = choose|y: int| 0 <= y < fs[k].len() && fs[k][y] == l;
                        assert(spec_subsume(c, fs[k][y]) && spec_subsume(fs[k][y], c));
                    }
                    assert(fs[k].contains(x) && fs[a as int].contains(l));
                }
            },
            ScanOutcome::Equal(a, j) => {
                if k > a as int {
                    assert(frame_filtered(fs, fs1, c, k));
                } else {
                    assert(fs1[a as int].contains(c));
                    assert(fs[a as int].contains(c));
                    if k == a as int {
                        lemma_swap_removed_no_dup(fs1[k], j as int);
                        assert(x != c);
                    }
                }
            },
        }
    }
    assert(!kept[fr].contains(c));
    lemma_push_contains(kept[fr], c);
    assert forall|k: int| 1 <= k < fs.len() implies no_dup(#[trigger] fs2[k]) by {
        if k == fr {
            assert forall|x: int, y: int| 0 <= x < y < fs2[k].len() implies #[trigger] fs2[k][x] != #[trigger] fs2[k][y] by {
                if y == fs2[k].len() - 1 {
                    assert(kept[fr].contains(kept[fr][x]));
                } else {
                    assert(no_dup(kept[fr]));
                }
            }
        }
    }
    assert forall|i: int, j: int, a: Seq<Lit>, b: Seq<Lit>|
        1 <= i <= j < fs2.len() && #[trigger] fs2[i].contains(a) && #[trigger] fs2[j].contains(b) && (i != j || a != b)
        implies !spec_subsume(b, a) by {
        let a_new = i == fr && a == c;
        let b_new = j == fr && b == c;
        if !a_new {
            assert(kept[i].contains(a));
            assert(fs[i].contains(a));
        }
        if !b_new {
            assert(kept[j].contains(b));
            assert(fs[j].contains(b));
        }
        if a_new && !b_new {
            let y = choose|y: int| 0 <= y < fs[j].len() && fs[j][y] == b;
        }
    }
    lemma_reduced_sets(fs2);
    match out {
        ScanOutcome::Equal(a, j) => {
            assert(fs2[a as int] == kept[a as int]);
        },
        ScanOutcome::Strict(a, b) => {
            if b {
                let k = choose|k: int| a < k <= fr && k != fr && (#[trigger] fs1[k]).len() == 0;
                assert(fs2[k] == fs1[k]);
            }
        },
        ScanOutcome::Done(b) => {
            if b {
                let k = choose|k: int| 1 <= k <= fr && k != fr && (#[trigger] fs1[k]).len() == 0;
                assert(fs2[k] == fs1[k]);
            }
        },
    }
}

} // verus!
