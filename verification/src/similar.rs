//! Cubes similar to a given cube, among the lemmas of the frames: the parts
//! of lemmas that lie in the cube, where they are proper parts of at least
//! half its size. The parts are gathered in a hash set; the longest three
//! are returned, longest first.
use vstd::prelude::*;
use crate::frame::{concat_frames, Frames};
use crate::ghash::{
    code_set_contains, code_set_contents, code_set_insert, code_set_new, cube_set_contents,
    cube_set_entries, cube_set_insert, cube_set_new, CodeSet,
};
use crate::lit::Lit;
use crate::litvec::{keep_in, LitVec};

verus! {

/// The codes of the literals of `s`, in order.
pub open spec fn codes_of(s: Seq<Lit>) -> Seq<u32> {
    s.map_values(|l: Lit| l.0)
}

/// `s` has fewer literals than `cube`, but at least half as many.
pub open spec fn similar_part(s: Seq<Lit>, cube: Seq<Lit>) -> bool {
    s.len() != cube.len() && 2 * s.len() >= cube.len()
}

/// The codes of the parts in `cube` of the lemmas `ls` that are similar
/// parts.
pub open spec fn similar_codes(ls: Seq<Seq<Lit>>, cube: Seq<Lit>) -> Set<Seq<u32>>
    decreases ls.len(),
{
    if ls.len() == 0 {
        Set::empty()
    } else {
        let prev = similar_codes(ls.drop_last(), cube);
        let s = keep_in(ls.last(), cube);
        if similar_part(s, cube) {
            prev.insert(codes_of(s))
        } else {
            prev
        }
    }
}

proof fn lemma_similar_codes_finite(ls: Seq<Seq<Lit>>, cube: Seq<Lit>)
    ensures
        similar_codes(ls, cube).finite(),
    decreases ls.len(),
{
    if ls.len() > 0 {
        lemma_similar_codes_finite(ls.drop_last(), cube);
    }
}

proof fn lemma_codes_contains(s: Seq<Lit>, l: Lit)
    ensures
        codes_of(s).to_set().contains(l.0) <==> s.contains(l),
{
    if s.contains(l) {
        let i = choose|i: int| 0 <= i < s.len() && s[i] == l;
        assert(codes_of(s)[i] == l.0);
    }
    if codes_of(s).to_set().contains(l.0) {
        let i = choose|i: int| 0 <= i < codes_of(s).len() && codes_of(s)[i] == l.0;
        assert(s[i].0 == l.0);
        assert(s[i] == l);
    }
}

proof fn lemma_push_to_set(s: Seq<u32>, x: u32)
    ensures
        s.push(x).to_set() == s.to_set().insert(x),
{
    assert forall|y: u32| s.push(x).to_set().contains(y) implies s.to_set().insert(x).contains(y) by {
        let i = choose|i: int| 0 <= i < s.push(x).len() && s.push(x)[i] == y;
        if i < s.len() {
            assert(s[i] == y);
        }
    }
    assert forall|y: u32| s.to_set().insert(x).contains(y) implies s.push(x).to_set().contains(y) by {
        if y == x {
            assert(s.push(x)[s.len() as int] == y);
        } else {
            let i = choose|i: int| 0 <= i < s.len() && s[i] == y;
            assert(s.push(x)[i] == y);
        }
    }
    assert(s.push(x).to_set() =~= s.to_set().insert(x));
}

fn cube_codes(cube: &[Lit]) -> (s: CodeSet)
    ensures
        code_set_contents(s) == codes_of(cube@).to_set(),
{
    let mut s = code_set_new();
    let mut i: usize = 0;
    while i < cube.len()
        invariant
            i <= cube@.len(),
            code_set_contents(s) == codes_of(cube@.take(i as int)).to_set(),
        decreases cube@.len() - i,
    {
        code_set_insert(&mut s, cube[i].0);
        assert(codes_of(cube@.take(i + 1)) =~= codes_of(cube@.take(i as int)).push(cube@[i as int].0));
        proof {
            lemma_push_to_set(codes_of(cube@.take(i as int)), cube@[i as int].0);
        }
        i = i + 1;
    }
    assert(cube@.take(cube@.len() as int) =~= cube@);
    s
}

fn part_in(lemma: &LitVec, cube: &[Lit], cube_set: &CodeSet) -> (r: LitVec)
    requires
        code_set_contents(*cube_set) == codes_of(cube@).to_set(),
    ensures
        r@ == keep_in(lemma@, cube@),
{
    let mut r = LitVec::new();
    let mut k: usize = 0;
    assert(lemma@.take(0) =~= Seq::<Lit>::empty());
    while k < lemma.len()
        invariant
            k <= lemma@.len(),
            code_set_contents(*cube_set) == codes_of(cube@).to_set(),
            r@ == keep_in(lemma@.take(k as int), cube@),
        decreases lemma@.len() - k,
    {
        let l = lemma.get(k);
        proof {
            assert(lemma@.take(k + 1).drop_last() =~= lemma@.take(k as int));
            assert(lemma@.take(k + 1).last() == l);
            lemma_codes_contains(cube@, l);
        }
        if code_set_contains(cube_set, l.0) {
            r.push(l);
        }
        k = k + 1;
    }
    assert(lemma@.take(lemma@.len() as int) =~= lemma@);
    r
}

fn codes_vec(s: &LitVec) -> (r: Vec<u32>)
    ensures
        r@ == codes_of(s@),
{
    let mut r: Vec<u32> = Vec::new();
    let mut k: usize = 0;
    while k < s.len()
        invariant
            k <= s@.len(),
            r@ == codes_of(s@.take(k as int)),
        decreases s@.len() - k,
    {
        r.push(s.get(k).0);
        assert(codes_of(s@.take(k + 1)) =~= codes_of(s@.take(k as int)).push(s@[k as int].0));
        k = k + 1;
    }
    assert(s@.take(s@.len() as int) =~= s@);
    r
}

fn lits_vec(c: &Vec<u32>) -> (r: LitVec)
    ensures
        codes_of(r@) == c@,
{
    let mut r = LitVec::new();
    let mut k: usize = 0;
    while k < c.len()
        invariant
            k <= c@.len(),
            r@.len() == k,
            codes_of(r@) == c@.take(k as int),
        decreases c@.len() - k,
    {
        let ghost before = r@;
        r.push(Lit(c[k]));
        assert(r@ == before.push(Lit(c@[k as int])));
        assert forall|t: int| 0 <= t < k + 1 implies #[trigger] codes_of(r@)[t] == c@.take(k + 1)[t] by {
            assert(codes_of(r@)[t] == r@[t].0);
            if t < k {
                assert(r@[t] == before[t]);
                assert(codes_of(before)[t] == before[t].0);
                assert(codes_of(before)[t] == c@.take(k as int)[t]);
            } else {
                assert(r@[t] == Lit(c@[k as int]));
            }
        }
        assert(codes_of(r@) =~= c@.take(k + 1));
        k = k + 1;
    }
    assert(c@.take(c@.len() as int) =~= c@);
    r
}

pub open spec fn vviews(s: Seq<Vec<u32>>) -> Seq<Seq<u32>> {
    s.map_values(|x: Vec<u32>| x@)
}

/// Lengths never decrease along `s`.
pub open spec fn ascending_len(s: Seq<Seq<u32>>) -> bool {
    forall|a: int, b: int| 0 <= a <= b < s.len() ==> (#[trigger] s[a]).len() <= (#[trigger] s[b]).len()
}

pub open spec fn distinct(s: Seq<Seq<u32>>) -> bool {
    forall|a: int, b: int| 0 <= a < b < s.len() ==> #[trigger] s[a] != #[trigger] s[b]
}

/// Every element of `out` is an element of `vv` from position `m` on.
#[verifier::opaque]
pub open spec fn comes_from(out: Seq<Seq<u32>>, vv: Seq<Seq<u32>>, m: int) -> bool {
    forall|t: int| #![trigger out[t]] 0 <= t < out.len() ==> exists|e: int| m <= e < vv.len() && out[t] == #[trigger] vv[e]
}

/// Every element of `vv` from position `m` on is in `out`.
#[verifier::opaque]
pub open spec fn holds_all(out: Seq<Seq<u32>>, vv: Seq<Seq<u32>>, m: int) -> bool {
    forall|e: int| #![trigger vv[e]] m <= e < vv.len() ==> exists|t: int| 0 <= t < out.len() && #[trigger] out[t] == vv[e]
}

/// The facts the insertion sort keeps: `out` is sorted, distinct, and holds
/// exactly the elements of `vv` from position `m` on.
pub open spec fn sort_state(out: Seq<Seq<u32>>, vv: Seq<Seq<u32>>, m: int) -> bool {
    &&& ascending_len(out)
    &&& distinct(out)
    &&& out.len() == vv.len() - m
    &&& comes_from(out, vv, m)
    &&& holds_all(out, vv, m)
}

proof fn lemma_step_ascending(before: Seq<Seq<u32>>, x: Seq<u32>, p: int)
    requires
        ascending_len(before),
        0 <= p <= before.len(),
        forall|t: int| 0 <= t < p ==> (#[trigger] before[t]).len() < x.len(),
        p < before.len() ==> before[p].len() >= x.len(),
    ensures
        ascending_len(before.insert(p, x)),
{
    let after = before.insert(p, x);
    assert forall|a: int, b: int| 0 <= a <= b < after.len() implies (#[trigger] after[a]).len() <= (#[trigger] after[b]).len() by {
        if b < p {
            assert(after[a] == before[a] && after[b] == before[b]);
        } else if a < p && b == p {
            assert(after[a] == before[a]);
        } else if a < p {
            assert(after[a] == before[a] && after[b] == before[b - 1]);
            assert(before[p].len() <= before[b - 1].len());
        } else if a == p && b > p {
            assert(after[b] == before[b - 1]);
            assert(before[p].len() <= before[b - 1].len());
        } else if a > p {
            assert(after[a] == before[a - 1] && after[b] == before[b - 1]);
        }
    }
}

proof fn lemma_step_distinct(before: Seq<Seq<u32>>, x: Seq<u32>, p: int)
    requires
        distinct(before),
        0 <= p <= before.len(),
        forall|t: int| 0 <= t < before.len() ==> #[trigger] before[t] != x,
    ensures
        distinct(before.insert(p, x)),
{
    let after = before.insert(p, x);
    assert forall|a: int, b: int| 0 <= a < b < after.len() implies #[trigger] after[a] != #[trigger] after[b] by {
        if b < p {
            assert(after[a] == before[a] && after[b] == before[b]);
        } else if a < p && b == p {
            assert(after[a] == before[a]);
        } else if a < p {
            assert(after[a] == before[a] && after[b] == before[b - 1]);
        } else if a == p {
            assert(after[b] == before[b - 1]);
        } else {
            assert(after[a] == before[a - 1] && after[b] == before[b - 1]);
        }
    }
}

proof fn lemma_step_from(before: Seq<Seq<u32>>, vv: Seq<Seq<u32>>, m: int, p: int)
    requires
        0 < m <= vv.len(),
        0 <= p <= before.len(),
        comes_from(before, vv, m),
    ensures
        comes_from(before.insert(p, vv[m - 1]), vv, m - 1),
{
    reveal(comes_from);
    let after = before.insert(p, vv[m - 1]);
    assert forall|t: int| #![trigger after[t]] 0 <= t < after.len() implies exists|e: int| m - 1 <= e < vv.len() && after[t] == #[trigger] vv[e] by {
        if t < p {
            let e = choose|e: int| m <= e < vv.len() && before[t] == vv[e];
            assert(after[t] == vv[e]);
        } else if t == p {
            assert(after[t] == vv[m - 1]);
        } else {
            let e = choose|e: int| m <= e < vv.len() && before[t - 1] == vv[e];
            assert(after[t] == vv[e]);
        }
    }
}

proof fn lemma_step_to(before: Seq<Seq<u32>>, vv: Seq<Seq<u32>>, m: int, p: int)
    requires
        0 < m <= vv.len(),
        0 <= p <= before.len(),
        holds_all(before, vv, m),
    ensures
        holds_all(before.insert(p, vv[m - 1]), vv, m - 1),
{
    reveal(holds_all);
    let after = before.insert(p, vv[m - 1]);
    assert forall|e: int| #![trigger vv[e]] m - 1 <= e < vv.len() implies exists|t: int| 0 <= t < after.len() && #[trigger] after[t] == vv[e] by {
        if e == m - 1 {
            assert(after[p] == vv[e]);
        } else {
            let t = choose|t: int| 0 <= t < before.len() && #[trigger] before[t] == vv[e];
            if t < p {
                assert(after[t] == vv[e]);
            } else {
                assert(after[t + 1] == vv[e]);
            }
        }
    }
}

proof fn lemma_step_new(before: Seq<Seq<u32>>, vv: Seq<Seq<u32>>, m: int)
    requires
        0 < m <= vv.len(),
        distinct(vv),
        comes_from(before, vv, m),
    ensures
        forall|t: int| 0 <= t < before.len() ==> #[trigger] before[t] != vv[m - 1],
{
    reveal(comes_from);
    assert forall|t: int| 0 <= t < before.len() implies #[trigger] before[t] != vv[m - 1] by {
        let e = choose|e: int| m <= e < vv.len() && before[t] == vv[e];
        assert(vv[m - 1] != vv[e]);
    }
}

proof fn lemma_sort_step(before: Seq<Seq<u32>>, vv: Seq<Seq<u32>>, m: int, p: int)
    requires
        0 < m <= vv.len(),
        distinct(vv),
        sort_state(before, vv, m),
        0 <= p <= before.len(),
        forall|t: int| 0 <= t < p ==> (#[trigger] before[t]).len() < vv[m - 1].len(),
        p < before.len() ==> before[p].len() >= vv[m - 1].len(),
    ensures
        sort_state(before.insert(p, vv[m - 1]), vv, m - 1),
{
    lemma_step_new(before, vv, m);
    lemma_step_ascending(before, vv[m - 1], p);
    lemma_step_distinct(before, vv[m - 1], p);
    lemma_step_from(before, vv, m, p);
    lemma_step_to(before, vv, m, p);
}

/// Sorts by length, stably: equal lengths keep their order.
fn sort_by_len(v: Vec<Vec<u32>>) -> (out: Vec<Vec<u32>>)
    requires
        distinct(vviews(v@)),
    ensures
        sort_state(vviews(out@), vviews(v@), 0),
{
    let ghost vv = vviews(v@);
    let mut w = v;
    let mut out: Vec<Vec<u32>> = Vec::new();
    assert(vv.take(vv.len() as int) =~= vv);
    proof {
        reveal(comes_from);
        reveal(holds_all);
    }
    while w.len() > 0
        invariant
            distinct(vv),
            w@.len() <= vv.len(),
            vviews(w@) == vv.take(w@.len() as int),
            sort_state(vviews(out@), vv, w@.len() as int),
        decreases w@.len(),
    {
        let ghost m = w@.len() as int;
        let ghost before = vviews(out@);
        let ghost wb = w@;
        let x = w.pop().unwrap();
        assert(x@ == vv[m - 1]) by {
            assert(wb == w@.push(x));
            assert(vviews(wb)[m - 1] == x@);
            assert(vv.take(m)[m - 1] == vv[m - 1]);
        }
        assert(vviews(w@) =~= vv.take(m - 1)) by {
            assert(w@ =~= wb.drop_last());
            assert forall|t: int| 0 <= t < m - 1 implies vviews(w@)[t] == vv.take(m - 1)[t] by {
                assert(vviews(wb)[t] == vv.take(m)[t]);
            }
        }
        let mut p: usize = 0;
        while p < out.len() && out[p].len() < x.len()
            invariant
                p <= out@.len(),
                forall|t: int| 0 <= t < p ==> (#[trigger] vviews(out@)[t]).len() < x@.len(),
            decreases out@.len() - p,
        {
            assert(vviews(out@)[p as int] == out@[p as int]@);
            p = p + 1;
        }
        proof {
            if p < out@.len() {
                assert(vviews(out@)[p as int] == out@[p as int]@);
            }
            lemma_sort_step(before, vv, m, p as int);
        }
        out.insert(p, x);
        assert(vviews(out@) =~= before.insert(p as int, vv[m - 1]));
    }
    out
}

/// The last three of `sv`, last first, are three of the longest of `cs`,
/// which `ev` lists and `sv` holds sorted by length.
proof fn lemma_top_three(cs: Set<Seq<u32>>, ev: Seq<Seq<u32>>, sv: Seq<Seq<u32>>, rv: Seq<Seq<u32>>)
    requires
        cs.finite(),
        ev.to_set() == cs,
        ev.len() == cs.len(),
        sort_state(sv, ev, 0),
        rv.len() == if sv.len() < 3 { sv.len() } else { 3 },
        forall|t: int| 0 <= t < rv.len() ==> #[trigger] rv[t] == sv[sv.len() - 1 - t],
    ensures
        rv.len() == if cs.len() < 3 { cs.len() } else { 3 },
        forall|t: int| 0 <= t < rv.len() ==> cs.contains(#[trigger] rv[t]),
        forall|a: int, b: int| 0 <= a < b < rv.len() ==> #[trigger] rv[a] != #[trigger] rv[b],
        forall|a: int, b: int| 0 <= a <= b < rv.len() ==> (#[trigger] rv[b]).len() <= (#[trigger] rv[a]).len(),
        forall|x: Seq<u32>|
            #[trigger] cs.contains(x) && (forall|k: int| 0 <= k < rv.len() ==> rv[k] != x) ==> x.len() <= rv[rv.len() - 1].len(),
{
    reveal(comes_from);
    reveal(holds_all);
    let n = sv.len();
    assert forall|t: int| 0 <= t < rv.len() implies cs.contains(#[trigger] rv[t]) by {
        let e = choose|e: int| 0 <= e < ev.len() && sv[n - 1 - t] == #[trigger] ev[e];
        assert(ev.to_set().contains(ev[e]));
    }
    assert forall|a: int, b: int| 0 <= a < b < rv.len() implies #[trigger] rv[a] != #[trigger] rv[b] by {
        assert(sv[n - 1 - b] != sv[n - 1 - a]);
    }
    assert forall|a: int, b: int| 0 <= a <= b < rv.len() implies (#[trigger] rv[b]).len() <= (#[trigger] rv[a]).len() by {
        assert(sv[n - 1 - b].len() <= sv[n - 1 - a].len());
    }
    assert forall|x: Seq<u32>|
        #[trigger] cs.contains(x) && (forall|k: int| 0 <= k < rv.len() ==> rv[k] != x) implies x.len() <= rv[rv.len() - 1].len() by {
        assert(ev.to_set().contains(x));
        let e = choose|e: int| 0 <= e < ev.len() && ev[e] == x;
        let t = choose|t: int| 0 <= t < sv.len() && #[trigger] sv[t] == ev[e];
        let take = rv.len() as int;
        if t >= n - take {
            assert(rv[n - 1 - t] == x);
        }
        assert(sv[t].len() <= sv[n - take].len());
        assert(rv[take - 1] == sv[n - take]);
    }
}

impl<P> Frames<P> {
    /// Up to three cubes similar to `cube` among the lemmas of frames
    /// `frame` on (see `similar_codes`), each once, longest first: all of
    /// them where there are at most three, else three of the longest.
    /// Among parts of equal length the order is that of a hash set and is
    /// left open.
    pub fn similar(&self, cube: &[Lit], frame: usize) -> (r: Vec<LitVec>)
        requires
            frame <= self.cubes().len(),
        ensures
            ({
                let cs = similar_codes(concat_frames(self.cubes().skip(frame as int)), cube@);
                &&& cs.finite()
                &&& r@.len() == if cs.len() < 3 { cs.len() } else { 3 }
                &&& forall|k: int| 0 <= k < r@.len() ==> cs.contains(codes_of(#[trigger] r@[k]@))
                &&& forall|a: int, b: int| 0 <= a < b < r@.len() ==> codes_of(#[trigger] r@[a]@) != codes_of(#[trigger] r@[b]@)
                &&& forall|a: int, b: int| 0 <= a <= b < r@.len() ==> (#[trigger] r@[b]@).len() <= (#[trigger] r@[a]@).len()
                &&& forall|x: Seq<u32>|
                    #[trigger] cs.contains(x) && (forall|k: int| 0 <= k < r@.len() ==> codes_of(r@[k]@) != x)
                        ==> x.len() <= r@[r@.len() - 1]@.len()
            }),
    {
        let ghost fs = self.cubes();
        let cube_set = cube_codes(cube);
        let mut res = cube_set_new();
        let mut i: usize = frame;
        assert(fs.subrange(frame as int, frame as int) =~= Seq::<Seq<Seq<Lit>>>::empty());
        while i < self.len()
            invariant
                fs == self.cubes(),
                frame <= i <= fs.len(),
                code_set_contents(cube_set) == codes_of(cube@).to_set(),
                cube_set_contents(res) == similar_codes(concat_frames(fs.subrange(frame as int, i as int)), cube@),
            decreases fs.len() - i,
        {
            let f = self.frame(i);
            let ghost head = concat_frames(fs.subrange(frame as int, i as int));
            let mut j: usize = 0;
            assert(head + f.cubes().take(0) =~= head);
            while j < f.len()
                invariant
                    fs == self.cubes(),
                    frame <= i < fs.len(),
                    f.cubes() == fs[i as int],
                    head == concat_frames(fs.subrange(frame as int, i as int)),
                    j <= f.cubes().len(),
                    code_set_contents(cube_set) == codes_of(cube@).to_set(),
                    cube_set_contents(res) == similar_codes(head + f.cubes().take(j as int), cube@),
                decreases f.cubes().len() - j,
            {
                let lemma = f.get(j).cube();
                let sec = part_in(lemma, cube, &cube_set);
                let s = sec.len();
                let c = cube.len();
                let half = if s <= c { s >= c - s } else { true };
                proof {
                    let ls = head + f.cubes().take(j + 1);
                    assert(ls.drop_last() =~= head + f.cubes().take(j as int));
                    assert(ls.last() == f.cubes()[j as int]);
                }
                if s != c && half {
                    cube_set_insert(&mut res, codes_vec(&sec));
                }
                j = j + 1;
            }
            proof {
                let sub = fs.subrange(frame as int, i + 1);
                assert(sub.drop_last() =~= fs.subrange(frame as int, i as int));
                assert(sub.last() == fs[i as int]);
                assert(f.cubes().take(f.cubes().len() as int) =~= f.cubes());
            }
            i = i + 1;
        }
        let ghost cs = similar_codes(concat_frames(fs.skip(frame as int)), cube@);
        proof {
            assert(fs.subrange(frame as int, fs.len() as int) =~= fs.skip(frame as int));
            lemma_similar_codes_finite(concat_frames(fs.skip(frame as int)), cube@);
        }
        let entries = cube_set_entries(res);
        let ghost ev = vviews(entries@);
        proof {
            // the entries list the whole set
            assert forall|a: int, b: int| 0 <= a < b < ev.len() implies #[trigger] ev[a] != #[trigger] ev[b] by {
                assert(ev[a] == entries@[a]@ && ev[b] == entries@[b]@);
            }
            assert(ev.no_duplicates());
            ev.unique_seq_to_set();
            assert forall|x: Seq<u32>| ev.to_set().contains(x) implies cs.contains(x) by {
                let t = choose|t: int| 0 <= t < ev.len() && ev[t] == x;
                assert(ev[t] == entries@[t]@);
            }
            vstd::set_lib::lemma_subset_equality(ev.to_set(), cs);
        }
        let sorted = sort_by_len(entries);
        let n = sorted.len();
        let take: usize = if n < 3 { n } else { 3 };
        let mut r: Vec<LitVec> = Vec::new();
        let mut k: usize = 0;
        while k < take
            invariant
                n == sorted@.len(),
                take == if n < 3 { n } else { 3 },
                k <= take,
                r@.len() == k,
                forall|t: int| 0 <= t < k ==> codes_of(#[trigger] r@[t]@) == vviews(sorted@)[n - 1 - t],
            decreases take - k,
        {
            let c = lits_vec(&sorted[n - 1 - k]);
            r.push(c);
            k = k + 1;
        }
        proof {
            let sv = vviews(sorted@);
            let rv = r@.map_values(|x: LitVec| codes_of(x@));
            assert forall|t: int| 0 <= t < rv.len() implies #[trigger] rv[t] == sv[n - 1 - t] by {
                assert(rv[t] == codes_of(r@[t]@));
            }
            lemma_top_three(cs, ev, sv, rv);
            assert forall|t: int| 0 <= t < r@.len() implies (#[trigger] r@[t]@).len() == rv[t].len() by {
                assert(rv[t] == codes_of(r@[t]@));
            }
            assert forall|t: int| 0 <= t < r@.len() implies cs.contains(codes_of(#[trigger] r@[t]@)) by {
                assert(rv[t] == codes_of(r@[t]@));
            }
            assert forall|a: int, b: int| 0 <= a < b < r@.len() implies codes_of(#[trigger] r@[a]@) != codes_of(#[trigger] r@[b]@) by {
                assert(rv[a] == codes_of(r@[a]@));
                assert(rv[b] == codes_of(r@[b]@));
            }
            assert forall|a: int, b: int| 0 <= a <= b < r@.len() implies (#[trigger] r@[b]@).len() <= (#[trigger] r@[a]@).len() by {
                assert(rv[a].len() >= rv[b].len());
            }
            assert forall|x: Seq<u32>|
                #[trigger] cs.contains(x) && (forall|k: int| 0 <= k < r@.len() ==> codes_of(r@[k]@) != x)
                implies x.len() <= r@[r@.len() - 1]@.len() by {
                assert forall|k: int| 0 <= k < rv.len() implies rv[k] != x by {
                    assert(rv[k] == codes_of(r@[k]@));
                }
            }
        }
        r
    }
}

} // verus!
