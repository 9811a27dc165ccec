//! Text form of a literal vector. Literals of named bit vectors are gathered
//! per vector name and written as one bit range, in name order; the others
//! are written one by one, in order.
use vstd::prelude::*;
use crate::lit::Lit;
use crate::litvec::LitVec;
use crate::text::{chars_eq, chars_less, chars_lt, decimal, hex, push_decimal, push_hex, str_chars, string_from_chars};
use crate::var2name::{info_spec, var2info, Var2Name};

verus! {

/// How a literal is written: the index of its variable, with a leading `-`
/// for a negative literal.
pub open spec fn lit_text(l: Lit) -> Seq<char> {
    if l.spec_polarity() {
        decimal(l.spec_var().0 as nat)
    } else {
        seq!['-'] + decimal(l.spec_var().0 as nat)
    }
}

/// The literals of one named bit vector: the mask of the bit positions seen,
/// the polarities at those positions, and the literals themselves.
pub struct GroupView {
    pub name: Seq<char>,
    pub known: u64,
    pub value: u64,
    pub lits: Seq<Lit>,
}

/// `g` after literal `l`, at bit `index` with polarity `pol`, joins it.
pub open spec fn add_bit(g: GroupView, index: usize, pol: bool, l: Lit) -> GroupView {
    GroupView {
        name: g.name,
        known: g.known | (1u64 << index),
        value: g.value | ((if pol { 1u64 } else { 0u64 }) << index),
        lits: g.lits.push(l),
    }
}

pub open spec fn empty_group(name: Seq<char>) -> GroupView {
    GroupView { name, known: 0, value: 0, lits: Seq::empty() }
}

/// The first position, from `j` on, whose name does not come before `name`.
pub open spec fn slot_from(gs: Seq<GroupView>, name: Seq<char>, j: int) -> int
    decreases gs.len() - j,
{
    if j >= gs.len() {
        gs.len() as int
    } else if !chars_lt(gs[j].name, name) {
        j
    } else {
        slot_from(gs, name, j + 1)
    }
}

/// Adds a literal to the group of `name` in a list of groups kept in name
/// order, making the group where there is none yet.
pub open spec fn group_insert(gs: Seq<GroupView>, name: Seq<char>, index: usize, pol: bool, l: Lit) -> Seq<GroupView> {
    let p = slot_from(gs, name, 0);
    if p < gs.len() && gs[p].name == name {
        gs.update(p, add_bit(gs[p], index, pol, l))
    } else {
        gs.insert(p, add_bit(empty_group(name), index, pol, l))
    }
}

/// The texts of the literals written one by one, and the groups of the
/// literals of named vectors.
pub open spec fn collect_items(names: Option<&Var2Name>, lits: Seq<Lit>) -> (Seq<Seq<char>>, Seq<GroupView>)
    decreases lits.len(),
{
    if lits.len() == 0 {
        (Seq::empty(), Seq::empty())
    } else {
        let prev = collect_items(names, lits.drop_last());
        let l = lits.last();
        match info_spec(names, l.spec_var().0 as usize) {
            Some(v) => if v.is_vector {
                (prev.0, group_insert(prev.1, v.name, v.index, l.spec_polarity(), l))
            } else {
                (prev.0.push(lit_text(l)), prev.1)
            },
            None => (prev.0.push(lit_text(l)), prev.1),
        }
    }
}

/// The highest set bit of `m` at or below `i` (0 where there is none):
/// for `m != 0`, `63 - m.leading_zeros()`.
pub open spec fn high_bit_from(m: u64, i: int) -> int
    decreases i,
{
    if i <= 0 {
        0
    } else if (m >> (i as u32)) & 1u64 == 1u64 {
        i
    } else {
        high_bit_from(m, i - 1)
    }
}

/// The lowest set bit of `m` at or above `i` (63 where there is none):
/// for `m != 0`, `m.trailing_zeros()`.
pub open spec fn low_bit_from(m: u64, i: int) -> int
    decreases 63 - i,
{
    if i >= 63 {
        63
    } else if (m >> (i as u32)) & 1u64 == 1u64 {
        i
    } else {
        low_bit_from(m, i + 1)
    }
}

/// Whether every position from `lo` to `hi` is known.
pub open spec fn all_known_between(known: u64, lo: int, hi: int) -> bool {
    forall|i: u32| lo <= i <= hi ==> #[trigger] (known & (1u64 << i)) != 0
}

/// The character written for bit `i`: `x` where it is unknown, else the
/// bit `i` of `val`.
pub open spec fn bit_char(known: u64, val: u64, i: u32) -> char {
    if known & (1u64 << i) != 0 {
        if (val >> i) & 1u64 != 0 { '1' } else { '0' }
    } else {
        'x'
    }
}

/// The characters for the bits from `hi` down to `lo`.
pub open spec fn bits_desc(known: u64, val: u64, lo: int, hi: int) -> Seq<char>
    decreases hi - lo + 1,
{
    if hi < lo {
        Seq::empty()
    } else {
        bits_desc(known, val, lo + 1, hi).push(bit_char(known, val, lo as u32))
    }
}

/// How a group is written: a group of one literal as that literal;
/// otherwise `name[hi:lo]=` followed by the value shifted down by `lo` in
/// hexadecimal where all bits between are known, or else bit by bit.
pub open spec fn group_text(g: GroupView) -> Seq<char> {
    if g.lits.len() == 1 {
        lit_text(g.lits[0])
    } else {
        let hi = high_bit_from(g.known, 63);
        let lo = low_bit_from(g.known, 0);
        let val = g.value >> (lo as u32);
        let head = g.name + seq!['['] + decimal(hi as nat) + seq![':'] + decimal(lo as nat) + seq![']', '='];
        if all_known_between(g.known, lo, hi) {
            head + hex(val as nat)
        } else {
            head + bits_desc(g.known, val, lo, hi)
        }
    }
}

/// The items joined with `, `.
pub open spec fn join_items(items: Seq<Seq<char>>) -> Seq<char>
    decreases items.len(),
{
    if items.len() == 0 {
        Seq::empty()
    } else if items.len() == 1 {
        items[0]
    } else {
        join_items(items.drop_last()) + seq![',', ' '] + items.last()
    }
}

pub open spec fn group_texts(gs: Seq<GroupView>) -> Seq<Seq<char>> {
    gs.map_values(|g: GroupView| group_text(g))
}

/// The text of a literal vector: between brackets, the literals that belong
/// to no named vector in order, then one item per named vector in name order.
pub open spec fn litvec_text(names: Option<&Var2Name>, lits: Seq<Lit>) -> Seq<char> {
    let items = collect_items(names, lits);
    seq!['['] + join_items(items.0 + group_texts(items.1)) + seq![']']
}

/// Every literal of a named vector sits at a bit position below 64.
pub open spec fn vector_bits_fit(names: Option<&Var2Name>, lits: Seq<Lit>) -> bool {
    forall|i: int|
        #![trigger lits[i]]
        0 <= i < lits.len() ==> match info_spec(names, lits[i].spec_var().0 as usize) {
            Some(v) => v.is_vector ==> v.index < 64,
            None => true,
        }
}

proof fn lemma_chars_lt_irreflexive(a: Seq<char>)
    ensures
        !chars_lt(a, a),
    decreases a.len(),
{
    if a.len() > 0 {
        lemma_chars_lt_irreflexive(a.drop_first());
    }
}

proof fn lemma_chars_lt_total(a: Seq<char>, b: Seq<char>)
    requires
        a != b,
    ensures
        chars_lt(a, b) || chars_lt(b, a),
    decreases a.len(),
{
    if a.len() > 0 && b.len() > 0 && a[0] == b[0] {
        if a.drop_first() =~= b.drop_first() {
            assert forall|i: int| 0 <= i < a.len() implies a[i] == b[i] by {
                if i > 0 {
                    assert(a[i] == a.drop_first()[i - 1]);
                    assert(b[i] == b.drop_first()[i - 1]);
                }
            }
            assert(a =~= b);
        }
        lemma_chars_lt_total(a.drop_first(), b.drop_first());
    } else if a.len() == 0 && b.len() == 0 {
        assert(a =~= b);
    } else if a.len() > 0 && b.len() > 0 {
        assert(a[0] < b[0] || b[0] < a[0]);
    }
}

proof fn lemma_chars_lt_transitive(a: Seq<char>, b: Seq<char>, c: Seq<char>)
    requires
        chars_lt(a, b),
        chars_lt(b, c),
    ensures
        chars_lt(a, c),
    decreases a.len(),
{
    if a.len() > 0 && b.len() > 0 && c.len() > 0 && a[0] == b[0] && b[0] == c[0] {
        lemma_chars_lt_transitive(a.drop_first(), b.drop_first(), c.drop_first());
    }
}

/// Names strictly increase along the list.
pub open spec fn names_sorted(gs: Seq<GroupView>) -> bool {
    forall|i: int, j: int| 0 <= i < j < gs.len() ==> chars_lt(#[trigger] gs[i].name, #[trigger] gs[j].name)
}

proof fn lemma_slot_below(gs: Seq<GroupView>, name: Seq<char>, j: int)
    requires
        0 <= j,
    ensures
        j <= slot_from(gs, name, j) <= gs.len() || (j > gs.len() && slot_from(gs, name, j) == gs.len()),
        forall|k: int| j <= k < slot_from(gs, name, j) ==> chars_lt(#[trigger] gs[k].name, name),
        slot_from(gs, name, j) < gs.len() ==> !chars_lt(gs[slot_from(gs, name, j)].name, name),
    decreases gs.len() - j,
{
    if j < gs.len() && chars_lt(gs[j].name, name) {
        lemma_slot_below(gs, name, j + 1);
    }
}

proof fn lemma_group_insert_sorted(gs: Seq<GroupView>, name: Seq<char>, index: usize, pol: bool, l: Lit)
    requires
        names_sorted(gs),
    ensures
        names_sorted(group_insert(gs, name, index, pol, l)),
{
    let p = slot_from(gs, name, 0);
    lemma_slot_below(gs, name, 0);
    let r = group_insert(gs, name, index, pol, l);
    if p < gs.len() && gs[p].name == name {
        assert forall|i: int, j: int| 0 <= i < j < r.len() implies chars_lt(#[trigger] r[i].name, #[trigger] r[j].name) by {
            assert(r[i].name == gs[i].name);
            assert(r[j].name == gs[j].name);
        }
    } else {
        if p < gs.len() {
            lemma_chars_lt_total(gs[p].name, name);
        }
        assert forall|i: int, j: int| 0 <= i < j < r.len() implies chars_lt(#[trigger] r[i].name, #[trigger] r[j].name) by {
            if j < p {
                assert(r[i] == gs[i] && r[j] == gs[j]);
            } else if j == p {
                assert(r[i] == gs[i]);
            } else if i < p {
                assert(r[i] == gs[i] && r[j] == gs[j - 1]);
                if j - 1 > p {
                    lemma_chars_lt_transitive(name, gs[p].name, gs[j - 1].name);
                }
                lemma_chars_lt_transitive(gs[i].name, name, gs[j - 1].name);
            } else if i == p {
                assert(r[j] == gs[j - 1]);
                if j - 1 > p {
                    lemma_chars_lt_transitive(name, gs[p].name, gs[j - 1].name);
                }
            } else {
                assert(r[i] == gs[i - 1] && r[j] == gs[j - 1]);
            }
        }
    }
}

/// The named vectors are written in strictly increasing name order, so each
/// name is written once.
pub proof fn lemma_groups_sorted(names: Option<&Var2Name>, lits: Seq<Lit>)
    ensures
        names_sorted(collect_items(names, lits).1),
    decreases lits.len(),
{
    if lits.len() > 0 {
        lemma_groups_sorted(names, lits.drop_last());
        let prev = collect_items(names, lits.drop_last());
        let l = lits.last();
        match info_spec(names, l.spec_var().0 as usize) {
            Some(v) => if v.is_vector {
                lemma_group_insert_sorted(prev.1, v.name, v.index, l.spec_polarity(), l);
            },
            None => {},
        }
    }
}

/// Without names every literal is written by itself, in order.
pub proof fn lemma_text_without_names(lits: Seq<Lit>)
    ensures
        collect_items(None, lits).0 == lits.map_values(|l: Lit| lit_text(l)),
        collect_items(None, lits).1 == Seq::<GroupView>::empty(),
        litvec_text(None, lits) == seq!['['] + join_items(lits.map_values(|l: Lit| lit_text(l))) + seq![']'],
    decreases lits.len(),
{
    if lits.len() > 0 {
        lemma_text_without_names(lits.drop_last());
        assert(lits.map_values(|l: Lit| lit_text(l)) =~= lits.drop_last().map_values(|l: Lit| lit_text(l)).push(lit_text(lits.last())));
    }
    let items = collect_items(None, lits);
    assert(group_texts(items.1) =~= Seq::<Seq<char>>::empty());
    assert(items.0 + group_texts(items.1) =~= items.0);
}

struct Group {
    name: Vec<char>,
    known: u64,
    value: u64,
    lits: Vec<Lit>,
}

spec fn gview(g: Group) -> GroupView {
    GroupView { name: g.name@, known: g.known, value: g.value, lits: g.lits@ }
}

spec fn gviews(gs: Seq<Group>) -> Seq<GroupView> {
    gs.map_values(|g: Group| gview(g))
}

proof fn lemma_join_push(items: Seq<Seq<char>>, x: Seq<char>)
    ensures
        join_items(items.push(x)) == if items.len() == 0 {
            x
        } else {
            join_items(items) + seq![',', ' '] + x
        },
{
    assert(items.push(x).drop_last() =~= items);
}

fn push_lit(out: &mut Vec<char>, l: Lit)
    ensures
        final(out)@ == old(out)@ + lit_text(l),
{
    if !l.polarity() {
        out.push('-');
    }
    push_decimal(out, l.var().0 as u64);
    assert(final(out)@ =~= old(out)@ + lit_text(l));
}

fn push_chars(out: &mut Vec<char>, s: &Vec<char>)
    ensures
        final(out)@ == old(out)@ + s@,
{
    let mut i: usize = 0;
    while i < s.len()
        invariant
            i <= s@.len(),
            out@ == old(out)@ + s@.take(i as int),
        decreases s@.len() - i,
    {
        out.push(s[i]);
        assert(s@.take(i + 1) =~= s@.take(i as int).push(s@[i as int]));
        i = i + 1;
    }
    assert(s@.take(s@.len() as int) =~= s@);
}

fn high_bit(m: u64) -> (r: u32)
    ensures
        r == high_bit_from(m, 63),
        r <= 63,
{
    let mut i: u32 = 63;
    while i > 0
        invariant
            i <= 63,
            high_bit_from(m, 63) == high_bit_from(m, i as int),
        decreases i,
    {
        if (m >> i) & 1u64 == 1u64 {
            return i;
        }
        i = i - 1;
    }
    0
}

fn low_bit(m: u64) -> (r: u32)
    ensures
        r == low_bit_from(m, 0),
        r <= 63,
{
    let mut i: u32 = 0;
    while i < 63
        invariant
            i <= 63,
            low_bit_from(m, 0) == low_bit_from(m, i as int),
        decreases 63 - i,
    {
        if (m >> i) & 1u64 == 1u64 {
            return i;
        }
        i = i + 1;
    }
    63
}

fn known_between(known: u64, lo: u32, hi: u32) -> (r: bool)
    requires
        hi <= 63,
    ensures
        r == all_known_between(known, lo as int, hi as int),
{
    let mut i: u32 = lo;
    while i <= hi
        invariant
            lo <= i,
            i <= hi + 1 || i == lo,
            hi <= 63,
            forall|j: u32| lo <= j < i ==> #[trigger] (known & (1u64 << j)) != 0,
        decreases hi + 1 - i,
    {
        if known & (1u64 << i) == 0 {
            return false;
        }
        i = i + 1;
    }
    true
}

fn push_group(out: &mut Vec<char>, g: &Group)
    ensures
        final(out)@ == old(out)@ + group_text(gview(*g)),
{
    if g.lits.len() == 1 {
        push_lit(out, g.lits[0]);
        return;
    }
    let hi = high_bit(g.known);
    let lo = low_bit(g.known);
    let val = g.value >> lo;
    push_chars(out, &g.name);
    out.push('[');
    push_decimal(out, hi as u64);
    out.push(':');
    push_decimal(out, lo as u64);
    out.push(']');
    out.push('=');
    let ghost head = out@;
    assert(head =~= old(out)@ + (g.name@ + seq!['['] + decimal(hi as nat) + seq![':'] + decimal(lo as nat) + seq![']', '=']));
    if known_between(g.known, lo, hi) {
        push_hex(out, val);
        assert(final(out)@ =~= old(out)@ + group_text(gview(*g)));
    } else {
        let mut i: u32 = hi + 1;
        while i > lo
            invariant
                lo <= i || i == hi + 1,
                i <= hi + 1,
                hi <= 63,
                out@ == head + bits_desc(g.known, val, i as int, hi as int),
            decreases i,
        {
            i = i - 1;
            let c = if g.known & (1u64 << i) != 0 {
                if (val >> i) & 1u64 != 0 { '1' } else { '0' }
            } else {
                'x'
            };
            out.push(c);
            assert(out@ =~= head + bits_desc(g.known, val, i as int, hi as int));
        }
        assert(bits_desc(g.known, val, i as int, hi as int) =~= bits_desc(g.known, val, lo as int, hi as int));
        assert(final(out)@ =~= old(out)@ + group_text(gview(*g)));
    }
}

fn add_to_groups(groups: &mut Vec<Group>, name: Vec<char>, index: usize, pol: bool, l: Lit)
    requires
        index < 64,
    ensures
        gviews(final(groups)@) == group_insert(gviews(old(groups)@), name@, index, pol, l),
{
    let ghost gs = gviews(groups@);
    let mut j: usize = 0;
    while j < groups.len() && chars_less(groups[j].name.as_slice(), name.as_slice())
        invariant
            j <= groups@.len(),
            gs == gviews(groups@),
            groups@ == old(groups)@,
            slot_from(gs, name@, 0) == slot_from(gs, name@, j as int),
        decreases groups@.len() - j,
    {
        assert(gs[j as int] == gview(groups@[j as int]));
        j = j + 1;
    }
    proof {
        if j < groups@.len() {
            assert(gs[j as int] == gview(groups@[j as int]));
        }
    }
    if j < groups.len() && chars_eq(groups[j].name.as_slice(), name.as_slice()) {
        let mut g = groups.remove(j);
        g.known = g.known | (1u64 << index);
        g.value = g.value | ((if pol { 1u64 } else { 0u64 }) << index);
        g.lits.push(l);
        groups.insert(j, g);
        assert(gviews(groups@) =~= gs.update(j as int, add_bit(gs[j as int], index, pol, l)));
    } else {
        let mut g = Group { name, known: 0, value: 0, lits: Vec::new() };
        g.known = g.known | (1u64 << index);
        g.value = g.value | ((if pol { 1u64 } else { 0u64 }) << index);
        g.lits.push(l);
        let ghost gv = gview(g);
        groups.insert(j, g);
        assert(gv == add_bit(empty_group(name@), index, pol, l));
        assert(gviews(groups@) =~= gs.insert(j as int, gv));
    }
}

impl LitVec {
    /// The text of the vector (see `litvec_text`); `names` gives the names of
    /// the variables, where they are known.
    pub fn to_text(&self, names: Option<&Var2Name>) -> (r: String)
        requires
            vector_bits_fit(names, self@),
        ensures
            r@ == litvec_text(names, self@),
    {
        let mut out: Vec<char> = Vec::new();
        out.push('[');
        let mut wrote = false;
        let mut groups: Vec<Group> = Vec::new();
        let n = self.len();
        let mut i: usize = 0;
        assert(self@.take(0) =~= Seq::<Lit>::empty());
        assert(out@ =~= seq!['['] + join_items(Seq::empty()));
        while i < n
            invariant
                n == self@.len(),
                i <= n,
                vector_bits_fit(names, self@),
                out@ == seq!['['] + join_items(collect_items(names, self@.take(i as int)).0),
                wrote == (collect_items(names, self@.take(i as int)).0.len() > 0),
                gviews(groups@) == collect_items(names, self@.take(i as int)).1,
            decreases n - i,
        {
            let l = self.get(i);
            let ghost prev = collect_items(names, self@.take(i as int));
            proof {
                assert(self@.take(i + 1).drop_last() =~= self@.take(i as int));
                assert(self@.take(i + 1).last() == l);
            }
            let info = var2info(names, l.var().0 as usize);
            let vector = match &info {
                Some(v) => v.is_vector,
                None => false,
            };
            if vector {
                let v = info.unwrap();
                let name = str_chars(v.name.as_str());
                assert(self@[i as int] == l);
                add_to_groups(&mut groups, name, v.index, l.polarity(), l);
            } else {
                if wrote {
                    out.push(',');
                    out.push(' ');
                } else {
                    wrote = true;
                }
                push_lit(&mut out, l);
                proof {
                    lemma_join_push(prev.0, lit_text(l));
                }
                assert(out@ =~= seq!['['] + join_items(prev.0.push(lit_text(l))));
            }
            i = i + 1;
        }
        assert(self@.take(n as int) =~= self@);
        let ghost items = collect_items(names, self@);
        let ghost texts = group_texts(items.1);
        let mut k: usize = 0;
        assert(items.0 + texts.take(0) =~= items.0);
        while k < groups.len()
            invariant
                k <= groups@.len(),
                gviews(groups@) == items.1,
                texts == group_texts(items.1),
                out@ == seq!['['] + join_items(items.0 + texts.take(k as int)),
                wrote == (items.0.len() + k > 0),
            decreases groups@.len() - k,
        {
            if wrote {
                out.push(',');
                out.push(' ');
            } else {
                wrote = true;
            }
            push_group(&mut out, &groups[k]);
            proof {
                assert(gview(groups@[k as int]) == items.1[k as int]);
                assert(texts[k as int] == group_text(items.1[k as int]));
                assert(items.0 + texts.take(k + 1) =~= (items.0 + texts.take(k as int)).push(texts[k as int]));
                lemma_join_push(items.0 + texts.take(k as int), texts[k as int]);
            }
            k = k + 1;
        }
        assert(texts.take(k as int) =~= texts);
        out.push(']');
        assert(out@ =~= litvec_text(names, self@));
        string_from_chars(out.as_slice())
    }
}

} // verus!
