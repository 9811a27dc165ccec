use vstd::prelude::*;
use std::collections::BTreeMap;
use crate::lit::{Lit, Var};
use crate::litvec::LitVec;
use crate::text::{parse_i64, parse_i64_spec, parse_usize_spec, split_fields, views, ws_fields};
use crate::var2name::Var2Name;

verus! {

/// The rows of a relation file and three lookups keyed by the first column:
/// the symmetric variable, the equivalence predicate and the equal-initial-value
/// predicate of a variable (`-1` where there is none).
pub struct RelationData {
    pub entries: Vec<[i64; 4]>,
    pub sym_map: BTreeMap<i64, i64>,
    pub equiv_map: BTreeMap<i64, i64>,
    pub eqinit_map: BTreeMap<i64, i64>,
}

/// `str::parse::<i64>().unwrap_or(0)`.
pub open spec fn parse_or_zero(f: Seq<char>) -> int {
    match parse_i64_spec(f) {
        Some(v) => v as int,
        None => 0,
    }
}

/// Column values of one relation line, shifted past the inputs: the two
/// variable columns always, the two predicate columns unless they read `-1`.
/// `None` for a line of fewer than four fields, which is skipped.
pub open spec fn row_values(line: Seq<char>, input_count: usize) -> Option<Seq<int>> {
    let f = ws_fields(line);
    let off = (input_count as i64) + 1;
    if f.len() < 4 {
        None
    } else {
        let p2 = parse_or_zero(f[2]);
        let p3 = parse_or_zero(f[3]);
        Some(seq![
            parse_or_zero(f[0]) + off,
            parse_or_zero(f[1]) + off,
            if p2 == -1 { -1 } else { p2 + off },
            if p3 == -1 { -1 } else { p3 + off },
        ])
    }
}

pub open spec fn fits_i64(v: int) -> bool {
    i64::MIN <= v <= i64::MAX
}

pub open spec fn row_fits(r: Seq<int>) -> bool {
    forall|k: int| 0 <= k < r.len() ==> fits_i64(#[trigger] r[k])
}

/// The rows that the lines after the header give, in order.
pub open spec fn relation_rows(lines: Seq<Seq<char>>, input_count: usize) -> Seq<Seq<int>>
    decreases lines.len(),
{
    if lines.len() <= 1 {
        Seq::empty()
    } else {
        let prev = relation_rows(lines.drop_last(), input_count);
        match row_values(lines.last(), input_count) {
            Some(r) => prev.push(r),
            None => prev,
        }
    }
}

/// The map from column 0 to column `col` that inserting the rows in order
/// builds: a later row overrides an earlier one with the same key.
pub open spec fn rows_map(rows: Seq<Seq<int>>, col: int) -> Map<i64, i64>
    decreases rows.len(),
{
    if rows.len() == 0 {
        Map::empty()
    } else {
        rows_map(rows.drop_last(), col).insert(rows.last()[0] as i64, rows.last()[col] as i64)
    }
}

/// The keys of the map that the rows build are exactly the first columns of
/// the rows, and the value under a key is column `col` of the last row with
/// that key.
pub proof fn lemma_rows_map_last_row(rows: Seq<Seq<int>>, col: int)
    ensures
        forall|k: i64| #[trigger] rows_map(rows, col).contains_key(k)
            <==> exists|i: int| 0 <= i < rows.len() && rows[i][0] as i64 == k,
        forall|k: i64, i: int|
            #![trigger rows_map(rows, col)[k], rows[i]]
            0 <= i < rows.len() && rows[i][0] as i64 == k
                && (forall|j: int| i < j < rows.len() ==> rows[j][0] as i64 != k)
                ==> rows_map(rows, col)[k] == rows[i][col] as i64,
    decreases rows.len(),
{
    if rows.len() > 0 {
        let p = rows.drop_last();
        let n = rows.len() - 1;
        lemma_rows_map_last_row(p, col);
        assert forall|i: int| 0 <= i < n implies #[trigger] rows[i] == p[i] by {}
        assert forall|k: i64| #[trigger] rows_map(rows, col).contains_key(k)
            <==> exists|i: int| 0 <= i < rows.len() && rows[i][0] as i64 == k by {
            assert(rows_map(rows, col) == rows_map(p, col).insert(rows[n][0] as i64, rows[n][col] as i64));
            if rows_map(rows, col).contains_key(k) && k != rows[n][0] as i64 {
                assert(rows_map(p, col).contains_key(k));
                let i = choose|i: int| 0 <= i < p.len() && p[i][0] as i64 == k;
                assert(rows[i] == p[i]);
            }
            if exists|i: int| 0 <= i < rows.len() && rows[i][0] as i64 == k {
                let i = choose|i: int| 0 <= i < rows.len() && rows[i][0] as i64 == k;
                if i < n {
                    assert(rows[i] == p[i]);
                }
            }
        }
        assert forall|k: i64, i: int|
            0 <= i < rows.len() && rows[i][0] as i64 == k
                && (forall|j: int| i < j < rows.len() ==> rows[j][0] as i64 != k)
                implies #[trigger] rows_map(rows, col)[k] == #[trigger] rows[i][col] as i64 by {
            assert(rows_map(rows, col) == rows_map(p, col).insert(rows[n][0] as i64, rows[n][col] as i64));
            if i < n {
                assert(rows[n][0] as i64 != k);
                assert(rows[i] == p[i]);
                assert forall|j: int| i < j < p.len() implies p[j][0] as i64 != k by {
                    assert(rows[j] == p[j]);
                }
            }
        }
    }
}

/// The number of lines after the first with at least four fields.
pub open spec fn row_line_count(lines: Seq<Seq<char>>) -> nat
    decreases lines.len(),
{
    if lines.len() <= 1 {
        0
    } else {
        row_line_count(lines.drop_last()) + if ws_fields(lines.last()).len() >= 4 { 1nat } else { 0nat }
    }
}

/// Entry `i` is the last of `entries` with first field `k`.
pub open spec fn last_entry_for(entries: Seq<[i64; 4]>, k: i64, i: int) -> bool {
    &&& 0 <= i < entries.len()
    &&& entries[i][0] == k
    &&& forall|j: int| i < j < entries.len() ==> entries[j][0] != k
}

proof fn lemma_row_count(lines: Seq<Seq<char>>, input_count: usize)
    ensures
        relation_rows(lines, input_count).len() == row_line_count(lines),
    decreases lines.len(),
{
    if lines.len() > 1 {
        lemma_row_count(lines.drop_last(), input_count);
    }
}

/// The map built from the rows of `entries`, column `col`, read through the
/// entries: its keys are their first fields, and the value under a key is
/// column `col` of the last entry with that key.
proof fn lemma_entries_map(entries: Seq<[i64; 4]>, rows: Seq<Seq<int>>, col: int, m: Map<i64, i64>)
    requires
        1 <= col <= 3,
        entries.map_values(|e: [i64; 4]| entry_view(e)) == rows,
        m == rows_map(rows, col),
    ensures
        forall|k: i64| #[trigger] m.contains_key(k) <==> exists|i: int| 0 <= i < entries.len() && entries[i][0] == k,
        forall|k: i64, i: int| #[trigger] last_entry_for(entries, k, i) ==> m[k] == entries[i][col],
{
    lemma_rows_map_last_row(rows, col);
    assert forall|i: int| 0 <= i < entries.len() implies (#[trigger] rows[i])[0] as i64 == entries[i][0]
        && rows[i][col] as i64 == entries[i][col] by {
        assert(rows[i] == entry_view(entries[i]));
    }
    assert forall|k: i64| #[trigger] m.contains_key(k) <==> exists|i: int| 0 <= i < entries.len() && entries[i][0] == k by {
        if m.contains_key(k) {
            let i = choose|i: int| 0 <= i < rows.len() && rows[i][0] as i64 == k;
            assert(rows[i][0] as i64 == entries[i][0]);
        }
        if exists|i: int| 0 <= i < entries.len() && entries[i][0] == k {
            let i = choose|i: int| 0 <= i < entries.len() && entries[i][0] == k;
            assert(rows[i][0] as i64 == entries[i][0]);
        }
    }
    assert forall|k: i64, i: int| #[trigger] last_entry_for(entries, k, i) implies m[k] == entries[i][col] by {
        assert(rows[i][0] as i64 == entries[i][0]);
        assert forall|j: int| i < j < rows.len() implies rows[j][0] as i64 != k by {
            assert(rows[j][0] as i64 == entries[j][0]);
        }
        assert(rows[i][col] as i64 == entries[i][col]);
    }
}

pub open spec fn entry_view(e: [i64; 4]) -> Seq<int> {
    seq![e[0] as int, e[1] as int, e[2] as int, e[3] as int]
}

pub open spec fn line_views(lines: Seq<String>) -> Seq<Seq<char>> {
    lines.map_values(|s: String| s@)
}

/// How one line of a relation file reads.
pub enum RowParse {
    /// Fewer than four fields.
    Skip,
    /// A shifted value does not fit an `i64`.
    Overflow,
    Row([i64; 4]),
}

/// Reads one line of a relation file (see `row_values`).
pub fn parse_row(line: &str, input_count: usize) -> (r: RowParse)
    requires
        (input_count as i64) < i64::MAX,
    ensures
        match r {
            RowParse::Skip => row_values(line@, input_count) is None,
            RowParse::Overflow => row_values(line@, input_count) is Some && !row_fits(
                row_values(line@, input_count).unwrap(),
            ),
            RowParse::Row(e) => row_values(line@, input_count) == Some(entry_view(e)),
        },
{
    let fields = split_fields(line);
    if fields.len() < 4 {
        return RowParse::Skip;
    }
    let ghost fv = views(fields@);
    assert(fv[0] == fields@[0]@ && fv[1] == fields@[1]@ && fv[2] == fields@[2]@ && fv[3] == fields@[3]@);
    let off: i64 = input_count as i64 + 1;
    let p0 = match parse_i64(fields[0].as_slice()) { Some(v) => v, None => 0 };
    let p1 = match parse_i64(fields[1].as_slice()) { Some(v) => v, None => 0 };
    let p2 = match parse_i64(fields[2].as_slice()) { Some(v) => v, None => 0 };
    let p3 = match parse_i64(fields[3].as_slice()) { Some(v) => v, None => 0 };
    let ghost row = row_values(line@, input_count).unwrap();
    assert(row[0] == p0 + off && row[1] == p1 + off);
    assert(row[2] == if p2 == -1 { -1 } else { p2 + off });
    assert(row[3] == if p3 == -1 { -1 } else { p3 + off });
    let f0 = p0.checked_add(off);
    let f1 = p1.checked_add(off);
    let f2 = if p2 == -1 { Some(-1i64) } else { p2.checked_add(off) };
    let f3 = if p3 == -1 { Some(-1i64) } else { p3.checked_add(off) };
    match (f0, f1, f2, f3) {
        (Some(a), Some(b), Some(c), Some(d)) => {
            let e: [i64; 4] = [a, b, c, d];
            assert(entry_view(e) =~= row);
            RowParse::Row(e)
        },
        _ => {
            proof {
                let k: int = if f0.is_none() { 0 } else if f1.is_none() { 1 } else if f2.is_none() { 2 } else { 3 };
                assert(!fits_i64(row[k]));
            }
            RowParse::Overflow
        },
    }
}

impl RelationData {
    /// The relation data of a relation file, given its lines and the number of
    /// inputs of the model: the header line is skipped, as is every line of fewer
    /// than four fields; a field that does not parse reads `0`. `None` when a
    /// shifted value overflows an `i64`.
    pub fn from_lines(lines: &Vec<String>, input_count: usize, latch_count: usize) -> (r: Option<RelationData>)
        requires
            (input_count as i64) < i64::MAX,
        ensures
            match r {
                Some(d) => {
                    let rows = relation_rows(line_views(lines@), input_count);
                    &&& forall|k: int| 0 <= k < rows.len() ==> row_fits(#[trigger] rows[k])
                    &&& d.entries@.map_values(|e: [i64; 4]| entry_view(e)) == rows
                    &&& d.sym_map@ == rows_map(rows, 1)
                    &&& d.equiv_map@ == rows_map(rows, 2)
                    &&& d.eqinit_map@ == rows_map(rows, 3)
                    &&& d.entries@.len() == row_line_count(line_views(lines@))
                    &&& forall|k: i64| #[trigger] d.sym_map@.contains_key(k)
                        <==> exists|i: int| 0 <= i < d.entries@.len() && d.entries@[i][0] == k
                    &&& forall|k: i64| #[trigger] d.equiv_map@.contains_key(k)
                        <==> exists|i: int| 0 <= i < d.entries@.len() && d.entries@[i][0] == k
                    &&& forall|k: i64| #[trigger] d.eqinit_map@.contains_key(k)
                        <==> exists|i: int| 0 <= i < d.entries@.len() && d.entries@[i][0] == k
                    &&& forall|k: i64, i: int| #[trigger] last_entry_for(d.entries@, k, i) ==> d.sym_map@[k]
                        == d.entries@[i][1] && d.equiv_map@[k] == d.entries@[i][2] && d.eqinit_map@[k] == d.entries@[i][3]
                },
                None => exists|k: int|
                    0 <= k < relation_rows(line_views(lines@), input_count).len() && !row_fits(
                        #[trigger] relation_rows(line_views(lines@), input_count)[k],
                    ),
            },
    {
        let ghost lv = line_views(lines@);
        let mut entries: Vec<[i64; 4]> = Vec::new();
        let mut sym_map: BTreeMap<i64, i64> = BTreeMap::new();
        let mut equiv_map: BTreeMap<i64, i64> = BTreeMap::new();
        let mut eqinit_map: BTreeMap<i64, i64> = BTreeMap::new();
        let mut n: usize = 0;
        while n < lines.len()
            invariant
                n <= lines@.len(),
                lv == line_views(lines@),
                (input_count as i64) < i64::MAX,
                ({
                    let rows = relation_rows(lv.take(n as int), input_count);
                    &&& forall|k: int| 0 <= k < rows.len() ==> row_fits(#[trigger] rows[k])
                    &&& entries@.map_values(|e: [i64; 4]| entry_view(e)) == rows
                    &&& sym_map@ == rows_map(rows, 1)
                    &&& equiv_map@ == rows_map(rows, 2)
                    &&& eqinit_map@ == rows_map(rows, 3)
                }),
            decreases lines@.len() - n,
        {
            let ghost prev_rows = relation_rows(lv.take(n as int), input_count);
            proof {
                assert(lv.take(n + 1).drop_last() =~= lv.take(n as int));
                assert(lv.take(n + 1).last() == lines@[n as int]@);
            }
            if n == 0 {
                n = n + 1;
                continue;
            }
            let entry: [i64; 4] = match parse_row(lines[n].as_str(), input_count) {
                RowParse::Skip => {
                    n = n + 1;
                    continue;
                },
                RowParse::Overflow => {
                    proof {
                        let row = row_values(lv[n as int], input_count).unwrap();
                        let k = choose|k: int| 0 <= k < row.len() && !fits_i64(#[trigger] row[k]);
                        lemma_rows_overflow(lv, input_count, n as int + 1, prev_rows.len() as int, k);
                    }
                    return None;
                },
                RowParse::Row(e) => e,
            };
            let ghost row = row_values(lv[n as int], input_count).unwrap();
            entries.push(entry);
            sym_map.insert(entry[0], entry[1]);
            equiv_map.insert(entry[0], entry[2]);
            eqinit_map.insert(entry[0], entry[3]);
            proof {
                let rows = relation_rows(lv.take(n + 1), input_count);
                assert(rows == prev_rows.push(row));
                assert(entry_view(entry) =~= row);
                assert(entries@.map_values(|e: [i64; 4]| entry_view(e)) =~= rows);
                assert(rows.drop_last() =~= prev_rows);
                assert forall|k: int| 0 <= k < rows.len() implies row_fits(#[trigger] rows[k]) by {
                    if k < prev_rows.len() {
                        assert(rows[k] == prev_rows[k]);
                    }
                }
            }
            n = n + 1;
        }
        assert(lv.take(lines@.len() as int) =~= lv);
        proof {
            let rows = relation_rows(lv, input_count);
            lemma_row_count(lv, input_count);
            lemma_entries_map(entries@, rows, 1, sym_map@);
            lemma_entries_map(entries@, rows, 2, equiv_map@);
            lemma_entries_map(entries@, rows, 3, eqinit_map@);
        }
        Some(RelationData { entries, sym_map, equiv_map, eqinit_map })
    }


    /// The current number of the variable symmetric to current variable
    /// `new_var`, through the original numbers of `names`.
    pub open spec fn sym_var_new_spec(&self, names: &Var2Name, new_var: usize) -> Option<usize> {
        let o = names.origin_map()[new_var] as i64;
        if self.sym_map@.contains_key(o) {
            let sv = self.sym_map@[o] as usize;
            if names.new_map().contains_key(sv) {
                Some(names.new_map()[sv])
            } else {
                None
            }
        } else {
            None
        }
    }

    /// The current number of the predicate that `map` gives for current
    /// variable `new_var`; none where the predicate is `-1`.
    pub open spec fn predicate_new_spec(map: Map<i64, i64>, names: &Var2Name, new_var: usize) -> Option<usize> {
        let p = map[names.origin_map()[new_var] as i64];
        if p == -1 {
            None
        } else if names.new_map().contains_key(p as usize) {
            Some(names.new_map()[p as usize])
        } else {
            None
        }
    }

    /// The symmetric variable of current variable `new_var`; `new_var` must
    /// have an original number.
    pub fn get_sym_var_new(&self, names: &Var2Name, new_var: usize) -> (r: Option<usize>)
        requires
            names.origin_map().contains_key(new_var),
        ensures
            r == self.sym_var_new_spec(names, new_var),
    {
        let origin_var = names.get_origin_id(new_var).unwrap();
        match self.get_sym_var(origin_var as i64) {
            Some(sym_var) => names.get_new_id(sym_var as usize),
            None => None,
        }
    }

    /// The equivalence predicate of current variable `new_var`; `new_var`
    /// must have an original number with a row.
    pub fn get_equiv_predicate_new(&self, names: &Var2Name, new_var: usize) -> (r: Option<usize>)
        requires
            names.origin_map().contains_key(new_var),
            self.equiv_map@.contains_key(names.origin_map()[new_var] as i64),
        ensures
            r == Self::predicate_new_spec(self.equiv_map@, names, new_var),
    {
        let origin_var = names.get_origin_id(new_var).unwrap();
        let predicate = self.get_equiv_predicate(origin_var as i64).unwrap();
        if predicate == -1 {
            None
        } else {
            names.get_new_id(predicate as usize)
        }
    }

    /// The equal-initial-value predicate of current variable `new_var`;
    /// `new_var` must have an original number with a row.
    pub fn get_eqinit_predicate_new(&self, names: &Var2Name, new_var: usize) -> (r: Option<usize>)
        requires
            names.origin_map().contains_key(new_var),
            self.eqinit_map@.contains_key(names.origin_map()[new_var] as i64),
        ensures
            r == Self::predicate_new_spec(self.eqinit_map@, names, new_var),
    {
        let origin_var = names.get_origin_id(new_var).unwrap();
        let predicate = self.get_eqinit_predicate(origin_var as i64).unwrap();
        if predicate == -1 {
            None
        } else {
            names.get_new_id(predicate as usize)
        }
    }

    /// The literal symmetric to `l`: the same polarity on the symmetric variable.
    pub open spec fn sym_lit_spec(&self, names: &Var2Name, l: Lit) -> Option<Lit> {
        match self.sym_var_new_spec(names, l.spec_var().0 as usize) {
            Some(sv) => Some(Lit::spec_new(Var(sv as u32), l.spec_polarity())),
            None => None,
        }
    }

    /// The symmetric literals of those of `s` that have a symmetric variable, in order.
    pub open spec fn sym_cube_spec(&self, names: &Var2Name, s: Seq<Lit>) -> Seq<Lit>
        decreases s.len(),
    {
        if s.len() == 0 {
            Seq::empty()
        } else {
            let prev = self.sym_cube_spec(names, s.drop_last());
            match self.sym_lit_spec(names, s.last()) {
                Some(l) => prev.push(l),
                None => prev,
            }
        }
    }

    /// Row `index`, if there is one.
    pub fn get(&self, index: usize) -> (r: Option<&[i64; 4]>)
        ensures
            match r {
                Some(e) => index < self.entries@.len() && *e == self.entries@[index as int],
                None => index >= self.entries@.len(),
            },
    {
        if index < self.entries.len() {
            Some(&self.entries[index])
        } else {
            None
        }
    }

    /// The symmetric variable of `key` (first column to second).
    pub fn get_sym_var(&self, key: i64) -> (r: Option<i64>)
        ensures
            r == (if self.sym_map@.contains_key(key) { Some(self.sym_map@[key]) } else { None::<i64> }),
    {
        match self.sym_map.get(&key) {
            Some(v) => Some(*v),
            None => None,
        }
    }

    /// The equivalence predicate of `key` (first column to third).
    pub fn get_equiv_predicate(&self, key: i64) -> (r: Option<i64>)
        ensures
            r == (if self.equiv_map@.contains_key(key) { Some(self.equiv_map@[key]) } else { None::<i64> }),
    {
        match self.equiv_map.get(&key) {
            Some(v) => Some(*v),
            None => None,
        }
    }

    /// The equal-initial-value predicate of `key` (first column to fourth).
    pub fn get_eqinit_predicate(&self, key: i64) -> (r: Option<i64>)
        ensures
            r == (if self.eqinit_map@.contains_key(key) { Some(self.eqinit_map@[key]) } else { None::<i64> }),
    {
        match self.eqinit_map.get(&key) {
            Some(v) => Some(*v),
            None => None,
        }
    }
}

proof fn lemma_rows_prefix(lv: Seq<Seq<char>>, input_count: usize, a: int, b: int)
    requires
        0 <= a <= b <= lv.len(),
    ensures
        relation_rows(lv.take(a), input_count).len() <= relation_rows(lv.take(b), input_count).len(),
        forall|k: int|
            0 <= k < relation_rows(lv.take(a), input_count).len() ==> relation_rows(lv.take(b), input_count)[k]
                == #[trigger] relation_rows(lv.take(a), input_count)[k],
    decreases b - a,
{
    if a < b {
        lemma_rows_prefix(lv, input_count, a, b - 1);
        assert(lv.take(b).drop_last() =~= lv.take(b - 1));
    }
}

proof fn lemma_rows_overflow(lv: Seq<Seq<char>>, input_count: usize, m: int, idx: int, k: int)
    requires
        2 <= m <= lv.len(),
        idx == relation_rows(lv.take(m - 1), input_count).len(),
        row_values(lv[m - 1], input_count) is Some,
        0 <= k < 4,
        !fits_i64(row_values(lv[m - 1], input_count).unwrap()[k]),
    ensures
        exists|j: int| 0 <= j < relation_rows(lv, input_count).len() && !row_fits(#[trigger] relation_rows(lv, input_count)[j]),
{
    assert(lv.take(m).drop_last() =~= lv.take(m - 1));
    assert(lv.take(m).last() == lv[m - 1]);
    let row = row_values(lv[m - 1], input_count).unwrap();
    assert(relation_rows(lv.take(m), input_count)[idx] == row);
    lemma_rows_prefix(lv, input_count, m, lv.len() as int);
    assert(lv.take(lv.len() as int) =~= lv);
    assert(relation_rows(lv, input_count)[idx] == row);
    assert(!row_fits(relation_rows(lv, input_count)[idx]));
}

} // verus!

verus! {

/// The cube of the literals symmetric to those of `cube` (see
/// `RelationData::sym_cube_spec`). Every variable of `cube` must have an
/// original number, and every symmetric variable must fit a literal.
pub fn symmetric_cube(cube: &LitVec, relation: &RelationData, names: &Var2Name) -> (r: LitVec)
    requires
        forall|i: int| 0 <= i < cube@.len() ==> names.origin_map().contains_key(#[trigger] cube@[i].spec_var().0 as usize),
        forall|i: int| 0 <= i < cube@.len() ==> (#[trigger] relation.sym_var_new_spec(names, cube@[i].spec_var().0 as usize) matches Some(sv) ==> (sv as u32) < 0x8000_0000),
    ensures
        r@ == relation.sym_cube_spec(names, cube@),
{
    let mut result = LitVec::new_with(cube.len());
    let mut i: usize = 0;
    while i < cube.len()
        invariant
            i <= cube@.len(),
            forall|k: int| 0 <= k < cube@.len() ==> names.origin_map().contains_key(#[trigger] cube@[k].spec_var().0 as usize),
            forall|k: int| 0 <= k < cube@.len() ==> (#[trigger] relation.sym_var_new_spec(names, cube@[k].spec_var().0 as usize) matches Some(sv) ==> (sv as u32) < 0x8000_0000),
            result@ == relation.sym_cube_spec(names, cube@.take(i as int)),
        decreases cube@.len() - i,
    {
        let lit = cube.get(i);
        let var = lit.var();
        proof {
            assert(cube@.take(i + 1).drop_last() =~= cube@.take(i as int));
            assert(cube@.take(i + 1).last() == lit);
            assert(names.origin_map().contains_key(cube@[i as int].spec_var().0 as usize));
        }
        if let Some(sym_var) = relation.get_sym_var_new(names, var.0 as usize) {
            assert(relation.sym_var_new_spec(names, cube@[i as int].spec_var().0 as usize) == Some(sym_var));
            let sym_lit = Lit::new(Var::new(sym_var), lit.polarity());
            result.push(sym_lit);
        }
        i = i + 1;
    }
    assert(cube@.take(cube@.len() as int) =~= cube@);
    result
}

} // verus!
