use vstd::prelude::*;
use std::collections::BTreeMap;
use vstd::hash_map::StringHashMap;
use crate::text::{chars_eq, decimal, parse_usize, parse_usize_spec, push_decimal, split_fields, str_chars, string_from_chars, views, ws_fields};

verus! {

/// The kind of node a name in the model map refers to.
#[derive(Clone, Copy, PartialEq, Eq, Structural, Debug)]
pub enum VarType {
    Input,
    Latch,
    Wire,
}

/// The node kind that a type word of the model map names: `input`, `latch`,
/// `invlatch` (read as a latch) or `wire`.
pub open spec fn var_type_of(s: Seq<char>) -> Option<VarType> {
    if s == seq!['i', 'n', 'p', 'u', 't'] {
        Some(VarType::Input)
    } else if s == seq!['l', 'a', 't', 'c', 'h'] || s == seq!['i', 'n', 'v', 'l', 'a', 't', 'c', 'h'] {
        Some(VarType::Latch)
    } else if s == seq!['w', 'i', 'r', 'e'] {
        Some(VarType::Wire)
    } else {
        None
    }
}

fn type_from_chars(s: &[char]) -> (r: Option<VarType>)
    ensures
        r == var_type_of(s@),
{
    let input: [char; 5] = ['i', 'n', 'p', 'u', 't'];
    let latch: [char; 5] = ['l', 'a', 't', 'c', 'h'];
    let invlatch: [char; 8] = ['i', 'n', 'v', 'l', 'a', 't', 'c', 'h'];
    let wire: [char; 4] = ['w', 'i', 'r', 'e'];
    assert(input@ =~= seq!['i', 'n', 'p', 'u', 't']);
    assert(latch@ =~= seq!['l', 'a', 't', 'c', 'h']);
    assert(invlatch@ =~= seq!['i', 'n', 'v', 'l', 'a', 't', 'c', 'h']);
    assert(wire@ =~= seq!['w', 'i', 'r', 'e']);
    if chars_eq(s, input.as_slice()) {
        Some(VarType::Input)
    } else if chars_eq(s, latch.as_slice()) || chars_eq(s, invlatch.as_slice()) {
        Some(VarType::Latch)
    } else if chars_eq(s, wire.as_slice()) {
        Some(VarType::Wire)
    } else {
        None
    }
}

impl VarType {
    /// The node kind named by `s`; `s` must be one of the type words.
    pub fn from_str(s: &str) -> (r: VarType)
        requires
            var_type_of(s@) is Some,
        ensures
            Some(r) == var_type_of(s@),
    {
        let cs = str_chars(s);
        type_from_chars(cs.as_slice()).unwrap()
    }
}

/// What a `VarInfo` holds, with the name as characters.
pub struct VarInfoView {
    pub node_type: VarType,
    pub id: usize,
    pub index: usize,
    pub name: Seq<char>,
    pub is_vector: bool,
}

/// One entry of the model map: the node kind, its number among nodes of that
/// kind, the bit index within a named vector, the name, and whether several
/// nodes share the name.
pub struct VarInfo {
    pub node_type: VarType,
    pub id: usize,
    pub index: usize,
    pub name: String,
    pub is_vector: bool,
}

impl View for VarInfo {
    type V = VarInfoView;

    open spec fn view(&self) -> VarInfoView {
        VarInfoView {
            node_type: self.node_type,
            id: self.id,
            index: self.index,
            name: self.name@,
            is_vector: self.is_vector,
        }
    }
}

impl Clone for VarInfo {
    fn clone(&self) -> (r: Self)
        ensures
            r@ == self@,
    {
        VarInfo {
            node_type: self.node_type,
            id: self.id,
            index: self.index,
            name: self.name.clone(),
            is_vector: self.is_vector,
        }
    }
}

/// The label of an entry: `name[index]` for a bit of a vector (or a nonzero
/// index), the bare name otherwise.
pub open spec fn info_label(v: VarInfoView) -> Seq<char> {
    if v.is_vector || v.index > 0 {
        v.name + seq!['['] + decimal(v.index as nat) + seq![']']
    } else {
        v.name
    }
}

impl VarInfo {
    /// The label of this entry (see `info_label`).
    pub fn label(&self) -> (s: String)
        ensures
            s@ == info_label(self@),
    {
        let mut out = str_chars(self.name.as_str());
        if self.is_vector || self.index > 0 {
            out.push('[');
            push_decimal(&mut out, self.index as u64);
            out.push(']');
            assert(out@ =~= info_label(self@));
        }
        string_from_chars(out.as_slice())
    }
}

/// The entry that a line of the model map describes: exactly four fields, a
/// type word, the node number and the bit index as unsigned numbers, and the
/// name; `None` for any other line.
pub open spec fn var_line_spec(line: Seq<char>) -> Option<VarInfoView> {
    let f = ws_fields(line);
    if f.len() != 4 {
        None
    } else {
        match (var_type_of(f[0]), parse_usize_spec(f[1]), parse_usize_spec(f[2])) {
            (Some(t), Some(id), Some(ix)) => Some(
                VarInfoView { node_type: t, id: id, index: ix, name: f[3], is_vector: false },
            ),
            _ => None,
        }
    }
}

/// The numbers of inputs and latches in the header line of an AIGER file:
/// its third and fourth fields, which must parse, on a line of at least six
/// fields.
pub open spec fn header_counts(line: Seq<char>) -> Option<(usize, usize)> {
    let f = ws_fields(line);
    if f.len() < 6 {
        None
    } else {
        match (parse_usize_spec(f[2]), parse_usize_spec(f[3])) {
            (Some(i), Some(l)) => Some((i, l)),
            _ => None,
        }
    }
}

/// The numbers of inputs and latches that the AIGER header line declares;
/// `None` where that line is malformed (see `header_counts`).
pub fn get_input_latch_num(line: &str) -> (r: Option<(usize, usize)>)
    ensures
        r == header_counts(line@),
{
    let parts = split_fields(line);
    if parts.len() < 6 {
        return None;
    }
    let ghost fv = views(parts@);
    assert(fv[2] == parts@[2]@ && fv[3] == parts@[3]@);
    match (parse_usize(parts[2].as_slice()), parse_usize(parts[3].as_slice())) {
        (Some(i), Some(l)) => Some((i, l)),
        _ => None,
    }
}

/// Reads one line of the model map (see `var_line_spec`).
pub fn parse_var_line(line: &str) -> (r: Option<VarInfo>)
    ensures
        match r {
            Some(v) => var_line_spec(line@) == Some(v@),
            None => var_line_spec(line@) is None,
        },
{
    let parts = split_fields(line);
    if parts.len() != 4 {
        return None;
    }
    let ghost fv = views(parts@);
    assert(fv[0] == parts@[0]@ && fv[1] == parts@[1]@ && fv[2] == parts@[2]@ && fv[3] == parts@[3]@);
    match (type_from_chars(parts[0].as_slice()), parse_usize(parts[1].as_slice()), parse_usize(parts[2].as_slice())) {
        (Some(t), Some(id), Some(ix)) => {
            let name = string_from_chars(parts[3].as_slice());
            Some(VarInfo { node_type: t, id: id, index: ix, name: name, is_vector: false })
        },
        _ => None,
    }
}

pub open spec fn string_views(lines: Seq<String>) -> Seq<Seq<char>> {
    lines.map_values(|s: String| s@)
}

pub open spec fn info_views(v: Seq<VarInfo>) -> Seq<VarInfoView> {
    v.map_values(|i: VarInfo| i@)
}

/// The model number of an entry: inputs first, then latches, then wires,
/// counting from 1.
pub open spec fn node_id(v: VarInfoView, input_count: usize, latch_count: usize) -> int {
    match v.node_type {
        VarType::Input => 1 + v.id,
        VarType::Latch => 1 + input_count + v.id,
        VarType::Wire => 1 + input_count + latch_count + v.id,
    }
}

/// Byte length of a name in UTF-8, as `str::len` reports it.
pub open spec fn name_len(name: Seq<char>) -> usize {
    vstd::utf8::encode_utf8(name).len() as usize
}

/// The map from model numbers to entries that reading `vs` in order builds:
/// the first entry of a number is kept, except that its name is replaced by
/// a later one of fewer bytes.
pub open spec fn build_vars(vs: Seq<VarInfoView>, input_count: usize, latch_count: usize) -> Map<usize, VarInfoView>
    decreases vs.len(),
{
    if vs.len() == 0 {
        Map::empty()
    } else {
        let m = build_vars(vs.drop_last(), input_count, latch_count);
        let v = vs.last();
        let k = node_id(v, input_count, latch_count) as usize;
        if !m.contains_key(k) {
            m.insert(k, v)
        } else if name_len(m[k].name) > name_len(v.name) {
            m.insert(k, VarInfoView { name: v.name, ..m[k] })
        } else {
            m
        }
    }
}

/// Another entry of `m` has the name of the entry at `k`.
pub open spec fn name_shared(m: Map<usize, VarInfoView>, k: usize) -> bool {
    exists|k2: usize| m.contains_key(k2) && k2 != k && m[k2].name == m[k].name
}

/// `m` with each entry's `is_vector` set to whether its name is shared.
pub open spec fn with_vector_flags(m: Map<usize, VarInfoView>) -> Map<usize, VarInfoView> {
    Map::new(|k: usize| m.contains_key(k), |k: usize| VarInfoView { is_vector: name_shared(m, k), ..m[k] })
}

/// The entries that the model map lines and the AIGER header line give, as
/// `Var2Name::new` builds them; `None` when the header or a line is malformed
/// or a model number does not fit a `usize`.
pub open spec fn names_spec(lines: Seq<Seq<char>>, header: Seq<char>) -> Option<Map<usize, VarInfoView>> {
    match header_counts(header) {
        None => None,
        Some((ic, lc)) => {
            if exists|i: int| 0 <= i < lines.len() && (#[trigger] var_line_spec(lines[i])) is None {
                None
            } else {
                let vs = lines.map_values(|l: Seq<char>| var_line_spec(l).unwrap());
                if exists|i: int| 0 <= i < vs.len() && node_id(#[trigger] vs[i], ic, lc) > usize::MAX {
                    None
                } else {
                    Some(with_vector_flags(build_vars(vs, ic, lc)))
                }
            }
        },
    }
}

/// Reads every line of the model map; `None` when one is malformed.
pub fn collect_vars(lines: &Vec<String>) -> (r: Option<Vec<VarInfo>>)
    ensures
        match r {
            Some(v) => {
                &&& v@.len() == lines@.len()
                &&& forall|i: int| 0 <= i < lines@.len() ==> var_line_spec(#[trigger] lines@[i]@) == Some(v@[i]@)
            },
            None => exists|i: int| 0 <= i < lines@.len() && (#[trigger] var_line_spec(lines@[i]@)) is None,
        },
{
    let mut out: Vec<VarInfo> = Vec::new();
    let mut i: usize = 0;
    while i < lines.len()
        invariant
            i <= lines@.len(),
            out@.len() == i,
            forall|k: int| 0 <= k < i ==> var_line_spec(#[trigger] lines@[k]@) == Some(out@[k]@),
        decreases lines@.len() - i,
    {
        match parse_var_line(lines[i].as_str()) {
            Some(v) => out.push(v),
            None => {
                assert(var_line_spec(lines@[i as int]@) is None);
                return None;
            },
        }
        i = i + 1;
    }
    Some(out)
}

/// The model number of `v` (see `node_id`), or `None` when it overflows.
fn calc_node_id(v: &VarInfo, input_count: usize, latch_count: usize) -> (r: Option<usize>)
    ensures
        match r {
            Some(k) => k == node_id(v@, input_count, latch_count),
            None => node_id(v@, input_count, latch_count) > usize::MAX,
        },
{
    match v.node_type {
        VarType::Input => 1usize.checked_add(v.id),
        VarType::Latch => match 1usize.checked_add(input_count) {
            Some(a) => a.checked_add(v.id),
            None => None,
        },
        VarType::Wire => match 1usize.checked_add(input_count) {
            Some(a) => match a.checked_add(latch_count) {
                Some(b) => b.checked_add(v.id),
                None => None,
            },
            None => None,
        },
    }
}

/// Names of the variables of a model: the entries of its model map keyed by
/// model number, and the maps between current and original variable numbers
/// that preprocessing leaves.
pub struct Var2Name {
    vars: BTreeMap<usize, VarInfo>,
    keys: Vec<usize>,
    refine_inv: BTreeMap<usize, usize>,
    refine: BTreeMap<usize, usize>,
}

impl Var2Name {
    /// The entries, keyed by model number.
    pub closed spec fn vars_view(&self) -> Map<usize, VarInfoView> {
        self.vars@.map_values(|v: VarInfo| v@)
    }

    /// Current variable number to original variable number.
    pub closed spec fn origin_map(&self) -> Map<usize, usize> {
        self.refine_inv@
    }

    /// Original variable number to current variable number.
    pub closed spec fn new_map(&self) -> Map<usize, usize> {
        self.refine@
    }

    pub closed spec fn wf(&self) -> bool {
        &&& self.keys@.no_duplicates()
        &&& forall|k: usize| self.vars@.contains_key(k) <==> self.keys@.contains(k)
    }

    /// Names from the lines of a model map and the header line of the AIGER
    /// model (see `names_spec`); no variable renaming is known yet.
    pub fn new(map_lines: &Vec<String>, aig_header: &str) -> (r: Option<Var2Name>)
        ensures
            match r {
                Some(n) => {
                    &&& n.wf()
                    &&& names_spec(string_views(map_lines@), aig_header@) == Some(n.vars_view())
                    &&& n.origin_map() == Map::<usize, usize>::empty()
                    &&& n.new_map() == Map::<usize, usize>::empty()
                },
                None => names_spec(string_views(map_lines@), aig_header@) is None,
            },
    {
        let ghost lv = string_views(map_lines@);
        let (input_count, latch_count) = match Self::get_num_of_input_latch(aig_header) {
            Some(c) => c,
            None => return None,
        };
        let vars_vec = match collect_vars(map_lines) {
            Some(v) => v,
            None => {
                proof {
                    let i = choose|i: int| 0 <= i < map_lines@.len() && (#[trigger] var_line_spec(map_lines@[i]@)) is None;
                    assert(var_line_spec(lv[i]) is None);
                }
                return None;
            },
        };
        let ghost vs = lv.map_values(|l: Seq<char>| var_line_spec(l).unwrap());
        proof {
            assert forall|i: int| 0 <= i < lv.len() implies (#[trigger] var_line_spec(lv[i])) is Some by {
                assert(var_line_spec(map_lines@[i]@) == Some(vars_vec@[i]@));
            }
            assert(vs =~= info_views(vars_vec@));
        }
        let mut vars: BTreeMap<usize, VarInfo> = BTreeMap::new();
        let mut keys: Vec<usize> = Vec::new();
        let mut i: usize = 0;
        while i < vars_vec.len()
            invariant
                i <= vars_vec@.len(),
                vs == info_views(vars_vec@),
                lv == string_views(map_lines@),
                vs == lv.map_values(|l: Seq<char>| var_line_spec(l).unwrap()),
                header_counts(aig_header@) == Some((input_count, latch_count)),
                forall|j: int| 0 <= j < lv.len() ==> (#[trigger] var_line_spec(lv[j])) is Some,
                keys@.no_duplicates(),
                forall|k: usize| vars@.contains_key(k) <==> keys@.contains(k),
                vars@.map_values(|v: VarInfo| v@) == build_vars(vs.take(i as int), input_count, latch_count),
                forall|j: int| 0 <= j < i ==> node_id(#[trigger] vs[j], input_count, latch_count) <= usize::MAX,
            decreases vars_vec@.len() - i,
        {
            let v = &vars_vec[i];
            proof {
                assert(vs.take(i + 1).drop_last() =~= vs.take(i as int));
                assert(vs.take(i + 1).last() == v@);
            }
            let k = match calc_node_id(v, input_count, latch_count) {
                Some(k) => k,
                None => {
                    assert(node_id(vs[i as int], input_count, latch_count) > usize::MAX);
                    return None;
                },
            };
            let ghost m0 = vars@;
            match vars.get(&k) {
                None => {
                    let vc = v.clone();
                    vars.insert(k, vc);
                    proof {
                        assert(!m0.contains_key(k));
                        assert(vars@ == m0.insert(k, vc));
                        assert(!keys@.contains(k));
                        let ghost old_keys = keys@;
                        assert forall|k2: usize| #[trigger] old_keys.push(k).contains(k2) <==> (old_keys.contains(k2) || k2 == k) by {
                            crate::litvec::lemma_push_contains(old_keys, k);
                        }
                    }
                    keys.push(k);
                    proof {
                        assert(vars@.map_values(|v: VarInfo| v@) =~= m0.map_values(|v: VarInfo| v@).insert(k, v@));
                        assert(vars@.map_values(|v: VarInfo| v@) == build_vars(vs.take(i + 1), input_count, latch_count));
                    }
                },
                Some(existing) => {
                    if existing.name.as_str().len() > v.name.as_str().len() {
                        let mut e = existing.clone();
                        e.name = v.name.clone();
                        let ghost ev = e@;
                        vars.insert(k, e);
                        proof {
                            let mv = m0.map_values(|v: VarInfo| v@);
                            assert(m0.contains_key(k) && m0[k] == *existing);
                            assert(vars@ == m0.insert(k, e));
                            assert(vars@.map_values(|v: VarInfo| v@) =~= mv.insert(k, VarInfoView { name: v@.name, ..mv[k] }));
                            assert(vars@.map_values(|v: VarInfo| v@) == build_vars(vs.take(i + 1), input_count, latch_count));
                        }
                    } else {
                        assert(vars@.map_values(|v: VarInfo| v@) == build_vars(vs.take(i + 1), input_count, latch_count));
                    }
                },
            }
            i = i + 1;
        }
        proof {
            assert(vs.take(vs.len() as int) =~= vs);
        }
        let ghost built = vars@.map_values(|v: VarInfo| v@);
        Self::flush_is_vector(&mut vars, &keys);
        let r = Var2Name { vars, keys, refine_inv: BTreeMap::new(), refine: BTreeMap::new() };
        proof {
            assert(r.vars_view() == with_vector_flags(built));
            assert(!exists|i: int| 0 <= i < lv.len() && (#[trigger] var_line_spec(lv[i])) is None);
        }
        Some(r)
    }


    /// The name shown for current variable `id`: `<id>` when its original
    /// number is unknown, that original number when the map has no entry for
    /// it, the entry's label otherwise.
    pub open spec fn name_spec(&self, id: usize) -> Seq<char> {
        if !self.origin_map().contains_key(id) {
            seq!['<'] + decimal(id as nat) + seq!['>']
        } else {
            let o = self.origin_map()[id];
            if !self.vars_view().contains_key(o) {
                decimal(o as nat)
            } else {
                info_label(self.vars_view()[o])
            }
        }
    }

    pub fn get_name(&self, id: usize) -> (r: String)
        ensures
            r@ == self.name_spec(id),
    {
        let original = match self.refine_inv.get(&id) {
            None => {
                let mut out: Vec<char> = Vec::new();
                out.push('<');
                push_decimal(&mut out, id as u64);
                out.push('>');
                assert(out@ =~= seq!['<'] + decimal(id as nat) + seq!['>']);
                return string_from_chars(out.as_slice());
            },
            Some(o) => *o,
        };
        match self.vars.get(&original) {
            None => {
                let mut out: Vec<char> = Vec::new();
                push_decimal(&mut out, original as u64);
                assert(out@ =~= decimal(original as nat));
                string_from_chars(out.as_slice())
            },
            Some(info) => info.label(),
        }
    }

    /// The entry of current variable `id`, through its original number.
    pub fn get(&self, id: usize) -> (r: Option<VarInfo>)
        ensures
            match r {
                Some(v) => self.origin_map().contains_key(id) && self.vars_view().contains_key(
                    self.origin_map()[id],
                ) && v@ == self.vars_view()[self.origin_map()[id]],
                None => !self.origin_map().contains_key(id) || !self.vars_view().contains_key(
                    self.origin_map()[id],
                ),
            },
    {
        let original = match self.refine_inv.get(&id) {
            None => return None,
            Some(o) => *o,
        };
        match self.vars.get(&original) {
            None => None,
            Some(info) => Some(info.clone()),
        }
    }

    /// The original variable number of current variable `new_id`.
    pub fn get_origin_id(&self, new_id: usize) -> (r: Option<usize>)
        ensures
            r == (if self.origin_map().contains_key(new_id) { Some(self.origin_map()[new_id]) } else { None::<usize> }),
    {
        match self.refine_inv.get(&new_id) {
            Some(v) => Some(*v),
            None => None,
        }
    }

    /// The current variable number of original variable `origin_id`.
    pub fn get_new_id(&self, origin_id: usize) -> (r: Option<usize>)
        ensures
            r == (if self.new_map().contains_key(origin_id) { Some(self.new_map()[origin_id]) } else { None::<usize> }),
    {
        match self.refine.get(&origin_id) {
            Some(v) => Some(*v),
            None => None,
        }
    }

    /// Records the maps between current and original variable numbers.
    pub fn set_refine(&mut self, refine_inv: BTreeMap<usize, usize>, refine: BTreeMap<usize, usize>)
        requires
            old(self).wf(),
        ensures
            final(self).wf(),
            final(self).vars_view() == old(self).vars_view(),
            final(self).origin_map() == refine_inv@,
            final(self).new_map() == refine@,
    {
        self.refine_inv = refine_inv;
        self.refine = refine;
    }

    /// The numbers of inputs and latches of the AIGER header line (see
    /// `get_input_latch_num`).
    pub fn get_num_of_input_latch(line: &str) -> (r: Option<(usize, usize)>)
        ensures
            r == header_counts(line@),
    {
        get_input_latch_num(line)
    }

    /// Sets each entry's `is_vector` to whether another entry has its name.
    fn flush_is_vector(vars: &mut BTreeMap<usize, VarInfo>, keys: &Vec<usize>)
        requires
            keys@.no_duplicates(),
            forall|k: usize| old(vars)@.contains_key(k) <==> keys@.contains(k),
        ensures
            final(vars)@.map_values(|v: VarInfo| v@) == with_vector_flags(old(vars)@.map_values(|v: VarInfo| v@)),
            forall|k: usize| final(vars)@.contains_key(k) <==> keys@.contains(k),
    {
        let ghost m0 = old(vars)@.map_values(|v: VarInfo| v@);
        let mut seen: StringHashMap<bool> = StringHashMap::new();
        let mut dup: StringHashMap<bool> = StringHashMap::new();
        let mut i: usize = 0;
        while i < keys.len()
            invariant
                i <= keys@.len(),
                keys@.no_duplicates(),
                vars@ == old(vars)@,
                m0 == old(vars)@.map_values(|v: VarInfo| v@),
                forall|k: usize| vars@.contains_key(k) <==> keys@.contains(k),
                forall|n: Seq<char>|
                    #[trigger] seen@.contains_key(n) <==> exists|j: int| 0 <= j < i && m0[keys@[j]].name == n,
                forall|n: Seq<char>|
                    #[trigger] dup@.contains_key(n) <==> exists|j1: int, j2: int|
                        0 <= j1 < j2 < i && m0[keys@[j1]].name == n && m0[keys@[j2]].name == n,
            decreases keys@.len() - i,
        {
            let k = keys[i];
            assert(keys@.contains(k));
            let name = vars.get(&k).unwrap().name.clone();
            assert(name@ == m0[keys@[i as int]].name);
            if seen.contains_key(name.as_str()) {
                dup.insert(name.clone(), true);
            } else {
                seen.insert(name.clone(), true);
            }
            proof {
                assert forall|n: Seq<char>| #[trigger] seen@.contains_key(n) <==> exists|j: int| 0 <= j < i + 1 && m0[keys@[j]].name == n by {
                    if n == name@ {
                        assert(m0[keys@[i as int]].name == n);
                    }
                }
                assert forall|n: Seq<char>| #[trigger] dup@.contains_key(n) <==> exists|j1: int, j2: int|
                    0 <= j1 < j2 < i + 1 && m0[keys@[j1]].name == n && m0[keys@[j2]].name == n by {
                    if n == name@ && exists|j: int| 0 <= j < i && m0[keys@[j]].name == n {
                        let j = choose|j: int| 0 <= j < i && m0[keys@[j]].name == n;
                        assert(m0[keys@[j]].name == n && m0[keys@[i as int]].name == n);
                    }
                    if exists|j1: int, j2: int| 0 <= j1 < j2 < i + 1 && m0[keys@[j1]].name == n && m0[keys@[j2]].name == n {
                        let (j1, j2) = choose|j1: int, j2: int| 0 <= j1 < j2 < i + 1 && m0[keys@[j1]].name == n && m0[keys@[j2]].name == n;
                        if j2 == i {
                            assert(seen@.contains_key(n) || n != name@);
                        }
                    }
                }
            }
            i = i + 1;
        }
        let mut i: usize = 0;
        while i < keys.len()
            invariant
                i <= keys@.len(),
                keys@.no_duplicates(),
                m0 == old(vars)@.map_values(|v: VarInfo| v@),
                forall|k: usize| vars@.contains_key(k) <==> keys@.contains(k),
                forall|k: usize| old(vars)@.contains_key(k) <==> keys@.contains(k),
                forall|n: Seq<char>|
                    #[trigger] dup@.contains_key(n) <==> exists|j1: int, j2: int|
                        0 <= j1 < j2 < keys@.len() && m0[keys@[j1]].name == n && m0[keys@[j2]].name == n,
                forall|j: int| 0 <= j < i ==> vars@[#[trigger] keys@[j]]@ == with_vector_flags(m0)[keys@[j]],
                forall|j: int| i <= j < keys@.len() ==> vars@[#[trigger] keys@[j]] == old(vars)@[keys@[j]],
            decreases keys@.len() - i,
        {
            let k = keys[i];
            assert(keys@.contains(k));
            let mut info = vars.get(&k).unwrap().clone();
            let shared = dup.contains_key(info.name.as_str());
            proof {
                lemma_dup_is_shared(m0, keys@, i as int);
            }
            info.is_vector = shared;
            let ghost before = vars@;
            vars.insert(k, info);
            proof {
                assert forall|j: int| 0 <= j < i + 1 implies vars@[#[trigger] keys@[j]]@ == with_vector_flags(m0)[keys@[j]] by {
                    if j < i {
                        assert(keys@[j] != k);
                    }
                }
                assert forall|j: int| i + 1 <= j < keys@.len() implies vars@[#[trigger] keys@[j]] == old(vars)@[keys@[j]] by {
                    assert(keys@[j] != k);
                }
                assert forall|k2: usize| vars@.contains_key(k2) <==> keys@.contains(k2) by {
                    if k2 == k {
                        assert(before.contains_key(k));
                    }
                }
            }
            i = i + 1;
        }
        proof {
            let fin = vars@.map_values(|v: VarInfo| v@);
            assert forall|k: usize| #[trigger] fin.contains_key(k) implies fin[k] == with_vector_flags(m0)[k] by {
                assert(vars@.contains_key(k));
                assert(keys@.contains(k));
                let j = choose|j: int| 0 <= j < keys@.len() && keys@[j] == k;
                assert(vars@[keys@[j]]@ == with_vector_flags(m0)[keys@[j]]);
            }
            assert forall|k: usize| #[trigger] fin.contains_key(k) <==> with_vector_flags(m0).contains_key(k) by {
                assert(fin.contains_key(k) <==> vars@.contains_key(k));
                assert(m0.contains_key(k) <==> old(vars)@.contains_key(k));
                assert(vars@.contains_key(k) <==> keys@.contains(k));
                assert(old(vars)@.contains_key(k) <==> keys@.contains(k));
                assert(with_vector_flags(m0).contains_key(k) <==> m0.contains_key(k));
            }
            assert(fin =~= with_vector_flags(m0));
        }
    }
}

/// Names from the model map and the AIGER header line (see `Var2Name::new`).
pub fn init_var2name(map_lines: &Vec<String>, aig_header: &str) -> (r: Option<Var2Name>)
    ensures
        match r {
            Some(n) => {
                &&& n.wf()
                &&& names_spec(string_views(map_lines@), aig_header@) == Some(n.vars_view())
                &&& n.origin_map() == Map::<usize, usize>::empty()
                &&& n.new_map() == Map::<usize, usize>::empty()
            },
            None => names_spec(string_views(map_lines@), aig_header@) is None,
        },
{
    Var2Name::new(map_lines, aig_header)
}

/// Records in `names` the maps from current to original variable numbers and back.
pub fn init_var2name_refine_inv(names: &mut Var2Name, refine_inv: BTreeMap<usize, usize>, refine: BTreeMap<usize, usize>)
    requires
        old(names).wf(),
    ensures
        final(names).wf(),
        final(names).vars_view() == old(names).vars_view(),
        final(names).origin_map() == refine_inv@,
        final(names).new_map() == refine@,
{
    names.set_refine(refine_inv, refine);
}

/// The name of variable `var`: its number when no names are loaded.
pub fn var2name(names: Option<&Var2Name>, var: usize) -> (r: String)
    ensures
        r@ == match names {
            Some(n) => n.name_spec(var),
            None => decimal(var as nat),
        },
{
    match names {
        Some(n) => n.get_name(var),
        None => {
            let mut out: Vec<char> = Vec::new();
            push_decimal(&mut out, var as u64);
            assert(out@ =~= decimal(var as nat));
            string_from_chars(out.as_slice())
        },
    }
}

/// The entry of variable `var`, when names are loaded and it has one.
/// What the loaded names say of variable `var`, if anything.
pub open spec fn info_spec(names: Option<&Var2Name>, var: usize) -> Option<VarInfoView> {
    match names {
        None => None,
        Some(n) => if n.origin_map().contains_key(var) && n.vars_view().contains_key(n.origin_map()[var]) {
            Some(n.vars_view()[n.origin_map()[var]])
        } else {
            None
        },
    }
}

pub open spec fn opt_info_view(r: Option<VarInfo>) -> Option<VarInfoView> {
    match r {
        None => None,
        Some(v) => Some(v@),
    }
}

pub fn var2info(names: Option<&Var2Name>, var: usize) -> (r: Option<VarInfo>)
    ensures
        opt_info_view(r) == info_spec(names, var),
        match names {
            None => r is None,
            Some(n) => match r {
                Some(v) => n.origin_map().contains_key(var) && n.vars_view().contains_key(
                    n.origin_map()[var],
                ) && v@ == n.vars_view()[n.origin_map()[var]],
                None => !n.origin_map().contains_key(var) || !n.vars_view().contains_key(
                    n.origin_map()[var],
                ),
            },
        },
{
    match names {
        Some(n) => n.get(var),
        None => None,
    }
}

/// For distinct keys, a name held at two positions is exactly a name that
/// another key shares with the key at position `i`.
proof fn lemma_dup_is_shared(m0: Map<usize, VarInfoView>, keys: Seq<usize>, i: int)
    requires
        0 <= i < keys.len(),
        keys.no_duplicates(),
        forall|k: usize| m0.contains_key(k) <==> keys.contains(k),
    ensures
        name_shared(m0, keys[i]) <==> exists|j1: int, j2: int|
            0 <= j1 < j2 < keys.len() && m0[keys[j1]].name == m0[keys[i]].name && m0[keys[j2]].name == m0[keys[i]].name,
{
    let k = keys[i];
    let n = m0[k].name;
    if name_shared(m0, k) {
        let k2 = choose|k2: usize| m0.contains_key(k2) && k2 != k && m0[k2].name == m0[k].name;
        assert(keys.contains(k2));
        let j = choose|j: int| 0 <= j < keys.len() && keys[j] == k2;
        assert(j != i);
        if j < i {
            assert(m0[keys[j]].name == n && m0[keys[i]].name == n);
        } else {
            assert(m0[keys[i]].name == n && m0[keys[j]].name == n);
        }
    }
    if exists|j1: int, j2: int| 0 <= j1 < j2 < keys.len() && m0[keys[j1]].name == n && m0[keys[j2]].name == n {
        let (j1, j2) = choose|j1: int, j2: int| 0 <= j1 < j2 < keys.len() && m0[keys[j1]].name == n && m0[keys[j2]].name == n;
        let jj = if j1 != i { j1 } else { j2 };
        assert(keys[jj] != k);
        assert(keys.contains(keys[jj]));
        assert(m0.contains_key(keys[jj]));
    }
}

} // verus!
