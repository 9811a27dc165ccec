//! The hash collections of `giputils` that the equivalence-predicate
//! searches use, with what their methods do stated over names for their
//! contents. Their walk order is left open.
use vstd::prelude::*;
use giputils::hash::{GHashMap, GHashSet};
use crate::lit::Lit;

verus! {

/// A `GHashMap` from predicate numbers to literals. The map dereferences to
/// a `HashMap` over `ahash`'s hasher, so it is held in a private field and
/// reached only through the trusted functions below.
#[verifier::external_body]
pub struct PredMap {
    m: GHashMap<usize, Vec<Lit>>,
}

/// A `GHashSet` of variable indices or literal codes, held as `PredMap`
/// holds its map.
#[verifier::external_body]
pub struct CodeSet {
    s: GHashSet<u32>,
}

/// A `GHashSet` of cubes, each as the codes of its literals, held as
/// `PredMap` holds its map.
#[verifier::external_body]
pub struct CubeSet {
    s: GHashSet<Vec<u32>>,
}

/// A `GHashSet` of replacement masks, held as `PredMap` holds its map.
#[verifier::external_body]
pub struct MaskSet {
    s: GHashSet<Vec<bool>>,
}

/// A `GHashMap` from variables, by index, to literals: the next-state or
/// initial-value literal of each latch. Held as `PredMap` holds its map.
#[verifier::external_body]
pub struct VarLitMap {
    m: GHashMap<u32, Lit>,
}

/// What a map from variables to literals holds.
pub uninterp spec fn var_lit_map_contents(m: VarLitMap) -> Map<u32, Lit>;

/// What a map from predicate numbers to literals holds.
pub uninterp spec fn pred_map_contents(m: PredMap) -> Map<usize, Seq<Lit>>;

/// What a set of variable indices or literal codes holds.
pub uninterp spec fn code_set_contents(s: CodeSet) -> Set<u32>;

/// What a set of cubes holds.
pub uninterp spec fn cube_set_contents(s: CubeSet) -> Set<Seq<u32>>;

/// What a set of replacement masks holds.
pub uninterp spec fn mask_set_contents(s: MaskSet) -> Set<Seq<bool>>;

/// `GHashMap::new`: an empty map.
#[verifier::external_body]
pub(crate) fn pred_map_new() -> (m: PredMap)
    ensures
        pred_map_contents(m) =~= Map::empty(),
{
    PredMap { m: GHashMap::new() }
}

/// `entry(key).or_default().push(lit)`: `lit` is appended to the literals
/// of `key`, which start empty.
#[verifier::external_body]
pub(crate) fn pred_map_push(m: &mut PredMap, key: usize, lit: Lit)
    ensures
        pred_map_contents(*final(m)) == pred_map_contents(*old(m)).insert(
            key,
            if pred_map_contents(*old(m)).contains_key(key) {
                pred_map_contents(*old(m))[key].push(lit)
            } else {
                seq![lit]
            },
        ),
{
    m.m.entry(key).or_default().push(lit);
}

/// `into_iter().collect()`: every entry once, in the map's walk order,
/// which is left open.
#[verifier::external_body]
pub(crate) fn pred_map_entries(m: PredMap) -> (r: Vec<(usize, Vec<Lit>)>)
    ensures
        r@.len() == pred_map_contents(m).dom().len(),
        forall|i: int|
            0 <= i < r@.len() ==> pred_map_contents(m).contains_key(#[trigger] r@[i].0)
                && r@[i].1@ == pred_map_contents(m)[r@[i].0],
        forall|i: int, j: int| 0 <= i < j < r@.len() ==> #[trigger] r@[i].0 != #[trigger] r@[j].0,
{
    m.m.into_iter().collect()
}

/// `GHashMap::new`: an empty map.
#[verifier::external_body]
pub(crate) fn var_lit_map_new() -> (m: VarLitMap)
    ensures
        var_lit_map_contents(m) =~= Map::empty(),
{
    VarLitMap { m: GHashMap::new() }
}

/// `HashMap::insert`.
#[verifier::external_body]
pub(crate) fn var_lit_map_insert(m: &mut VarLitMap, v: u32, l: Lit)
    ensures
        var_lit_map_contents(*final(m)) == var_lit_map_contents(*old(m)).insert(v, l),
{
    m.m.insert(v, l);
}

/// `HashMap::get`, copied out.
#[verifier::external_body]
pub(crate) fn var_lit_map_get(m: &VarLitMap, v: u32) -> (r: Option<Lit>)
    ensures
        r == if var_lit_map_contents(*m).contains_key(v) {
            Some(var_lit_map_contents(*m)[v])
        } else {
            None
        },
{
    m.m.get(&v).copied()
}

/// `iter()` copied into a vector: every entry once, in the map's walk
/// order, which is left open.
#[verifier::external_body]
pub(crate) fn var_lit_map_entries(m: &VarLitMap) -> (r: Vec<(u32, Lit)>)
    ensures
        r@.map_values(|e: (u32, Lit)| e.0).to_set() == var_lit_map_contents(*m).dom(),
        forall|i: int|
            0 <= i < r@.len() ==> var_lit_map_contents(*m).contains_key(#[trigger] r@[i].0)
                && r@[i].1 == var_lit_map_contents(*m)[r@[i].0],
        forall|i: int, j: int| 0 <= i < j < r@.len() ==> #[trigger] r@[i].0 != #[trigger] r@[j].0,
{
    m.m.iter().map(|(k, v)| (*k, *v)).collect()
}

/// `HashMap::remove`.
#[verifier::external_body]
pub(crate) fn var_lit_map_remove(m: &mut VarLitMap, v: u32)
    ensures
        var_lit_map_contents(*final(m)) == var_lit_map_contents(*old(m)).remove(v),
{
    m.m.remove(&v);
}

/// `GHashSet::new`: an empty set.
#[verifier::external_body]
pub(crate) fn code_set_new() -> (s: CodeSet)
    ensures
        code_set_contents(s) =~= Set::empty(),
{
    CodeSet { s: GHashSet::new() }
}

/// `HashSet::insert`.
#[verifier::external_body]
pub(crate) fn code_set_insert(s: &mut CodeSet, v: u32)
    ensures
        code_set_contents(*final(s)) == code_set_contents(*old(s)).insert(v),
{
    s.s.insert(v);
}

/// `HashSet::contains`.
#[verifier::external_body]
pub(crate) fn code_set_contains(s: &CodeSet, v: u32) -> (b: bool)
    ensures
        b == code_set_contents(*s).contains(v),
{
    s.s.contains(&v)
}

/// `GHashSet::new`: an empty set.
#[verifier::external_body]
pub(crate) fn cube_set_new() -> (s: CubeSet)
    ensures
        cube_set_contents(s) =~= Set::empty(),
{
    CubeSet { s: GHashSet::new() }
}

/// `HashSet::insert`.
#[verifier::external_body]
pub(crate) fn cube_set_insert(s: &mut CubeSet, cube: Vec<u32>)
    ensures
        cube_set_contents(*final(s)) == cube_set_contents(*old(s)).insert(cube@),
{
    s.s.insert(cube);
}

/// `Vec::from_iter` over the set: every element once, in the set's walk
/// order, which is left open.
#[verifier::external_body]
pub(crate) fn cube_set_entries(s: CubeSet) -> (r: Vec<Vec<u32>>)
    ensures
        r@.len() == cube_set_contents(s).len(),
        forall|i: int| 0 <= i < r@.len() ==> cube_set_contents(s).contains(#[trigger] r@[i]@),
        forall|i: int, j: int| 0 <= i < j < r@.len() ==> #[trigger] r@[i]@ != #[trigger] r@[j]@,
{
    Vec::from_iter(s.s)
}

/// `GHashSet::new`: an empty set.
#[verifier::external_body]
pub(crate) fn mask_set_new() -> (s: MaskSet)
    ensures
        mask_set_contents(s) =~= Set::empty(),
{
    MaskSet { s: GHashSet::new() }
}

/// `HashSet::insert`.
#[verifier::external_body]
pub(crate) fn mask_set_insert(s: &mut MaskSet, mask: Vec<bool>)
    ensures
        mask_set_contents(*final(s)) == mask_set_contents(*old(s)).insert(mask@),
{
    s.s.insert(mask);
}

/// `HashSet::contains`.
#[verifier::external_body]
pub(crate) fn mask_set_contains(s: &MaskSet, mask: &Vec<bool>) -> (b: bool)
    ensures
        b == mask_set_contents(*s).contains(mask@),
{
    s.s.contains(mask)
}

} // verus!
