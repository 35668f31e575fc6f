//! Contracts for the hash collections of the `ahash` crate that the library uses.

use vstd::prelude::*;

verus! {

#[verifier::external_type_specification]
#[verifier::external_body]
pub struct ExRandomState(ahash::RandomState);

#[verifier::external_type_specification]
#[verifier::external_body]
#[verifier::reject_recursive_types(K)]
#[verifier::reject_recursive_types(V)]
#[verifier::reject_recursive_types(S)]
pub struct ExAHashMap<K, V, S>(ahash::AHashMap<K, V, S>);

#[verifier::external_type_specification]
#[verifier::external_body]
#[verifier::reject_recursive_types(T)]
#[verifier::reject_recursive_types(S)]
pub struct ExAHashSet<T, S>(ahash::AHashSet<T, S>);

/// A hash map from an (IED name, access point name) pair to a node index.
pub type PairMap = ahash::AHashMap<(String, String), usize>;

/// The mathematical contents of a `PairMap`.
pub type PairContents = Map<(Seq<char>, Seq<char>), usize>;

/// What a `PairMap` holds, its keys taken by their character sequences.
pub uninterp spec fn pair_map_contents(m: PairMap) -> PairContents;

/// `AHashMap::new` for a `PairMap`: the map it returns holds nothing.
#[verifier::external_body]
pub(crate) fn pair_map_new() -> (m: PairMap)
    ensures
        pair_map_contents(m) == PairContents::empty(),
{
    ahash::AHashMap::new()
}

/// `AHashMap::get` on a `PairMap`: the value stored under the key, if any.
/// `String` keys compare and hash by their characters, so two keys with the
/// same characters find the same entry.
#[verifier::external_body]
pub(crate) fn pair_map_get(m: &PairMap, ied: &String, ap: &String) -> (r: Option<usize>)
    ensures
        pair_map_contents(*m).dom().contains((ied@, ap@)) ==> r == Some(pair_map_contents(*m)[(ied@, ap@)]),
        !pair_map_contents(*m).dom().contains((ied@, ap@)) ==> r.is_none(),
{
    m.get(&(ied.clone(), ap.clone())).copied()
}

/// `AHashMap::insert` on a `PairMap`: afterwards the key maps to the value and
/// every other key keeps its entry.
#[verifier::external_body]
pub(crate) fn pair_map_insert(m: &mut PairMap, ied: String, ap: String, v: usize)
    ensures
        pair_map_contents(*final(m)) == pair_map_contents(*old(m)).insert((ied@, ap@), v),
{
    m.insert((ied, ap), v);
}

/// A hash map from an (IED name, access point name) pair to a subnetwork name.
pub type ZoneMap = ahash::AHashMap<(String, String), String>;

/// The mathematical contents of a `ZoneMap`.
pub type ZoneContents = Map<(Seq<char>, Seq<char>), Seq<char>>;

/// What a `ZoneMap` holds, its texts taken by their characters.
pub uninterp spec fn zone_map_contents(m: ZoneMap) -> ZoneContents;

/// `AHashMap::new` for a `ZoneMap`: the map it returns holds nothing.
#[verifier::external_body]
pub(crate) fn zone_map_new() -> (m: ZoneMap)
    ensures
        zone_map_contents(m) == ZoneContents::empty(),
{
    ahash::AHashMap::new()
}

/// `AHashMap::insert` on a `ZoneMap`: afterwards the key maps to the value
/// and every other key keeps its entry.
#[verifier::external_body]
pub(crate) fn zone_map_insert(m: &mut ZoneMap, ied: String, ap: String, zone: String)
    ensures
        zone_map_contents(*final(m)) == zone_map_contents(*old(m)).insert((ied@, ap@), zone@),
{
    m.insert((ied, ap), zone);
}

/// `AHashMap::get` on a `ZoneMap`, the value copied out.
#[verifier::external_body]
pub(crate) fn zone_map_get(m: &ZoneMap, ied: &String, ap: &String) -> (r: Option<String>)
    ensures
        zone_map_contents(*m).dom().contains((ied@, ap@)) ==> r is Some && r->0@ == zone_map_contents(*m)[(ied@, ap@)],
        !zone_map_contents(*m).dom().contains((ied@, ap@)) ==> r is None,
{
    m.get(&(ied.clone(), ap.clone())).cloned()
}

/// `HashMap::is_empty` on a `ZoneMap` (reached through `AHashMap`'s deref):
/// whether it holds no key.
#[verifier::external_body]
pub(crate) fn zone_map_is_empty(m: &ZoneMap) -> (b: bool)
    ensures
        b == (zone_map_contents(*m).dom() == Set::<(Seq<char>, Seq<char>)>::empty()),
{
    m.is_empty()
}

/// The key of a control block: IED name, access point name, control block name.
pub type BlockKey = (Seq<char>, Seq<char>, Seq<char>);

/// A hash map from a control block to the VLAN identifiers it is published with.
pub type VlanMap = ahash::AHashMap<(String, String, String), Vec<String>>;

/// The mathematical contents of a `VlanMap`.
pub type VlanContents = Map<BlockKey, Seq<Seq<char>>>;

/// What a `VlanMap` holds, its texts taken by their characters.
pub uninterp spec fn vlan_map_contents(m: VlanMap) -> VlanContents;

/// The list stored under `k`, or the empty list.
pub open spec fn vlans_under(c: VlanContents, k: BlockKey) -> Seq<Seq<char>> {
    if c.dom().contains(k) { c[k] } else { Seq::empty() }
}

/// `AHashMap::new` for a `VlanMap`: the map it returns holds nothing.
#[verifier::external_body]
pub(crate) fn vlan_map_new() -> (m: VlanMap)
    ensures
        vlan_map_contents(m) == VlanContents::empty(),
{
    ahash::AHashMap::new()
}

/// `HashMap::entry` then `Entry::or_default` then `Vec::push` on a
/// `VlanMap`: the list under the key, empty if there was none, gets `vlan`
/// at its end; every other key keeps its list.
#[verifier::external_body]
pub(crate) fn vlan_map_push(m: &mut VlanMap, ied: String, ap: String, cb: String, vlan: String)
    ensures
        vlan_map_contents(*final(m)) == vlan_map_contents(*old(m)).insert((ied@, ap@, cb@),
            vlans_under(vlan_map_contents(*old(m)), (ied@, ap@, cb@)).push(vlan@)),
{
    m.entry((ied, ap, cb)).or_default().push(vlan);
}

/// `AHashMap::get` on a `VlanMap`, the list copied out.
#[verifier::external_body]
pub(crate) fn vlan_map_get(m: &VlanMap, ied: &String, ap: &String, cb: &String) -> (r: Option<Vec<String>>)
    ensures
        vlan_map_contents(*m).dom().contains((ied@, ap@, cb@)) ==> r is Some
            && r->0@.map_values(|s: String| s@) == vlan_map_contents(*m)[(ied@, ap@, cb@)],
        !vlan_map_contents(*m).dom().contains((ied@, ap@, cb@)) ==> r is None,
{
    m.get(&(ied.clone(), ap.clone(), cb.clone())).cloned()
}

/// A hash set of control blocks.
pub type BlockSet = ahash::AHashSet<(String, String, String)>;

/// What a `BlockSet` holds, its texts taken by their characters.
pub uninterp spec fn block_set_contents(s: BlockSet) -> Set<BlockKey>;

/// `AHashSet::new` for a `BlockSet`: the set it returns is empty.
#[verifier::external_body]
pub(crate) fn block_set_new() -> (s: BlockSet)
    ensures
        block_set_contents(s) == Set::<BlockKey>::empty(),
{
    ahash::AHashSet::new()
}

/// `HashSet::insert` on a `BlockSet` (through `AHashSet`'s deref): afterwards
/// the set also holds the key.
#[verifier::external_body]
pub(crate) fn block_set_insert(s: &mut BlockSet, ied: String, ap: String, cb: String)
    ensures
        block_set_contents(*final(s)) == block_set_contents(*old(s)).insert((ied@, ap@, cb@)),
{
    s.insert((ied, ap, cb));
}

/// `HashSet::contains` on a `BlockSet` (through `AHashSet`'s deref).
#[verifier::external_body]
pub(crate) fn block_set_contains(s: &BlockSet, ied: &String, ap: &String, cb: &String) -> (b: bool)
    ensures
        b == block_set_contents(*s).contains((ied@, ap@, cb@)),
{
    s.contains(&(ied.clone(), ap.clone(), cb.clone()))
}

/// A hash set of node indices.
pub type IndexSet = ahash::AHashSet<usize>;

/// What an `IndexSet` holds.
pub uninterp spec fn index_set_contents(s: IndexSet) -> Set<usize>;

/// `AHashSet::new` for an `IndexSet`: the set it returns is empty.
#[verifier::external_body]
pub(crate) fn index_set_new() -> (s: IndexSet)
    ensures
        index_set_contents(s) == Set::<usize>::empty(),
{
    ahash::AHashSet::new()
}

/// `HashSet::insert` on an `IndexSet` (through `AHashSet`'s deref):
/// afterwards the set also holds `v`; the result says whether it was new.
#[verifier::external_body]
pub(crate) fn index_set_insert(s: &mut IndexSet, v: usize) -> (added: bool)
    ensures
        index_set_contents(*final(s)) == index_set_contents(*old(s)).insert(v),
        added == !index_set_contents(*old(s)).contains(v),
{
    s.insert(v)
}

/// `HashSet::contains` on an `IndexSet` (through `AHashSet`'s deref).
#[verifier::external_body]
pub(crate) fn index_set_contains(s: &IndexSet, v: usize) -> (b: bool)
    ensures
        b == index_set_contents(*s).contains(v),
{
    s.contains(&v)
}

/// A hash map from a control block to positions in a list of terminals.
pub type PositionMap = ahash::AHashMap<(String, String, String), Vec<usize>>;

/// The mathematical contents of a `PositionMap`.
pub type PositionContents = Map<BlockKey, Seq<usize>>;

/// What a `PositionMap` holds, its texts taken by their characters.
pub uninterp spec fn position_map_contents(m: PositionMap) -> PositionContents;

/// The list stored under `k`, or the empty list.
pub open spec fn positions_under(c: PositionContents, k: BlockKey) -> Seq<usize> {
    if c.dom().contains(k) { c[k] } else { Seq::empty() }
}

/// `AHashMap::new` for a `PositionMap`: the map it returns holds nothing.
#[verifier::external_body]
pub(crate) fn position_map_new() -> (m: PositionMap)
    ensures
        position_map_contents(m) == PositionContents::empty(),
{
    ahash::AHashMap::new()
}

/// `HashMap::entry` then `Entry::or_default` then `Vec::push` on a
/// `PositionMap`: the list under the key, empty if there was none, gets
/// `pos` at its end; every other key keeps its list.
#[verifier::external_body]
pub(crate) fn position_map_push(m: &mut PositionMap, ied: String, ap: String, cb: String, pos: usize)
    ensures
        position_map_contents(*final(m)) == position_map_contents(*old(m)).insert((ied@, ap@, cb@),
            positions_under(position_map_contents(*old(m)), (ied@, ap@, cb@)).push(pos)),
{
    m.entry((ied, ap, cb)).or_default().push(pos);
}

/// `AHashMap::get` on a `PositionMap`, the list copied out.
#[verifier::external_body]
pub(crate) fn position_map_get(m: &PositionMap, ied: &String, ap: &String, cb: &String) -> (r: Option<Vec<usize>>)
    ensures
        position_map_contents(*m).dom().contains((ied@, ap@, cb@)) ==> r is Some
            && r->0@ == position_map_contents(*m)[(ied@, ap@, cb@)],
        !position_map_contents(*m).dom().contains((ied@, ap@, cb@)) ==> r is None,
{
    m.get(&(ied.clone(), ap.clone(), cb.clone())).cloned()
}

/// The keys of a `PositionMap` in the order the map is walked, copied out.
/// Each key of the map comes exactly once; the order depends on the hasher,
/// which each process seeds anew, and is not stated.
#[verifier::external_body]
pub(crate) fn position_map_keys(m: &PositionMap) -> (r: Vec<(String, String, String)>)
    ensures
        r@.map_values(|k: (String, String, String)| (k.0@, k.1@, k.2@)).no_duplicates(),
        forall|k: BlockKey| #[trigger] position_map_contents(*m).dom().contains(k)
            <==> r@.map_values(|k: (String, String, String)| (k.0@, k.1@, k.2@)).contains(k),
{
    m.keys().cloned().collect()
}

}
