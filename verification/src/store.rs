//! The arena of cells, kept in a `slotmap::SlotMap`.
//!
//! The slot map is an outside collection: its contents are named by
//! `slot_cells`, and each method that the interpreter uses has a small
//! wrapper whose contract says what the method does to those contents.
use crate::data::{Data, DataImpl, Node};
use crate::text::decimal;
use slotmap::{DefaultKey, Key, KeyData, SlotMap};
use std::collections::HashSet;
use vstd::prelude::*;

verus! {

/// The slot map that holds the heap's cells. Verus cannot read
/// `slotmap::SlotMap`'s declaration (its key bound is an outside trait), so
/// the map is held here, out of Verus's sight, and named by `slot_cells`.
#[verifier::external_body]
pub struct Arena {
    cells: SlotMap<DefaultKey, DataImpl>,
}

/// The cells that a slot map holds, each under the 64-bit form of its key
/// (`KeyData::as_ffi`), each taken by its view.
pub uninterp spec fn slot_cells(m: Arena) -> Map<u64, Node>;

/// The 64-bit form of the key that `KeyData::from_ffi(id)` gives back: the
/// version half is made odd, the index half kept.
pub open spec fn key_of(id: u64) -> u64 {
    id | 0x1_0000_0000u64
}

/// Largest number of cells the arena can hold before `SlotMap::insert`
/// panics ("SlotMap is full" once it would need a slot at index `u32::MAX`).
pub open spec fn arena_limit() -> nat {
    (u32::MAX - 1) as nat
}

/// Wraps `SlotMap::with_key`: a new slot map holds no cells.
#[verifier::external_body]
pub(crate) fn arena_new() -> (m: Arena)
    ensures
        slot_cells(m).dom().is_empty(),
{
    Arena { cells: SlotMap::with_key() }
}

/// Wraps `SlotMap::insert`: the value is stored under a key that no cell held
/// before, whose version half is odd; nothing else changes. `insert` panics
/// when the map already holds `u32::MAX - 1` values, which `requires` leaves out.
#[verifier::external_body]
pub(crate) fn arena_insert(m: &mut Arena, v: DataImpl) -> (d: Data)
    requires
        slot_cells(*old(m)).dom().finite(),
        slot_cells(*old(m)).len() < arena_limit(),
    ensures
        !slot_cells(*old(m)).dom().contains(d.id),
        key_of(d.id) == d.id,
        slot_cells(*final(m)) == slot_cells(*old(m)).insert(d.id, v@),
{
    Data { id: m.cells.insert(v).data().as_ffi() }
}

/// Wraps `SlotMap::get` on the key `KeyData::from_ffi(d.id)`: it finds the
/// cell stored under that key, if any.
#[verifier::external_body]
pub(crate) fn arena_get<'a>(m: &'a Arena, d: Data) -> (r: Option<&'a DataImpl>)
    ensures
        r is Some <==> slot_cells(*m).dom().contains(key_of(d.id)),
        r is Some ==> r.unwrap()@ == slot_cells(*m)[key_of(d.id)],
{
    m.cells.get(DefaultKey::from(KeyData::from_ffi(d.id)))
}

/// Wraps `SlotMap::len`: the number of cells held.
#[verifier::external_body]
pub(crate) fn arena_len(m: &Arena) -> (n: usize)
    ensures
        n == slot_cells(*m).len(),
{
    m.cells.len()
}

/// Wraps `SlotMap::retain` with a predicate that keeps the cells whose key is
/// in `keep`: afterwards the map holds exactly those cells, unchanged.
#[verifier::external_body]
pub(crate) fn arena_retain(m: &mut Arena, keep: &HashSet<u64>)
    ensures
        slot_cells(*final(m)) == slot_cells(*old(m)).restrict(keep@),
{
    m.cells.retain(|k, _| is_marked(keep, k.data().as_ffi()))
}

/// Whether a key is in the mark set.
pub fn is_marked(mark: &HashSet<u64>, id: u64) -> (r: bool)
    ensures
        r == mark@.contains(id),
{
    broadcast use vstd::std_specs::hash::group_hash_axioms;
    mark.contains(&id)
}

/// The index half of the key `KeyData::from_ffi(id)`.
pub open spec fn key_index(id: u64) -> int {
    id as int % 0x1_0000_0000
}

/// The version half of the key `KeyData::from_ffi(id)`: the upper half of
/// `id`, made odd.
pub open spec fn key_version(id: u64) -> int {
    let hi = id as int / 0x1_0000_0000;
    if hi % 2 == 0 {
        hi + 1
    } else {
        hi
    }
}

/// The text that `Debug` gives for the key `KeyData::from_ffi(id)`: `null`
/// for the null key (index `u32::MAX`), else the index, `v` and the
/// version, both in decimal.
pub open spec fn key_text(id: u64) -> Seq<char> {
    if key_index(id) == u32::MAX as int {
        "null"@
    } else {
        decimal(key_index(id)) + "v"@ + decimal(key_version(id))
    }
}

/// Wraps the `Debug` formatting of `slotmap::KeyData` for the key
/// `KeyData::from_ffi(d.id)`: the text is `key_text` of the id.
#[verifier::external_body]
pub(crate) fn key_debug_text(d: Data) -> (s: String)
    ensures
        s@ == key_text(d.id),
{
    format!("{:?}", KeyData::from_ffi(d.id))
}

} // verus!
