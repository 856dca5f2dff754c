use vstd::prelude::*;
use slotmap::{DefaultKey, SlotMap};
use crate::section::Section;
use crate::page::Page;

verus! {

#[verifier::external_type_specification]
#[verifier::external_body]
pub struct ExDefaultKey(DefaultKey);

/// A content document held by the store.
pub enum Record {
    Section(Section),
    Page(Page),
}

/// The arena that holds every content document under a stable key. The
/// slot map stands in a private field that only the functions below touch.
#[verifier::external_body]
pub struct Store {
    map: SlotMap<DefaultKey, Record>,
}

/// What a slot map of records holds, by key.
pub uninterp spec fn records(m: Store) -> Map<DefaultKey, Record>;

/// Relies on `SlotMap::new`: the map starts empty.
#[verifier::external_body]
pub(crate) fn store_new() -> (r: Store)
    ensures
        records(r).dom() == Set::<DefaultKey>::empty(),
{
    Store { map: SlotMap::new() }
}

/// Relies on `SlotMap::insert`: the value is stored under a key that was
/// not in use, and nothing else changes. It panics once `u32::MAX` slots
/// are taken; the maps here never remove an entry, so every slot but the
/// reserved first one holds a value.
#[verifier::external_body]
pub(crate) fn store_insert(m: &mut Store, v: Record) -> (k: DefaultKey)
    requires
        records(*old(m)).dom().finite(),
        records(*old(m)).len() + 1 < 0xFFFF_FFFF,
    ensures
        !records(*old(m)).contains_key(k),
        records(*final(m)) == records(*old(m)).insert(k, v),
{
    m.map.insert(v)
}

/// Relies on `SlotMap::get`: the value under `k`, if `k` is in use.
#[verifier::external_body]
pub(crate) fn store_get(m: &Store, k: DefaultKey) -> (r: Option<&Record>)
    ensures
        r is Some == records(*m).contains_key(k),
        r matches Some(v) ==> *v == records(*m)[k],
{
    m.map.get(k)
}

/// Relies on `SlotMap`'s `IndexMut`, which panics on a key not in use, and
/// on `std::mem::replace`: `v` takes the place of the value under `k`,
/// which is handed back.
#[verifier::external_body]
pub(crate) fn store_replace(m: &mut Store, k: DefaultKey, v: Record) -> (r: Record)
    requires
        records(*old(m)).contains_key(k),
    ensures
        r == records(*old(m))[k],
        records(*final(m)) == records(*old(m)).insert(k, v),
{
    std::mem::replace(&mut m.map[k], v)
}

} // verus!
