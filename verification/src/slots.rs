use slotmap::DefaultKey;
use slotmap::Key;
use slotmap::KeyData;
use slotmap::SlotMap;
use vstd::prelude::*;

verus! {

/// A `slotmap::SlotMap` from generational keys to places in a vector. Verus
/// does not look inside: what it holds is known by `slot_entries` alone.
#[verifier::external_body]
pub struct SlotIndex {
    inner: SlotMap<DefaultKey, usize>,
}

/// What a slot map holds: the place kept under each live key, the key taken
/// as the number that `KeyData::as_ffi` gives for it.
pub uninterp spec fn slot_entries(m: SlotIndex) -> Map<u64, usize>;

/// The most entries that a slot map takes.
pub const MAX_SLOTS: usize = 0xffff_fffe;

/// Whether a number has the shape of a key: its upper half, the version of
/// the key, is odd.
pub open spec fn key_form(id: u64) -> bool {
    (id as int / 0x1_0000_0000) % 2 == 1
}

/// `SlotMap::new`: a slot map that holds nothing.
#[verifier::external_body]
pub(crate) fn slot_new() -> (m: SlotIndex)
    ensures
        (slot_entries(m) == Map::<u64, usize>::empty()),
{
    SlotIndex { inner: SlotMap::new() }
}

/// `SlotMap::insert`: stores the value under a key that was not live, and
/// returns that key. Every key has an odd version. The outside function
/// panics when the map is full, which it is not below `MAX_SLOTS` entries.
#[verifier::external_body]
pub(crate) fn slot_insert(m: &mut SlotIndex, v: usize) -> (id: u64)
    requires
        slot_entries(*old(m)).dom().finite(),
        slot_entries(*old(m)).len() < MAX_SLOTS,
    ensures
        key_form(id),
        !slot_entries(*old(m)).contains_key(id),
        slot_entries(*final(m)) == slot_entries(*old(m)).insert(id, v),
{
    m.inner.insert(v).data().as_ffi()
}

/// `SlotMap::get`: the value under a key, where the key is live. A number in
/// the shape of a key is the number of the key that `KeyData::from_ffi` makes
/// of it.
#[verifier::external_body]
pub(crate) fn slot_get(m: &SlotIndex, id: u64) -> (r: Option<usize>)
    requires
        key_form(id),
    ensures
        r == (if slot_entries(*m).contains_key(id) {
            Some(slot_entries(*m)[id])
        } else {
            None
        }),
{
    m.inner.get(KeyData::from_ffi(id).into()).copied()
}

/// `SlotMap::get_mut`: the value under a key, where the key is live, to be
/// changed in place. Nothing else in the map changes.
#[verifier::external_body]
pub(crate) fn slot_get_mut(m: &mut SlotIndex, id: u64) -> (r: Option<&mut usize>)
    requires
        key_form(id),
    ensures
        slot_entries(*old(m)).contains_key(id) ==> r.is_some() && *r.unwrap() == slot_entries(
            *old(m),
        )[id] && slot_entries(*final(m)) == slot_entries(*old(m)).insert(
            id,
            *final(r.unwrap()),
        ),
        !slot_entries(*old(m)).contains_key(id) ==> r.is_none() && slot_entries(*final(m))
            == slot_entries(*old(m)),
{
    m.inner.get_mut(KeyData::from_ffi(id).into())
}

/// `SlotMap::remove`: takes the key out of the map, where it is live, and
/// returns the value that was under it.
#[verifier::external_body]
pub(crate) fn slot_remove(m: &mut SlotIndex, id: u64) -> (r: Option<usize>)
    requires
        key_form(id),
    ensures
        r == (if slot_entries(*old(m)).contains_key(id) {
            Some(slot_entries(*old(m))[id])
        } else {
            None
        }),
        slot_entries(*final(m)) == slot_entries(*old(m)).remove(id),
{
    m.inner.remove(KeyData::from_ffi(id).into())
}

/// A `slotmapd::SlotMap` from generational keys to places in a vector: the
/// slot map whose contents are written to a file in one order whatever
/// came and went. Verus does not look inside: what it holds is known by
/// `slotd_entries` alone.
#[verifier::external_body]
pub struct SlotIndexD {
    inner: slotmapd::SlotMap<slotmapd::DefaultKey, usize>,
}

/// What a slot map holds: the place kept under each live key, the key taken
/// as the number that `KeyData::as_ffi` gives for it.
pub uninterp spec fn slotd_entries(m: SlotIndexD) -> Map<u64, usize>;

/// `slotmapd::SlotMap::new`: a slot map that holds nothing.
#[verifier::external_body]
pub(crate) fn slotd_new() -> (m: SlotIndexD)
    ensures
        (slotd_entries(m) == Map::<u64, usize>::empty()),
{
    SlotIndexD { inner: slotmapd::SlotMap::new() }
}

/// `slotmapd::SlotMap::insert`: stores the value under a key that was not
/// live, and returns that key. Every key has an odd version. The outside
/// function panics when the count of entries would reach `u32::MAX`, which
/// it does not below `MAX_SLOTS` entries.
#[verifier::external_body]
pub(crate) fn slotd_insert(m: &mut SlotIndexD, v: usize) -> (id: u64)
    requires
        slotd_entries(*old(m)).dom().finite(),
        slotd_entries(*old(m)).len() < MAX_SLOTS,
    ensures
        key_form(id),
        !slotd_entries(*old(m)).contains_key(id),
        slotd_entries(*final(m)) == slotd_entries(*old(m)).insert(id, v),
{
    slotmapd::Key::data(&m.inner.insert(v)).as_ffi()
}

/// `slotmapd::SlotMap::get`: the value under a key, where the key is live.
/// A number in the shape of a key is the number of the key that
/// `KeyData::from_ffi` makes of it.
#[verifier::external_body]
pub(crate) fn slotd_get(m: &SlotIndexD, id: u64) -> (r: Option<usize>)
    requires
        key_form(id),
    ensures
        r == (if slotd_entries(*m).contains_key(id) {
            Some(slotd_entries(*m)[id])
        } else {
            None
        }),
{
    m.inner.get(slotmapd::KeyData::from_ffi(id).into()).copied()
}

/// `slotmapd::SlotMap::get_mut`: the value under a key, where the key is
/// live, to be changed in place. Nothing else in the map changes.
#[verifier::external_body]
pub(crate) fn slotd_get_mut(m: &mut SlotIndexD, id: u64) -> (r: Option<&mut usize>)
    requires
        key_form(id),
    ensures
        slotd_entries(*old(m)).contains_key(id) ==> r.is_some() && *r.unwrap() == slotd_entries(
            *old(m),
        )[id] && slotd_entries(*final(m)) == slotd_entries(*old(m)).insert(
            id,
            *final(r.unwrap()),
        ),
        !slotd_entries(*old(m)).contains_key(id) ==> r.is_none() && slotd_entries(*final(m))
            == slotd_entries(*old(m)),
{
    m.inner.get_mut(slotmapd::KeyData::from_ffi(id).into())
}

/// `slotmapd::SlotMap::remove`: takes the key out of the map, where it is
/// live, and returns the value that was under it.
#[verifier::external_body]
pub(crate) fn slotd_remove(m: &mut SlotIndexD, id: u64) -> (r: Option<usize>)
    requires
        key_form(id),
    ensures
        r == (if slotd_entries(*old(m)).contains_key(id) {
            Some(slotd_entries(*old(m))[id])
        } else {
            None
        }),
        slotd_entries(*final(m)) == slotd_entries(*old(m)).remove(id),
{
    m.inner.remove(slotmapd::KeyData::from_ffi(id).into())
}

/// A slot map from keys to places: it gives out the keys, and a key that
/// has left is not live again.
pub trait SlotStore: Sized {
    /// The place kept under each live key.
    spec fn entries(&self) -> Map<u64, usize>;

    /// A slot map that holds nothing.
    fn empty() -> (m: Self)
        ensures
            m.entries() == Map::<u64, usize>::empty(),
    ;

    /// Stores a place under a key that was not live, and returns the key.
    fn put(&mut self, v: usize) -> (id: u64)
        requires
            old(self).entries().dom().finite(),
            old(self).entries().len() < MAX_SLOTS,
        ensures
            key_form(id),
            !old(self).entries().contains_key(id),
            final(self).entries() == old(self).entries().insert(id, v),
    ;

    /// The place under a key, where the key is live.
    fn place(&self, id: u64) -> (r: Option<usize>)
        requires
            key_form(id),
        ensures
            r == (if self.entries().contains_key(id) {
                Some(self.entries()[id])
            } else {
                None
            }),
    ;

    /// The place under a key, where the key is live, to be changed.
    fn place_mut(&mut self, id: u64) -> (r: Option<&mut usize>)
        requires
            key_form(id),
        ensures
            old(self).entries().contains_key(id) ==> r.is_some() && *r.unwrap() == old(self).entries()[id] && final(self).entries() == old(self).entries().insert(
                id,
                *final(r.unwrap()),
            ),
            !old(self).entries().contains_key(id) ==> r.is_none() && final(self).entries() == old(self).entries(),
    ;

    /// Takes a key out, where it is live, and returns the place that was
    /// under it.
    fn take(&mut self, id: u64) -> (r: Option<usize>)
        requires
            key_form(id),
        ensures
            r == (if old(self).entries().contains_key(id) {
                Some(old(self).entries()[id])
            } else {
                None
            }),
            final(self).entries() == old(self).entries().remove(id),
    ;
}

impl SlotStore for SlotIndex {
    open spec fn entries(&self) -> Map<u64, usize> {
        slot_entries(*self)
    }

    fn empty() -> (m: Self) {
        slot_new()
    }

    fn put(&mut self, v: usize) -> (id: u64) {
        slot_insert(self, v)
    }

    fn place(&self, id: u64) -> (r: Option<usize>) {
        slot_get(self, id)
    }

    fn place_mut(&mut self, id: u64) -> (r: Option<&mut usize>) {
        slot_get_mut(self, id)
    }

    fn take(&mut self, id: u64) -> (r: Option<usize>) {
        slot_remove(self, id)
    }
}

impl SlotStore for SlotIndexD {
    open spec fn entries(&self) -> Map<u64, usize> {
        slotd_entries(*self)
    }

    fn empty() -> (m: Self) {
        slotd_new()
    }

    fn put(&mut self, v: usize) -> (id: u64) {
        slotd_insert(self, v)
    }

    fn place(&self, id: u64) -> (r: Option<usize>) {
        slotd_get(self, id)
    }

    fn place_mut(&mut self, id: u64) -> (r: Option<&mut usize>) {
        slotd_get_mut(self, id)
    }

    fn take(&mut self, id: u64) -> (r: Option<usize>) {
        slotd_remove(self, id)
    }
}

} // verus!
