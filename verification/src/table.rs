//! The tracking table: one record per user, keyed by the user's identity.

use ahash::AHashMap;
use ahash::RandomState;
use vstd::prelude::*;

verus! {

/// What is remembered about one user between messages.
#[derive(Debug, Copy, Clone, PartialEq, Eq, Structural)]
pub struct UserData {
    /// How many messages of this user have been counted.
    pub messages: u64,
    /// When the last counted message was sent, in seconds.
    pub last_message_at: u64,
}

/// `ahash::RandomState`, which seeds the hashers of an `AHashMap`. Nothing
/// is known of what it holds.
#[verifier::external_type_specification]
#[verifier::external_body]
pub struct ExRandomState(RandomState);

/// `ahash::AHashMap`, a `HashMap` of the standard library under another
/// hasher. Nothing is known of what it holds but through `stored_entries`.
#[verifier::external_type_specification]
#[verifier::external_body]
#[verifier::reject_recursive_types(K)]
#[verifier::reject_recursive_types(V)]
#[verifier::reject_recursive_types(S)]
pub struct ExAHashMap<K, V, S>(AHashMap<K, V, S>);

/// The hash map that backs the tracking table.
pub type Table = AHashMap<u64, UserData, RandomState>;

/// The entries that a hash map holds: its keys, each with its value.
pub uninterp spec fn stored_entries(table: Table) -> Map<u64, UserData>;

/// `AHashMap::new`: a map that holds nothing. Its hasher gets a seed of
/// its own; the call fails only where the operating system has no random
/// bytes to make the first seed of.
#[verifier::external_body]
fn table_new() -> (table: Table)
    ensures
        stored_entries(table) == (Map::<u64, UserData>::empty()),
{
    AHashMap::new()
}

/// `AHashMap::get`: a copy of the value stored under `id`, if there is one.
#[verifier::external_body]
fn table_get(table: &Table, id: u64) -> (found: Option<UserData>)
    ensures
        found == stored_entries(*table).get(id),
{
    table.get(&id).copied()
}

/// `AHashMap::insert`: afterwards `id` maps to `data` and every other key is
/// as before; the value that `id` had before is returned.
#[verifier::external_body]
fn table_insert(table: &mut Table, id: u64, data: UserData) -> (previous: Option<UserData>)
    ensures
        stored_entries(*final(table)) == stored_entries(*old(table)).insert(id, data),
        previous == stored_entries(*old(table)).get(id),
{
    table.insert(id, data)
}

/// `AHashMap::remove`: afterwards `id` is absent and every other key is as
/// before; the value that `id` had before is returned.
#[verifier::external_body]
fn table_remove(table: &mut Table, id: u64) -> (previous: Option<UserData>)
    ensures
        stored_entries(*final(table)) == stored_entries(*old(table)).remove(id),
        previous == stored_entries(*old(table)).get(id),
{
    table.remove(&id)
}

/// `HashMap::try_reserve`, which `AHashMap` hands on: room for `additional`
/// more entries is asked for, which the allocator may refuse; what the map
/// holds is the same either way.
#[verifier::external_body]
fn table_try_reserve(table: &mut Table, additional: usize) -> (reserved: bool)
    ensures
        stored_entries(*final(table)) == stored_entries(*old(table)),
{
    table.try_reserve(additional).is_ok()
}

/// `HashMap::iter`, which `AHashMap` hands on: it visits every entry once,
/// in an order of the map's choosing. The entries are copied out as they
/// come.
#[verifier::external_body]
fn table_entries(table: &Table) -> (listing: Vec<(u64, UserData)>)
    ensures
        lists(listing@, stored_entries(*table)),
{
    table.iter().map(|(id, data)| (*id, *data)).collect()
}

/// Whether `listing` holds each entry of `entries` exactly once, and nothing
/// else.
pub open spec fn lists(listing: Seq<(u64, UserData)>, entries: Map<u64, UserData>) -> bool {
    &&& forall|i: int, j: int|
        0 <= i < j < listing.len() ==> (#[trigger] listing[i]).0 != (#[trigger] listing[j]).0
    &&& forall|i: int|
        0 <= i < listing.len() ==> entries.contains_pair(
            (#[trigger] listing[i]).0,
            listing[i].1,
        )
    &&& forall|id: u64| #[trigger]
        entries.contains_key(id) ==> exists|i: int|
            0 <= i < listing.len() && (#[trigger] listing[i]).0 == id
}

/// The tracking table.
#[derive(Debug, PartialEq, Eq)]
pub struct MessageMap {
    table: Table,
}

impl View for MessageMap {
    type V = Map<u64, UserData>;

    closed spec fn view(&self) -> Map<u64, UserData> {
        stored_entries(self.table)
    }
}

impl MessageMap {
    /// A table holds finitely many records, and none under the reserved
    /// identity zero.
    pub open spec fn wf(&self) -> bool {
        &&& self@.dom().finite()
        &&& !self@.contains_key(0)
    }

    /// An empty table.
    pub fn new() -> (table: Self)
        ensures
            table.wf(),
            table@ == Map::<u64, UserData>::empty(),
    {
        MessageMap { table: table_new() }
    }

    /// The record kept for `id`, if there is one.
    pub fn get(&self, id: u64) -> (found: Option<UserData>)
        ensures
            found == self@.get(id),
    {
        table_get(&self.table, id)
    }

    /// Stores `data` as the record of `id`, replacing any earlier record,
    /// which is returned.
    pub fn insert(&mut self, id: u64, data: UserData) -> (previous: Option<UserData>)
        requires
            old(self).wf(),
            id != 0,
        ensures
            final(self).wf(),
            final(self)@ == old(self)@.insert(id, data),
            previous == old(self)@.get(id),
    {
        table_insert(&mut self.table, id, data)
    }

    /// Asks for room for `additional` more records ahead of their arrival.
    /// This is a hint: the table is the same whether or not room was found.
    pub fn try_reserve(&mut self, additional: usize) -> (reserved: bool)
        requires
            old(self).wf(),
        ensures
            final(self).wf(),
            final(self)@ == old(self)@,
    {
        table_try_reserve(&mut self.table, additional)
    }

    /// All records with their identities, in no particular order.
    pub fn entries(&self) -> (listing: Vec<(u64, UserData)>)
        ensures
            lists(listing@, self@),
    {
        table_entries(&self.table)
    }

    /// Forgets the record of `id` and returns it.
    pub fn remove(&mut self, id: u64) -> (previous: Option<UserData>)
        requires
            old(self).wf(),
        ensures
            final(self).wf(),
            final(self)@ == old(self)@.remove(id),
            previous == old(self)@.get(id),
    {
        table_remove(&mut self.table, id)
    }
}

} // verus!
