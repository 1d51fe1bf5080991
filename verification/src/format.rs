//! The layout of a saved tracking table, and what a block of bytes means
//! as one.
//!
//! All integers are little-endian:
//!
//! | offset     | size     | field                                    |
//! |------------|----------|------------------------------------------|
//! | 0          | 8        | magic bytes                              |
//! | 8          | 8        | the number of records, `C`               |
//! | 16         | 24 * `C` | the records                              |
//! | 16 + 24`C` | 8        | FNV-1a checksum of all bytes before it   |
//!
//! A load reads from the front and stops at the first thing that is wrong.
//! Bytes after the checksum are not looked at. The records of a saved table
//! are in no particular order.

use crate::checksum::fnv1a;
use crate::record::{decode_record, encode_record, lemma_decode_encode, SaveUser};
use crate::table::{lists, UserData};
use vstd::bytes::*;
use vstd::prelude::*;

verus! {

/// The eight bytes every saved table starts with.
pub const MAGIC_BYTES: [u8; 8] = [0x85, 0x1E, 0x44, 0xB9, 0xA6, 0x58, 0x8F, 0x7F];

/// Why a block of bytes could not be loaded.
#[derive(Copy, Clone, Debug, PartialEq, Eq, Structural)]
pub enum LoadError {
    /// The bytes end before a field that has to be there.
    UnexpectedEof,
    /// The first eight bytes are not the magic bytes.
    InvalidMagic,
    /// A record's identity is zero.
    InvalidIdentity,
    /// The stored checksum is not that of the bytes before it.
    ChecksumMismatch,
}

/// The two classes that a failed load falls into.
#[derive(Copy, Clone, Debug, PartialEq, Eq, Structural)]
pub enum LoadErrorKind {
    /// The bytes end too early.
    UnexpectedEof,
    /// The bytes are all there but are not a saved table, or not an intact
    /// one.
    InvalidData,
}

/// The class of each error.
pub open spec fn kind_of(error: LoadError) -> LoadErrorKind {
    match error {
        LoadError::UnexpectedEof => LoadErrorKind::UnexpectedEof,
        LoadError::InvalidMagic => LoadErrorKind::InvalidData,
        LoadError::InvalidIdentity => LoadErrorKind::InvalidData,
        LoadError::ChecksumMismatch => LoadErrorKind::InvalidData,
    }
}

/// The words for each error.
pub open spec fn message_of(error: LoadError) -> Seq<char> {
    match error {
        LoadError::UnexpectedEof => "failed to fill whole buffer"@,
        LoadError::InvalidMagic => "Invalid magic for `.epd` file"@,
        LoadError::InvalidIdentity => "Invalid user ID value. Did you tamper with the save?"@,
        LoadError::ChecksumMismatch => "Hashes do not match!"@,
    }
}

impl LoadError {
    /// Whether the bytes ended too early or hold something invalid.
    pub fn kind(&self) -> (kind: LoadErrorKind)
        ensures
            kind == kind_of(*self),
    {
        match self {
            LoadError::UnexpectedEof => LoadErrorKind::UnexpectedEof,
            LoadError::InvalidMagic => LoadErrorKind::InvalidData,
            LoadError::InvalidIdentity => LoadErrorKind::InvalidData,
            LoadError::ChecksumMismatch => LoadErrorKind::InvalidData,
        }
    }

    /// The error in words, for an operator to read.
    pub fn message(&self) -> (text: &'static str)
        ensures
            text@ == message_of(*self),
    {
        match self {
            LoadError::UnexpectedEof => "failed to fill whole buffer",
            LoadError::InvalidMagic => "Invalid magic for `.epd` file",
            LoadError::InvalidIdentity => "Invalid user ID value. Did you tamper with the save?",
            LoadError::ChecksumMismatch => "Hashes do not match!",
        }
    }
}

/// `MAGIC_BYTES` as a sequence.
pub open spec fn magic() -> Seq<u8> {
    seq![0x85u8, 0x1Eu8, 0x44u8, 0xB9u8, 0xA6u8, 0x58u8, 0x8Fu8, 0x7Fu8]
}

/// The record count that the header declares.
pub open spec fn declared_count(bytes: Seq<u8>) -> u64
    recommends
        bytes.len() >= 16,
{
    spec_u64_from_le_bytes(bytes.subrange(8, 16))
}

/// The number of whole records that fit between the header and the end.
pub open spec fn whole_records(bytes: Seq<u8>) -> int
    recommends
        bytes.len() >= 16,
{
    (bytes.len() - 16) / 24
}

/// The record in slot `index`.
pub open spec fn record_at(bytes: Seq<u8>, index: int) -> SaveUser
    recommends
        0 <= index < whole_records(bytes),
{
    decode_record(bytes.subrange(16 + 24 * index, 40 + 24 * index))
}

/// The records in the first `count` slots.
pub open spec fn records_prefix(bytes: Seq<u8>, count: int) -> Seq<SaveUser>
    recommends
        0 <= count <= whole_records(bytes),
{
    Seq::new(count as nat, |index: int| record_at(bytes, index))
}

/// The records that a load gets to read: as many as declared, or as many as
/// are there in full if that is fewer.
pub open spec fn records_read(bytes: Seq<u8>) -> Seq<SaveUser>
    recommends
        bytes.len() >= 16,
{
    if declared_count(bytes) <= whole_records(bytes) {
        records_prefix(bytes, declared_count(bytes) as int)
    } else {
        records_prefix(bytes, whole_records(bytes))
    }
}

/// Whether one of the records has the identity zero.
pub open spec fn has_zero_identity(records: Seq<SaveUser>) -> bool {
    exists|index: int| 0 <= index < records.len() && (#[trigger] records[index]).id == 0
}

/// The part of a record that the table keeps under the record's identity.
pub open spec fn data_of(record: SaveUser) -> UserData {
    UserData { messages: record.msgs, last_message_at: record.last_msg }
}

/// The table that results from inserting the records in order: where an
/// identity occurs twice, the later record stays.
pub open spec fn table_of(records: Seq<SaveUser>) -> Map<u64, UserData>
    decreases records.len(),
{
    if records.len() == 0 {
        Map::empty()
    } else {
        table_of(records.drop_last()).insert(records.last().id, data_of(records.last()))
    }
}

/// What a block of bytes holds: a table, or the first thing wrong with it.
pub open spec fn parse_file(bytes: Seq<u8>) -> Result<Map<u64, UserData>, LoadError> {
    if bytes.len() < 8 {
        Err(LoadError::UnexpectedEof)
    } else if bytes.subrange(0, 8) != magic() {
        Err(LoadError::InvalidMagic)
    } else if bytes.len() < 16 {
        Err(LoadError::UnexpectedEof)
    } else {
        let end = 16 + 24 * declared_count(bytes);
        if has_zero_identity(records_read(bytes)) {
            Err(LoadError::InvalidIdentity)
        } else if bytes.len() < end + 8 {
            Err(LoadError::UnexpectedEof)
        } else if spec_u64_from_le_bytes(bytes.subrange(end, end + 8)) != fnv1a(
            bytes.subrange(0, end),
        ) {
            Err(LoadError::ChecksumMismatch)
        } else {
            Ok(table_of(records_read(bytes)))
        }
    }
}

/// The record that stores a table entry.
pub open spec fn record_of(entry: (u64, UserData)) -> SaveUser {
    SaveUser { id: entry.0, msgs: entry.1.messages, last_msg: entry.1.last_message_at }
}

/// The bytes of the entries' records, one after the other.
pub open spec fn encode_entries(listing: Seq<(u64, UserData)>) -> Seq<u8>
    decreases listing.len(),
{
    if listing.len() == 0 {
        Seq::empty()
    } else {
        encode_entries(listing.drop_last()) + encode_record(record_of(listing.last()))
    }
}

/// Everything that the checksum covers: magic bytes, record count, records.
pub open spec fn file_body(listing: Seq<(u64, UserData)>) -> Seq<u8> {
    magic() + spec_u64_to_le_bytes(listing.len() as u64) + encode_entries(listing)
}

/// The block of bytes that saves the entries in the order of `listing`.
pub open spec fn file_bytes(listing: Seq<(u64, UserData)>) -> Seq<u8> {
    file_body(listing) + spec_u64_to_le_bytes(fnv1a(file_body(listing)))
}

/// The records that store the entries, in the same order.
pub open spec fn records_of(listing: Seq<(u64, UserData)>) -> Seq<SaveUser> {
    Seq::new(listing.len(), |index: int| record_of(listing[index]))
}

/// A table built from records has a record's identity as a key only if
/// that record is among them.
pub proof fn lemma_table_of_keys(records: Seq<SaveUser>, id: u64)
    requires
        table_of(records).contains_key(id),
    ensures
        exists|index: int| 0 <= index < records.len() && (#[trigger] records[index]).id == id,
    decreases records.len(),
{
    if records.len() > 0 && records.last().id != id {
        let rest = records.drop_last();
        lemma_table_of_keys(rest, id);
        let index = choose|index: int| 0 <= index < rest.len() && (#[trigger] rest[index]).id == id;
        assert(records[index].id == id);
    }
}

/// Where an identity occurs more than once among the records, the table
/// keeps the last record that has it.
pub proof fn lemma_table_of_last_wins(records: Seq<SaveUser>, index: int)
    requires
        0 <= index < records.len(),
        forall|later: int|
            index < later < records.len() ==> (#[trigger] records[later]).id != records[index].id,
    ensures
        table_of(records).contains_pair(records[index].id, data_of(records[index])),
    decreases records.len(),
{
    if index < records.len() - 1 {
        lemma_table_of_last_wins(records.drop_last(), index);
    }
}

/// The records of a table's listing build that table again.
pub proof fn lemma_table_of_listing(listing: Seq<(u64, UserData)>, table: Map<u64, UserData>)
    requires
        lists(listing, table),
    ensures
        table_of(records_of(listing)) == table,
{
    let records = records_of(listing);
    let built = table_of(records);
    assert forall|id: u64| built.contains_key(id) implies table.contains_key(id) by {
        lemma_table_of_keys(records, id);
        let index = choose|index: int|
            0 <= index < records.len() && (#[trigger] records[index]).id == id;
        assert(table.contains_pair(listing[index].0, listing[index].1));
    }
    assert forall|id: u64| table.contains_key(id) implies built.contains_pair(id, table[id]) by {
        let index = choose|index: int| 0 <= index < listing.len() && (#[trigger] listing[index]).0
            == id;
        lemma_table_of_last_wins(records, index);
    }
    assert(built =~= table);
}

/// The records of `listing` take 24 bytes each.
pub proof fn lemma_encode_entries_len(listing: Seq<(u64, UserData)>)
    ensures
        encode_entries(listing).len() == 24 * listing.len(),
    decreases listing.len(),
{
    if listing.len() > 0 {
        lemma_encode_entries_len(listing.drop_last());
        lemma_decode_encode(record_of(listing.last()));
    }
}

/// Slot `index` of the encoded entries holds the record of entry `index`.
pub proof fn lemma_encode_entries_slot(listing: Seq<(u64, UserData)>, index: int)
    requires
        0 <= index < listing.len(),
    ensures
        encode_entries(listing).subrange(24 * index, 24 * index + 24) == encode_record(
            record_of(listing[index]),
        ),
    decreases listing.len(),
{
    let rest = listing.drop_last();
    lemma_encode_entries_len(rest);
    lemma_decode_encode(record_of(listing.last()));
    if index < listing.len() - 1 {
        lemma_encode_entries_slot(rest, index);
    }
}

/// The first `count` records of the encoded entries are the encoding of the
/// first `count` entries.
pub proof fn lemma_encode_entries_prefix(listing: Seq<(u64, UserData)>, count: int)
    requires
        0 <= count <= listing.len(),
    ensures
        encode_entries(listing).subrange(0, 24 * count) == encode_entries(listing.take(count)),
    decreases listing.len(),
{
    lemma_encode_entries_len(listing);
    if count == listing.len() {
        assert(listing.take(count) =~= listing);
    } else {
        let rest = listing.drop_last();
        lemma_encode_entries_len(rest);
        lemma_encode_entries_prefix(rest, count);
        assert(rest.take(count) =~= listing.take(count));
    }
}

/// Saving and loading gives the table back: the bytes that save a table,
/// with its records in any order, load as that table.
pub proof fn lemma_round_trip(listing: Seq<(u64, UserData)>, table: Map<u64, UserData>)
    requires
        lists(listing, table),
        !table.contains_key(0),
        listing.len() <= u64::MAX,
    ensures
        parse_file(file_bytes(listing)) matches Ok(loaded) && loaded == table,
{
    let bytes = file_bytes(listing);
    let body = file_body(listing);
    let count = listing.len() as u64;
    lemma_auto_spec_u64_to_from_le_bytes();
    lemma_encode_entries_len(listing);
    assert(bytes.subrange(0, 8) =~= magic());
    assert(bytes.subrange(8, 16) =~= spec_u64_to_le_bytes(count));
    let records = records_prefix(bytes, count as int);
    assert forall|index: int| 0 <= index < count implies #[trigger] records[index] == record_of(
        listing[index],
    ) by {
        lemma_encode_entries_slot(listing, index);
        lemma_decode_encode(record_of(listing[index]));
        assert(bytes.subrange(16 + 24 * index, 40 + 24 * index) =~= encode_entries(
            listing,
        ).subrange(24 * index, 24 * index + 24));
    }
    assert(records =~= records_of(listing));
    let end = 16 + 24 * count;
    assert(bytes.subrange(0, end) =~= body);
    assert(bytes.subrange(end, end + 8) =~= spec_u64_to_le_bytes(fnv1a(body)));
    lemma_table_of_listing(listing, table);
}

} // verus!
