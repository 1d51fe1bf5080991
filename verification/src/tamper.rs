//! What becomes of a saved table that has been tampered with or damaged:
//! every change of a single byte is found out when the table is loaded,
//! and so are the changes that keep the checksum and move the count.

use crate::checksum::{fnv1a, lemma_changed_byte_changes_checksum, OFFSET_BASIS};
use crate::format::{
    declared_count, encode_entries, file_body, file_bytes, has_zero_identity,
    lemma_encode_entries_len, lemma_encode_entries_prefix, lemma_encode_entries_slot, magic,
    parse_file, record_at, record_of, records_of, records_prefix, records_read, whole_records,
    LoadError,
};
use crate::record::{encode_record, lemma_decode_encode};
use crate::table::{lists, UserData};
use vstd::bytes::*;
use vstd::prelude::*;

verus! {

/// Whether loading `bytes` fails, and with `error`.
pub open spec fn fails_with(bytes: Seq<u8>, error: LoadError) -> bool {
    parse_file(bytes) matches Err(found) && found == error
}

/// `bytes` with the record count in its header replaced by `count`.
pub open spec fn with_count(bytes: Seq<u8>, count: u64) -> Seq<u8>
    recommends
        bytes.len() >= 16,
{
    bytes.subrange(0, 8) + spec_u64_to_le_bytes(count) + bytes.subrange(16, bytes.len() as int)
}

/// The checksum that a load computes once the count of a saved table has
/// been lowered to `count`: that of the header and the first `count`
/// records.
pub open spec fn checksum_up_to(listing: Seq<(u64, UserData)>, count: u64) -> u64
    recommends
        count <= listing.len(),
{
    fnv1a(magic() + spec_u64_to_le_bytes(count) + encode_entries(listing.take(count as int)))
}

/// Whether lowering the count of a saved table to `count` gets past the
/// checksum: it does where the record that is then taken for the checksum
/// begins with the very checksum of what comes before it.
pub open spec fn slips_through(listing: Seq<(u64, UserData)>, count: u64) -> bool {
    count < listing.len() && listing[count as int].0 == checksum_up_to(listing, count)
}

/// Bytes that agree with a saved table from the end of the header to the
/// end of slot `count - 1` hold the table's first `count` records, none of
/// which has the identity zero.
proof fn lemma_records_kept(
    listing: Seq<(u64, UserData)>,
    table: Map<u64, UserData>,
    bytes: Seq<u8>,
    count: int,
)
    requires
        lists(listing, table),
        !table.contains_key(0),
        0 <= count <= listing.len(),
        bytes.len() >= 16 + 24 * count,
        bytes.subrange(16, 16 + 24 * count) == encode_entries(listing.take(count)),
    ensures
        records_prefix(bytes, count) == records_of(listing.take(count)),
        !has_zero_identity(records_prefix(bytes, count)),
{
    let kept = listing.take(count);
    let records = records_prefix(bytes, count);
    assert forall|index: int| 0 <= index < count implies #[trigger] records[index] == record_of(
        kept[index],
    ) by {
        lemma_encode_entries_slot(kept, index);
        lemma_decode_encode(record_of(kept[index]));
        assert(bytes.subrange(16 + 24 * index, 40 + 24 * index) =~= bytes.subrange(
            16,
            16 + 24 * count,
        ).subrange(24 * index, 24 * index + 24));
    }
    assert(records =~= records_of(kept));
    assert forall|index: int| 0 <= index < records.len() implies (#[trigger] records[index]).id
        != 0 by {
        assert(table.contains_pair(listing[index].0, listing[index].1));
    }
}

/// A changed checksum is found out: bytes that differ from a saved table
/// only in its last eight bytes fail to load, with `ChecksumMismatch`.
pub proof fn lemma_checksum_tampered(
    listing: Seq<(u64, UserData)>,
    table: Map<u64, UserData>,
    tampered: Seq<u8>,
)
    requires
        lists(listing, table),
        !table.contains_key(0),
        listing.len() <= u64::MAX,
        tampered.len() == file_bytes(listing).len(),
        tampered.subrange(0, tampered.len() - 8) == file_body(listing),
        tampered != file_bytes(listing),
    ensures
        fails_with(tampered, LoadError::ChecksumMismatch),
{
    let saved = file_bytes(listing);
    let body = file_body(listing);
    let count = listing.len() as u64;
    let end = 16 + 24 * count;
    lemma_auto_spec_u64_to_from_le_bytes();
    lemma_encode_entries_len(listing);
    assert(tampered.subrange(0, 8) =~= body.subrange(0, 8));
    assert(body.subrange(0, 8) =~= magic());
    assert(tampered.subrange(8, 16) =~= body.subrange(8, 16));
    assert(body.subrange(8, 16) =~= spec_u64_to_le_bytes(count));
    assert(whole_records(tampered) == count);
    assert(listing.take(count as int) =~= listing);
    assert(tampered.subrange(16, end) =~= body.subrange(16, end));
    assert(body.subrange(16, end) =~= encode_entries(listing));
    lemma_records_kept(listing, table, tampered, count as int);
    let stored = tampered.subrange(end, end + 8);
    if spec_u64_from_le_bytes(stored) == fnv1a(body) {
        assert(stored == spec_u64_to_le_bytes(spec_u64_from_le_bytes(stored)));
        assert(saved.subrange(end, end + 8) =~= spec_u64_to_le_bytes(fnv1a(body)));
        assert(tampered =~= tampered.subrange(0, end) + stored);
        assert(tampered =~= saved);
    }
}

/// A count raised above the number of records is found out: a saved table
/// whose header is made to declare more records than follow fails to load,
/// with `UnexpectedEof`.
pub proof fn lemma_count_raised(
    listing: Seq<(u64, UserData)>,
    table: Map<u64, UserData>,
    count: u64,
)
    requires
        lists(listing, table),
        !table.contains_key(0),
        listing.len() < count,
    ensures
        fails_with(with_count(file_bytes(listing), count), LoadError::UnexpectedEof),
{
    let saved = file_bytes(listing);
    let raised = with_count(saved, count);
    let held = listing.len() as int;
    lemma_auto_spec_u64_to_from_le_bytes();
    lemma_encode_entries_len(listing);
    assert(raised.subrange(0, 8) =~= magic());
    assert(raised.subrange(8, 16) =~= spec_u64_to_le_bytes(count));
    assert(whole_records(raised) == held);
    assert(listing.take(held) =~= listing);
    assert(raised.subrange(16, 16 + 24 * held) =~= encode_entries(listing));
    lemma_records_kept(listing, table, raised, held);
}

/// A count lowered below the number of records is found out by the
/// checksum: the load then takes the identity of the first record that it
/// no longer counts for the stored checksum, and fails with
/// `ChecksumMismatch` unless that identity happens to be the checksum of
/// what comes before it.
pub proof fn lemma_count_lowered(
    listing: Seq<(u64, UserData)>,
    table: Map<u64, UserData>,
    count: u64,
)
    requires
        lists(listing, table),
        !table.contains_key(0),
        listing.len() <= u64::MAX,
        count < listing.len(),
        !slips_through(listing, count),
    ensures
        fails_with(with_count(file_bytes(listing), count), LoadError::ChecksumMismatch),
{
    let saved = file_bytes(listing);
    let lowered = with_count(saved, count);
    let end = 16 + 24 * count;
    lemma_auto_spec_u64_to_from_le_bytes();
    lemma_encode_entries_len(listing);
    lemma_encode_entries_prefix(listing, count as int);
    lemma_encode_entries_slot(listing, count as int);
    assert(lowered.subrange(0, 8) =~= magic());
    assert(lowered.subrange(8, 16) =~= spec_u64_to_le_bytes(count));
    assert(whole_records(lowered) >= count) by {
        assert(lowered.len() - 16 >= 24 * count);
    }
    assert(lowered.subrange(16, end) =~= encode_entries(listing).subrange(0, 24 * count));
    lemma_records_kept(listing, table, lowered, count as int);
    assert(lowered.subrange(0, end) =~= magic() + spec_u64_to_le_bytes(count) + encode_entries(
        listing.take(count as int),
    ));
    let next = encode_record(record_of(listing[count as int]));
    assert(lowered.subrange(end, end + 8) =~= encode_entries(listing).subrange(
        24 * count,
        24 * count + 24,
    ).subrange(0, 8));
    assert(next.subrange(0, 8) =~= spec_u64_to_le_bytes(listing[count as int].0));
}

/// A changed byte among the records is found out: the load fails, with
/// `InvalidIdentity` where the change has made an identity zero and with
/// `ChecksumMismatch` where it has not.
pub proof fn lemma_record_tampered(
    listing: Seq<(u64, UserData)>,
    table: Map<u64, UserData>,
    index: int,
    byte: u8,
)
    requires
        lists(listing, table),
        !table.contains_key(0),
        listing.len() <= u64::MAX,
        16 <= index < 16 + 24 * listing.len(),
        byte != file_bytes(listing)[index],
    ensures
        fails_with(file_bytes(listing).update(index, byte), LoadError::InvalidIdentity)
            || fails_with(file_bytes(listing).update(index, byte), LoadError::ChecksumMismatch),
{
    let saved = file_bytes(listing);
    let body = file_body(listing);
    let tampered = saved.update(index, byte);
    let count = listing.len() as u64;
    let end = 16 + 24 * count;
    lemma_auto_spec_u64_to_from_le_bytes();
    lemma_encode_entries_len(listing);
    assert(tampered.subrange(0, 8) =~= magic());
    assert(tampered.subrange(8, 16) =~= spec_u64_to_le_bytes(count));
    assert(whole_records(tampered) == count);
    assert(saved.subrange(0, end) =~= body);
    assert(tampered.subrange(0, end) =~= body.update(index, byte));
    assert(tampered.subrange(end, end + 8) =~= spec_u64_to_le_bytes(fnv1a(body)));
    lemma_changed_byte_changes_checksum(OFFSET_BASIS, body, index, byte);
}

/// A changed magic byte is found out: the load fails, with `InvalidMagic`.
pub proof fn lemma_magic_tampered(listing: Seq<(u64, UserData)>, index: int, byte: u8)
    requires
        0 <= index < 8,
        byte != file_bytes(listing)[index],
    ensures
        fails_with(file_bytes(listing).update(index, byte), LoadError::InvalidMagic),
{
    let saved = file_bytes(listing);
    let tampered = saved.update(index, byte);
    assert(saved.subrange(0, 8) =~= magic());
    assert(tampered.subrange(0, 8)[index] == byte);
}

/// A changed byte of the record count gives a saved table with another
/// count, higher or lower.
pub proof fn lemma_count_tampered(listing: Seq<(u64, UserData)>, index: int, byte: u8)
    requires
        listing.len() <= u64::MAX,
        8 <= index < 16,
        byte != file_bytes(listing)[index],
    ensures
        declared_count(file_bytes(listing).update(index, byte)) != listing.len(),
        file_bytes(listing).update(index, byte) == with_count(
            file_bytes(listing),
            declared_count(file_bytes(listing).update(index, byte)),
        ),
{
    let saved = file_bytes(listing);
    let tampered = saved.update(index, byte);
    let changed = declared_count(tampered);
    lemma_auto_spec_u64_to_from_le_bytes();
    assert(saved.subrange(8, 16) =~= spec_u64_to_le_bytes(listing.len() as u64));
    assert(tampered.subrange(8, 16)[index - 8] == byte);
    assert(tampered.subrange(8, 16) == spec_u64_to_le_bytes(changed));
    assert(tampered =~= with_count(saved, changed));
}

/// A single changed byte is found out, wherever it is: the load of a saved
/// table with one byte changed fails.
///
/// The one way past the checksum is a change to the record count that
/// lowers it to a number at which `slips_through` holds; such a change is
/// left out.
pub proof fn lemma_changed_byte_found_out(
    listing: Seq<(u64, UserData)>,
    table: Map<u64, UserData>,
    index: int,
    byte: u8,
)
    requires
        lists(listing, table),
        !table.contains_key(0),
        listing.len() <= u64::MAX,
        0 <= index < file_bytes(listing).len(),
        byte != file_bytes(listing)[index],
        !slips_through(listing, declared_count(file_bytes(listing).update(index, byte))),
    ensures
        parse_file(file_bytes(listing).update(index, byte)) is Err,
{
    let tampered = file_bytes(listing).update(index, byte);
    lemma_auto_spec_u64_to_from_le_bytes();
    lemma_encode_entries_len(listing);
    if index < 8 {
        lemma_magic_tampered(listing, index, byte);
    } else if index < 16 {
        lemma_count_tampered(listing, index, byte);
        let changed = declared_count(tampered);
        if changed > listing.len() {
            lemma_count_raised(listing, table, changed);
        } else {
            lemma_count_lowered(listing, table, changed);
        }
    } else if index < 16 + 24 * listing.len() {
        lemma_record_tampered(listing, table, index, byte);
    } else {
        assert(tampered.subrange(0, tampered.len() - 8) =~= file_body(listing));
        lemma_checksum_tampered(listing, table, tampered);
    }
}

/// A record with the identity zero is found out: bytes that begin as a
/// saved table does and hold such a record in a slot that the header counts
/// fail to load, with `InvalidIdentity`.
pub proof fn lemma_zero_identity_rejected(bytes: Seq<u8>, index: int)
    requires
        bytes.len() >= 16,
        bytes.subrange(0, 8) == magic(),
        0 <= index < declared_count(bytes),
        bytes.len() >= 40 + 24 * index,
        record_at(bytes, index).id == 0,
    ensures
        fails_with(bytes, LoadError::InvalidIdentity),
{
    assert(index < whole_records(bytes));
    let records = records_read(bytes);
    assert(records[index] == record_at(bytes, index));
}

} // verus!
