//! Saving the tracking table as one block of bytes, and loading it again.
//!
//! What the bytes look like is laid down in `format`. Moving them to and
//! from a file is left to the caller, who does well to write a new file
//! beside the old one and to rename it once it is complete.

use crate::checksum::{fnv1a, lemma_fold_concat, Fnv1A, OFFSET_BASIS};
use crate::format::{
    declared_count, encode_entries, file_body, file_bytes, has_zero_identity, lemma_round_trip,
    magic, parse_file, record_at, record_of, records_prefix, records_read, table_of,
    whole_records,
};
use crate::record::{SaveUser, RECORD_LEN};
use crate::table::{lists, MessageMap, UserData};
use vstd::bytes::*;
use vstd::prelude::*;
use vstd::slice::slice_subrange;

pub use crate::format::LoadError;
pub use crate::format::LoadErrorKind;
pub use crate::format::MAGIC_BYTES;

verus! {

/// The outcome of a load with the table replaced by what it holds.
pub open spec fn outcome_view(outcome: Result<MessageMap, LoadError>) -> Result<
    Map<u64, UserData>,
    LoadError,
> {
    match outcome {
        Ok(table) => Ok(table@),
        Err(error) => Err(error),
    }
}

/// Whether two slices hold the same bytes.
fn same_bytes(left: &[u8], right: &[u8]) -> (same: bool)
    ensures
        same == (left@ == right@),
{
    if left.len() != right.len() {
        return false;
    }
    let mut i: usize = 0;
    while i < left.len()
        invariant
            i <= left@.len(),
            left@.len() == right@.len(),
            forall|j: int| 0 <= j < i ==> left@[j] == right@[j],
        decreases left@.len() - i,
    {
        if left[i] != right[i] {
            return false;
        }
        i += 1;
    }
    assert(left@ =~= right@);
    true
}

/// Reads a table from `bytes`.
///
/// The magic bytes, the record count and the records are read in this order
/// and fed to the checksum as they are read. A field that the bytes are too
/// short for ends the load with `UnexpectedEof`, a record with identity zero
/// with `InvalidIdentity`; a count that promises more records than there are
/// is found out in this way. Where an identity occurs twice the later
/// record stays. Last, the stored checksum has to be that of the bytes read.
pub fn load(bytes: &[u8]) -> (outcome: Result<MessageMap, LoadError>)
    ensures
        outcome_view(outcome) == parse_file(bytes@),
        outcome matches Ok(table) ==> table.wf(),
{
    let mut hash = Fnv1A::new();
    let mut messages = MessageMap::new();

    if bytes.len() < 8 {
        return Err(LoadError::UnexpectedEof);
    }
    let magic_buf = slice_subrange(bytes, 0, 8);
    if !same_bytes(magic_buf, MAGIC_BYTES.as_slice()) {
        return Err(LoadError::InvalidMagic);
    }
    hash.update_each(magic_buf);

    if bytes.len() < 16 {
        return Err(LoadError::UnexpectedEof);
    }
    let len_buf = slice_subrange(bytes, 8, 16);
    hash.update_each(len_buf);
    let count = u64_from_le_bytes(len_buf);
    proof {
        lemma_fold_concat(OFFSET_BASIS, bytes@.subrange(0, 8), bytes@.subrange(8, 16));
        assert(bytes@.subrange(0, 8) + bytes@.subrange(8, 16) =~= bytes@.subrange(0, 16));
    }

    // Room for the records is asked for ahead of reading them, though never
    // for more records than the bytes could hold.
    let present = (bytes.len() - 16) / RECORD_LEN;
    let room = if count < present as u64 {
        count as usize
    } else {
        present
    };
    messages.try_reserve(room);

    let mut pos: usize = 16;
    let mut read: u64 = 0;
    while read < count
        invariant
            16 <= bytes@.len(),
            bytes@.subrange(0, 8) == magic(),
            read <= count,
            count == declared_count(bytes@),
            pos == 16 + 24 * read,
            pos <= bytes@.len(),
            hash.value() == fnv1a(bytes@.subrange(0, pos as int)),
            messages.wf(),
            messages@ == table_of(records_prefix(bytes@, read as int)),
            !has_zero_identity(records_prefix(bytes@, read as int)),
        decreases count - read,
    {
        if bytes.len() - pos < RECORD_LEN {
            proof {
                assert(whole_records(bytes@) == read);
                assert(records_read(bytes@) == records_prefix(bytes@, read as int));
            }
            return Err(LoadError::UnexpectedEof);
        }
        let chunk = slice_subrange(bytes, pos, pos + RECORD_LEN);
        hash.update_each(chunk);
        proof {
            lemma_fold_concat(OFFSET_BASIS, bytes@.subrange(0, pos as int), chunk@);
            assert(bytes@.subrange(0, pos as int) + chunk@ =~= bytes@.subrange(0, pos + 24));
            assert(whole_records(bytes@) > read);
            assert(chunk@ == bytes@.subrange(16 + 24 * read, 40 + 24 * read));
        }
        let ghost before = records_prefix(bytes@, read as int);
        let ghost after = records_prefix(bytes@, read + 1);
        proof {
            assert(after.drop_last() =~= before);
            assert(after.last() == record_at(bytes@, read as int));
        }
        match SaveUser::decode(chunk) {
            Ok(user) => {
                messages.insert(
                    user.id,
                    UserData { messages: user.msgs, last_message_at: user.last_msg },
                );
                proof {
                    assert forall|index: int| 0 <= index < after.len() implies (
                    #[trigger] after[index]).id != 0 by {
                        if index < read {
                            assert(before[index] == after[index]);
                        }
                    }
                }
            },
            Err(_) => {
                proof {
                    let all = records_read(bytes@);
                    assert(read < all.len());
                    assert(all[read as int] == record_at(bytes@, read as int));
                    assert(all[read as int].id == 0);
                }
                return Err(LoadError::InvalidIdentity);
            },
        }
        pos += RECORD_LEN;
        read += 1;
    }

    proof {
        assert(whole_records(bytes@) >= count);
        assert(records_read(bytes@) == records_prefix(bytes@, count as int));
    }
    if bytes.len() - pos < 8 {
        return Err(LoadError::UnexpectedEof);
    }
    let provided_hash = u64_from_le_bytes(slice_subrange(bytes, pos, pos + 8));
    let real_hash = hash.finish();
    if provided_hash != real_hash {
        return Err(LoadError::ChecksumMismatch);
    }
    Ok(messages)
}

/// Appends `more` to `bytes` and feeds it to `hash`, which covers all of
/// `bytes` before and after.
fn write_hashed(bytes: &mut Vec<u8>, hash: &mut Fnv1A, more: &[u8])
    requires
        old(hash).value() == fnv1a(old(bytes)@),
    ensures
        final(bytes)@ == old(bytes)@ + more@,
        final(hash).value() == fnv1a(final(bytes)@),
{
    write_plain(bytes, more);
    hash.update_each(more);
    proof {
        lemma_fold_concat(OFFSET_BASIS, old(bytes)@, more@);
    }
}

/// Appends `more` to `bytes`.
fn write_plain(bytes: &mut Vec<u8>, more: &[u8])
    ensures
        final(bytes)@ == old(bytes)@ + more@,
{
    bytes.extend_from_slice(more);
    assert(bytes@ =~= old(bytes)@ + more@);
}

/// Writes `map` out as one block of bytes.
///
/// The records follow the header in the order in which the table hands them
/// out, which is not fixed: two saves of one table may differ in the order
/// of their records, and in nothing else. Each loads as the table.
pub fn save(map: &MessageMap) -> (bytes: Vec<u8>)
    requires
        map.wf(),
    ensures
        exists|listing: Seq<(u64, UserData)>| #[trigger]
            lists(listing, map@) && bytes@ == file_bytes(listing),
        parse_file(bytes@) matches Ok(loaded) && loaded == map@,
{
    let listing = map.entries();
    let mut hash = Fnv1A::new();
    let mut bytes: Vec<u8> = Vec::new();
    assert(bytes@ =~= Seq::<u8>::empty());

    write_hashed(&mut bytes, &mut hash, MAGIC_BYTES.as_slice());
    let entry_count: u64 = listing.len() as u64;
    let entry_count_bytes = u64_to_le_bytes(entry_count);
    write_hashed(&mut bytes, &mut hash, entry_count_bytes.as_slice());

    let ghost header = magic() + spec_u64_to_le_bytes(entry_count);
    assert(bytes@ =~= header + encode_entries(listing@.take(0)));
    let mut i: usize = 0;
    while i < listing.len()
        invariant
            i <= listing@.len(),
            bytes@ == header + encode_entries(listing@.take(i as int)),
            hash.value() == fnv1a(bytes@),
        decreases listing@.len() - i,
    {
        let (id, data) = listing[i];
        let save_user = SaveUser { id, msgs: data.messages, last_msg: data.last_message_at };
        let save_user_bytes = save_user.to_raw();
        proof {
            assert(listing@.take(i + 1).drop_last() =~= listing@.take(i as int));
            assert(listing@.take(i + 1).last() == listing@[i as int]);
            assert(save_user == record_of(listing@[i as int]));
        }
        write_hashed(&mut bytes, &mut hash, save_user_bytes.as_slice());
        assert(bytes@ =~= header + encode_entries(listing@.take(i + 1)));
        i += 1;
    }
    proof {
        assert(listing@.take(i as int) =~= listing@);
        assert(bytes@ =~= file_body(listing@));
    }

    let digest = hash.finish();
    let digest_bytes = u64_to_le_bytes(digest);
    write_plain(&mut bytes, digest_bytes.as_slice());
    proof {
        assert(bytes@ == file_bytes(listing@));
        lemma_round_trip(listing@, map@);
    }
    bytes
}

} // verus!
