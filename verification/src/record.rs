//! The fixed 24-byte layout of one user's record: identity, message count
//! and time of the last counted message, each as eight little-endian bytes.

use vstd::bytes::*;
use vstd::prelude::*;
use vstd::slice::slice_subrange;

verus! {

/// The number of bytes one record takes.
pub const RECORD_LEN: usize = 24;

/// One user's record as it is stored.
#[derive(Copy, Clone, Debug, Hash, PartialEq, Eq, Structural)]
pub struct SaveUser {
    /// The user's identity.
    pub id: u64,
    /// How many messages of the user have been counted.
    pub msgs: u64,
    /// When the last counted message was sent, in seconds.
    pub last_msg: u64,
}

/// Why a byte slice is not a record.
#[derive(Copy, Clone, Debug, PartialEq, Eq, Structural)]
pub enum RecordError {
    /// The slice is not exactly 24 bytes long.
    BadLength,
    /// The identity field is zero, which no user has.
    ZeroIdentity,
}

/// The 24 bytes that store `record`.
pub open spec fn encode_record(record: SaveUser) -> Seq<u8> {
    spec_u64_to_le_bytes(record.id) + spec_u64_to_le_bytes(record.msgs) + spec_u64_to_le_bytes(
        record.last_msg,
    )
}

/// The three numbers that 24 bytes store, taken as a record whatever the
/// identity among them is.
pub open spec fn decode_record(bytes: Seq<u8>) -> SaveUser
    recommends
        bytes.len() == 24,
{
    SaveUser {
        id: spec_u64_from_le_bytes(bytes.subrange(0, 8)),
        msgs: spec_u64_from_le_bytes(bytes.subrange(8, 16)),
        last_msg: spec_u64_from_le_bytes(bytes.subrange(16, 24)),
    }
}

/// Decoding undoes encoding.
pub proof fn lemma_decode_encode(record: SaveUser)
    ensures
        encode_record(record).len() == 24,
        decode_record(encode_record(record)) == record,
{
    lemma_auto_spec_u64_to_from_le_bytes();
    let bytes = encode_record(record);
    assert(bytes.subrange(0, 8) =~= spec_u64_to_le_bytes(record.id));
    assert(bytes.subrange(8, 16) =~= spec_u64_to_le_bytes(record.msgs));
    assert(bytes.subrange(16, 24) =~= spec_u64_to_le_bytes(record.last_msg));
}

/// Encoding undoes decoding: no two blocks of 24 bytes store the same three
/// numbers.
pub proof fn lemma_encode_decode(bytes: Seq<u8>)
    requires
        bytes.len() == 24,
    ensures
        encode_record(decode_record(bytes)) == bytes,
{
    lemma_auto_spec_u64_to_from_le_bytes();
}

/// What decoding makes of a byte sequence: the record that it stores, or
/// the reason why it stores none.
pub open spec fn decode_checked(bytes: Seq<u8>) -> Result<SaveUser, RecordError> {
    if bytes.len() != 24 {
        Err(RecordError::BadLength)
    } else if decode_record(bytes).id == 0 {
        Err(RecordError::ZeroIdentity)
    } else {
        Ok(decode_record(bytes))
    }
}

/// A record of a user is read back from its bytes as it was.
pub proof fn lemma_checked_round_trip(record: SaveUser)
    requires
        record.id != 0,
    ensures
        decode_checked(encode_record(record)) matches Ok(found) && found == record,
{
    lemma_decode_encode(record);
}

impl SaveUser {
    /// The record's 24 bytes.
    pub fn to_raw(self) -> (out: [u8; 24])
        ensures
            out@ == encode_record(self),
    {
        let id = u64_to_le_bytes(self.id);
        let msgs = u64_to_le_bytes(self.msgs);
        let last_msg = u64_to_le_bytes(self.last_msg);
        let mut out = [0u8; 24];
        let mut i: usize = 0;
        while i < 8
            invariant
                i <= 8,
                id@.len() == 8,
                msgs@.len() == 8,
                last_msg@.len() == 8,
                forall|j: int| 0 <= j < i ==> out@[j] == id@[j],
                forall|j: int| 0 <= j < i ==> out@[j + 8] == msgs@[j],
                forall|j: int| 0 <= j < i ==> out@[j + 16] == last_msg@[j],
            decreases 8 - i,
        {
            out[i] = id[i];
            out[i + 8] = msgs[i];
            out[i + 16] = last_msg[i];
            i += 1;
        }
        out
    }

    /// The record that `data` stores, which has to hold an identity other
    /// than zero: no user has that identity, and no record is made of it.
    pub fn from_raw(data: [u8; 24]) -> (outcome: Result<Self, RecordError>)
        ensures
            outcome == decode_checked(data@),
    {
        let bytes = data.as_slice();
        let id = u64_from_le_bytes(slice_subrange(bytes, 0, 8));
        if id == 0 {
            return Err(RecordError::ZeroIdentity);
        }
        let msgs = u64_from_le_bytes(slice_subrange(bytes, 8, 16));
        let last_msg = u64_from_le_bytes(slice_subrange(bytes, 16, 24));
        Ok(Self { id, msgs, last_msg })
    }

    /// Reads a record from a slice, which has to be exactly 24 bytes long and
    /// to hold an identity other than zero.
    pub fn decode(data: &[u8]) -> (outcome: Result<Self, RecordError>)
        ensures
            outcome == decode_checked(data@),
    {
        if data.len() != RECORD_LEN {
            return Err(RecordError::BadLength);
        }
        let mut raw = [0u8; 24];
        let mut i: usize = 0;
        while i < RECORD_LEN
            invariant
                i <= 24,
                data@.len() == 24,
                forall|j: int| 0 <= j < i ==> raw@[j] == data@[j],
            decreases 24 - i,
        {
            raw[i] = data[i];
            i += 1;
        }
        assert(raw@ =~= data@);
        Self::from_raw(raw)
    }
}

} // verus!
