use ephemerole::record::{RecordError, SaveUser, RECORD_LEN};

#[test]
fn record_is_24_bytes() {
    assert_eq!(RECORD_LEN, 24);
}

#[test]
fn to_raw_is_three_little_endian_words() {
    let user = SaveUser {
        id: 0x0102_0304_0506_0708,
        msgs: 0x1112_1314_1516_1718,
        last_msg: 0x2122_2324_2526_2728,
    };
    assert_eq!(
        user.to_raw(),
        [
            8, 7, 6, 5, 4, 3, 2, 1, 24, 23, 22, 21, 20, 19, 18, 17, 40, 39, 38, 37, 36, 35, 34,
            33
        ]
    );
}

#[test]
fn to_raw_of_small_numbers() {
    let user = SaveUser { id: 10, msgs: 128, last_msg: 241_215 };
    assert_eq!(
        user.to_raw(),
        [10, 0, 0, 0, 0, 0, 0, 0, 128, 0, 0, 0, 0, 0, 0, 0, 63, 174, 3, 0, 0, 0, 0, 0]
    );
}

#[test]
fn from_raw_reads_three_little_endian_words() {
    let user = SaveUser::from_raw([
        8, 7, 6, 5, 4, 3, 2, 1, 24, 23, 22, 21, 20, 19, 18, 17, 40, 39, 38, 37, 36, 35, 34, 33,
    ]);
    assert_eq!(
        user,
        Ok(SaveUser {
            id: 0x0102_0304_0506_0708,
            msgs: 0x1112_1314_1516_1718,
            last_msg: 0x2122_2324_2526_2728,
        })
    );
}

#[test]
fn from_raw_undoes_to_raw() {
    for user in [
        SaveUser { id: 1, msgs: 0, last_msg: 0 },
        SaveUser { id: u64::MAX, msgs: u64::MAX, last_msg: u64::MAX },
        SaveUser { id: 1 << 63, msgs: 1 << 32, last_msg: 255 },
    ] {
        assert_eq!(SaveUser::from_raw(user.to_raw()), Ok(user));
    }
}

#[test]
fn to_raw_undoes_from_raw() {
    let mut raw = [0u8; 24];
    for (i, byte) in raw.iter_mut().enumerate() {
        *byte = (i as u8).wrapping_mul(37).wrapping_add(11);
    }
    assert_eq!(SaveUser::from_raw(raw).unwrap().to_raw(), raw);
}

#[test]
fn from_raw_refuses_identity_zero() {
    assert_eq!(SaveUser::from_raw([0; 24]), Err(RecordError::ZeroIdentity));
    let raw = SaveUser { id: 0, msgs: 5, last_msg: 6 }.to_raw();
    assert_eq!(SaveUser::from_raw(raw), Err(RecordError::ZeroIdentity));
    let mut raw = [0xFF; 24];
    raw[..8].copy_from_slice(&[0; 8]);
    assert_eq!(SaveUser::from_raw(raw), Err(RecordError::ZeroIdentity));
}

#[test]
fn from_raw_takes_any_identity_but_zero() {
    let mut raw = [0; 24];
    raw[7] = 1;
    assert_eq!(SaveUser::from_raw(raw), Ok(SaveUser { id: 1 << 56, msgs: 0, last_msg: 0 }));
}

#[test]
fn decode_reads_a_record() {
    let raw = SaveUser { id: 10, msgs: 128, last_msg: 241_215 }.to_raw();
    assert_eq!(SaveUser::decode(&raw), Ok(SaveUser { id: 10, msgs: 128, last_msg: 241_215 }));
}

#[test]
fn decode_refuses_other_lengths() {
    let raw = SaveUser { id: 10, msgs: 128, last_msg: 241_215 }.to_raw();
    assert_eq!(SaveUser::decode(&raw[..23]), Err(RecordError::BadLength));
    assert_eq!(SaveUser::decode(&[]), Err(RecordError::BadLength));
    let mut longer = raw.to_vec();
    longer.push(0);
    assert_eq!(SaveUser::decode(&longer), Err(RecordError::BadLength));
}

#[test]
fn decode_refuses_identity_zero() {
    let raw = SaveUser { id: 0, msgs: 128, last_msg: 241_215 }.to_raw();
    assert_eq!(SaveUser::decode(&raw), Err(RecordError::ZeroIdentity));
}

#[test]
fn decode_checks_length_before_identity() {
    assert_eq!(SaveUser::decode(&[0; 23]), Err(RecordError::BadLength));
}
