use validator_list::validator::{read_u64_le, write_u64_le};
use validator_list::{DecodeError, Validator, RECORD_SIZE};

fn sample() -> Validator {
    Validator { stake_accounts_balance: 1024, unstake_accounts_balance: 4201, active: true }
}

#[test]
fn record_size_is_seventeen() {
    assert_eq!(RECORD_SIZE, 17);
}

#[test]
fn pack_gives_exact_bytes() {
    let bytes = sample().pack();
    assert_eq!(
        bytes,
        [0x00, 0x04, 0, 0, 0, 0, 0, 0, 0x69, 0x10, 0, 0, 0, 0, 0, 0, 0x01]
    );
}

#[test]
fn pack_inactive_flag_is_zero() {
    let v = Validator { stake_accounts_balance: 1, unstake_accounts_balance: 2, active: false };
    let bytes = v.pack();
    assert_eq!(bytes, [1, 0, 0, 0, 0, 0, 0, 0, 2, 0, 0, 0, 0, 0, 0, 0, 0]);
}

#[test]
fn pack_agrees_with_std_little_endian() {
    let v = Validator {
        stake_accounts_balance: 0x0123_4567_89ab_cdef,
        unstake_accounts_balance: u64::MAX - 5,
        active: true,
    };
    let bytes = v.pack();
    assert_eq!(&bytes[0..8], &0x0123_4567_89ab_cdefu64.to_le_bytes());
    assert_eq!(&bytes[8..16], &(u64::MAX - 5).to_le_bytes());
    assert_eq!(bytes[16], 1);
}

#[test]
fn unpack_of_pack_gives_the_record_back() {
    let cases = [
        sample(),
        Validator::default(),
        Validator { stake_accounts_balance: u64::MAX, unstake_accounts_balance: 0, active: false },
        Validator { stake_accounts_balance: 0, unstake_accounts_balance: u64::MAX, active: true },
        Validator {
            stake_accounts_balance: 0x0102_0304_0506_0708,
            unstake_accounts_balance: 0xf1f2_f3f4_f5f6_f7f8,
            active: true,
        },
    ];
    for v in cases {
        let bytes = v.pack();
        assert_eq!(Validator::unpack_from_slice(&bytes), Ok(v));
    }
}

#[test]
fn unpack_reads_little_endian() {
    let mut bytes = [0u8; 17];
    bytes[1] = 1;
    bytes[15] = 0x80;
    let v = Validator::unpack_from_slice(&bytes).unwrap();
    assert_eq!(v.stake_accounts_balance, 256);
    assert_eq!(v.unstake_accounts_balance, 1u64 << 63);
    assert!(!v.active);
}

#[test]
fn unpack_rejects_tampered_flag() {
    let mut bytes = sample().pack();
    bytes[16] = 0x02;
    assert_eq!(Validator::unpack_from_slice(&bytes), Err(DecodeError::InvalidFlag));
}

#[test]
fn unpack_rejects_every_flag_but_zero_and_one() {
    let mut bytes = sample().pack();
    for flag in 2..=255u8 {
        bytes[16] = flag;
        assert_eq!(Validator::unpack_from_slice(&bytes), Err(DecodeError::InvalidFlag));
    }
    bytes[16] = 0;
    assert!(Validator::unpack_from_slice(&bytes).is_ok());
}

#[test]
fn unpack_rejects_other_lengths() {
    let bytes = [0u8; 40];
    for len in 0..40usize {
        let r = Validator::unpack_from_slice(&bytes[..len]);
        if len == 17 {
            assert_eq!(r, Ok(Validator::default()));
        } else {
            assert_eq!(r, Err(DecodeError::InvalidLength));
        }
    }
}

#[test]
fn length_is_checked_before_the_flag() {
    let bytes = [9u8; 18];
    assert_eq!(Validator::unpack_from_slice(&bytes), Err(DecodeError::InvalidLength));
    assert_eq!(Validator::unpack_from_slice(&bytes[..17]), Err(DecodeError::InvalidFlag));
}

#[test]
fn pack_into_slice_keeps_the_bytes_behind() {
    let mut dst = [0xaau8; 20];
    sample().pack_into_slice(&mut dst);
    assert_eq!(&dst[..17], &sample().pack());
    assert_eq!(&dst[17..], &[0xaa, 0xaa, 0xaa]);
}

#[test]
fn pack_into_slice_at_keeps_the_bytes_around() {
    let mut dst = [0x55u8; 24];
    sample().pack_into_slice_at(&mut dst, 3);
    assert_eq!(&dst[..3], &[0x55, 0x55, 0x55]);
    assert_eq!(&dst[3..20], &sample().pack());
    assert_eq!(&dst[20..], &[0x55, 0x55, 0x55, 0x55]);
}

#[test]
fn default_is_all_zero_and_inactive() {
    let v = Validator::default();
    assert_eq!(v.stake_accounts_balance, 0);
    assert_eq!(v.unstake_accounts_balance, 0);
    assert!(!v.active);
    assert_eq!(v.pack(), [0u8; 17]);
}

#[test]
fn read_and_write_u64_le() {
    let mut buf = [0xffu8; 12];
    write_u64_le(&mut buf, 2, 0x0807_0605_0403_0201);
    assert_eq!(buf, [0xff, 0xff, 1, 2, 3, 4, 5, 6, 7, 8, 0xff, 0xff]);
    assert_eq!(read_u64_le(&buf, 2), 0x0807_0605_0403_0201);
    assert_eq!(read_u64_le(&buf, 0), u64::from_le_bytes([0xff, 0xff, 1, 2, 3, 4, 5, 6]));
}
