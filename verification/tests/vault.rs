use tornado_vault::error::VaultError;
use tornado_vault::process;
use tornado_vault::store;
use tornado_vault::would_abort;
use tornado_vault::DENOMINATION;
use tornado_vault::STORE_LEN;

fn fresh_store() -> store {
    store {
        is_initialized: true,
        program_id: [7u8; 32],
        denominated_amount: DENOMINATION,
        amount: 0,
        commitments: [[0u8; 32]; 16],
        current_index: 0,
    }
}

fn commitment(seed: u8) -> [u8; 32] {
    let mut c = [0u8; 32];
    for (i, b) in c.iter_mut().enumerate() {
        *b = seed.wrapping_add(i as u8).wrapping_mul(3).wrapping_add(1);
    }
    c
}

fn same_store(a: &store, b: &store) -> bool {
    a.is_initialized == b.is_initialized
        && a.program_id == b.program_id
        && a.denominated_amount == b.denominated_amount
        && a.amount == b.amount
        && a.commitments == b.commitments
        && a.current_index == b.current_index
}

fn instruction(c: &[u8; 32], amount: u64, tag: u8) -> Vec<u8> {
    let mut ix = c.to_vec();
    ix.extend_from_slice(&amount.to_le_bytes());
    ix.push(tag);
    ix
}

#[test]
fn pack_then_unpack_gives_the_store_back() {
    let mut s = fresh_store();
    s.amount = 123456789;
    s.denominated_amount = 0x0102030405060708;
    s.commitments[3] = commitment(9);
    s.commitments[15] = commitment(200);
    s.current_index = 4;
    let mut buf = vec![0u8; STORE_LEN];
    s.pack_into_slice(&mut buf);
    let u = store::unpack_from_slice(&buf).unwrap();
    assert!(same_store(&s, &u));
}

#[test]
fn packed_layout_is_little_endian_at_fixed_offsets() {
    let mut s = fresh_store();
    s.denominated_amount = 0x0102030405060708;
    s.amount = 0x1112131415161718;
    s.current_index = 0x2122;
    s.commitments[0] = [0xAA; 32];
    let mut buf = vec![0u8; STORE_LEN];
    s.pack_into_slice(&mut buf);
    assert_eq!(buf[0], 1);
    assert_eq!(&buf[1..33], &[7u8; 32][..]);
    assert_eq!(&buf[33..41], &[8, 7, 6, 5, 4, 3, 2, 1][..]);
    assert_eq!(&buf[41..49], &[0x18, 0x17, 0x16, 0x15, 0x14, 0x13, 0x12, 0x11][..]);
    assert_eq!(&buf[49..81], &[0xAA; 32][..]);
    assert_eq!(&buf[81..561], &[0u8; 480][..]);
    assert_eq!(&buf[561..569], &[0x22, 0x21, 0, 0, 0, 0, 0, 0][..]);
}

#[test]
fn pack_leaves_bytes_past_the_store_alone() {
    let s = fresh_store();
    let mut buf = vec![0x5Cu8; STORE_LEN + 10];
    s.pack_into_slice(&mut buf);
    assert_eq!(&buf[STORE_LEN..], &[0x5Cu8; 10][..]);
}

#[test]
fn unpack_then_pack_sets_only_the_flag_byte() {
    let mut bytes: Vec<u8> = (0..STORE_LEN).map(|i| (i * 7 + 3) as u8).collect();
    bytes[0] = 0;
    let s = store::unpack_from_slice(&bytes).unwrap();
    assert!(s.is_initialized);
    assert!(s.is_initialized());
    let mut out = vec![0u8; STORE_LEN];
    s.pack_into_slice(&mut out);
    let mut expected = bytes.clone();
    expected[0] = 1;
    assert_eq!(out, expected);
}

#[test]
fn unpack_reads_from_a_longer_slice() {
    let s = fresh_store();
    let mut buf = vec![9u8; STORE_LEN + 3];
    s.pack_into_slice(&mut buf);
    let u = store::unpack_from_slice(&buf).unwrap();
    assert!(same_store(&s, &u));
}

#[test]
fn first_deposit_sets_amount_from_lamports() {
    let mut s = fresh_store();
    let c = commitment(1);
    let lamports = 5 * DENOMINATION;
    assert!(s.accepts_deposit(&c, DENOMINATION, lamports));
    s.deposit(&c, DENOMINATION, lamports);
    assert_eq!(s.amount, lamports);
    assert_eq!(s.commitments[0], c);
    assert_eq!(s.current_index, 1);
}

#[test]
fn later_deposit_needs_matching_lamports() {
    let mut s = fresh_store();
    s.amount = 2 * DENOMINATION;
    let c = commitment(2);
    assert!(!s.accepts_deposit(&c, DENOMINATION, 2 * DENOMINATION));
    assert!(s.accepts_deposit(&c, DENOMINATION, 3 * DENOMINATION));
    s.deposit(&c, DENOMINATION, 3 * DENOMINATION);
    assert_eq!(s.amount, 3 * DENOMINATION);
}

#[test]
fn deposit_refusals() {
    let mut s = fresh_store();
    let c = commitment(3);
    assert!(!s.accepts_deposit(&c, DENOMINATION + 1, 5 * DENOMINATION));
    assert!(!s.accepts_deposit(&c, DENOMINATION, DENOMINATION - 1));
    assert!(!s.accepts_deposit(&c[..31], DENOMINATION, 5 * DENOMINATION));
    s.current_index = 16;
    assert!(!s.accepts_deposit(&c, DENOMINATION, 5 * DENOMINATION));
}

#[test]
fn deposit_wraps_round_the_ring() {
    let mut s = fresh_store();
    s.current_index = 15;
    let c = commitment(4);
    s.deposit(&c, DENOMINATION, 5 * DENOMINATION);
    assert_eq!(s.commitments[15], c);
    assert_eq!(s.current_index, 0);
}

#[test]
fn a_commitment_is_taken_in_only_once() {
    let mut s = fresh_store();
    let c = commitment(5);
    s.deposit(&c, DENOMINATION, 5 * DENOMINATION);
    assert!(!s.accepts_deposit(&c, DENOMINATION, 5 * DENOMINATION));
    assert!(!s.accepts_deposit(&c, DENOMINATION, 6 * DENOMINATION));
}

#[test]
fn withdraw_after_deposit_clears_the_slot() {
    let mut s = fresh_store();
    let c = commitment(6);
    s.deposit(&c, DENOMINATION, 5 * DENOMINATION);
    assert!(s.accepts_withdrawal(&c));
    s.withdraw(&c);
    assert_eq!(s.commitments[0], [0u8; 32]);
    assert_eq!(s.amount, 4 * DENOMINATION);
    assert_eq!(s.current_index, 1);
}

#[test]
fn a_withdrawal_cannot_be_repeated() {
    let mut s = fresh_store();
    let c = commitment(7);
    s.deposit(&c, DENOMINATION, 5 * DENOMINATION);
    s.withdraw(&c);
    assert!(!s.accepts_withdrawal(&c));
    assert_eq!(s.find_commitment(&c), None);
}

#[test]
fn withdrawal_needs_a_covering_amount() {
    let mut s = fresh_store();
    let c = commitment(8);
    s.commitments[2] = c;
    s.amount = DENOMINATION - 1;
    assert!(!s.accepts_withdrawal(&c));
    s.amount = DENOMINATION;
    assert!(s.accepts_withdrawal(&c));
}

#[test]
fn commitments_compare_as_big_endian_integers() {
    let mut s = fresh_store();
    let mut stored = [0u8; 32];
    stored[31] = 5;
    s.commitments[4] = stored;
    assert_eq!(s.find_commitment(&[5u8]), Some(4));
    assert_eq!(s.find_commitment(&[0u8, 5u8]), Some(4));
    assert_eq!(s.find_commitment(&[5u8, 0u8]), None);
    let mut other = stored;
    other[0] = 1;
    assert_eq!(s.find_commitment(&other), None);
}

#[test]
fn withdrawal_takes_the_first_matching_slot() {
    let mut s = fresh_store();
    let c = commitment(9);
    s.commitments[5] = c;
    s.commitments[11] = c;
    s.amount = 3 * DENOMINATION;
    s.withdraw(&c);
    assert_eq!(s.commitments[5], [0u8; 32]);
    assert_eq!(s.commitments[11], c);
}

#[test]
fn zero_commitment_is_never_withdrawn() {
    let mut s = fresh_store();
    s.amount = 2 * DENOMINATION;
    assert!(!s.accepts_withdrawal(&[0u8; 32]));
    assert!(!s.accepts_withdrawal(&[0u8]));
    assert!(!s.accepts_withdrawal(&[]));
    assert_eq!(s.find_commitment(&[0u8; 32]), Some(0));
}

#[test]
fn deposit_never_overwrites_a_stored_commitment() {
    let mut s = fresh_store();
    for k in 0..16u8 {
        let c = commitment(100 + k);
        let lamports = (k as u64 + 2) * DENOMINATION;
        assert!(s.accepts_deposit(&c, DENOMINATION, lamports));
        s.deposit(&c, DENOMINATION, lamports);
    }
    assert_eq!(s.current_index, 0);
    assert_eq!(s.amount, 17 * DENOMINATION);
    let late = commitment(50);
    assert!(!s.accepts_deposit(&late, DENOMINATION, 18 * DENOMINATION));
    let first = commitment(100);
    assert!(s.accepts_withdrawal(&first));
    s.withdraw(&first);
    assert!(s.accepts_deposit(&late, DENOMINATION, 17 * DENOMINATION));
    s.deposit(&late, DENOMINATION, 17 * DENOMINATION);
    assert_eq!(s.commitments[0], late);
    assert!(s.accepts_withdrawal(&commitment(115)));
}

#[test]
fn commitment_survives_other_deposits_and_withdrawals() {
    let mut s = fresh_store();
    let c = commitment(60);
    let mut lamports = 3 * DENOMINATION;
    s.deposit(&c, DENOMINATION, lamports);
    for k in 0..10u8 {
        let other = commitment(61 + k);
        lamports += DENOMINATION;
        s.deposit(&other, DENOMINATION, lamports);
        s.withdraw(&other);
        lamports -= DENOMINATION;
    }
    assert!(s.accepts_withdrawal(&c));
    s.withdraw(&c);
    assert!(!s.accepts_withdrawal(&c));
}

#[test]
fn process_refuses_a_zero_withdrawal() {
    let id = [3u8; 32];
    let mut s = fresh_store();
    s.amount = 4 * DENOMINATION;
    let data = packed(&s);
    let ix = instruction(&[0u8; 32], DENOMINATION, 0);
    assert!(would_abort(&id, &ix, &data, 0));
}

fn packed(s: &store) -> Vec<u8> {
    let mut buf = vec![0u8; STORE_LEN];
    s.pack_into_slice(&mut buf);
    buf
}

#[test]
fn process_refuses_data_of_the_wrong_length() {
    let id = [1u8; 32];
    let ix = instruction(&commitment(1), DENOMINATION, 1);
    let mut data = vec![0u8; STORE_LEN - 1];
    assert!(!would_abort(&id, &ix, &data, 5 * DENOMINATION));
    assert_eq!(process(&id, &ix, &mut data, 5 * DENOMINATION), Err(VaultError::InvalidAccountData));
    assert_eq!(data, vec![0u8; STORE_LEN - 1]);
    let ix40 = &ix[..40];
    assert!(!would_abort(&id, ix40, &data, 5 * DENOMINATION));
    assert_eq!(process(&id, ix40, &mut data, 5 * DENOMINATION), Err(VaultError::InvalidAccountData));
}

#[test]
fn process_aborts_on_short_instructions() {
    let id = [1u8; 32];
    let data = packed(&fresh_store());
    let ix = instruction(&commitment(1), DENOMINATION, 1);
    assert!(would_abort(&id, &ix[..39], &data, 5 * DENOMINATION));
    assert!(would_abort(&id, &ix[..40], &data, 5 * DENOMINATION));
    assert!(!would_abort(&id, &ix, &data, 5 * DENOMINATION));
}

#[test]
fn process_ignores_other_tags() {
    let id = [1u8; 32];
    let mut data = packed(&fresh_store());
    let before = data.clone();
    let ix = instruction(&commitment(1), DENOMINATION, 2);
    assert!(!would_abort(&id, &ix, &data, 0));
    assert_eq!(process(&id, &ix, &mut data, 0), Ok(None));
    assert_eq!(data, before);
}

#[test]
fn process_sets_program_id_and_denomination() {
    let id = [42u8; 32];
    let mut s = fresh_store();
    s.denominated_amount = 5;
    s.program_id = [0u8; 32];
    let mut data = packed(&s);
    let c = commitment(10);
    let ix = instruction(&c, DENOMINATION, 1);
    assert_eq!(process(&id, &ix, &mut data, 3 * DENOMINATION), Ok(None));
    let u = store::unpack_from_slice(&data).unwrap();
    assert_eq!(u.program_id, id);
    assert_eq!(u.denominated_amount, DENOMINATION);
    assert_eq!(u.amount, 3 * DENOMINATION);
    assert_eq!(u.commitments[0], c);
    assert_eq!(u.current_index, 1);
}

#[test]
fn deposit_then_withdraw_instructions() {
    let id = [3u8; 32];
    let mut data = packed(&fresh_store());
    let c = commitment(11);
    let deposit_ix = instruction(&c, DENOMINATION, 1);
    let withdraw_ix = instruction(&c, DENOMINATION, 0);
    let lamports = 2 * DENOMINATION;
    assert!(!would_abort(&id, &deposit_ix, &data, lamports));
    assert_eq!(process(&id, &deposit_ix, &mut data, lamports), Ok(None));
    assert!(would_abort(&id, &deposit_ix, &data, lamports));
    assert!(!would_abort(&id, &withdraw_ix, &data, lamports));
    assert_eq!(process(&id, &withdraw_ix, &mut data, lamports), Ok(Some(DENOMINATION)));
    let u = store::unpack_from_slice(&data).unwrap();
    assert_eq!(u.amount, DENOMINATION);
    assert_eq!(u.commitments[0], [0u8; 32]);
    assert!(would_abort(&id, &withdraw_ix, &data, lamports - DENOMINATION));
}

#[test]
fn deposit_instruction_with_wrong_amount_aborts() {
    let id = [3u8; 32];
    let data = packed(&fresh_store());
    let ix = instruction(&commitment(12), DENOMINATION / 2, 1);
    assert!(would_abort(&id, &ix, &data, 2 * DENOMINATION));
}

#[test]
fn withdraw_instruction_for_unknown_commitment_aborts() {
    let id = [3u8; 32];
    let mut s = fresh_store();
    s.amount = 4 * DENOMINATION;
    let data = packed(&s);
    let ix = instruction(&commitment(13), DENOMINATION, 0);
    assert!(would_abort(&id, &ix, &data, 0));
}

#[test]
fn recorded_amount_tracks_vault_lamports() {
    let id = [4u8; 32];
    let mut data = packed(&fresh_store());
    let c = commitment(70);
    let lamports = 7 * DENOMINATION + 5;
    assert_eq!(process(&id, &instruction(&c, DENOMINATION, 1), &mut data, lamports), Ok(None));
    assert_eq!(&data[41..49], &lamports.to_le_bytes()[..]);
    let payout = process(&id, &instruction(&c, DENOMINATION, 0), &mut data, lamports)
        .unwrap()
        .unwrap();
    assert_eq!(&data[41..49], &(lamports - payout).to_le_bytes()[..]);
}
