use tornado_vault::entrypoint::process;
use tornado_vault::entrypoint::store;
use tornado_vault::entrypoint::would_abort;
use tornado_vault::entrypoint::STORE_LEN;
use tornado_vault::entrypoint::WITHDRAWAL_LAMPORTS;
use tornado_vault::error::VaultError;

fn fresh_store() -> store {
    store {
        is_initialized: true,
        program_id: [7u8; 32],
        secrets: [[0u8; 32]; 10],
        current_index: 0,
        amount: [0u32; 10],
    }
}

fn secret(seed: u8) -> [u8; 32] {
    let mut c = [0u8; 32];
    for (i, b) in c.iter_mut().enumerate() {
        *b = seed.wrapping_mul(5).wrapping_add(i as u8);
    }
    c
}

fn same_store(a: &store, b: &store) -> bool {
    a.is_initialized == b.is_initialized
        && a.program_id == b.program_id
        && a.secrets == b.secrets
        && a.current_index == b.current_index
        && a.amount == b.amount
}

fn packed(s: &store) -> Vec<u8> {
    let mut buf = vec![0u8; STORE_LEN];
    s.pack_into_slice(&mut buf);
    buf
}

fn instruction(s: &[u8; 32], amount: u32, tag: u8) -> Vec<u8> {
    let mut ix = s.to_vec();
    ix.extend_from_slice(&amount.to_le_bytes());
    ix.push(tag);
    ix
}

fn legal_program_id() -> [u8; 32] {
    [9u8; 32]
}

fn pda_owner() -> [u8; 32] {
    let mut id = [0u8; 32];
    id[11..].copy_from_slice(b"ProgramDerivedAddress");
    id
}

#[test]
fn earlier_pack_then_unpack_gives_the_store_back() {
    let mut s = fresh_store();
    s.secrets[2] = secret(1);
    s.secrets[9] = secret(2);
    s.amount = [1, 2, 3, 4, 5, 6, 7, 8, 9, 0xDEADBEEF];
    s.current_index = 7;
    let buf = packed(&s);
    let u = store::unpack_from_slice(&buf).unwrap();
    assert!(same_store(&s, &u));
}

#[test]
fn earlier_packed_layout() {
    let mut s = fresh_store();
    s.amount[0] = 0x01020304;
    s.amount[9] = 0x0A0B0C0D;
    s.current_index = 3;
    s.secrets[0] = [0xEE; 32];
    let buf = packed(&s);
    assert_eq!(buf[0], 1);
    assert_eq!(&buf[1..33], &[7u8; 32][..]);
    assert_eq!(&buf[33..65], &[0xEE; 32][..]);
    assert_eq!(&buf[353..361], &[3, 0, 0, 0, 0, 0, 0, 0][..]);
    assert_eq!(&buf[361..365], &[4, 3, 2, 1][..]);
    assert_eq!(&buf[397..401], &[0x0D, 0x0C, 0x0B, 0x0A][..]);
}

#[test]
fn earlier_unpack_then_pack_sets_only_the_flag_byte() {
    let mut bytes: Vec<u8> = (0..STORE_LEN).map(|i| (i * 13 + 1) as u8).collect();
    bytes[0] = 0;
    let s = store::unpack_from_slice(&bytes).unwrap();
    assert!(s.is_initialized());
    let out = packed(&s);
    let mut expected = bytes.clone();
    expected[0] = 1;
    assert_eq!(out, expected);
}

#[test]
fn earlier_deposit_fills_the_next_slot() {
    let mut s = fresh_store();
    s.current_index = 9;
    let mut long_secret = secret(3).to_vec();
    long_secret.extend_from_slice(&[1, 2, 3]);
    s.deposit(&long_secret, 500);
    assert_eq!(s.secrets[9], secret(3));
    assert_eq!(s.amount[9], 500);
    assert_eq!(s.current_index, 0);
}

#[test]
fn earlier_withdraw_after_deposit() {
    let mut s = fresh_store();
    s.current_index = 4;
    let c = secret(4);
    s.deposit(&c, 1000);
    assert!(s.accepts_withdrawal(&c, 1000, 4));
    assert!(!s.accepts_withdrawal(&c, 1001, 4));
    assert!(!s.accepts_withdrawal(&c, 10, 3));
    assert!(!s.accepts_withdrawal(&c, 10, 10));
    assert!(!s.accepts_withdrawal(&c[..31], 10, 4));
    s.withdraw(&c, 400, 4);
    assert_eq!(s.amount[4], 600);
    s.withdraw(&c, 600, 4);
    assert_eq!(s.amount[4], 0);
    assert!(!s.accepts_withdrawal(&c, 1, 4));
}

#[test]
fn earlier_process_deposit_rewinds_an_out_of_range_index() {
    let id = legal_program_id();
    let mut s = fresh_store();
    s.current_index = 12;
    let mut data = packed(&s);
    let c = secret(5);
    let ix = instruction(&c, 77, 1);
    assert!(!would_abort(&id, &ix, &data, false));
    assert_eq!(process(&id, &[1u8; 32], &ix, &mut data, false), Ok(None));
    let u = store::unpack_from_slice(&data).unwrap();
    assert_eq!(u.secrets[0], c);
    assert_eq!(u.amount[0], 77);
    assert_eq!(u.current_index, 1);
    assert_eq!(u.program_id, id);
}

#[test]
fn earlier_process_refuses_data_of_the_wrong_length() {
    let id = legal_program_id();
    let mut data = vec![0u8; STORE_LEN + 1];
    let ix = instruction(&secret(1), 1, 1);
    assert_eq!(process(&id, &[1u8; 32], &ix, &mut data, true), Err(VaultError::InvalidAccountData));
    assert!(would_abort(&id, &ix[..35], &data, true));
    assert!(!would_abort(&id, &ix[..36], &data, true));
}

#[test]
fn earlier_process_withdraw_needs_a_third_account() {
    let id = legal_program_id();
    let mut s = fresh_store();
    s.secrets[1] = secret(6);
    s.amount[1] = 50;
    let mut data = packed(&s);
    let before = data.clone();
    let ix = instruction(&secret(6), 20, 0);
    assert!(!would_abort(&id, &ix, &data, false));
    assert_eq!(process(&id, &[1u8; 32], &ix, &mut data, false), Err(VaultError::NotEnoughAccountKeys));
    assert_eq!(data, before);
}

#[test]
fn earlier_process_withdraw_refuses_a_derived_owner() {
    let id = pda_owner();
    let mut s = fresh_store();
    s.secrets[1] = secret(7);
    s.amount[1] = 50;
    let mut data = packed(&s);
    let before = data.clone();
    let ix = instruction(&secret(7), 20, 0);
    assert!(!would_abort(&id, &ix, &data, true));
    assert_eq!(process(&id, &[1u8; 32], &ix, &mut data, true), Err(VaultError::IllegalOwner));
    assert_eq!(data, before);
}

#[test]
fn earlier_process_withdraw_pays_out() {
    let id = legal_program_id();
    let mut s = fresh_store();
    s.secrets[1] = secret(8);
    s.amount[1] = 50;
    let mut data = packed(&s);
    let ix = instruction(&secret(8), 20, 0);
    assert!(!would_abort(&id, &ix, &data, true));
    assert_eq!(process(&id, &[1u8; 32], &ix, &mut data, true), Ok(Some(WITHDRAWAL_LAMPORTS)));
    let u = store::unpack_from_slice(&data).unwrap();
    assert_eq!(u.amount[1], 30);
    assert_eq!(u.program_id, id);
}

#[test]
fn earlier_process_withdraw_aborts_on_wrong_secret_or_amount() {
    let id = legal_program_id();
    let mut s = fresh_store();
    s.secrets[1] = secret(9);
    s.amount[1] = 50;
    let data = packed(&s);
    assert!(would_abort(&id, &instruction(&secret(10), 20, 0), &data, true));
    assert!(would_abort(&id, &instruction(&secret(9), 51, 0), &data, true));
    assert!(!would_abort(&id, &instruction(&secret(9), 51, 0), &data, false));
}

#[test]
fn earlier_deposit_then_withdraw_instructions() {
    let id = legal_program_id();
    let mut s = fresh_store();
    s.current_index = 1;
    let mut data = packed(&s);
    let c = secret(11);
    assert_eq!(process(&id, &[2u8; 32], &instruction(&c, 300, 1), &mut data, false), Ok(None));
    let w = instruction(&c, 300, 0);
    assert!(!would_abort(&id, &w, &data, true));
    assert_eq!(process(&id, &[2u8; 32], &w, &mut data, true), Ok(Some(WITHDRAWAL_LAMPORTS)));
    assert!(would_abort(&id, &instruction(&c, 1, 0), &data, true));
}

#[test]
fn earlier_other_tags_do_nothing() {
    let id = legal_program_id();
    let mut data = packed(&fresh_store());
    let before = data.clone();
    assert_eq!(process(&id, &[2u8; 32], &instruction(&secret(1), 5, 9), &mut data, true), Ok(None));
    assert_eq!(data, before);
}
