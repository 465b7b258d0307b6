//! The earlier vault layout: ten secret slots, each with its own `u32`
//! balance, and withdrawals that name the slot they draw from.
use vstd::prelude::*;
use vstd::bytes::lemma_auto_spec_u32_to_from_le_bytes;
use vstd::bytes::lemma_auto_spec_u64_to_from_le_bytes;
use vstd::bytes::spec_u32_from_le_bytes;
use vstd::bytes::spec_u32_to_le_bytes;
use vstd::bytes::spec_u64_from_le_bytes;
use vstd::bytes::spec_u64_to_le_bytes;
use vstd::bytes::u32_from_le_bytes;
use vstd::bytes::u64_from_le_bytes;
use vstd::bytes::u64_to_le_bytes;
use vstd::slice::slice_subrange;
use vstd::string::StringSliceAdditionalSpecFns;
use solana_program::pubkey::Pubkey;
use solana_program::pubkey::PubkeyError;
use crate::codec::all_of_width;
use crate::codec::chunks;
use crate::codec::flatten;
use crate::codec::lemma_chunks_flatten;
use crate::codec::lemma_flatten_chunks;
use crate::codec::lemma_flatten_index;
use crate::codec::lemma_flatten_len;
use crate::codec::read_u32_le;
use crate::codec::write_u32_le;
use crate::error::VaultError;

verus! {

/// Length in bytes of a packed `store` of this layout.
pub const STORE_LEN: usize = 401;

/// Number of secret slots.
pub const SECRET_SLOTS: usize = 10;

/// The lamports that a completed withdrawal moves from the vault account to
/// the recipient.
pub const WITHDRAWAL_LAMPORTS: u64 = 100000000;

/// The slot that withdrawal instructions draw from.
pub const WITHDRAWAL_SLOT: usize = 1;

/// The vault's state in the earlier layout.
#[allow(non_camel_case_types)]
pub struct store {
    pub is_initialized: bool,
    pub program_id: [u8; 32],
    /// The secret deposited into each slot.
    pub secrets: [[u8; 32]; 10],
    /// The slot that the next deposit fills.
    pub current_index: usize,
    /// The balance of each slot.
    pub amount: [u32; 10],
}

/// The contents of a `store` of this layout as plain values.
#[verifier::ext_equal]
pub struct StoreModel {
    pub is_initialized: bool,
    pub program_id: Seq<u8>,
    pub secrets: Seq<Seq<u8>>,
    pub current_index: usize,
    pub amount: Seq<u32>,
}

impl View for store {
    type V = StoreModel;

    open spec fn view(&self) -> StoreModel {
        StoreModel {
            is_initialized: self.is_initialized,
            program_id: self.program_id@,
            secrets: self.secrets@.map_values(|s: [u8; 32]| s@),
            current_index: self.current_index,
            amount: self.amount@,
        }
    }
}

/// The little-endian bytes of each balance, one record per slot.
pub open spec fn amount_records(amount: Seq<u32>) -> Seq<Seq<u8>> {
    amount.map_values(|a: u32| spec_u32_to_le_bytes(a))
}

impl StoreModel {
    /// The shape that every `store` of this layout has.
    pub open spec fn well_formed(self) -> bool {
        &&& self.program_id.len() == 32
        &&& self.secrets.len() == SECRET_SLOTS
        &&& all_of_width(self.secrets, 32)
        &&& self.amount.len() == SECRET_SLOTS
    }

    /// The store that `unpack_from_slice` reads from the first `STORE_LEN`
    /// bytes of `b`: flag byte (read as set), program id, ten 32-byte
    /// secrets, next slot (8 bytes), ten 4-byte balances; the integers
    /// little-endian.
    pub open spec fn from_bytes(b: Seq<u8>) -> StoreModel {
        StoreModel {
            is_initialized: true,
            program_id: b.subrange(1, 33),
            secrets: chunks(b.subrange(33, 353), 32, 10),
            current_index: spec_u64_from_le_bytes(b.subrange(353, 361)) as usize,
            amount: chunks(b.subrange(361, 401), 4, 10).map_values(
                |r: Seq<u8>| spec_u32_from_le_bytes(r),
            ),
        }
    }

    /// The `STORE_LEN` bytes that `pack_into_slice` writes.
    pub open spec fn to_bytes(self) -> Seq<u8> {
        seq![if self.is_initialized { 1u8 } else { 0u8 }] + self.program_id + flatten(self.secrets)
            + spec_u64_to_le_bytes(self.current_index as u64) + flatten(
            amount_records(self.amount),
        )
    }

    /// The store after a deposit of `secret` with balance `amount`: both go
    /// into the next slot, which moves on round the ring.
    pub open spec fn deposited(self, secret: Seq<u8>, amount: u32) -> StoreModel {
        StoreModel {
            secrets: self.secrets.update(self.current_index as int, secret),
            amount: self.amount.update(self.current_index as int, amount),
            current_index: ((self.current_index + 1) % (SECRET_SLOTS as int)) as usize,
            ..self
        }
    }

    /// The inputs on which `withdraw` completes: slot `index` exists, holds
    /// exactly `secret`, and has a balance of at least `amount`.
    pub open spec fn withdraw_allowed(self, secret: Seq<u8>, amount: u32, index: int) -> bool {
        &&& 0 <= index < SECRET_SLOTS
        &&& self.secrets[index] == secret
        &&& self.amount[index] >= amount
    }

    /// The store after `amount` is withdrawn from slot `index`.
    pub open spec fn withdrawn(self, amount: u32, index: int) -> StoreModel {
        StoreModel {
            amount: self.amount.update(index, (self.amount[index] - amount) as u32),
            ..self
        }
    }

    /// The next slot as a deposit instruction uses it: back to the first
    /// slot when it is out of range.
    pub open spec fn rewound(self) -> StoreModel {
        StoreModel {
            current_index: if self.current_index >= SECRET_SLOTS {
                0
            } else {
                self.current_index
            },
            ..self
        }
    }
}

pub(crate) proof fn lemma_to_bytes_layout(m: StoreModel)
    requires
        m.well_formed(),
    ensures
        m.to_bytes().len() == STORE_LEN,
        m.to_bytes()[0] == (if m.is_initialized { 1u8 } else { 0u8 }),
        m.to_bytes().subrange(1, 33) == m.program_id,
        m.to_bytes().subrange(33, 353) == flatten(m.secrets),
        m.to_bytes().subrange(353, 361) == spec_u64_to_le_bytes(m.current_index as u64),
        m.to_bytes().subrange(361, 401) == flatten(amount_records(m.amount)),
        all_of_width(amount_records(m.amount), 4),
{
    lemma_auto_spec_u64_to_from_le_bytes();
    lemma_auto_spec_u32_to_from_le_bytes();
    lemma_flatten_len(m.secrets, 32);
    let recs = amount_records(m.amount);
    assert(all_of_width(recs, 4)) by {
        assert forall|i: int| 0 <= i < recs.len() implies #[trigger] recs[i].len() == 4 by {
            assert(recs[i] == spec_u32_to_le_bytes(m.amount[i]));
        }
    }
    lemma_flatten_len(recs, 4);
    let b = m.to_bytes();
    assert(b.subrange(1, 33) =~= m.program_id);
    assert(b.subrange(33, 353) =~= flatten(m.secrets));
    assert(b.subrange(353, 361) =~= spec_u64_to_le_bytes(m.current_index as u64));
    assert(b.subrange(361, 401) =~= flatten(recs));
}

/// The bytes "ProgramDerivedAddress", which no owner of a seeded address may
/// end with.
pub open spec fn pda_marker() -> Seq<u8> {
    seq![
        80u8, 114, 111, 103, 114, 97, 109, 68, 101, 114, 105, 118, 101, 100, 65, 100, 100, 114,
        101, 115, 115,
    ]
}

/// An account address as its 32 bytes.
pub type Address = [u8; 32];

/// The address that solana-program derives from a base key, a seed and an
/// owner (a SHA-256 hash of the three).
pub uninterp spec fn seeded_address(base: Seq<u8>, seed: Seq<u8>, owner: Seq<u8>) -> Seq<u8>;

/// `Pubkey::create_with_seed` of solana-program on keys given as bytes. As
/// its source shows: a seed of more than 32 bytes is refused with
/// `MaxSeedLengthExceeded`; else an owner whose last 21 bytes are
/// "ProgramDerivedAddress" is refused with `IllegalOwner`; else the result is
/// the derived address, named by `seeded_address`. Its error is mapped, one
/// variant each, to the error of the same name.
#[verifier::external_body]
fn create_with_seed(base: &[u8; 32], seed: &str, owner: &[u8; 32]) -> (r: Result<Address, VaultError>)
    ensures
        seed.spec_bytes().len() > 32 ==> r is Err && r->Err_0 == VaultError::MaxSeedLengthExceeded,
        seed.spec_bytes().len() <= 32 && owner@.subrange(11, 32) == pda_marker() ==> r is Err
            && r->Err_0 == VaultError::IllegalOwner,
        seed.spec_bytes().len() <= 32 && owner@.subrange(11, 32) != pda_marker() ==> r is Ok
            && r->Ok_0@ == seeded_address(base@, seed.spec_bytes(), owner@),
{
    match Pubkey::create_with_seed(
        &Pubkey::new_from_array(*base),
        seed,
        &Pubkey::new_from_array(*owner),
    ) {
        Ok(key) => Ok(key.to_bytes()),
        Err(PubkeyError::MaxSeedLengthExceeded) => Err(VaultError::MaxSeedLengthExceeded),
        Err(PubkeyError::InvalidSeeds) => Err(VaultError::InvalidSeeds),
        Err(PubkeyError::IllegalOwner) => Err(VaultError::IllegalOwner),
    }
}

impl store {
    /// Every `store` of this layout has the shape of
    /// `StoreModel::well_formed`.
    pub proof fn lemma_well_formed(&self)
        ensures
            self@.well_formed(),
    {
        assert forall|i: int| 0 <= i < self@.secrets.len() implies #[trigger] self@.secrets[i].len()
            == 32 by {}
    }

    /// Whether the store is initialized.
    pub fn is_initialized(&self) -> (r: bool)
        ensures
            r == self.is_initialized,
    {
        self.is_initialized
    }

    /// Reads a store from the first `STORE_LEN` bytes of `input` (it panics
    /// on fewer); the store is always marked initialized.
    pub fn unpack_from_slice(input: &[u8]) -> (r: Result<store, VaultError>)
        requires
            input@.len() >= STORE_LEN,
        ensures
            r matches Ok(s) && s@ == StoreModel::from_bytes(input@),
    {
        let ghost b = input@;
        let mut program_id = [0u8; 32];
        for k in 0usize..32
            invariant
                input@ == b,
                b.len() >= STORE_LEN,
                forall|j: int| 0 <= j < k ==> program_id@[j] == b[1 + j],
        {
            program_id[k] = input[1 + k];
        }
        let mut secrets = [[0u8; 32]; 10];
        for i in 0usize..10
            invariant
                input@ == b,
                b.len() >= STORE_LEN,
                forall|j: int|
                    0 <= j < i ==> #[trigger] secrets@[j]@ == b.subrange(33 + 32 * j, 65 + 32 * j),
        {
            let mut c = [0u8; 32];
            for k in 0usize..32
                invariant
                    input@ == b,
                    b.len() >= STORE_LEN,
                    0 <= i < 10,
                    forall|j: int| 0 <= j < k ==> c@[j] == b[33 + 32 * i + j],
            {
                c[k] = input[33 + 32 * i + k];
            }
            assert(c@ =~= b.subrange(33 + 32 * i, 65 + 32 * i));
            secrets[i] = c;
        }
        let current_index = u64_from_le_bytes(slice_subrange(input, 353, 361)) as usize;
        let mut amount = [0u32; 10];
        for i in 0usize..10
            invariant
                input@ == b,
                b.len() >= STORE_LEN,
                forall|j: int|
                    0 <= j < i ==> #[trigger] amount@[j] == spec_u32_from_le_bytes(
                        b.subrange(361 + 4 * j, 365 + 4 * j),
                    ),
        {
            amount[i] = read_u32_le(input, 361 + 4 * i);
        }
        let s = store { is_initialized: true, program_id, secrets, current_index, amount };
        assert(program_id@ =~= b.subrange(1, 33));
        assert(s@.secrets =~= chunks(b.subrange(33, 353), 32, 10)) by {
            assert forall|j: int| 0 <= j < 10 implies #[trigger] s@.secrets[j] =~= chunks(
                b.subrange(33, 353),
                32,
                10,
            )[j] by {
                assert(secrets@[j]@ == b.subrange(33 + 32 * j, 65 + 32 * j));
            }
        }
        assert(s@.amount =~= chunks(b.subrange(361, 401), 4, 10).map_values(
            |r: Seq<u8>| spec_u32_from_le_bytes(r),
        )) by {
            assert forall|j: int| 0 <= j < 10 implies #[trigger] s@.amount[j] == chunks(
                b.subrange(361, 401),
                4,
                10,
            ).map_values(|r: Seq<u8>| spec_u32_from_le_bytes(r))[j] by {
                assert(chunks(b.subrange(361, 401), 4, 10)[j] =~= b.subrange(
                    361 + 4 * j,
                    365 + 4 * j,
                ));
            }
        }
        Ok(s)
    }

    /// Writes the store into the first `STORE_LEN` bytes of `dst` (it panics
    /// on fewer) and leaves the rest of `dst` as it was.
    pub fn pack_into_slice(&self, dst: &mut [u8])
        requires
            old(dst)@.len() >= STORE_LEN,
        ensures
            final(dst)@ == self@.to_bytes() + old(dst)@.subrange(
                STORE_LEN as int,
                old(dst)@.len() as int,
            ),
    {
        let ghost d0 = dst@;
        let ghost m = self@;
        let ghost t = m.to_bytes();
        let ghost recs = amount_records(m.amount);
        proof {
            self.lemma_well_formed();
            lemma_to_bytes_layout(m);
            lemma_auto_spec_u64_to_from_le_bytes();
            lemma_auto_spec_u32_to_from_le_bytes();
        }
        let mut j: usize = 33;
        for i in 0usize..10
            invariant
                m == self@,
                m.well_formed(),
                t.subrange(33, 353) == flatten(m.secrets),
                t.len() == STORE_LEN,
                dst@.len() == d0.len(),
                d0.len() >= STORE_LEN,
                j == 33 + 32 * i,
                forall|k: int| 33 <= k < j ==> dst@[k] == t[k],
                forall|k: int| 0 <= k < 33 || 353 <= k < d0.len() ==> dst@[k] == d0[k],
        {
            for b in 0usize..32
                invariant
                    m == self@,
                    m.well_formed(),
                    t.subrange(33, 353) == flatten(m.secrets),
                    t.len() == STORE_LEN,
                    0 <= i < 10,
                    dst@.len() == d0.len(),
                    d0.len() >= STORE_LEN,
                    j == 33 + 32 * i + b,
                    forall|k: int| 33 <= k < j ==> dst@[k] == t[k],
                    forall|k: int| 0 <= k < 33 || 353 <= k < d0.len() ==> dst@[k] == d0[k],
            {
                proof {
                    lemma_flatten_index(m.secrets, 32, i as int, b as int);
                    assert(t.subrange(33, 353)[32 * i + b] == t[j as int]);
                }
                dst[j] = self.secrets[i][b];
                j = j + 1;
            }
        }
        for x in 0usize..10
            invariant
                m == self@,
                recs == amount_records(m.amount),
                m.well_formed(),
                all_of_width(recs, 4),
                t.subrange(361, 401) == flatten(recs),
                t.len() == STORE_LEN,
                dst@.len() == d0.len(),
                d0.len() >= STORE_LEN,
                forall|k: int| 33 <= k < 353 ==> dst@[k] == t[k],
                forall|k: int| 361 <= k < 361 + 4 * x ==> dst@[k] == t[k],
                forall|k: int| 0 <= k < 33 || 401 <= k < d0.len() ==> dst@[k] == d0[k],
        {
            let ghost before = dst@;
            proof {
                lemma_auto_spec_u32_to_from_le_bytes();
            }
            write_u32_le(dst, 361 + 4 * x, self.amount[x]);
            assert forall|k: int| 0 <= k < before.len() && !(361 + 4 * x <= k < 365 + 4 * x) implies dst@[k]
                == before[k] by {
                if k < 361 + 4 * x {
                    assert(dst@[k] == before.subrange(0, 361 + 4 * x)[k]);
                } else {
                    assert(dst@[k] == before.subrange(365 + 4 * x, before.len() as int)[k - 365 - 4 * x]);
                }
            }
            assert forall|k: int| 361 + 4 * x <= k < 365 + 4 * x implies dst@[k] == t[k] by {
                let q = k - 361 - 4 * x;
                lemma_flatten_index(recs, 4, x as int, q);
                assert(t.subrange(361, 401)[4 * x + q] == t[k]);
                assert(recs[x as int] == spec_u32_to_le_bytes(m.amount[x as int]));
            }
        }
        dst[0] = if self.is_initialized { 1u8 } else { 0u8 };
        for k in 0usize..32
            invariant
                m == self@,
                t == m.to_bytes(),
                t.subrange(1, 33) == m.program_id,
                t.len() == STORE_LEN,
                dst@.len() == d0.len(),
                d0.len() >= STORE_LEN,
                dst@[0] == t[0],
                forall|p: int| 1 <= p < 1 + k ==> dst@[p] == t[p],
                forall|p: int| 33 <= p < 353 ==> dst@[p] == t[p],
                forall|p: int| 361 <= p < 401 ==> dst@[p] == t[p],
                forall|p: int| 401 <= p < d0.len() ==> dst@[p] == d0[p],
        {
            proof {
                assert(t.subrange(1, 33)[k as int] == t[1 + k]);
            }
            dst[1 + k] = self.program_id[k];
        }
        let ci = u64_to_le_bytes(self.current_index as u64);
        for k in 0usize..8
            invariant
                t == m.to_bytes(),
                t.subrange(353, 361) == spec_u64_to_le_bytes(m.current_index as u64),
                ci@ == spec_u64_to_le_bytes(m.current_index as u64),
                ci@.len() == 8,
                t.len() == STORE_LEN,
                dst@.len() == d0.len(),
                d0.len() >= STORE_LEN,
                forall|p: int| 0 <= p < 353 + k ==> dst@[p] == t[p],
                forall|p: int| 361 <= p < 401 ==> dst@[p] == t[p],
                forall|p: int| 401 <= p < d0.len() ==> dst@[p] == d0[p],
        {
            proof {
                assert(t.subrange(353, 361)[k as int] == t[353 + k]);
            }
            dst[353 + k] = ci[k];
        }
        assert(dst@ =~= t + d0.subrange(STORE_LEN as int, d0.len() as int));
    }

    /// Puts `secret`'s first 32 bytes (it panics on fewer) and the balance
    /// `amount` into the next slot, which then moves on round the ring.
    pub fn deposit(&mut self, secret: &[u8], amount: u32)
        requires
            old(self).current_index < SECRET_SLOTS,
            secret@.len() >= 32,
        ensures
            final(self)@ == old(self)@.deposited(secret@.subrange(0, 32), amount),
    {
        let mut c = [0u8; 32];
        for k in 0usize..32
            invariant
                secret@.len() >= 32,
                forall|p: int| 0 <= p < k ==> c@[p] == secret@[p],
        {
            c[k] = secret[k];
        }
        assert(c@ =~= secret@.subrange(0, 32));
        let ci = self.current_index;
        self.secrets[ci] = c;
        self.amount[ci] = amount;
        self.current_index = (ci + 1) % SECRET_SLOTS;
        assert(self@.secrets =~= old(self)@.secrets.update(ci as int, secret@.subrange(0, 32)));
        assert(self@.amount =~= old(self)@.amount.update(ci as int, amount));
    }

    /// Whether `withdraw` completes on these inputs.
    pub fn accepts_withdrawal(&self, secret: &[u8], amount: u32, index: usize) -> (r: bool)
        ensures
            r == self@.withdraw_allowed(secret@, amount, index as int),
    {
        proof {
            self.lemma_well_formed();
        }
        if index >= SECRET_SLOTS || secret.len() != 32 {
            return false;
        }
        let stored = &self.secrets[index];
        let ghost sv = self@.secrets[index as int];
        assert(stored@ == sv);
        let mut k: usize = 0;
        while k < 32
            invariant
                stored@ == sv,
                sv == self@.secrets[index as int],
                index < SECRET_SLOTS,
                sv.len() == 32,
                secret@.len() == 32,
                0 <= k <= 32,
                forall|p: int| 0 <= p < k ==> sv[p] == secret@[p],
            decreases 32 - k,
        {
            if stored[k] != secret[k] {
                assert(sv[k as int] != secret@[k as int]);
                assert(sv != secret@);
                return false;
            }
            k = k + 1;
        }
        assert(sv =~= secret@);
        self.amount[index] >= amount
    }

    /// Takes `amount` from the balance of slot `index`, whose secret must be
    /// `secret`.
    pub fn withdraw(&mut self, secret: &[u8], amount: u32, index: usize)
        requires
            old(self)@.withdraw_allowed(secret@, amount, index as int),
        ensures
            final(self)@ == old(self)@.withdrawn(amount, index as int),
    {
        self.amount[index] = self.amount[index] - amount;
        assert(self@.amount =~= old(self)@.amount.update(
            index as int,
            (old(self)@.amount[index as int] - amount) as u32,
        ));
    }
}

/// The secret that an instruction names: its first 32 bytes.
pub open spec fn instruction_secret(data: Seq<u8>) -> Seq<u8> {
    data.subrange(0, 32)
}

/// The amount that an instruction names: bytes 32 to 36, little-endian.
pub open spec fn instruction_amount(data: Seq<u8>) -> u32 {
    spec_u32_from_le_bytes(data.subrange(32, 36))
}

/// The store that instruction processing works on: the vault account's data
/// unpacked, with this program's id set.
pub open spec fn working_store(program_id: Seq<u8>, vault_data: Seq<u8>) -> StoreModel {
    StoreModel { program_id, ..StoreModel::from_bytes(vault_data) }
}

/// The inputs on which processing an instruction aborts rather than
/// completing or returning an error: an instruction shorter than 36 bytes;
/// or, with vault data of the right length, an instruction without a tag
/// byte at 36, or a withdrawal (tag 0), with the system account present,
/// that `withdraw` does not accept for slot `WITHDRAWAL_SLOT`.
pub open spec fn aborts_on(
    program_id: Seq<u8>,
    instruction: Seq<u8>,
    vault_data: Seq<u8>,
    has_system_account: bool,
) -> bool {
    ||| instruction.len() < 36
    ||| vault_data.len() == STORE_LEN && {
        ||| instruction.len() < 37
        ||| instruction[36] == 0 && has_system_account && !working_store(
            program_id,
            vault_data,
        ).withdraw_allowed(
            instruction_secret(instruction),
            instruction_amount(instruction),
            WITHDRAWAL_SLOT as int,
        )
    }
}

/// Whether processing this instruction aborts (see `aborts_on`).
pub fn would_abort(
    program_id: &[u8; 32],
    instruction_data: &[u8],
    vault_data: &[u8],
    has_system_account: bool,
) -> (r: bool)
    ensures
        r == aborts_on(program_id@, instruction_data@, vault_data@, has_system_account),
{
    if instruction_data.len() < 36 {
        return true;
    }
    if vault_data.len() != STORE_LEN {
        return false;
    }
    if instruction_data.len() < 37 {
        return true;
    }
    if instruction_data[36] != 0 || !has_system_account {
        return false;
    }
    let secret = slice_subrange(instruction_data, 0, 32);
    let amount = u32_from_le_bytes(slice_subrange(instruction_data, 32, 36));
    let mut data = match store::unpack_from_slice(vault_data) {
        Ok(s) => s,
        Err(_) => {
            return false;
        },
    };
    data.program_id = *program_id;
    assert(data@ =~= working_store(program_id@, vault_data@));
    !data.accepts_withdrawal(secret, amount, WITHDRAWAL_SLOT)
}

/// Processes one instruction of the earlier vault against the vault
/// account's data.
///
/// The instruction is a 32-byte secret, a 4-byte little-endian amount and a
/// tag byte: 1 deposits the secret and amount into the next slot (back at the
/// first slot when the index is out of range); 0 withdraws the amount from
/// slot `WITHDRAWAL_SLOT`, which needs a third (system program) account,
/// derives the vault address of `recipient` with seed "vaultx1", and then
/// pays out `WITHDRAWAL_LAMPORTS`; anything else does nothing. On success the
/// result says how many lamports the caller moves from the vault account to
/// the recipient account.
pub fn process(
    program_id: &[u8; 32],
    recipient: &[u8; 32],
    instruction_data: &[u8],
    vault_data: &mut [u8],
    has_system_account: bool,
) -> (r: Result<Option<u64>, VaultError>)
    requires
        !aborts_on(program_id@, instruction_data@, old(vault_data)@, has_system_account),
    ensures
        old(vault_data)@.len() != STORE_LEN ==> {
            &&& r == Err::<Option<u64>, VaultError>(VaultError::InvalidAccountData)
            &&& final(vault_data)@ == old(vault_data)@
        },
        old(vault_data)@.len() == STORE_LEN ==> {
            let s = working_store(program_id@, old(vault_data)@);
            let secret = instruction_secret(instruction_data@);
            let amount = instruction_amount(instruction_data@);
            let tag = instruction_data@[36];
            let illegal_owner = program_id@.subrange(11, 32) == pda_marker();
            &&& tag == 1 ==> {
                &&& r == Ok::<Option<u64>, VaultError>(None)
                &&& final(vault_data)@ == s.rewound().deposited(secret, amount).to_bytes()
            }
            &&& tag == 0 && !has_system_account ==> {
                &&& r == Err::<Option<u64>, VaultError>(VaultError::NotEnoughAccountKeys)
                &&& final(vault_data)@ == old(vault_data)@
            }
            &&& tag == 0 && has_system_account && illegal_owner ==> {
                &&& r == Err::<Option<u64>, VaultError>(VaultError::IllegalOwner)
                &&& final(vault_data)@ == old(vault_data)@
            }
            &&& tag == 0 && has_system_account && !illegal_owner ==> {
                &&& r == Ok::<Option<u64>, VaultError>(Some(WITHDRAWAL_LAMPORTS))
                &&& final(vault_data)@ == s.withdrawn(amount, WITHDRAWAL_SLOT as int).to_bytes()
            }
            &&& tag != 0 && tag != 1 ==> {
                &&& r == Ok::<Option<u64>, VaultError>(None)
                &&& final(vault_data)@ == old(vault_data)@
            }
        },
{
    let mut secret = [0u8; 32];
    for k in 0usize..32
        invariant
            instruction_data@.len() >= 36,
            forall|p: int| 0 <= p < k ==> secret@[p] == instruction_data@[p],
    {
        secret[k] = instruction_data[k];
    }
    assert(secret@ =~= instruction_secret(instruction_data@));
    let amount = u32_from_le_bytes(slice_subrange(instruction_data, 32, 36));
    if vault_data.len() != STORE_LEN {
        return Err(VaultError::InvalidAccountData);
    }
    let mut data = match store::unpack_from_slice(vault_data) {
        Ok(s) => s,
        Err(e) => {
            return Err(e);
        },
    };
    if !data.is_initialized() {
        return Err(VaultError::UninitializedAccount);
    }
    data.program_id = *program_id;
    assert(data@ =~= working_store(program_id@, old(vault_data)@));
    if instruction_data[36] == 1 {
        if data.current_index >= SECRET_SLOTS {
            data.current_index = 0;
        }
        assert(secret@.subrange(0, 32) =~= secret@);
        data.deposit(&secret, amount);
        data.pack_into_slice(vault_data);
        proof {
            data.lemma_well_formed();
            lemma_to_bytes_layout(data@);
        }
        assert(vault_data@ =~= data@.to_bytes());
        Ok(None)
    } else if instruction_data[36] == 0 {
        if !has_system_account {
            return Err(VaultError::NotEnoughAccountKeys);
        }
        data.withdraw(&secret, amount, WITHDRAWAL_SLOT);
        let seed = "vaultx1";
        proof {
            reveal_strlit("vaultx1");
            assert(vstd::string::is_ascii(seed));
        }
        match create_with_seed(recipient, seed, program_id) {
            Ok(_) => {},
            Err(e) => {
                return Err(e);
            },
        }
        data.pack_into_slice(vault_data);
        proof {
            data.lemma_well_formed();
            lemma_to_bytes_layout(data@);
        }
        assert(vault_data@ =~= data@.to_bytes());
        Ok(Some(WITHDRAWAL_LAMPORTS))
    } else {
        Ok(None)
    }
}

/// Unpacking what `pack_into_slice` wrote gives back the store, when it is
/// marked initialized (unpacking always marks it so).
pub proof fn lemma_unpack_after_pack(m: StoreModel)
    requires
        m.well_formed(),
        m.is_initialized,
    ensures
        StoreModel::from_bytes(m.to_bytes()) == m,
{
    lemma_to_bytes_layout(m);
    lemma_auto_spec_u64_to_from_le_bytes();
    lemma_auto_spec_u32_to_from_le_bytes();
    lemma_chunks_flatten(m.secrets, 32);
    let recs = amount_records(m.amount);
    lemma_chunks_flatten(recs, 4);
    let u = StoreModel::from_bytes(m.to_bytes());
    assert(u.secrets =~= m.secrets);
    assert(u.program_id =~= m.program_id);
    assert forall|i: int| 0 <= i < 10 implies #[trigger] u.amount[i] == m.amount[i] by {
        assert(chunks(flatten(recs), 4, 10)[i] == recs[i]);
        assert(recs[i] == spec_u32_to_le_bytes(m.amount[i]));
    }
    assert(u.amount =~= m.amount);
}

/// Packing a store unpacked from `b` gives back the first `STORE_LEN` bytes
/// of `b`, except that the flag byte now reads as set; where the next-slot
/// field fits in `usize`.
pub proof fn lemma_pack_after_unpack(b: Seq<u8>)
    requires
        b.len() >= STORE_LEN,
        spec_u64_from_le_bytes(b.subrange(353, 361)) <= usize::MAX,
    ensures
        StoreModel::from_bytes(b).to_bytes() == b.subrange(0, STORE_LEN as int).update(0, 1u8),
{
    let m = StoreModel::from_bytes(b);
    lemma_auto_spec_u64_to_from_le_bytes();
    lemma_auto_spec_u32_to_from_le_bytes();
    let cs = chunks(b.subrange(361, 401), 4, 10);
    assert(all_of_width(m.secrets, 32));
    lemma_to_bytes_layout(m);
    lemma_flatten_chunks(b.subrange(33, 353), 32, 10);
    lemma_flatten_chunks(b.subrange(361, 401), 4, 10);
    assert(amount_records(m.amount) =~= cs) by {
        assert forall|i: int| 0 <= i < 10 implies #[trigger] amount_records(m.amount)[i] == cs[i] by {
            assert(cs[i].len() == 4);
        }
    }
    assert(b.subrange(353, 361).len() == 8);
    let t = m.to_bytes();
    assert forall|p: int| 0 <= p < STORE_LEN implies t[p] == b.subrange(0, STORE_LEN as int).update(0, 1u8)[p] by {
        if 1 <= p < 33 {
            assert(t.subrange(1, 33)[p - 1] == t[p]);
        } else if 33 <= p < 353 {
            assert(t.subrange(33, 353)[p - 33] == t[p]);
            assert(b.subrange(33, 353)[p - 33] == b[p]);
        } else if 353 <= p < 361 {
            assert(t.subrange(353, 361)[p - 353] == t[p]);
            assert(b.subrange(353, 361)[p - 353] == b[p]);
        } else if 361 <= p < 401 {
            assert(t.subrange(361, 401)[p - 361] == t[p]);
            assert(b.subrange(361, 401)[p - 361] == b[p]);
        }
    }
    assert(t =~= b.subrange(0, STORE_LEN as int).update(0, 1u8));
}

/// A deposited secret can be drawn on at once from the slot it went into,
/// for any amount up to the deposited balance, which then drops by that
/// amount while the other slots stay as they were.
pub proof fn lemma_withdraw_after_deposit(m: StoreModel, secret: Seq<u8>, amount: u32, taken: u32)
    requires
        m.well_formed(),
        m.current_index < SECRET_SLOTS,
        taken <= amount,
    ensures
        m.deposited(secret, amount).withdraw_allowed(secret, taken, m.current_index as int),
        m.deposited(secret, amount).withdrawn(taken, m.current_index as int).amount == m.amount.update(
            m.current_index as int,
            (amount - taken) as u32,
        ),
{
    let d = m.deposited(secret, amount);
    assert(d.withdrawn(taken, m.current_index as int).amount =~= m.amount.update(
        m.current_index as int,
        (amount - taken) as u32,
    ));
}

/// Processing level: a withdrawal instruction that names the secret and at
/// most the amount of a completed deposit instruction which filled slot
/// `WITHDRAWAL_SLOT` does not abort.
pub proof fn lemma_process_deposit_then_withdraw(
    program_id: Seq<u8>,
    vault_data: Seq<u8>,
    deposit_ix: Seq<u8>,
    withdraw_ix: Seq<u8>,
    has_system_account: bool,
)
    requires
        program_id.len() == 32,
        vault_data.len() == STORE_LEN,
        !aborts_on(program_id, deposit_ix, vault_data, has_system_account),
        deposit_ix[36] == 1,
        working_store(program_id, vault_data).rewound().current_index == WITHDRAWAL_SLOT,
        withdraw_ix.len() >= 37,
        instruction_secret(withdraw_ix) == instruction_secret(deposit_ix),
        instruction_amount(withdraw_ix) <= instruction_amount(deposit_ix),
    ensures
        !aborts_on(
            program_id,
            withdraw_ix,
            working_store(program_id, vault_data).rewound().deposited(
                instruction_secret(deposit_ix),
                instruction_amount(deposit_ix),
            ).to_bytes(),
            true,
        ),
{
    let m = working_store(program_id, vault_data).rewound();
    let secret = instruction_secret(deposit_ix);
    let amount = instruction_amount(deposit_ix);
    let d = m.deposited(secret, amount);
    assert(all_of_width(m.secrets, 32));
    assert(m.well_formed());
    assert(d.well_formed()) by {
        assert forall|i: int| 0 <= i < d.secrets.len() implies #[trigger] d.secrets[i].len() == 32 by {
            if i != m.current_index {
                assert(d.secrets[i] == m.secrets[i]);
            }
        }
    }
    lemma_unpack_after_pack(d);
    lemma_to_bytes_layout(d);
    assert(working_store(program_id, d.to_bytes()) =~= d);
    lemma_withdraw_after_deposit(m, secret, amount, instruction_amount(withdraw_ix));
}

/// A withdrawal changes only the balance of the slot it draws from, which
/// drops by the amount taken; the rest of that balance can be drawn on with
/// the same secret afterwards.
pub proof fn lemma_withdraw_only_debits(m: StoreModel, secret: Seq<u8>, amount: u32, index: int, rest: u32)
    requires
        m.well_formed(),
        m.withdraw_allowed(secret, amount, index),
        amount + rest <= m.amount[index],
    ensures
        m.withdrawn(amount, index).secrets == m.secrets,
        m.withdrawn(amount, index).program_id == m.program_id,
        m.withdrawn(amount, index).current_index == m.current_index,
        m.withdrawn(amount, index).is_initialized == m.is_initialized,
        m.withdrawn(amount, index).amount.len() == SECRET_SLOTS,
        m.withdrawn(amount, index).amount[index] + amount == m.amount[index],
        forall|j: int|
            0 <= j < SECRET_SLOTS && j != index ==> #[trigger] m.withdrawn(amount, index).amount[j]
                == m.amount[j],
        m.withdrawn(amount, index).withdraw_allowed(secret, rest, index),
{
}

/// A deposit into an in-range next slot fills that slot with the secret and
/// balance, leaves every other slot alone, and moves the next slot on by
/// one round the ring of ten: to the following slot, or from the last slot
/// back to the first.
pub proof fn lemma_deposit_ring(m: StoreModel, secret: Seq<u8>, amount: u32)
    requires
        m.well_formed(),
        m.current_index < SECRET_SLOTS,
    ensures
        m.deposited(secret, amount).secrets[m.current_index as int] == secret,
        m.deposited(secret, amount).amount[m.current_index as int] == amount,
        forall|j: int|
            0 <= j < SECRET_SLOTS && j != m.current_index ==> {
                &&& #[trigger] m.deposited(secret, amount).secrets[j] == m.secrets[j]
                &&& m.deposited(secret, amount).amount[j] == m.amount[j]
            },
        m.deposited(secret, amount).current_index == (if m.current_index == SECRET_SLOTS - 1 {
            0
        } else {
            m.current_index + 1
        }),
        m.deposited(secret, amount).current_index < SECRET_SLOTS,
{
}

/// A deposit instruction leaves an in-range next-slot index alone and only
/// sends an out-of-range one back to the first slot.
pub proof fn lemma_rewound_index(m: StoreModel)
    ensures
        m.current_index < SECRET_SLOTS ==> m.rewound() == m,
        m.current_index >= SECRET_SLOTS ==> m.rewound().current_index == 0,
        m.rewound().secrets == m.secrets,
        m.rewound().amount == m.amount,
{
}

/// A deposit instruction never aborts on vault data of the right length,
/// and the data that `process` writes for it holds the secret and amount in
/// the slot that the stored next-slot index names (the first slot when that
/// index is out of range), every other slot as it was, and the next slot
/// moved on by one.
pub proof fn lemma_deposit_instruction_slot(
    program_id: Seq<u8>,
    vault_data: Seq<u8>,
    instruction: Seq<u8>,
    has_system_account: bool,
)
    requires
        program_id.len() == 32,
        vault_data.len() == STORE_LEN,
        instruction.len() >= 37,
        instruction[36] == 1,
    ensures
        !aborts_on(program_id, instruction, vault_data, has_system_account),
        ({
            let old_store = StoreModel::from_bytes(vault_data);
            let k = if old_store.current_index < SECRET_SLOTS {
                old_store.current_index as int
            } else {
                0
            };
            let out = StoreModel::from_bytes(
                working_store(program_id, vault_data).rewound().deposited(
                    instruction_secret(instruction),
                    instruction_amount(instruction),
                ).to_bytes(),
            );
            &&& out.secrets[k] == instruction_secret(instruction)
            &&& out.amount[k] == instruction_amount(instruction)
            &&& forall|j: int|
                0 <= j < SECRET_SLOTS && j != k ==> {
                    &&& #[trigger] out.secrets[j] == old_store.secrets[j]
                    &&& out.amount[j] == old_store.amount[j]
                }
            &&& out.current_index == (if k == SECRET_SLOTS - 1 { 0 } else { k + 1 })
            &&& out.program_id == program_id
        }),
{
    let m = working_store(program_id, vault_data).rewound();
    let d = m.deposited(instruction_secret(instruction), instruction_amount(instruction));
    assert(all_of_width(m.secrets, 32));
    assert(m.well_formed());
    assert(d.well_formed()) by {
        assert forall|i: int| 0 <= i < d.secrets.len() implies #[trigger] d.secrets[i].len() == 32 by {
            if i != m.current_index {
                assert(d.secrets[i] == m.secrets[i]);
            }
        }
    }
    lemma_unpack_after_pack(d);
}

} // verus!
