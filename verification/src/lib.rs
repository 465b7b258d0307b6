//! A fixed-denomination vault: commitments are deposited into a ring of slots
//! kept in a program account, and a withdrawal that names a stored commitment
//! releases one denomination.
//!
//! The crate root holds the current account layout and instruction
//! processing; `entrypoint` holds the earlier per-slot-balance layout.
pub mod codec;
pub mod entrypoint;
pub mod error;
pub mod laws;

use vstd::prelude::*;
use vstd::bytes::spec_u64_from_le_bytes;
use vstd::bytes::spec_u64_to_le_bytes;
use vstd::bytes::lemma_auto_spec_u64_to_from_le_bytes;
use vstd::bytes::u64_from_le_bytes;
use vstd::bytes::u64_to_le_bytes;
use vstd::slice::slice_subrange;
use crate::codec::all_of_width;
use crate::codec::chunks;
use crate::codec::flatten;
use crate::codec::lemma_flatten_index;
use crate::codec::lemma_flatten_len;
use crate::codec::read_u64_le;
use crate::codec::be_value;
use crate::codec::lemma_zeros_value;
use crate::codec::same_value;
use crate::codec::u256_equal;
use crate::codec::write_u64_le;
use crate::error::VaultError;

verus! {

/// Length in bytes of a packed `store`.
pub const STORE_LEN: usize = 569;

/// Number of commitment slots in a `store`.
pub const COMMITMENT_SLOTS: usize = 16;

/// The amount, in lamports, that every deposit brings and every withdrawal
/// releases; instruction processing sets it on the unpacked store.
pub const DENOMINATION: u64 = 1000000000;

/// The vault's state as kept in its program account.
#[allow(non_camel_case_types)]
pub struct store {
    pub is_initialized: bool,
    pub program_id: [u8; 32],
    pub denominated_amount: u64,
    pub amount: u64,
    /// Commitments that have been deposited and not yet withdrawn; a
    /// withdrawn slot is all zeros.
    pub commitments: [[u8; 32]; 16],
    /// The slot that the next deposit fills.
    pub current_index: usize,
}

/// The contents of a `store` as plain values.
#[verifier::ext_equal]
pub struct StoreModel {
    pub is_initialized: bool,
    pub program_id: Seq<u8>,
    pub denominated_amount: u64,
    pub amount: u64,
    pub commitments: Seq<Seq<u8>>,
    pub current_index: usize,
}

impl View for store {
    type V = StoreModel;

    open spec fn view(&self) -> StoreModel {
        StoreModel {
            is_initialized: self.is_initialized,
            program_id: self.program_id@,
            denominated_amount: self.denominated_amount,
            amount: self.amount,
            commitments: self.commitments@.map_values(|c: [u8; 32]| c@),
            current_index: self.current_index,
        }
    }
}

impl StoreModel {
    /// The shape that every `store` has.
    pub open spec fn well_formed(self) -> bool {
        &&& self.program_id.len() == 32
        &&& self.commitments.len() == COMMITMENT_SLOTS
        &&& all_of_width(self.commitments, 32)
    }

    /// The store that `unpack_from_slice` reads from the first `STORE_LEN`
    /// bytes of `b`: flag byte (read as set, whatever it holds), program id,
    /// denomination, amount, sixteen 32-byte commitments, next slot; the
    /// integers little-endian.
    pub open spec fn from_bytes(b: Seq<u8>) -> StoreModel {
        StoreModel {
            is_initialized: true,
            program_id: b.subrange(1, 33),
            denominated_amount: spec_u64_from_le_bytes(b.subrange(33, 41)),
            amount: spec_u64_from_le_bytes(b.subrange(41, 49)),
            commitments: chunks(b.subrange(49, 561), 32, 16),
            current_index: spec_u64_from_le_bytes(b.subrange(561, 569)) as usize,
        }
    }

    /// The index of the first slot that holds `c` (compared as big-endian
    /// integers), or the number of slots if none does.
    pub open spec fn first_match(self, c: Seq<u8>) -> int {
        first_match_from(self.commitments, c, 0)
    }

    /// Some slot holds `c`.
    pub open spec fn holds(self, c: Seq<u8>) -> bool {
        self.first_match(c) < self.commitments.len()
    }

    /// The slot at `i` is empty: its commitment denotes zero.
    pub open spec fn slot_empty(self, i: int) -> bool {
        be_value(self.commitments[i]) == 0
    }

    /// The inputs on which `deposit` completes: a 32-byte commitment that no
    /// slot holds, exactly one denomination, account lamports that cover the
    /// denomination and agree with the recorded amount (or a recorded amount
    /// of zero), and a next slot that is in range and empty, so that no
    /// commitment still awaiting its withdrawal is overwritten.
    pub open spec fn deposit_allowed(self, c: Seq<u8>, amount: u64, lamports: u64) -> bool {
        &&& c.len() == 32
        &&& amount == self.denominated_amount
        &&& lamports >= self.denominated_amount
        &&& (self.amount == 0 || self.amount == lamports - self.denominated_amount)
        &&& !self.holds(c)
        &&& self.current_index < COMMITMENT_SLOTS
        &&& self.slot_empty(self.current_index as int)
    }

    /// The store after a deposit of `c` into an account holding `lamports`:
    /// `c` fills the next slot, the slot index moves on round the ring, and
    /// the recorded amount becomes `lamports`.
    pub open spec fn deposited(self, c: Seq<u8>, lamports: u64) -> StoreModel {
        StoreModel {
            amount: lamports,
            commitments: self.commitments.update(self.current_index as int, c),
            current_index: ((self.current_index + 1) % (COMMITMENT_SLOTS as int)) as usize,
            ..self
        }
    }

    /// The inputs on which `withdraw` completes: a commitment of at most 32
    /// bytes that does not denote zero (the content of an empty slot, which
    /// no deposit brings) and that some slot holds, and a recorded amount of
    /// at least one denomination.
    pub open spec fn withdraw_allowed(self, c: Seq<u8>) -> bool {
        &&& c.len() <= 32
        &&& be_value(c) != 0
        &&& self.holds(c)
        &&& self.amount >= self.denominated_amount
    }

    /// The store after a withdrawal with `c`: the first slot that holds it
    /// is cleared and the recorded amount drops by one denomination.
    pub open spec fn withdrawn(self, c: Seq<u8>) -> StoreModel {
        StoreModel {
            amount: (self.amount - self.denominated_amount) as u64,
            commitments: self.commitments.update(self.first_match(c), zero_commitment()),
            ..self
        }
    }

    /// The store as instruction processing uses it: program id and
    /// denomination set.
    pub open spec fn configured(self, program_id: Seq<u8>) -> StoreModel {
        StoreModel { program_id, denominated_amount: DENOMINATION, ..self }
    }

    /// The `STORE_LEN` bytes that `pack_into_slice` writes.
    pub open spec fn to_bytes(self) -> Seq<u8> {
        seq![if self.is_initialized { 1u8 } else { 0u8 }] + self.program_id
            + spec_u64_to_le_bytes(self.denominated_amount) + spec_u64_to_le_bytes(self.amount)
            + flatten(self.commitments) + spec_u64_to_le_bytes(self.current_index as u64)
    }
}

/// The index of the first of `slots[j..]` that denotes the same integer as
/// `c`, or `slots.len()` if none does.
pub open spec fn first_match_from(slots: Seq<Seq<u8>>, c: Seq<u8>, j: int) -> int
    decreases slots.len() - j,
{
    if j >= slots.len() {
        slots.len() as int
    } else if same_value(slots[j], c) {
        j
    } else {
        first_match_from(slots, c, j + 1)
    }
}

/// The content of an empty slot.
pub open spec fn zero_commitment() -> Seq<u8> {
    Seq::new(32, |i: int| 0u8)
}

pub(crate) proof fn lemma_to_bytes_layout(m: StoreModel)
    requires
        m.well_formed(),
    ensures
        m.to_bytes().len() == STORE_LEN,
        m.to_bytes()[0] == (if m.is_initialized { 1u8 } else { 0u8 }),
        m.to_bytes().subrange(1, 33) == m.program_id,
        m.to_bytes().subrange(33, 41) == spec_u64_to_le_bytes(m.denominated_amount),
        m.to_bytes().subrange(41, 49) == spec_u64_to_le_bytes(m.amount),
        m.to_bytes().subrange(49, 561) == flatten(m.commitments),
        m.to_bytes().subrange(561, 569) == spec_u64_to_le_bytes(m.current_index as u64),
{
    lemma_auto_spec_u64_to_from_le_bytes();
    lemma_flatten_len(m.commitments, 32);
    let b = m.to_bytes();
    assert(b.subrange(1, 33) =~= m.program_id);
    assert(b.subrange(33, 41) =~= spec_u64_to_le_bytes(m.denominated_amount));
    assert(b.subrange(41, 49) =~= spec_u64_to_le_bytes(m.amount));
    assert(b.subrange(49, 561) =~= flatten(m.commitments));
    assert(b.subrange(561, 569) =~= spec_u64_to_le_bytes(m.current_index as u64));
}

impl store {
    /// Every `store` has the shape of `StoreModel::well_formed`.
    pub proof fn lemma_well_formed(&self)
        ensures
            self@.well_formed(),
    {
        assert forall|i: int| 0 <= i < self@.commitments.len() implies #[trigger] self@.commitments[i].len() == 32 by {}
    }

    /// Reads a store from the first `STORE_LEN` bytes of `input` (it panics
    /// on fewer); the store is always marked initialized.
    pub fn unpack_from_slice(input: &[u8]) -> (r: Result<store, VaultError>)
        requires
            input@.len() >= STORE_LEN,
        ensures
            r matches Ok(s) && s@ == StoreModel::from_bytes(input@),
    {
        let ghost b = input@;
        let mut program_id = [0u8; 32];
        for k in 0usize..32
            invariant
                input@ == b,
                b.len() >= STORE_LEN,
                forall|j: int| 0 <= j < k ==> program_id@[j] == b[1 + j],
        {
            program_id[k] = input[1 + k];
        }
        let denominated_amount = read_u64_le(input, 33);
        let amount = read_u64_le(input, 41);
        let mut commitments = [[0u8; 32]; 16];
        for i in 0usize..16
            invariant
                input@ == b,
                b.len() >= STORE_LEN,
                forall|j: int|
                    0 <= j < i ==> #[trigger] commitments@[j]@ == b.subrange(49 + 32 * j, 81 + 32 * j),
        {
            let mut c = [0u8; 32];
            for k in 0usize..32
                invariant
                    input@ == b,
                    b.len() >= STORE_LEN,
                    0 <= i < 16,
                    forall|j: int| 0 <= j < k ==> c@[j] == b[49 + 32 * i + j],
            {
                c[k] = input[49 + 32 * i + k];
            }
            assert(c@ =~= b.subrange(49 + 32 * i, 81 + 32 * i));
            commitments[i] = c;
        }
        let current_index = u64_from_le_bytes(slice_subrange(input, 561, 569)) as usize;
        let s = store {
            is_initialized: true,
            program_id,
            denominated_amount,
            amount,
            commitments,
            current_index,
        };
        assert(program_id@ =~= b.subrange(1, 33));
        assert(s@.commitments =~= chunks(b.subrange(49, 561), 32, 16)) by {
            assert forall|j: int| 0 <= j < 16 implies #[trigger] s@.commitments[j]
                =~= chunks(b.subrange(49, 561), 32, 16)[j] by {
                assert(commitments@[j]@ == b.subrange(49 + 32 * j, 81 + 32 * j));
            }
        }
        Ok(s)
    }

    /// Writes the store into the first `STORE_LEN` bytes of `dst` (it panics
    /// on fewer) and leaves the rest of `dst` as it was.
    pub fn pack_into_slice(&self, dst: &mut [u8])
        requires
            old(dst)@.len() >= STORE_LEN,
        ensures
            final(dst)@ == self@.to_bytes() + old(dst)@.subrange(
                STORE_LEN as int,
                old(dst)@.len() as int,
            ),
    {
        let ghost d0 = dst@;
        let ghost m = self@;
        let ghost t = m.to_bytes();
        proof {
            self.lemma_well_formed();
            lemma_to_bytes_layout(m);
            lemma_auto_spec_u64_to_from_le_bytes();
        }
        let mut j: usize = 49;
        for i in 0usize..16
            invariant
                m == self@,
                m.well_formed(),
                t == m.to_bytes(),
                t.subrange(49, 561) == flatten(m.commitments),
                t.len() == STORE_LEN,
                dst@.len() == d0.len(),
                d0.len() >= STORE_LEN,
                j == 49 + 32 * i,
                forall|k: int| 49 <= k < j ==> dst@[k] == t[k],
                forall|k: int| 0 <= k < 49 || 561 <= k < d0.len() ==> dst@[k] == d0[k],
        {
            for b in 0usize..32
                invariant
                    m == self@,
                    m.well_formed(),
                    t.subrange(49, 561) == flatten(m.commitments),
                    t.len() == STORE_LEN,
                    0 <= i < 16,
                    dst@.len() == d0.len(),
                    d0.len() >= STORE_LEN,
                    j == 49 + 32 * i + b,
                    forall|k: int| 49 <= k < j ==> dst@[k] == t[k],
                    forall|k: int| 0 <= k < 49 || 561 <= k < d0.len() ==> dst@[k] == d0[k],
            {
                proof {
                    lemma_flatten_index(m.commitments, 32, i as int, b as int);
                    assert(t.subrange(49, 561)[32 * i + b] == t[j as int]);
                }
                dst[j] = self.commitments[i][b];
                j = j + 1;
            }
        }
        dst[0] = if self.is_initialized { 1u8 } else { 0u8 };
        for k in 0usize..32
            invariant
                m == self@,
                t == m.to_bytes(),
                t.subrange(1, 33) == m.program_id,
                t.len() == STORE_LEN,
                dst@.len() == d0.len(),
                d0.len() >= STORE_LEN,
                dst@[0] == t[0],
                forall|p: int| 1 <= p < 1 + k ==> dst@[p] == t[p],
                forall|p: int| 49 <= p < 561 ==> dst@[p] == t[p],
                forall|p: int| 561 <= p < d0.len() ==> dst@[p] == d0[p],
        {
            proof {
                assert(t.subrange(1, 33)[k as int] == t[1 + k]);
            }
            dst[1 + k] = self.program_id[k];
        }
        let ghost d1 = dst@;
        write_u64_le(dst, 41, self.amount);
        let ghost d2 = dst@;
        write_u64_le(dst, 33, self.denominated_amount);
        let ci = u64_to_le_bytes(self.current_index as u64);
        let ghost d3 = dst@;
        assert forall|p: int| 0 <= p < 561 implies dst@[p] == t[p] by {
            if 33 <= p < 41 {
                assert(t.subrange(33, 41)[p - 33] == t[p]);
            } else if 41 <= p < 49 {
                assert(d2[p] == d1.subrange(0, 41).add(spec_u64_to_le_bytes(self.amount)).add(
                    d1.subrange(49, d1.len() as int))[p]);
                assert(t.subrange(41, 49)[p - 41] == t[p]);
            } else {
                assert(d2[p] == d1[p]);
            }
        }
        for k in 0usize..8
            invariant
                t == m.to_bytes(),
                t.subrange(561, 569) == spec_u64_to_le_bytes(m.current_index as u64),
                ci@ == spec_u64_to_le_bytes(m.current_index as u64),
                ci@.len() == 8,
                t.len() == STORE_LEN,
                dst@.len() == d0.len(),
                d0.len() >= STORE_LEN,
                forall|p: int| 0 <= p < 561 + k ==> dst@[p] == t[p],
                forall|p: int| 569 <= p < d0.len() ==> dst@[p] == d0[p],
        {
            proof {
                assert(t.subrange(561, 569)[k as int] == t[561 + k]);
            }
            dst[561 + k] = ci[k];
        }
        assert(dst@ =~= t + d0.subrange(STORE_LEN as int, d0.len() as int));
    }

    /// Whether the store is initialized.
    pub fn is_initialized(&self) -> (r: bool)
        ensures
            r == self.is_initialized,
    {
        self.is_initialized
    }

    /// Searches the slots in order for one that holds `commitment`, each
    /// compared with it as a big-endian 256-bit integer.
    pub fn find_commitment(&self, commitment: &[u8]) -> (r: Option<usize>)
        requires
            commitment@.len() <= 32,
        ensures
            match r {
                Some(j) => j == self@.first_match(commitment@) && j < COMMITMENT_SLOTS,
                None => !self@.holds(commitment@),
            },
    {
        let ghost slots = self@.commitments;
        let mut j: usize = 0;
        while j < COMMITMENT_SLOTS
            invariant
                slots == self@.commitments,
                slots.len() == COMMITMENT_SLOTS,
                commitment@.len() <= 32,
                0 <= j <= COMMITMENT_SLOTS,
                first_match_from(slots, commitment@, 0) == first_match_from(slots, commitment@, j as int),
            decreases COMMITMENT_SLOTS - j,
        {
            if u256_equal(&self.commitments[j], commitment) {
                return Some(j);
            }
            j = j + 1;
        }
        None
    }

    /// Whether the slot at `i` is empty, read as a 256-bit integer and
    /// compared with zero.
    pub fn is_slot_empty(&self, i: usize) -> (r: bool)
        requires
            i < COMMITMENT_SLOTS,
        ensures
            r == self@.slot_empty(i as int),
    {
        let zeros = [0u8; 32];
        proof {
            lemma_zeros_value(zeros@);
        }
        u256_equal(&self.commitments[i], &zeros)
    }

    /// Whether `deposit` completes on these inputs.
    pub fn accepts_deposit(&self, commitment: &[u8], amount: u64, account_lamports: u64) -> (r: bool)
        ensures
            r == self@.deposit_allowed(commitment@, amount, account_lamports),
    {
        commitment.len() == 32 && amount == self.denominated_amount && account_lamports
            >= self.denominated_amount && (self.amount == 0 || self.amount == account_lamports
            - self.denominated_amount) && self.current_index < COMMITMENT_SLOTS
            && self.is_slot_empty(self.current_index) && self.find_commitment(commitment).is_none()
    }

    /// Whether `withdraw` completes with this commitment.
    pub fn accepts_withdrawal(&self, commitment: &[u8]) -> (r: bool)
        ensures
            r == self@.withdraw_allowed(commitment@),
    {
        if commitment.len() > 32 {
            return false;
        }
        let zeros = [0u8; 32];
        proof {
            lemma_zeros_value(zeros@);
        }
        !u256_equal(&zeros, commitment) && self.amount >= self.denominated_amount
            && self.find_commitment(commitment).is_some()
    }

    /// Takes in `commitment` for one denomination, `amount`, paid into the
    /// vault account, which now holds `account_lamports`. A recorded amount
    /// of zero is first set from the account's lamports; the commitment fills
    /// the next slot of the ring, which must be empty.
    pub fn deposit(&mut self, commitment: &[u8], amount: u64, account_lamports: u64)
        requires
            old(self)@.deposit_allowed(commitment@, amount, account_lamports),
        ensures
            final(self)@ == old(self)@.deposited(commitment@, account_lamports),
    {
        if self.amount == 0 {
            self.amount = account_lamports - self.denominated_amount;
        }
        self.amount = self.amount + self.denominated_amount;
        let mut c = [0u8; 32];
        for k in 0usize..32
            invariant
                commitment@.len() == 32,
                forall|p: int| 0 <= p < k ==> c@[p] == commitment@[p],
        {
            c[k] = commitment[k];
        }
        assert(c@ =~= commitment@);
        let ci = self.current_index;
        self.commitments[ci] = c;
        self.current_index = (ci + 1) % COMMITMENT_SLOTS;
        assert(self@.commitments =~= old(self)@.commitments.update(ci as int, commitment@));
    }

    /// Releases one denomination against `commitment`, which must be
    /// non-zero: the first slot that holds it is cleared.
    pub fn withdraw(&mut self, commitment: &[u8])
        requires
            old(self)@.withdraw_allowed(commitment@),
        ensures
            final(self)@ == old(self)@.withdrawn(commitment@),
    {
        match self.find_commitment(commitment) {
            Some(j) => {
                let zeros = [0u8; 32];
                assert(zeros@ =~= zero_commitment());
                self.commitments[j] = zeros;
                self.amount = self.amount - self.denominated_amount;
                assert(self@.commitments =~= old(self)@.commitments.update(
                    j as int,
                    zero_commitment(),
                ));
            },
            None => {},
        }
    }
}

/// The commitment that an instruction names: its first 32 bytes.
pub open spec fn instruction_commitment(data: Seq<u8>) -> Seq<u8> {
    data.subrange(0, 32)
}

/// The amount that an instruction names: bytes 32 to 40, little-endian.
pub open spec fn instruction_amount(data: Seq<u8>) -> u64 {
    spec_u64_from_le_bytes(data.subrange(32, 40))
}

/// The store that instruction processing works on: the vault account's data
/// unpacked, with this program's id and the fixed denomination set.
pub open spec fn working_store(program_id: Seq<u8>, vault_data: Seq<u8>) -> StoreModel {
    StoreModel::from_bytes(vault_data).configured(program_id)
}

/// The inputs on which processing an instruction aborts rather than
/// completing or returning an error: an instruction shorter than 40 bytes;
/// or, with vault data of the right length, an instruction without a tag
/// byte at 40, a deposit (tag 1) that `deposit` does not accept, or a
/// withdrawal (tag 0) that `withdraw` does not accept.
pub open spec fn aborts_on(
    program_id: Seq<u8>,
    instruction: Seq<u8>,
    vault_data: Seq<u8>,
    vault_lamports: u64,
) -> bool {
    ||| instruction.len() < 40
    ||| vault_data.len() == STORE_LEN && {
        let s = working_store(program_id, vault_data);
        let c = instruction_commitment(instruction);
        ||| instruction.len() < 41
        ||| instruction[40] == 1 && !s.deposit_allowed(c, instruction_amount(instruction), vault_lamports)
        ||| instruction[40] == 0 && !s.withdraw_allowed(c)
    }
}

/// Whether processing this instruction aborts (see `aborts_on`).
pub fn would_abort(
    program_id: &[u8; 32],
    instruction_data: &[u8],
    vault_data: &[u8],
    vault_lamports: u64,
) -> (r: bool)
    ensures
        r == aborts_on(program_id@, instruction_data@, vault_data@, vault_lamports),
{
    if instruction_data.len() < 40 {
        return true;
    }
    if vault_data.len() != STORE_LEN {
        return false;
    }
    if instruction_data.len() < 41 {
        return true;
    }
    let commitment = slice_subrange(instruction_data, 0, 32);
    let amount = u64_from_le_bytes(slice_subrange(instruction_data, 32, 40));
    let mut data = match store::unpack_from_slice(vault_data) {
        Ok(s) => s,
        Err(_) => {
            return false;
        },
    };
    data.denominated_amount = DENOMINATION;
    data.program_id = *program_id;
    assert(data@ =~= working_store(program_id@, vault_data@));
    if instruction_data[40] == 1 {
        !data.accepts_deposit(commitment, amount, vault_lamports)
    } else if instruction_data[40] == 0 {
        !data.accepts_withdrawal(commitment)
    } else {
        false
    }
}

/// Processes one vault instruction against the vault account's data.
///
/// The instruction is a 32-byte commitment, an 8-byte little-endian amount
/// and a tag byte: 1 deposits, 0 withdraws, anything else does nothing. The
/// account data must be a packed store; it is unpacked, given this program's
/// id and the fixed denomination, updated, and packed back. On success the
/// result says how many lamports the caller moves from the vault account to
/// the recipient account (`Some` only for a withdrawal).
pub fn process(
    program_id: &[u8; 32],
    instruction_data: &[u8],
    vault_data: &mut [u8],
    vault_lamports: u64,
) -> (r: Result<Option<u64>, VaultError>)
    requires
        !aborts_on(program_id@, instruction_data@, old(vault_data)@, vault_lamports),
    ensures
        old(vault_data)@.len() != STORE_LEN ==> {
            &&& r == Err::<Option<u64>, VaultError>(VaultError::InvalidAccountData)
            &&& final(vault_data)@ == old(vault_data)@
        },
        old(vault_data)@.len() == STORE_LEN ==> {
            let s = working_store(program_id@, old(vault_data)@);
            let c = instruction_commitment(instruction_data@);
            let tag = instruction_data@[40];
            &&& tag == 1 ==> {
                &&& r == Ok::<Option<u64>, VaultError>(None)
                &&& final(vault_data)@ == s.deposited(c, vault_lamports).to_bytes()
            }
            &&& tag == 0 ==> {
                &&& r == Ok::<Option<u64>, VaultError>(Some(DENOMINATION))
                &&& final(vault_data)@ == s.withdrawn(c).to_bytes()
            }
            &&& tag != 0 && tag != 1 ==> {
                &&& r == Ok::<Option<u64>, VaultError>(None)
                &&& final(vault_data)@ == old(vault_data)@
            }
        },
{
    let mut commitment = [0u8; 32];
    for k in 0usize..32
        invariant
            instruction_data@.len() >= 40,
            forall|p: int| 0 <= p < k ==> commitment@[p] == instruction_data@[p],
    {
        commitment[k] = instruction_data[k];
    }
    assert(commitment@ =~= instruction_commitment(instruction_data@));
    let amount = u64_from_le_bytes(slice_subrange(instruction_data, 32, 40));
    if vault_data.len() != STORE_LEN {
        return Err(VaultError::InvalidAccountData);
    }
    let mut data = match store::unpack_from_slice(vault_data) {
        Ok(s) => s,
        Err(e) => {
            return Err(e);
        },
    };
    if !data.is_initialized() {
        return Err(VaultError::UninitializedAccount);
    }
    data.denominated_amount = DENOMINATION;
    data.program_id = *program_id;
    assert(data@ =~= working_store(program_id@, old(vault_data)@));
    if instruction_data[40] == 1 {
        data.deposit(&commitment, amount, vault_lamports);
        data.pack_into_slice(vault_data);
        proof {
            data.lemma_well_formed();
            lemma_to_bytes_layout(data@);
        }
        assert(vault_data@ =~= data@.to_bytes());
        Ok(None)
    } else if instruction_data[40] == 0 {
        data.withdraw(&commitment);
        data.pack_into_slice(vault_data);
        proof {
            data.lemma_well_formed();
            lemma_to_bytes_layout(data@);
        }
        assert(vault_data@ =~= data@.to_bytes());
        Ok(Some(data.denominated_amount))
    } else {
        Ok(None)
    }
}

} // verus!
