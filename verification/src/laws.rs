//! Properties of the current vault layout that span several operations:
//! what unpacking gives back of packing, and how deposits and withdrawals of
//! one commitment relate.
use vstd::prelude::*;
use vstd::bytes::spec_u64_from_le_bytes;
use vstd::bytes::lemma_auto_spec_u64_to_from_le_bytes;
use crate::codec::all_of_width;
use crate::codec::be_value;
use crate::codec::lemma_chunks_flatten;
use crate::codec::lemma_flatten_chunks;
use crate::codec::lemma_zeros_value;
use crate::codec::same_value;
use crate::lemma_to_bytes_layout;
use crate::aborts_on;
use crate::first_match_from;
use crate::instruction_amount;
use crate::instruction_commitment;
use crate::working_store;
use crate::zero_commitment;
use crate::StoreModel;
use crate::COMMITMENT_SLOTS;
use crate::DENOMINATION;
use crate::STORE_LEN;

verus! {

/// No two slots that hold a non-zero commitment hold the same one (compared
/// as big-endian integers).
pub open spec fn distinct_commitments(slots: Seq<Seq<u8>>) -> bool {
    forall|i: int, j: int|
        0 <= i < slots.len() && 0 <= j < slots.len() && i != j && be_value(#[trigger] slots[i]) != 0
            ==> !same_value(slots[i], #[trigger] slots[j])
}

/// `first_match_from(slots, c, j)` is the first index from `j` on whose slot
/// holds `c`, or `slots.len()`.
pub proof fn lemma_first_match_from(slots: Seq<Seq<u8>>, c: Seq<u8>, j: int)
    requires
        0 <= j <= slots.len(),
    ensures
        j <= first_match_from(slots, c, j) <= slots.len(),
        first_match_from(slots, c, j) < slots.len() ==> same_value(
            slots[first_match_from(slots, c, j)],
            c,
        ),
        forall|k: int| j <= k < first_match_from(slots, c, j) ==> !same_value(#[trigger] slots[k], c),
    decreases slots.len() - j,
{
    if j < slots.len() && !same_value(slots[j], c) {
        lemma_first_match_from(slots, c, j + 1);
    }
}

/// Unpacking what `pack_into_slice` wrote gives back the store, when it is
/// marked initialized (unpacking always marks it so).
pub proof fn lemma_unpack_after_pack(m: StoreModel)
    requires
        m.well_formed(),
        m.is_initialized,
    ensures
        StoreModel::from_bytes(m.to_bytes()) == m,
{
    lemma_to_bytes_layout(m);
    lemma_auto_spec_u64_to_from_le_bytes();
    lemma_chunks_flatten(m.commitments, 32);
    let u = StoreModel::from_bytes(m.to_bytes());
    assert(u.commitments =~= m.commitments);
    assert(u.program_id =~= m.program_id);
}

/// Packing a store unpacked from `b` gives back the first `STORE_LEN` bytes
/// of `b`, except that the flag byte now reads as set; where the next-slot
/// field fits in `usize`.
pub proof fn lemma_pack_after_unpack(b: Seq<u8>)
    requires
        b.len() >= STORE_LEN,
        spec_u64_from_le_bytes(b.subrange(561, 569)) <= usize::MAX,
    ensures
        StoreModel::from_bytes(b).to_bytes() == b.subrange(0, STORE_LEN as int).update(0, 1u8),
{
    let m = StoreModel::from_bytes(b);
    lemma_auto_spec_u64_to_from_le_bytes();
    assert(all_of_width(m.commitments, 32));
    lemma_to_bytes_layout(m);
    lemma_flatten_chunks(b.subrange(49, 561), 32, 16);
    assert(b.subrange(33, 41).len() == 8);
    assert(b.subrange(41, 49).len() == 8);
    assert(b.subrange(561, 569).len() == 8);
    let t = m.to_bytes();
    assert forall|p: int| 0 <= p < STORE_LEN implies t[p] == b.subrange(0, STORE_LEN as int).update(0, 1u8)[p] by {
        if 1 <= p < 33 {
            assert(t.subrange(1, 33)[p - 1] == t[p]);
        } else if 33 <= p < 41 {
            assert(t.subrange(33, 41)[p - 33] == t[p]);
            assert(b.subrange(33, 41)[p - 33] == b[p]);
        } else if 41 <= p < 49 {
            assert(t.subrange(41, 49)[p - 41] == t[p]);
            assert(b.subrange(41, 49)[p - 41] == b[p]);
        } else if 49 <= p < 561 {
            assert(t.subrange(49, 561)[p - 49] == t[p]);
            assert(b.subrange(49, 561)[p - 49] == b[p]);
        } else if 561 <= p < 569 {
            assert(t.subrange(561, 569)[p - 561] == t[p]);
            assert(b.subrange(561, 569)[p - 561] == b[p]);
        }
    }
    assert(t =~= b.subrange(0, STORE_LEN as int).update(0, 1u8));
}

/// A deposited commitment can be withdrawn at once, and the withdrawal
/// clears exactly the slot that the deposit filled and takes back the
/// denomination.
pub proof fn lemma_withdraw_after_deposit(m: StoreModel, c: Seq<u8>, amount: u64, lamports: u64)
    requires
        m.well_formed(),
        m.deposit_allowed(c, amount, lamports),
    ensures
        m.deposited(c, lamports).withdraw_allowed(c),
        m.deposited(c, lamports).first_match(c) == m.current_index,
        m.deposited(c, lamports).withdrawn(c) == (StoreModel {
            amount: (lamports - m.denominated_amount) as u64,
            commitments: m.commitments.update(m.current_index as int, zero_commitment()),
            current_index: m.deposited(c, lamports).current_index,
            ..m
        }),
{
    let d = m.deposited(c, lamports);
    lemma_first_match_from(m.commitments, c, 0);
    lemma_first_match_from(d.commitments, c, 0);
    let f = d.first_match(c);
    if f != m.current_index {
        if f < m.current_index {
            assert(!same_value(d.commitments[f], c));
        }
        assert(same_value(d.commitments[m.current_index as int], c));
        assert(false);
    }
    assert(d.withdrawn(c).commitments =~= m.commitments.update(
        m.current_index as int,
        zero_commitment(),
    ));
}

/// A commitment is taken in only once: after it is deposited, depositing it
/// again is refused, whatever amount and lamports come with it.
pub proof fn lemma_deposit_once(
    m: StoreModel,
    c: Seq<u8>,
    amount: u64,
    lamports: u64,
    amount2: u64,
    lamports2: u64,
)
    requires
        m.well_formed(),
        m.deposit_allowed(c, amount, lamports),
    ensures
        !m.deposited(c, lamports).deposit_allowed(c, amount2, lamports2),
{
    lemma_withdraw_after_deposit(m, c, amount, lamports);
}

/// Deposits keep the stored non-zero commitments distinct.
pub proof fn lemma_deposit_keeps_distinct(m: StoreModel, c: Seq<u8>, amount: u64, lamports: u64)
    requires
        m.well_formed(),
        distinct_commitments(m.commitments),
        m.deposit_allowed(c, amount, lamports),
    ensures
        distinct_commitments(m.deposited(c, lamports).commitments),
{
    let s = m.deposited(c, lamports).commitments;
    let ci = m.current_index as int;
    lemma_first_match_from(m.commitments, c, 0);
    assert forall|i: int, j: int|
        0 <= i < s.len() && 0 <= j < s.len() && i != j && be_value(#[trigger] s[i]) != 0 implies !same_value(
        s[i],
        #[trigger] s[j],
    ) by {
        if i == ci {
            assert(!same_value(m.commitments[j], c));
        } else if j == ci {
            assert(!same_value(m.commitments[i], c));
        } else {
            assert(s[i] == m.commitments[i] && s[j] == m.commitments[j]);
        }
    }
}

/// Withdrawals keep the stored non-zero commitments distinct.
pub proof fn lemma_withdraw_keeps_distinct(m: StoreModel, c: Seq<u8>)
    requires
        m.well_formed(),
        distinct_commitments(m.commitments),
        m.withdraw_allowed(c),
    ensures
        distinct_commitments(m.withdrawn(c).commitments),
{
    let s = m.withdrawn(c).commitments;
    let f = m.first_match(c);
    lemma_first_match_from(m.commitments, c, 0);
    lemma_zeros_value(zero_commitment());
    assert forall|i: int, j: int|
        0 <= i < s.len() && 0 <= j < s.len() && i != j && be_value(#[trigger] s[i]) != 0 implies !same_value(
        s[i],
        #[trigger] s[j],
    ) by {
        if j == f {
            assert(s[j] == zero_commitment());
        } else if i != f {
            assert(s[i] == m.commitments[i] && s[j] == m.commitments[j]);
        }
    }
}

/// A withdrawal cannot be repeated: once a commitment that only one slot
/// holds has been withdrawn, no slot holds it any more.
pub proof fn lemma_withdraw_once(m: StoreModel, c: Seq<u8>)
    requires
        m.well_formed(),
        distinct_commitments(m.commitments),
        m.withdraw_allowed(c),
    ensures
        !m.withdrawn(c).holds(c),
        !m.withdrawn(c).withdraw_allowed(c),
{
    let w = m.withdrawn(c);
    let f = m.first_match(c);
    lemma_first_match_from(m.commitments, c, 0);
    lemma_first_match_from(w.commitments, c, 0);
    lemma_zeros_value(zero_commitment());
    let g = w.first_match(c);
    if g < COMMITMENT_SLOTS {
        assert(same_value(w.commitments[g], c));
        if g == f {
            assert(w.commitments[g] == zero_commitment());
        } else {
            assert(w.commitments[g] == m.commitments[g]);
            assert(same_value(m.commitments[f], c));
            assert(!same_value(m.commitments[f], m.commitments[g]));
        }
    }
}

/// Processing level: after a deposit instruction has completed, a
/// withdrawal instruction that names the same commitment completes too and
/// pays out one denomination, while a second deposit of that commitment
/// aborts.
pub proof fn lemma_process_deposit_then_withdraw(
    program_id: Seq<u8>,
    vault_data: Seq<u8>,
    deposit_ix: Seq<u8>,
    withdraw_ix: Seq<u8>,
    lamports: u64,
    later_lamports: u64,
)
    requires
        program_id.len() == 32,
        vault_data.len() == STORE_LEN,
        !aborts_on(program_id, deposit_ix, vault_data, lamports),
        deposit_ix[40] == 1,
        withdraw_ix.len() >= 41,
        withdraw_ix[40] == 0,
        instruction_commitment(withdraw_ix) == instruction_commitment(deposit_ix),
    ensures
        ({
            let after = working_store(program_id, vault_data).deposited(
                instruction_commitment(deposit_ix),
                lamports,
            ).to_bytes();
            &&& !aborts_on(program_id, withdraw_ix, after, later_lamports)
            &&& aborts_on(program_id, deposit_ix, after, later_lamports)
        }),
{
    let m = working_store(program_id, vault_data);
    let c = instruction_commitment(deposit_ix);
    let d = m.deposited(c, lamports);
    assert(all_of_width(m.commitments, 32));
    assert(m.well_formed());
    assert(d.well_formed()) by {
        assert forall|i: int| 0 <= i < d.commitments.len() implies #[trigger] d.commitments[i].len() == 32 by {
            if i != m.current_index {
                assert(d.commitments[i] == m.commitments[i]);
            }
        }
    }
    lemma_unpack_after_pack(d);
    lemma_to_bytes_layout(d);
    let after = d.to_bytes();
    assert(working_store(program_id, after) =~= d);
    lemma_withdraw_after_deposit(m, c, DENOMINATION, lamports);
    lemma_deposit_once(
        m,
        c,
        DENOMINATION,
        lamports,
        spec_u64_from_le_bytes(deposit_ix.subrange(32, 40)),
        later_lamports,
    );
}

/// Deposits and withdrawals are what change a store.
pub enum VaultOp {
    Deposit { commitment: Seq<u8>, amount: u64, lamports: u64 },
    Withdraw { commitment: Seq<u8> },
}

/// The operation completes on `m`.
pub open spec fn op_allowed(m: StoreModel, op: VaultOp) -> bool {
    match op {
        VaultOp::Deposit { commitment, amount, lamports } => m.deposit_allowed(
            commitment,
            amount,
            lamports,
        ),
        VaultOp::Withdraw { commitment } => m.withdraw_allowed(commitment),
    }
}

/// The store after the operation.
pub open spec fn apply(m: StoreModel, op: VaultOp) -> StoreModel {
    match op {
        VaultOp::Deposit { commitment, amount, lamports } => m.deposited(commitment, lamports),
        VaultOp::Withdraw { commitment } => m.withdrawn(commitment),
    }
}

/// Every operation of `ops`, applied in turn from `m`, completes.
pub open spec fn run_allowed(m: StoreModel, ops: Seq<VaultOp>) -> bool
    decreases ops.len(),
{
    ops.len() == 0 || (op_allowed(m, ops[0]) && run_allowed(apply(m, ops[0]), ops.drop_first()))
}

/// The store after applying `ops` in turn from `m`.
pub open spec fn run(m: StoreModel, ops: Seq<VaultOp>) -> StoreModel
    decreases ops.len(),
{
    if ops.len() == 0 {
        m
    } else {
        run(apply(m, ops[0]), ops.drop_first())
    }
}

/// The operation is a withdrawal with a commitment that denotes the same
/// integer as `c`.
pub open spec fn withdraws(op: VaultOp, c: Seq<u8>) -> bool {
    match op {
        VaultOp::Deposit { .. } => false,
        VaultOp::Withdraw { commitment } => same_value(commitment, c),
    }
}

/// Completed operations keep a store well formed and its denomination.
pub proof fn lemma_op_keeps_shape(m: StoreModel, op: VaultOp)
    requires
        m.well_formed(),
        op_allowed(m, op),
    ensures
        apply(m, op).well_formed(),
        apply(m, op).denominated_amount == m.denominated_amount,
{
    let n = apply(m, op);
    match op {
        VaultOp::Deposit { commitment, .. } => {},
        VaultOp::Withdraw { commitment } => {
            lemma_first_match_from(m.commitments, commitment, 0);
        },
    }
    assert forall|i: int| 0 <= i < n.commitments.len() implies #[trigger] n.commitments[i].len() == 32 by {
        if n.commitments[i] != m.commitments[i] {
            assert(n.commitments[i] == zero_commitment() || op is Deposit);
        }
    }
}

/// A deposit of another commitment keeps a stored non-zero commitment: it
/// only fills an empty slot.
pub proof fn lemma_deposit_keeps_held(m: StoreModel, c: Seq<u8>, c2: Seq<u8>, amount: u64, lamports: u64)
    requires
        m.well_formed(),
        m.holds(c),
        be_value(c) != 0,
        m.deposit_allowed(c2, amount, lamports),
    ensures
        m.deposited(c2, lamports).holds(c),
{
    let d = m.deposited(c2, lamports);
    let f = m.first_match(c);
    lemma_first_match_from(m.commitments, c, 0);
    lemma_first_match_from(d.commitments, c, 0);
    assert(f != m.current_index);
    assert(d.commitments[f] == m.commitments[f]);
    assert(same_value(d.commitments[f], c));
    if d.first_match(c) >= COMMITMENT_SLOTS {
        assert(!same_value(d.commitments[f], c));
    }
}

/// A withdrawal with a commitment of another value keeps a stored
/// commitment.
pub proof fn lemma_withdraw_keeps_held(m: StoreModel, c: Seq<u8>, c2: Seq<u8>)
    requires
        m.well_formed(),
        m.holds(c),
        m.withdraw_allowed(c2),
        !same_value(c2, c),
    ensures
        m.withdrawn(c2).holds(c),
{
    let w = m.withdrawn(c2);
    let f = m.first_match(c);
    let f2 = m.first_match(c2);
    lemma_first_match_from(m.commitments, c, 0);
    lemma_first_match_from(m.commitments, c2, 0);
    lemma_first_match_from(w.commitments, c, 0);
    assert(f != f2);
    assert(w.commitments[f] == m.commitments[f]);
    if w.first_match(c) >= COMMITMENT_SLOTS {
        assert(!same_value(w.commitments[f], c));
    }
}

/// A stored non-zero commitment stays stored through any completed run of
/// deposits and of withdrawals with other commitments.
pub proof fn lemma_run_keeps_held(m: StoreModel, c: Seq<u8>, ops: Seq<VaultOp>)
    requires
        m.well_formed(),
        m.holds(c),
        be_value(c) != 0,
        run_allowed(m, ops),
        forall|i: int| 0 <= i < ops.len() ==> !withdraws(#[trigger] ops[i], c),
    ensures
        run(m, ops).holds(c),
        run(m, ops).well_formed(),
        run(m, ops).denominated_amount == m.denominated_amount,
    decreases ops.len(),
{
    if ops.len() > 0 {
        let op = ops[0];
        lemma_op_keeps_shape(m, op);
        match op {
            VaultOp::Deposit { commitment, amount, lamports } => {
                lemma_deposit_keeps_held(m, c, commitment, amount, lamports);
            },
            VaultOp::Withdraw { commitment } => {
                assert(!withdraws(ops[0], c));
                lemma_withdraw_keeps_held(m, c, commitment);
            },
        }
        assert forall|i: int| 0 <= i < ops.drop_first().len() implies !withdraws(
            #[trigger] ops.drop_first()[i],
            c,
        ) by {
            assert(ops.drop_first()[i] == ops[i + 1]);
        }
        lemma_run_keeps_held(apply(m, op), c, ops.drop_first());
    }
}

/// Funds come back for the same commitment: after `c` is deposited, and
/// after any completed run of further deposits and of withdrawals with
/// other commitments, a withdrawal with `c` completes whenever the recorded
/// amount covers a denomination.
pub proof fn lemma_withdraw_after_run(
    m: StoreModel,
    c: Seq<u8>,
    amount: u64,
    lamports: u64,
    ops: Seq<VaultOp>,
)
    requires
        m.well_formed(),
        m.deposit_allowed(c, amount, lamports),
        run_allowed(m.deposited(c, lamports), ops),
        forall|i: int| 0 <= i < ops.len() ==> !withdraws(#[trigger] ops[i], c),
        run(m.deposited(c, lamports), ops).amount >= m.denominated_amount,
    ensures
        run(m.deposited(c, lamports), ops).withdraw_allowed(c),
{
    lemma_withdraw_after_deposit(m, c, amount, lamports);
    let d = m.deposited(c, lamports);
    lemma_op_keeps_shape(m, VaultOp::Deposit { commitment: c, amount, lamports });
    lemma_run_keeps_held(d, c, ops);
}

/// The vault data records `lamports`: bytes 41 to 49 hold them
/// little-endian.
pub open spec fn records_lamports(data: Seq<u8>, lamports: int) -> bool {
    &&& data.len() >= 49
    &&& spec_u64_from_le_bytes(data.subrange(41, 49)) == lamports
}

/// The recorded amount tracks the vault account's lamports: after a
/// completed deposit instruction the data that `process` writes records the
/// vault's lamports, and after a completed withdrawal instruction from data
/// that recorded them it records them less the payout that `process`
/// returns (one denomination), which is what the vault account then holds.
pub proof fn lemma_process_tracks_lamports(
    program_id: Seq<u8>,
    vault_data: Seq<u8>,
    instruction: Seq<u8>,
    lamports: u64,
)
    requires
        program_id.len() == 32,
        vault_data.len() == STORE_LEN,
        !aborts_on(program_id, instruction, vault_data, lamports),
    ensures
        instruction[40] == 1 ==> records_lamports(
            working_store(program_id, vault_data).deposited(
                instruction_commitment(instruction),
                lamports,
            ).to_bytes(),
            lamports as int,
        ),
        instruction[40] == 0 && records_lamports(vault_data, lamports as int) ==> records_lamports(
            working_store(program_id, vault_data).withdrawn(
                instruction_commitment(instruction),
            ).to_bytes(),
            lamports - DENOMINATION,
        ),
{
    let m = working_store(program_id, vault_data);
    let c = instruction_commitment(instruction);
    lemma_auto_spec_u64_to_from_le_bytes();
    assert(all_of_width(m.commitments, 32));
    assert(m.well_formed());
    if instruction[40] == 1 {
        let op = VaultOp::Deposit {
            commitment: c,
            amount: spec_u64_from_le_bytes(instruction.subrange(32, 40)),
            lamports,
        };
        lemma_op_keeps_shape(m, op);
        lemma_to_bytes_layout(m.deposited(c, lamports));
    }
    if instruction[40] == 0 {
        lemma_op_keeps_shape(m, VaultOp::Withdraw { commitment: c });
        lemma_to_bytes_layout(m.withdrawn(c));
    }
}

/// What a deposit asks of the amount and the lamports, and what it records:
/// it takes exactly one denomination; into a store with a non-zero recorded
/// amount only when the account then holds exactly that amount plus one
/// denomination; and the recorded amount afterwards is the account's
/// lamports, which is the old amount plus one denomination unless the old
/// amount was zero.
pub proof fn lemma_deposit_amount(m: StoreModel, c: Seq<u8>, amount: u64, lamports: u64)
    requires
        m.deposit_allowed(c, amount, lamports),
    ensures
        amount == m.denominated_amount,
        m.amount != 0 ==> lamports == m.amount + m.denominated_amount,
        m.deposited(c, lamports).amount == lamports,
        m.amount != 0 ==> m.deposited(c, lamports).amount == m.amount + m.denominated_amount,
{
}

/// A deposit instruction that the store accepts does not abort, and the data
/// that `process` writes for it holds the commitment in the store's next
/// slot, every other slot as it was, the vault's lamports as the recorded
/// amount, and the next slot moved on by one round the ring of sixteen.
pub proof fn lemma_deposit_instruction_applied(
    program_id: Seq<u8>,
    vault_data: Seq<u8>,
    instruction: Seq<u8>,
    lamports: u64,
)
    requires
        program_id.len() == 32,
        vault_data.len() == STORE_LEN,
        instruction.len() >= 41,
        instruction[40] == 1,
        working_store(program_id, vault_data).deposit_allowed(
            instruction_commitment(instruction),
            instruction_amount(instruction),
            lamports,
        ),
    ensures
        !aborts_on(program_id, instruction, vault_data, lamports),
        ({
            let m = working_store(program_id, vault_data);
            let ci = m.current_index as int;
            let out = StoreModel::from_bytes(
                m.deposited(instruction_commitment(instruction), lamports).to_bytes(),
            );
            &&& out.commitments[ci] == instruction_commitment(instruction)
            &&& forall|j: int|
                0 <= j < COMMITMENT_SLOTS && j != ci ==> #[trigger] out.commitments[j]
                    == m.commitments[j]
            &&& out.amount == lamports
            &&& out.current_index == (if ci == COMMITMENT_SLOTS - 1 { 0 } else { ci + 1 })
            &&& out.program_id == program_id
            &&& out.denominated_amount == DENOMINATION
        }),
{
    let m = working_store(program_id, vault_data);
    let c = instruction_commitment(instruction);
    assert(all_of_width(m.commitments, 32));
    lemma_op_keeps_shape(m, VaultOp::Deposit { commitment: c, amount: instruction_amount(instruction), lamports });
    lemma_unpack_after_pack(m.deposited(c, lamports));
}

} // verus!
