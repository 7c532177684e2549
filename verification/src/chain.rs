//! On-chain rules of deploying and claiming: which squares a prediction
//! marks, whether a miner must checkpoint first, whether it has anything to
//! claim, and how much refined ORE a miner has accrued.

use crate::seqs::SQUARES;
use fixed::types::I80F48;
use steel::Numeric;
use vstd::prelude::*;

verus! {

/// The squares a prediction marks: square `i` is marked when the
/// prediction holds `i`. Entries outside the board are left out and
/// returned in their order.
pub fn squares_from_prediction(pred: &[usize]) -> (r: ([bool; 25], Vec<usize>))
    ensures
        forall|i: int| 0 <= i < SQUARES ==> r.0@[i] == pred@.contains(i as usize),
        r.1@ == pred@.filter(|x: usize| x >= SQUARES),
{
    let mut squares: [bool; 25] = [false; 25];
    let mut ignored: Vec<usize> = Vec::new();
    let mut k: usize = 0;
    while k < pred.len()
        invariant
            k <= pred@.len(),
            squares@.len() == SQUARES,
            forall|i: int|
                0 <= i < SQUARES ==> squares@[i] == pred@.take(k as int).contains(i as usize),
            ignored@ == pred@.take(k as int).filter(|x: usize| x >= SQUARES),
        decreases pred@.len() - k,
    {
        let idx = pred[k];
        let ghost before = squares@;
        proof {
            assert(pred@.take(k + 1) =~= pred@.take(k as int).push(idx));
            pred@.take(k as int).lemma_filter_push(idx, |x: usize| x >= SQUARES);
        }
        if idx < SQUARES {
            squares.set(idx, true);
        } else {
            ignored.push(idx);
        }
        proof {
            let t1 = pred@.take(k + 1);
            let t0 = pred@.take(k as int);
            assert(t1 == t0.push(idx));
            assert forall|i: int| 0 <= i < SQUARES implies squares@[i] == t1.contains(i as usize) by {
                if i != idx {
                    assert(squares@[i] == before[i]);
                    assert(t1.contains(i as usize) ==> t0.contains(i as usize)) by {
                        if t1.contains(i as usize) {
                            let q = choose|q: int| 0 <= q < t1.len() && t1[q] == i as usize;
                            assert(t0[q] == i as usize);
                        }
                    }
                    assert(t0.contains(i as usize) ==> t1.contains(i as usize)) by {
                        if t0.contains(i as usize) {
                            let q = choose|q: int| 0 <= q < t0.len() && t0[q] == i as usize;
                            assert(t1[q] == i as usize);
                        }
                    }
                } else {
                    assert(t1[k as int] == idx);
                }
            }
        }
        k += 1;
    }
    assert(pred@.take(pred@.len() as int) =~= pred@);
    (squares, ignored)
}

/// Checkpoint state of a miner account: the round it last deployed in and
/// the round it last checkpointed.
#[derive(Clone, Copy, Debug)]
pub struct MinerCheckpoint {
    pub checkpoint_id: u64,
    pub round_id: u64,
}

/// The instructions of a deploy transaction: an optional checkpoint of the
/// given round, then the deployment itself.
#[derive(Clone, Copy, Debug)]
pub struct DeployTx {
    pub checkpoint_round: Option<u64>,
    pub amount: u64,
    pub round_id: u64,
    pub squares: [bool; 25],
}

/// The checkpoint that must precede a deployment: a miner without an
/// account checkpoints the board's round (which creates the account); a
/// miner that has not checkpointed its last round checkpoints that round;
/// otherwise none.
pub open spec fn needed_checkpoint(miner: Option<MinerCheckpoint>, board_round: u64) -> Option<
    u64,
> {
    match miner {
        None => Some(board_round),
        Some(m) => if m.checkpoint_id != m.round_id {
            Some(m.round_id)
        } else {
            None
        },
    }
}

/// The deploy transaction for a round: the checkpoint the miner needs, then
/// `amount` on every square the prediction marks.
pub fn deploy_tx(miner: Option<MinerCheckpoint>, board_round: u64, amount: u64, pred: &[usize]) -> (tx: (
    DeployTx,
    Vec<usize>,
))
    ensures
        tx.0.checkpoint_round == needed_checkpoint(miner, board_round),
        tx.0.amount == amount,
        tx.0.round_id == board_round,
        forall|i: int| 0 <= i < SQUARES ==> tx.0.squares@[i] == pred@.contains(i as usize),
        tx.1@ == pred@.filter(|x: usize| x >= SQUARES),
{
    let (squares, ignored) = squares_from_prediction(pred);
    let checkpoint_round = match miner {
        None => Some(board_round),
        Some(m) => if m.checkpoint_id != m.round_id {
            Some(m.round_id)
        } else {
            None
        },
    };
    (DeployTx { checkpoint_round, amount, round_id: board_round, squares }, ignored)
}

/// Whether a miner has SOL to claim: it has an account and its returned
/// SOL is not zero.
pub fn should_claim(rewards_sol: Option<u64>) -> (r: bool)
    ensures
        r == (rewards_sol is Some && rewards_sol->0 != 0),
{
    match rewards_sol {
        Some(v) => v != 0,
        None => false,
    }
}

/// One in fixed-point bits: the numbers carry 48 fractional bits.
pub open spec fn fixed_one() -> int {
    0x1_0000_0000_0000
}

/// Calls `steel::Numeric::from_u64`: the fixed-point number equal to
/// `value`, returned as its bits (`value * 2^48`; always representable with
/// 80 integer bits).
#[verifier::external_body]
fn numeric_from_u64(value: u64) -> (bits: i128)
    ensures
        bits == value * fixed_one(),
{
    Numeric::from_u64(value).to_i80f48().to_bits()
}

/// Calls `Sub` of `steel::Numeric`: the difference of two fixed-point
/// numbers, bit for bit. The call panics on overflow in debug builds, so
/// the difference must fit.
#[verifier::external_body]
fn numeric_sub(a: i128, b: i128) -> (bits: i128)
    requires
        i128::MIN <= a - b <= i128::MAX,
    ensures
        bits == a - b,
{
    let x = Numeric::from_i80f48(I80F48::from_bits(a));
    let y = Numeric::from_i80f48(I80F48::from_bits(b));
    (x - y).to_i80f48().to_bits()
}

/// Calls `Mul` of `steel::Numeric`: the product of two fixed-point numbers,
/// rounded down to 48 fractional bits (`floor(a * b / 2^48)` in bits). The
/// call panics on overflow in debug builds, so the product must fit.
#[verifier::external_body]
fn numeric_mul(a: i128, b: i128) -> (bits: i128)
    requires
        i128::MIN <= (a * b) / fixed_one() <= i128::MAX,
    ensures
        bits == (a * b) / fixed_one(),
{
    let x = Numeric::from_i80f48(I80F48::from_bits(a));
    let y = Numeric::from_i80f48(I80F48::from_bits(b));
    (x * y).to_i80f48().to_bits()
}

/// Calls `PartialOrd::lt` of `steel::Numeric`: fixed-point numbers compare
/// as their bits do.
#[verifier::external_body]
fn numeric_lt(a: i128, b: i128) -> (r: bool)
    ensures
        r == (a < b),
{
    let x = Numeric::from_i80f48(I80F48::from_bits(a));
    let y = Numeric::from_i80f48(I80F48::from_bits(b));
    x < y
}

/// Calls `steel::Numeric::to_u64`: the number rounded down to an integer
/// (`floor(a / 2^48)`). The conversion panics in debug builds when that
/// integer is negative or does not fit in 64 bits, so it must fit.
#[verifier::external_body]
fn numeric_to_u64(a: i128) -> (r: u64)
    requires
        0 <= (a as int) / fixed_one() <= u64::MAX,
    ensures
        r == (a as int) / fixed_one(),
{
    Numeric::from_i80f48(I80F48::from_bits(a)).to_u64()
}

/// The ORE reward fields of a miner account: its rewards factor (the bits
/// of a fixed-point number with 48 fractional bits), unrefined and refined
/// ORE.
#[derive(Clone, Copy, Debug)]
pub struct MinerRewards {
    pub rewards_factor: i128,
    pub rewards_ore: u64,
    pub refined_ore: u64,
}

/// The ORE reward field of the treasury: the cumulative rewards factor
/// (fixed-point bits).
#[derive(Clone, Copy, Debug)]
pub struct TreasuryRewards {
    pub miner_rewards_factor: i128,
}

/// Refined ORE that accrues to a miner whose factor lags the treasury's by
/// `delta`: `delta * rewards_ore`, rounded down.
pub open spec fn accrued_ore(delta: int, rewards_ore: u64) -> int {
    (delta * (rewards_ore * fixed_one())) / fixed_one() / fixed_one()
}

/// The refined ORE of a miner including what has accrued since its last
/// update: its refined ORE plus `(treasury factor - miner factor) *
/// unrefined ORE`, rounded down and saturating at `u64::MAX`; when the
/// miner's factor is ahead of the treasury's, just its refined ORE.
pub fn infer_refined_ore(miner: &MinerRewards, treasury: &TreasuryRewards) -> (refined: u64)
    requires
        i128::MIN <= treasury.miner_rewards_factor - miner.rewards_factor <= i128::MAX,
        treasury.miner_rewards_factor - miner.rewards_factor >= 0 ==> {
            let delta = treasury.miner_rewards_factor - miner.rewards_factor;
            &&& (delta * (miner.rewards_ore * fixed_one())) / fixed_one() <= i128::MAX
            &&& accrued_ore(delta, miner.rewards_ore) <= u64::MAX
        },
    ensures
        ({
            let delta = treasury.miner_rewards_factor - miner.rewards_factor;
            refined == if delta < 0 {
                miner.refined_ore as int
            } else if miner.refined_ore + accrued_ore(delta, miner.rewards_ore) > u64::MAX {
                u64::MAX as int
            } else {
                miner.refined_ore + accrued_ore(delta, miner.rewards_ore)
            }
        }),
{
    let delta = numeric_sub(treasury.miner_rewards_factor, miner.rewards_factor);
    if numeric_lt(delta, 0) {
        return miner.refined_ore;
    }
    let ore = numeric_from_u64(miner.rewards_ore);
    proof {
        assert(delta * ore >= 0) by (nonlinear_arith)
            requires
                delta >= 0,
                ore >= 0,
        ;
        assert(ore == miner.rewards_ore * fixed_one());
    }
    let product = numeric_mul(delta, ore);
    let accrued = numeric_to_u64(product);
    match miner.refined_ore.checked_add(accrued) {
        Some(v) => v,
        None => u64::MAX,
    }
}

} // verus!
