//! Reading the ORE program's accounts from their raw bytes: the board, a
//! round (and its winning square) and a miner, and the decisions the
//! mining loops take from them.

use crate::chain::{deploy_tx, needed_checkpoint, should_claim, DeployTx, MinerCheckpoint};
use crate::seqs::SQUARES;
use ore_api::state::{Board, Miner, Round};
use steel::AccountDeserialize;
use vstd::prelude::*;

verus! {

/// The board account's fields the loops read.
#[derive(Clone, Copy, Debug)]
pub struct BoardAccount {
    pub round_id: u64,
    pub start_slot: u64,
    pub end_slot: u64,
}

/// A round account's fields the loops read.
#[derive(Clone, Debug)]
pub struct RoundAccount {
    pub id: u64,
    /// The entropy of the round (32 bytes).
    pub slot_hash: Vec<u8>,
    /// SOL deployed on each of the 25 squares.
    pub deployed: Vec<u64>,
    pub motherlode: u64,
    pub expires_at: u64,
}

/// A miner account's fields the loops read. The rewards factor is the bits
/// of a fixed-point number with 48 fractional bits.
#[derive(Clone, Copy, Debug)]
pub struct MinerAccount {
    pub checkpoint_id: u64,
    pub round_id: u64,
    pub rewards_sol: u64,
    pub rewards_factor: i128,
    pub rewards_ore: u64,
    pub refined_ore: u64,
}

/// The board these bytes encode as an account of the ORE program, if they
/// encode one: `(round_id, start_slot, end_slot)`.
pub uninterp spec fn board_account(data: Seq<u8>) -> Option<(u64, u64, u64)>;

/// The round these bytes encode, if they encode one: `(id, slot_hash,
/// deployed, motherlode, expires_at)`.
pub uninterp spec fn round_account(data: Seq<u8>) -> Option<(u64, Seq<u8>, Seq<u64>, u64, u64)>;

/// The miner these bytes encode, if they encode one: `(checkpoint_id,
/// round_id, rewards_sol, rewards_factor bits, rewards_ore, refined_ore)`.
pub uninterp spec fn miner_account(data: Seq<u8>) -> Option<(u64, u64, u64, i128, u64, u64)>;

/// Calls `AccountDeserialize::try_from_bytes` for `ore_api::state::Board`.
/// What comes back is the board the bytes encode; bytes that encode no
/// board give `None`. The call also fails when the bytes after the 8-byte
/// header are not aligned in memory for the account type, so a valid
/// encoding may still give `None`: that is left unsaid. It indexes the
/// first byte and slices from the eighth, so at least 8 bytes are required.
#[verifier::external_body]
fn parse_board(data: &[u8]) -> (r: Option<BoardAccount>)
    requires
        data@.len() >= 8,
    ensures
        r matches Some(b) ==> board_account(data@) == Some((b.round_id, b.start_slot, b.end_slot)),
        board_account(data@) is None ==> r is None,
{
    match Board::try_from_bytes(data) {
        Ok(b) => Some(BoardAccount { round_id: b.round_id, start_slot: b.start_slot, end_slot: b.end_slot }),
        Err(_) => None,
    }
}

/// Calls `AccountDeserialize::try_from_bytes` for `ore_api::state::Round`.
/// What comes back is the round the bytes encode, its entropy 32 bytes and
/// its deployments 25 amounts (the fields' array types); bytes that encode
/// no round give `None`. As for the board, an encoding that is not aligned
/// in memory also gives `None`, which is left unsaid; at least 8 bytes are
/// required.
#[verifier::external_body]
fn parse_round(data: &[u8]) -> (r: Option<RoundAccount>)
    requires
        data@.len() >= 8,
    ensures
        r matches Some(a) ==> round_account(data@) == Some(
            (a.id, a.slot_hash@, a.deployed@, a.motherlode, a.expires_at),
        ) && a.slot_hash@.len() == 32 && a.deployed@.len() == SQUARES,
        round_account(data@) is None ==> r is None,
{
    match Round::try_from_bytes(data) {
        Ok(r) => Some(RoundAccount {
            id: r.id,
            slot_hash: r.slot_hash.to_vec(),
            deployed: r.deployed.to_vec(),
            motherlode: r.motherlode,
            expires_at: r.expires_at,
        }),
        Err(_) => None,
    }
}

/// Calls `AccountDeserialize::try_from_bytes` for `ore_api::state::Miner`.
/// What comes back is the miner the bytes encode (its rewards factor as the
/// bits of its `I80F48` value); bytes that encode no miner give `None`. An
/// encoding that is not aligned in memory also gives `None`, which is left
/// unsaid; at least 8 bytes are required.
#[verifier::external_body]
fn parse_miner(data: &[u8]) -> (r: Option<MinerAccount>)
    requires
        data@.len() >= 8,
    ensures
        r matches Some(m) ==> miner_account(data@) == Some(miner_fields(m)),
        miner_account(data@) is None ==> r is None,
{
    match Miner::try_from_bytes(data) {
        Ok(m) => Some(MinerAccount {
            checkpoint_id: m.checkpoint_id,
            round_id: m.round_id,
            rewards_sol: m.rewards_sol,
            rewards_factor: m.rewards_factor.to_i80f48().to_bits(),
            rewards_ore: m.rewards_ore,
            refined_ore: m.refined_ore,
        }),
        Err(_) => None,
    }
}

/// The fields of a miner account as a tuple, in the order of
/// `miner_account`.
pub open spec fn miner_fields(m: MinerAccount) -> (u64, u64, u64, i128, u64, u64) {
    (m.checkpoint_id, m.round_id, m.rewards_sol, m.rewards_factor, m.rewards_ore, m.refined_ore)
}

/// The board account in `data` (at least its 8-byte header).
pub fn read_board(data: &[u8]) -> (r: Option<BoardAccount>)
    requires
        data@.len() >= 8,
    ensures
        r matches Some(b) ==> board_account(data@) == Some((b.round_id, b.start_slot, b.end_slot)),
        board_account(data@) is None ==> r is None,
{
    parse_board(data)
}

/// The round account in `data` (at least its 8-byte header).
pub fn read_round(data: &[u8]) -> (r: Option<RoundAccount>)
    requires
        data@.len() >= 8,
    ensures
        r matches Some(a) ==> round_account(data@) == Some(
            (a.id, a.slot_hash@, a.deployed@, a.motherlode, a.expires_at),
        ) && a.slot_hash@.len() == 32 && a.deployed@.len() == SQUARES,
        round_account(data@) is None ==> r is None,
{
    parse_round(data)
}

/// What reading a miner account may give: nothing for empty data or data
/// that encodes no miner, and only the miner the data encodes otherwise.
pub open spec fn miner_read(data: Seq<u8>, r: Option<MinerAccount>) -> bool {
    &&& r matches Some(m) ==> data.len() > 0 && miner_account(data) == Some(miner_fields(m))
    &&& (data.len() == 0 || miner_account(data) is None) ==> r is None
}

/// The miner account in `data`; an empty account (or none at all, passed
/// as empty data) has no miner. Non-empty data has at least the 8-byte
/// header.
pub fn read_miner(data: &[u8]) -> (r: Option<MinerAccount>)
    requires
        data@.len() == 0 || data@.len() >= 8,
    ensures
        miner_read(data@, r),
{
    if data.len() == 0 {
        None
    } else {
        parse_miner(data)
    }
}

/// The little-endian 64-bit word of `h` at byte offset `off`.
pub open spec fn le_word(h: Seq<u8>, off: int) -> int {
    h[off] + 0x100 * h[off + 1] + 0x1_0000 * h[off + 2] + 0x100_0000 * h[off + 3] + 0x1_0000_0000
        * h[off + 4] + 0x100_0000_0000 * h[off + 5] + 0x1_0000_0000_0000 * h[off + 6]
        + 0x100_0000_0000_0000 * h[off + 7]
}

/// The random number of a round from its 32-byte entropy: none while the
/// entropy is all zero bytes or all `0xFF` bytes, otherwise the exclusive
/// or of its four little-endian 64-bit words.
pub open spec fn hash_rng(h: Seq<u8>) -> Option<u64> {
    if (forall|i: int| 0 <= i < 32 ==> h[i] == 0) || (forall|i: int| 0 <= i < 32 ==> h[i] == 0xFF) {
        None
    } else {
        Some(
            (le_word(h, 0) as u64) ^ (le_word(h, 8) as u64) ^ (le_word(h, 16) as u64) ^ (le_word(
                h,
                24,
            ) as u64),
        )
    }
}

/// The winning square of an entropy: its random number modulo 25, none
/// without a random number.
pub open spec fn square_of_hash(h: Seq<u8>) -> Option<usize> {
    match hash_rng(h) {
        Some(x) => Some((x % 25) as usize),
        None => None,
    }
}

/// The random number of a round is the exclusive or of all four
/// little-endian 64-bit words of its entropy (bytes `0..8`, `8..16`,
/// `16..24` and `24..32`), and its winning square that number modulo 25,
/// unless the entropy is all zero bytes or all `0xFF` bytes, which gives
/// none.
pub proof fn law_round_rng_xors_all_words(h: Seq<u8>)
    requires
        h.len() == 32,
    ensures
        (forall|i: int| 0 <= i < 32 ==> h[i] == 0) ==> hash_rng(h) is None && square_of_hash(h) is None,
        (forall|i: int| 0 <= i < 32 ==> h[i] == 0xFF) ==> hash_rng(h) is None && square_of_hash(h) is None,
        !(forall|i: int| 0 <= i < 32 ==> h[i] == 0) && !(forall|i: int| 0 <= i < 32 ==> h[i] == 0xFF)
            ==> {
            let x = ((h[0] + 0x100 * h[1] + 0x10000 * h[2] + 0x1000000 * h[3] + 0x100000000 * h[4] + 0x10000000000 * h[5] + 0x1000000000000 * h[6] + 0x100000000000000 * h[7]) as u64) ^ ((h[8] + 0x100 * h[9] + 0x10000 * h[10] + 0x1000000 * h[11] + 0x100000000 * h[12] + 0x10000000000 * h[13] + 0x1000000000000 * h[14] + 0x100000000000000 * h[15]) as u64) ^ ((h[16] + 0x100 * h[17] + 0x10000 * h[18] + 0x1000000 * h[19] + 0x100000000 * h[20] + 0x10000000000 * h[21] + 0x1000000000000 * h[22] + 0x100000000000000 * h[23]) as u64) ^ ((h[24] + 0x100 * h[25] + 0x10000 * h[26] + 0x1000000 * h[27] + 0x100000000 * h[28] + 0x10000000000 * h[29] + 0x1000000000000 * h[30] + 0x100000000000000 * h[31]) as u64);
            &&& hash_rng(h) == Some(x)
            &&& square_of_hash(h) == Some((x % 25) as usize)
        },
{
}

fn le_word_at(h: &Vec<u8>, off: usize) -> (w: u64)
    requires
        h@.len() == 32,
        off + 8 <= 32,
    ensures
        w == le_word(h@, off as int),
{
    let b0 = h[off] as u64;
    let b1 = h[off + 1] as u64;
    let b2 = h[off + 2] as u64;
    let b3 = h[off + 3] as u64;
    let b4 = h[off + 4] as u64;
    let b5 = h[off + 5] as u64;
    let b6 = h[off + 6] as u64;
    let b7 = h[off + 7] as u64;
    b0 + 0x100 * b1 + 0x1_0000 * b2 + 0x100_0000 * b3 + 0x1_0000_0000 * b4 + 0x100_0000_0000 * b5
        + 0x1_0000_0000_0000 * b6 + 0x100_0000_0000_0000 * b7
}

/// The random number of a round from its 32-byte entropy (none while the
/// entropy is all `0x00` or all `0xFF`).
pub fn round_rng(h: &Vec<u8>) -> (r: Option<u64>)
    requires
        h@.len() == 32,
    ensures
        r == hash_rng(h@),
{
    let mut all_zero = true;
    let mut all_ff = true;
    let mut i: usize = 0;
    while i < 32
        invariant
            h@.len() == 32,
            i <= 32,
            all_zero == (forall|k: int| 0 <= k < i ==> h@[k] == 0),
            all_ff == (forall|k: int| 0 <= k < i ==> h@[k] == 0xFF),
        decreases 32 - i,
    {
        if h[i] != 0 {
            all_zero = false;
        }
        if h[i] != 0xFF {
            all_ff = false;
        }
        i += 1;
    }
    if all_zero || all_ff {
        return None;
    }
    let r1 = le_word_at(h, 0);
    let r2 = le_word_at(h, 8);
    let r3 = le_word_at(h, 16);
    let r4 = le_word_at(h, 24);
    Some(r1 ^ r2 ^ r3 ^ r4)
}

/// The winning square of a random number: the number modulo 25.
pub fn winning_square(rng: u64) -> (s: usize)
    ensures
        s == rng % 25,
        s < SQUARES,
{
    (rng % 25) as usize
}

/// The winning square of the round account in `data`, once the round has
/// its entropy. Bytes that encode no round, or a round without entropy,
/// give `None`; a square that comes back is the one the bytes encode.
pub fn round_winning_square(data: &[u8]) -> (r: Option<usize>)
    requires
        data@.len() >= 8,
    ensures
        r is Some ==> round_account(data@) is Some && r == square_of_hash(
            round_account(data@).unwrap().1,
        ),
        round_account(data@) is None ==> r is None,
        round_account(data@) is Some && square_of_hash(round_account(data@).unwrap().1) is None ==> r is None,
{
    match read_round(data) {
        None => None,
        Some(round) => match round_rng(&round.slot_hash) {
            Some(x) => Some(winning_square(x)),
            None => None,
        },
    }
}

/// Sum of the first `n` amounts of `s`.
pub open spec fn amount_sum(s: Seq<u64>, n: int) -> int
    decreases n,
{
    if n <= 0 {
        0
    } else {
        amount_sum(s, n - 1) + s[n - 1]
    }
}

/// The SOL deployed on the whole board in a round: the sum over its
/// squares.
pub fn total_deployed(round: &RoundAccount) -> (t: u128)
    requires
        round.deployed@.len() == SQUARES,
    ensures
        t == amount_sum(round.deployed@, SQUARES as int),
{
    let mut t: u128 = 0;
    let mut i: usize = 0;
    while i < SQUARES
        invariant
            round.deployed@.len() == SQUARES,
            i <= SQUARES,
            t == amount_sum(round.deployed@, i as int),
            t <= i * 0xFFFF_FFFF_FFFF_FFFF,
        decreases SQUARES - i,
    {
        t = t + round.deployed[i] as u128;
        i += 1;
    }
    t
}

/// The checkpoint state of a miner read from its account.
pub open spec fn checkpoint_of(m: Option<MinerAccount>) -> Option<MinerCheckpoint> {
    match m {
        Some(a) => Some(MinerCheckpoint { checkpoint_id: a.checkpoint_id, round_id: a.round_id }),
        None => None,
    }
}

/// The deploy transaction of a miner whose account holds `data` (empty when
/// the account is empty or missing): the checkpoint that the miner read
/// from it needs, then `amount` on every square the prediction marks.
pub fn deploy_tx_for_account(data: &[u8], board_round: u64, amount: u64, pred: &[usize]) -> (tx: (
    DeployTx,
    Vec<usize>,
))
    requires
        data@.len() == 0 || data@.len() >= 8,
    ensures
        exists|m: Option<MinerAccount>|
            #[trigger] miner_read(data@, m) && tx.0.checkpoint_round == needed_checkpoint(
                checkpoint_of(m),
                board_round,
            ),
        tx.0.amount == amount,
        tx.0.round_id == board_round,
        forall|i: int| 0 <= i < SQUARES ==> tx.0.squares@[i] == pred@.contains(i as usize),
        tx.1@ == pred@.filter(|x: usize| x >= SQUARES),
{
    let m = read_miner(data);
    let checkpoint = match m {
        Some(a) => Some(MinerCheckpoint { checkpoint_id: a.checkpoint_id, round_id: a.round_id }),
        None => None,
    };
    assert(miner_read(data@, m));
    deploy_tx(checkpoint, board_round, amount, pred)
}

/// Whether a miner whose account holds `data` (empty when the account is
/// empty or missing) has SOL to claim: a miner was read and its returned
/// SOL is not zero.
pub fn claim_for_account(data: &[u8]) -> (r: bool)
    requires
        data@.len() == 0 || data@.len() >= 8,
    ensures
        exists|m: Option<MinerAccount>|
            #[trigger] miner_read(data@, m) && r == (m matches Some(a) && a.rewards_sol != 0),
        r ==> data@.len() > 0 && miner_account(data@) is Some && miner_account(data@).unwrap().2 != 0,
{
    let m = read_miner(data);
    let rewards = match m {
        Some(a) => Some(a.rewards_sol),
        None => None,
    };
    assert(miner_read(data@, m));
    should_claim(rewards)
}

/// Whether a round's deploying window is over: the board's end slot lies
/// before the current slot (the two compared as signed 64-bit slots).
pub fn round_over(board: &BoardAccount, current_slot: u64) -> (r: bool)
    requires
        i64::MIN <= (board.end_slot as i64) - (current_slot as i64) <= i64::MAX,
    ensures
        r == ((board.end_slot as i64) - (current_slot as i64) < 0),
{
    let slots_left = board.end_slot as i64 - current_slot as i64;
    slots_left < 0
}

} // verus!
