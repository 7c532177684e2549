use ore_api::state::{Board, Miner, Round};
use oremine::accounts::{
    claim_for_account, deploy_tx_for_account, read_board, read_miner, read_round, round_over,
    round_rng, round_winning_square, total_deployed, winning_square, BoardAccount,
};
use steel::Zeroable;

fn encode(discriminator: u8, body: &[u8]) -> Vec<u8> {
    let mut data = vec![discriminator, 0, 0, 0, 0, 0, 0, 0];
    data.extend_from_slice(body);
    data
}

fn round_bytes(slot_hash: [u8; 32]) -> Vec<u8> {
    let mut round = Round::zeroed();
    round.id = 42;
    round.slot_hash = slot_hash;
    round.deployed[3] = 1_000;
    round.deployed[24] = 2_500;
    round.motherlode = 77;
    round.expires_at = 900;
    encode(109, round.to_bytes())
}

fn miner_bytes(checkpoint_id: u64, round_id: u64, rewards_sol: u64) -> Vec<u8> {
    let mut miner = Miner::zeroed();
    miner.checkpoint_id = checkpoint_id;
    miner.round_id = round_id;
    miner.rewards_sol = rewards_sol;
    miner.rewards_ore = 11;
    miner.refined_ore = 12;
    encode(103, miner.to_bytes())
}

#[test]
fn round_rng_xors_the_four_words() {
    let mut h = vec![0u8; 32];
    assert_eq!(round_rng(&h), None);
    assert_eq!(round_rng(&vec![0xFFu8; 32]), None);
    h[0] = 1;
    h[8] = 2;
    assert_eq!(round_rng(&h), Some(3));
    let mut g = vec![0u8; 32];
    for i in 0..8 {
        g[i] = (i + 1) as u8;
    }
    assert_eq!(round_rng(&g), Some(0x0807_0605_0403_0201));
    g[31] = 0x10;
    assert_eq!(round_rng(&g), Some(0x0807_0605_0403_0201 ^ 0x1000_0000_0000_0000));
}

#[test]
fn winning_square_is_rng_mod_25() {
    assert_eq!(winning_square(27), 2);
    assert_eq!(winning_square(0), 0);
    assert_eq!(winning_square(u64::MAX), (u64::MAX % 25) as usize);
}

#[test]
fn round_winning_square_reads_the_entropy() {
    let mut h = [0u8; 32];
    h[0] = 30;
    assert_eq!(round_winning_square(&round_bytes(h)), Some(5));
    assert_eq!(round_winning_square(&round_bytes([0u8; 32])), None);
    assert_eq!(round_winning_square(&round_bytes([0xFFu8; 32])), None);
    let mut other = round_bytes(h);
    other[0] = 105;
    assert_eq!(round_winning_square(&other), None);
}

#[test]
fn read_round_and_total_deployed() {
    let round = read_round(&round_bytes([7u8; 32])).unwrap();
    assert_eq!(round.id, 42);
    assert_eq!(round.slot_hash, vec![7u8; 32]);
    assert_eq!(round.deployed.len(), 25);
    assert_eq!(round.motherlode, 77);
    assert_eq!(round.expires_at, 900);
    assert_eq!(total_deployed(&round), 3_500);
}

#[test]
fn read_board_fields() {
    let board = Board { round_id: 7, start_slot: 100, end_slot: 250, production_cost_ema: 3 };
    let data = encode(105, board.to_bytes());
    let read = read_board(&data).unwrap();
    assert_eq!((read.round_id, read.start_slot, read.end_slot), (7, 100, 250));
    assert!(read_board(&encode(109, board.to_bytes())).is_none());
}

#[test]
fn miner_accounts_decide_checkpoint_and_claim() {
    assert!(read_miner(&[]).is_none());
    assert!(!claim_for_account(&[]));
    assert_eq!(deploy_tx_for_account(&[], 9, 10_000, &[1, 2]).0.checkpoint_round, Some(9));

    let stale = miner_bytes(3, 4, 0);
    let m = read_miner(&stale).unwrap();
    assert_eq!((m.checkpoint_id, m.round_id, m.rewards_sol), (3, 4, 0));
    assert_eq!((m.rewards_ore, m.refined_ore), (11, 12));
    let (tx, ignored) = deploy_tx_for_account(&stale, 9, 10_000, &[1, 2, 30]);
    assert_eq!(tx.checkpoint_round, Some(4));
    assert_eq!(tx.round_id, 9);
    assert_eq!(tx.amount, 10_000);
    assert!(tx.squares[1] && tx.squares[2] && !tx.squares[0]);
    assert_eq!(ignored, vec![30]);
    assert!(!claim_for_account(&stale));

    let fresh = miner_bytes(4, 4, 5);
    assert_eq!(deploy_tx_for_account(&fresh, 9, 10_000, &[1]).0.checkpoint_round, None);
    assert!(claim_for_account(&fresh));
}

#[test]
fn round_over_once_end_slot_passed() {
    let board = BoardAccount { round_id: 1, start_slot: 0, end_slot: 100 };
    assert!(!round_over(&board, 100));
    assert!(!round_over(&board, 50));
    assert!(round_over(&board, 101));
}
