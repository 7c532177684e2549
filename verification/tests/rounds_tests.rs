use oremine::chain::{
    deploy_tx, infer_refined_ore, should_claim, squares_from_prediction, MinerCheckpoint,
    MinerRewards, TreasuryRewards,
};
use oremine::deploy_rounds::{PickRounds, SinglePickPolicy, TwoAltRounds};
use oremine::frequency::top_n_frequent;
use oremine::markov::context_transitions;
use oremine::predictor::HybridPredictor;
use oremine::rounds::{calc_amount_by_pair, HmmRounds, MinerKey};
use oremine::slot_miner::SlotMiner;
use oremine::snapshot::ServerSnapshot;

fn keys(k: &[MinerKey]) -> Vec<String> {
    k.iter().map(|m| format!("{:?}", m)).collect()
}

#[test]
fn top_n_frequent_orders_by_count() {
    assert_eq!(top_n_frequent(&[1, 2, 2, 3, 3, 3], 2), vec![(3, 3), (2, 2)]);
    assert_eq!(top_n_frequent(&[1, 2, 2, 3, 3, 3], 10), vec![(3, 3), (2, 2), (1, 1)]);
    assert_eq!(top_n_frequent(&[4, 5, 4, 5, 6], 4), vec![(4, 2), (5, 2), (6, 1)]);
    assert_eq!(top_n_frequent(&[1, 2], 0), vec![]);
    assert_eq!(top_n_frequent(&[], 4), vec![]);
}

#[test]
fn hmm_rounds_begin_each_round_once() {
    let mut r = HmmRounds::new(vec![1, 2, 3]);
    assert_eq!(r.begin_round(7), Some(10_000));
    assert_eq!(r.begin_round(7), None);
    assert_eq!(r.begin_round(8), Some(10_000));
}

#[test]
fn hmm_rounds_record_results() {
    let mut r = HmmRounds::new(vec![1, 2, 3]);
    r.set_predictions(vec![5, 6]);
    let rep = r.record_result(9);
    assert!(!rep.hit);
    assert!(!rep.retrain);
    assert_eq!(r.lose(), 1);
    assert_eq!(r.begin_round(1), Some(100_000));
    let rep = r.record_result(5);
    assert!(rep.hit);
    assert!(!rep.retrain);
    assert_eq!(r.lose(), 0);
    let rep = r.record_result(5);
    assert!(rep.retrain);
    assert_eq!(r.total(), 3);
    assert_eq!(r.total_hit(), 2);
    assert_eq!(r.history(), &vec![1, 2, 3, 9, 5, 5]);
    assert_eq!(r.window(), &vec![1, 2, 3, 9, 5, 5]);
}

#[test]
fn hmm_rounds_keep_fifty_squares() {
    let start: Vec<usize> = (0..53).map(|i| i % 25).collect();
    let mut r = HmmRounds::new(start.clone());
    r.record_result(24);
    assert_eq!(r.history().len(), 50);
    assert_eq!(r.history()[49], 24);
    assert_eq!(r.history()[0], start[4]);
    // the window drops one entry per result once it holds fifty or more
    assert_eq!(r.window().len(), 53);
    assert_eq!(r.window()[0], start[1]);
}

#[test]
fn amount_grows_tenfold_per_two_losses() {
    assert_eq!(calc_amount_by_pair(10_000, 0), 10_000);
    assert_eq!(calc_amount_by_pair(10_000, 1), 100_000);
    assert_eq!(calc_amount_by_pair(10_000, 2), 100_000);
    assert_eq!(calc_amount_by_pair(10_000, 3), 1_000_000);
    assert_eq!(calc_amount_by_pair(10_000, 40), u64::MAX);
}

#[test]
fn two_alt_rounds_deploy_and_claim() {
    let model = HybridPredictor::new();
    let mut r = TwoAltRounds::new(model, vec![1, 2], vec![1, 4]);
    assert_eq!(r.begin_round(5), Some(10_000));
    assert_eq!(r.begin_round(5), None);
    let plan = r.deploy_plan();
    let miners: Vec<MinerKey> = plan.iter().map(|s| s.miner).collect();
    assert_eq!(keys(&miners), vec!["PoolMiner3", "PoolMiner1", "MeBest", "MeMiner1"]);
    assert_eq!(plan[0].squares, vec![1, 2]);
    assert_eq!(plan[2].squares, vec![1, 4]);
    // first hit of both picks: only the second pick's streak claims
    assert!(r.record_result(1).is_empty());
    assert_eq!(keys(&r.second_claims()), vec!["MeBest", "MeMiner1"]);
    r.finish_round(1);
    assert_eq!(r.model().total_rounds(), 1);
    assert_eq!(r.model().correct_hybrid(), 1);
    // second first-pick hit in a row: the pool miners claim
    assert_eq!(keys(&r.record_result(2)), vec!["PoolMiner1", "PoolMiner3"]);
    assert!(r.second_claims().is_empty());
    assert_eq!(r.wins(), (2, 1));
    assert_eq!(r.record_result(9).len(), 0);
    assert_eq!(r.lose(), 1);
    assert_eq!(r.streaks(), (0, 0));
    assert_eq!(r.negative_sol(), 40_000u64);
    assert_eq!(r.begin_round(6), Some(10_000));
    assert_eq!(r.negative_sol(), 80_000u64);
    assert_eq!(r.total(), 2);
}

#[test]
fn three_way_rounds_claim_after_every_hit() {
    let model = HybridPredictor::new();
    let mut r = PickRounds::new(
        SinglePickPolicy::ThreeWay,
        model,
        vec![vec![1, 2], vec![3], vec![4]],
    );
    assert_eq!(r.begin_round(1), Some(10_000));
    let plan = r.deploy_plan(false);
    assert_eq!(plan.len(), 4);
    assert_eq!(plan[3].squares, vec![1, 2]);
    assert_eq!(plan[1].squares, vec![3]);
    assert_eq!(keys(&r.record_result(2)), vec!["PoolMiner1", "PoolMiner3", "MeBest", "MeMiner1"]);
    r.finish_round(2);
    assert!(r.record_result(9).is_empty());
    assert_eq!(r.wins(), (1, 2));
    assert_eq!(r.lose(), 1);
}

#[test]
fn hybrid_rounds_deploy_by_accuracy_or_expected_value() {
    let model = HybridPredictor::new();
    let mut r = PickRounds::new(SinglePickPolicy::Hybrid, model, vec![vec![5, 6]]);
    assert!(r.deploy_plan(false).is_empty());
    let plan = r.deploy_plan(true);
    assert_eq!(plan.len(), 4);
    assert_eq!(plan[0].squares, (0..25).collect::<Vec<usize>>());
    // one hit out of one round: accurate, the pick goes out
    assert!(r.record_result(5).is_empty());
    r.finish_round(5);
    let plan = r.deploy_plan(false);
    assert_eq!(plan.len(), 4);
    assert!(plan.iter().all(|s| s.squares == vec![5, 6]));
    // the second hit in a row claims
    assert_eq!(r.record_result(6).len(), 4);
    r.finish_round(6);
    r.set_predictions(vec![vec![1]]);
    assert!(r.record_result(5).is_empty());
    r.finish_round(5);
    // 2 hits out of 3 rounds is below 80%
    assert!(r.deploy_plan(false).is_empty());
}

#[test]
fn squares_from_prediction_marks_board_squares() {
    let (squares, ignored) = squares_from_prediction(&[0, 3, 30, 3, 24]);
    let marked: Vec<usize> = (0..25).filter(|&i| squares[i]).collect();
    assert_eq!(marked, vec![0, 3, 24]);
    assert_eq!(ignored, vec![30]);
}

#[test]
fn deploy_tx_decides_the_checkpoint() {
    let (tx, _) = deploy_tx(None, 42, 10_000, &[1]);
    assert_eq!(tx.checkpoint_round, Some(42));
    assert_eq!(tx.amount, 10_000);
    assert_eq!(tx.round_id, 42);
    assert!(tx.squares[1] && !tx.squares[0]);
    let behind = MinerCheckpoint { checkpoint_id: 39, round_id: 40 };
    assert_eq!(deploy_tx(Some(behind), 42, 1, &[]).0.checkpoint_round, Some(40));
    let current = MinerCheckpoint { checkpoint_id: 40, round_id: 40 };
    assert_eq!(deploy_tx(Some(current), 42, 1, &[]).0.checkpoint_round, None);
}

#[test]
fn claims_need_returned_sol() {
    assert!(!should_claim(None));
    assert!(!should_claim(Some(0)));
    assert!(should_claim(Some(5)));
}

const ONE: i128 = 1 << 48;

#[test]
fn refined_ore_accrues_with_the_factor_gap() {
    let miner = MinerRewards { rewards_factor: ONE, rewards_ore: 10, refined_ore: 5 };
    let treasury = TreasuryRewards { miner_rewards_factor: ONE * 7 / 2 };
    // gap 2.5 on 10 unrefined ORE
    assert_eq!(infer_refined_ore(&miner, &treasury), 30);
    let ahead = TreasuryRewards { miner_rewards_factor: 0 };
    assert_eq!(infer_refined_ore(&miner, &ahead), 5);
    let small = TreasuryRewards { miner_rewards_factor: ONE + ONE / 3 };
    // gap one third on 10 ORE rounds down to 3
    assert_eq!(infer_refined_ore(&miner, &small), 8);
    let full = MinerRewards { rewards_factor: 0, rewards_ore: 2, refined_ore: u64::MAX - 1 };
    let t = TreasuryRewards { miner_rewards_factor: ONE };
    assert_eq!(infer_refined_ore(&full, &t), u64::MAX);
}

#[test]
fn context_transitions_keep_board_windows() {
    assert_eq!(context_transitions(&[1, 2, 3, 30, 4, 5, 6]), vec![(1, 2, 3), (4, 5, 6)]);
    assert_eq!(context_transitions(&[1, 2]), vec![]);
}

#[test]
fn slot_miner_keeps_its_key_path() {
    let m = SlotMiner::new(Some("key.json".to_string()));
    assert_eq!(m.keypair_filepath.as_deref(), Some("key.json"));
    assert!(SlotMiner::new(None).keypair_filepath.is_none());
}

#[test]
fn snapshot_holds_its_fields() {
    let s = ServerSnapshot {
        kind: "snapshot",
        status: "done".to_string(),
        total_win: 1,
        total_round: 2,
        preds: vec![3],
        lost_in_arrow: 0,
    };
    let t = s.clone();
    assert_eq!(t.preds, vec![3]);
    assert_eq!(t.kind, "snapshot");
}
