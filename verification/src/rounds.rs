//! Per-round bookkeeping of the mining loops: when a new round starts, how
//! much to deploy, which miners deploy or claim, and the win / loss record.
//! The loops themselves (network calls, waiting, messages) run outside this
//! library and report back what happened.

use crate::predictor::HybridPredictor;
use crate::seqs::{vec_contains, SQUARES};
use vstd::prelude::*;

verus! {

/// Number of recent winning squares kept as history and as the
/// prediction window.
pub const HISTORY_WINDOW: usize = 50;

/// The hidden Markov model is retrained after this many results.
pub const RETRAIN_EVERY: usize = 3;

/// Deploy amount (lamports) after a winning or neutral streak.
pub const BASE_AMOUNT: u64 = 10_000;

/// Deploy amount (lamports) while losses are outstanding.
pub const RECOVERY_AMOUNT: u64 = 100_000;

/// The miner key files the loops deploy and claim with.
#[derive(Clone, Copy, Debug)]
pub enum MinerKey {
    PoolMiner1,
    PoolMiner3,
    MeBest,
    MeMiner1,
}

/// What a winning square did to the record of the forecasting loop.
#[derive(Clone, Copy, Debug)]
pub struct HmmRoundReport {
    /// The winning square was among the predictions.
    pub hit: bool,
    /// The model is due to be retrained on the history.
    pub retrain: bool,
}

/// The abstract state of the forecasting loop.
pub struct HmmRoundsView {
    pub history: Seq<usize>,
    pub window: Seq<usize>,
    pub total: nat,
    pub total_hit: nat,
    pub lose: nat,
    pub since_retrain: nat,
    pub predictions: Seq<usize>,
    pub last_round: Option<u64>,
}

/// Record of the forecasting loop (hidden Markov model predictions): the
/// winning-square history, the prediction window, results and losing
/// streak.
pub struct HmmRounds {
    history: Vec<usize>,
    window: Vec<usize>,
    total: usize,
    total_hit: usize,
    lose: u32,
    since_retrain: usize,
    predictions: Vec<usize>,
    last_round: Option<u64>,
}

/// The history after a new winning square: appended, then cut to its last
/// 50 entries.
pub open spec fn next_history(history: Seq<usize>, square: usize) -> Seq<usize> {
    let h = history.push(square);
    if h.len() > HISTORY_WINDOW {
        h.skip(h.len() - HISTORY_WINDOW)
    } else {
        h
    }
}

/// The prediction window after a new winning square: the oldest entry
/// dropped once the window is full, then the square appended.
pub open spec fn next_window(window: Seq<usize>, square: usize) -> Seq<usize> {
    if window.len() >= HISTORY_WINDOW {
        window.drop_first().push(square)
    } else {
        window.push(square)
    }
}

/// The deploy amount for a losing streak of `lose` rounds.
pub open spec fn streak_amount(lose: nat) -> u64 {
    if lose > 0 {
        RECOVERY_AMOUNT
    } else {
        BASE_AMOUNT
    }
}

/// The deploy amount of the forecasting loop is 100 000 lamports while
/// any loss is outstanding and 10 000 after none, whatever the length of
/// the losing streak.
pub proof fn law_streak_amount(lose: nat)
    ensures
        lose > 0 ==> streak_amount(lose) == 100_000u64,
        lose == 0 ==> streak_amount(lose) == 10_000u64,
        streak_amount(lose + 1) == streak_amount(lose + 7),
{
}

impl View for HmmRounds {
    type V = HmmRoundsView;

    closed spec fn view(&self) -> HmmRoundsView {
        HmmRoundsView {
            history: self.history@,
            window: self.window@,
            total: self.total as nat,
            total_hit: self.total_hit as nat,
            lose: self.lose as nat,
            since_retrain: self.since_retrain as nat,
            predictions: self.predictions@,
            last_round: self.last_round,
        }
    }
}

impl HmmRounds {
    #[verifier::type_invariant]
    spec fn well_formed(self) -> bool {
        &&& self.total_hit <= self.total
        &&& self.since_retrain < RETRAIN_EVERY
    }

    /// A record starting from the winning squares seen so far, which are
    /// also the first prediction window.
    pub fn new(history: Vec<usize>) -> (r: Self)
        ensures
            r@.history == history@,
            r@.window == history@,
            r@.total == 0,
            r@.total_hit == 0,
            r@.lose == 0,
            r@.since_retrain == 0,
            r@.predictions == Seq::<usize>::empty(),
            r@.last_round == None::<u64>,
    {
        let window = history.clone();
        assert(window@ =~= history@);
        HmmRounds {
            history,
            window,
            total: 0,
            total_hit: 0,
            lose: 0,
            since_retrain: 0,
            predictions: Vec::new(),
            last_round: None,
        }
    }

    /// Notes the board's current round. When it differs from the last round
    /// seen, a new round starts: it is remembered, and the amount to deploy
    /// is returned (100 000 while losses are outstanding, 10 000
    /// otherwise).
    pub fn begin_round(&mut self, round_id: u64) -> (amount: Option<u64>)
        ensures
            old(self)@.last_round == Some(round_id) ==> amount.is_none() && final(self)@
                == old(self)@,
            old(self)@.last_round != Some(round_id) && old(self)@.lose > 0 ==> amount == Some(
                100_000u64,
            ),
            old(self)@.last_round != Some(round_id) && old(self)@.lose == 0 ==> amount == Some(
                10_000u64,
            ),
            old(self)@.last_round != Some(round_id) ==> amount == Some(streak_amount(
                old(self)@.lose,
            )) && final(self)@ == (HmmRoundsView {
                last_round: Some(round_id),
                ..old(self)@
            }),
    {
        proof {
            use_type_invariant(&*self);
        }
        let same = match self.last_round {
            Some(r) => r == round_id,
            None => false,
        };
        if same {
            None
        } else {
            self.last_round = Some(round_id);
            Some(
                if self.lose > 0 {
                    RECOVERY_AMOUNT
                } else {
                    BASE_AMOUNT
                },
            )
        }
    }

    /// Stores the predictions made for the current round.
    pub fn set_predictions(&mut self, predictions: Vec<usize>)
        ensures
            final(self)@ == (HmmRoundsView { predictions: predictions@, ..old(self)@ }),
    {
        proof {
            use_type_invariant(&*self);
        }
        self.predictions = predictions;
    }

    /// Records a round's winning square: one more result, one more hit when
    /// the predictions held it, the square appended to the window and the
    /// history (each kept to the last 50), the losing streak shortened by a
    /// hit or lengthened by a miss, and a retraining due every third result.
    pub fn record_result(&mut self, winning_square: usize) -> (report: HmmRoundReport)
        requires
            old(self)@.total < usize::MAX,
            old(self)@.lose < u32::MAX,
        ensures
            report.hit == old(self)@.predictions.contains(winning_square),
            report.retrain == (old(self)@.since_retrain + 1 >= RETRAIN_EVERY),
            final(self)@.total == old(self)@.total + 1,
            final(self)@.total_hit == old(self)@.total_hit + (if report.hit {
                1int
            } else {
                0int
            }),
            final(self)@.total_hit <= final(self)@.total,
            final(self)@.window == next_window(old(self)@.window, winning_square),
            final(self)@.history == next_history(old(self)@.history, winning_square),
            final(self)@.history.len() <= HISTORY_WINDOW,
            final(self)@.history.last() == winning_square,
            final(self)@.window.last() == winning_square,
            final(self)@.window.len() <= if old(self)@.window.len() > HISTORY_WINDOW {
                old(self)@.window.len()
            } else {
                HISTORY_WINDOW as nat
            },
            final(self)@.lose == if report.hit {
                if old(self)@.lose > 0 {
                    (old(self)@.lose - 1) as nat
                } else {
                    0
                }
            } else {
                old(self)@.lose + 1
            },
            final(self)@.since_retrain == if report.retrain {
                0
            } else {
                old(self)@.since_retrain + 1
            },
            final(self)@.since_retrain < RETRAIN_EVERY,
            final(self)@.predictions == old(self)@.predictions,
            final(self)@.last_round == old(self)@.last_round,
    {
        proof {
            use_type_invariant(&*self);
        }
        self.total = self.total + 1;
        let hit = vec_contains(&self.predictions, winning_square);
        if hit {
            self.total_hit = self.total_hit + 1;
        }
        // prediction window
        let mut window = self.window.clone();
        assert(window@ =~= old(self)@.window);
        let ghost w0 = window@;
        if window.len() >= HISTORY_WINDOW {
            window.remove(0);
        }
        window.push(winning_square);
        assert(window@ =~= next_window(w0, winning_square));
        self.window = window;
        // history, cut to its last entries
        let mut history = self.history.clone();
        assert(history@ =~= old(self)@.history);
        let ghost h0 = history@;
        history.push(winning_square);
        let mut kept: Vec<usize> = Vec::new();
        let n = history.len();
        let start = if n > HISTORY_WINDOW {
            n - HISTORY_WINDOW
        } else {
            0
        };
        let mut i: usize = start;
        while i < n
            invariant
                n == history@.len(),
                start <= i <= n,
                kept@ == history@.subrange(start as int, i as int),
            decreases n - i,
        {
            kept.push(history[i]);
            i += 1;
            assert(kept@ =~= history@.subrange(start as int, i as int));
        }
        assert(kept@ =~= next_history(h0, winning_square));
        self.history = kept;
        // losing streak
        if hit {
            if self.lose > 0 {
                self.lose = self.lose - 1;
            }
        } else {
            self.lose = self.lose + 1;
        }
        // retraining
        let retrain = self.since_retrain + 1 >= RETRAIN_EVERY;
        if retrain {
            self.since_retrain = 0;
        } else {
            self.since_retrain = self.since_retrain + 1;
        }
        HmmRoundReport { hit, retrain }
    }

    /// The winning-square history.
    pub fn history(&self) -> (r: &Vec<usize>)
        ensures
            r@ == self@.history,
    {
        &self.history
    }

    /// The prediction window.
    pub fn window(&self) -> (r: &Vec<usize>)
        ensures
            r@ == self@.window,
    {
        &self.window
    }

    /// The current predictions.
    pub fn predictions(&self) -> (r: &Vec<usize>)
        ensures
            r@ == self@.predictions,
    {
        &self.predictions
    }

    /// Number of results recorded.
    pub fn total(&self) -> (r: usize)
        ensures
            r == self@.total,
    {
        self.total
    }

    /// Number of results whose winning square was predicted.
    pub fn total_hit(&self) -> (r: usize)
        ensures
            r == self@.total_hit,
            r <= self@.total,
    {
        proof {
            use_type_invariant(self);
        }
        self.total_hit
    }

    /// Current losing streak.
    pub fn lose(&self) -> (r: u32)
        ensures
            r == self@.lose,
    {
        self.lose
    }
}

/// `start` multiplied by ten once per two losses (rounded up), saturating
/// at `u64::MAX`.
pub open spec fn paired_amount(start: u64, lose: u32) -> nat {
    let product = start * vstd::arithmetic::power::pow(10, ((lose as nat + 1) / 2) as nat);
    if product > u64::MAX {
        u64::MAX as nat
    } else {
        product as nat
    }
}

/// The deploy amount that grows tenfold for every two losses:
/// `start * 10^((lose + 1) / 2)`, saturating at `u64::MAX`.
pub fn calc_amount_by_pair(start: u64, lose: u32) -> (amount: u64)
    requires
        lose < u32::MAX,
    ensures
        amount == paired_amount(start, lose),
{
    let steps: u32 = (lose + 1) / 2;
    let mut amount = start;
    let mut i: u32 = 0;
    proof {
        vstd::arithmetic::power::lemma_pow0(10);
        assert(start * 1 == start);
    }
    while i < steps
        invariant
            i <= steps,
            steps as nat == (lose as nat + 1) / 2,
            amount == paired_amount_steps(start, i as nat),
        decreases steps - i,
    {
        proof {
            lemma_paired_amount_step(start, i as nat);
        }
        amount = match amount.checked_mul(10) {
            Some(v) => v,
            None => u64::MAX,
        };
        i += 1;
    }
    amount
}

/// The paired amount starts at `start` and is multiplied by ten (saturating
/// at `u64::MAX`) at every first loss of a pair, staying the same at the
/// second: one loss already multiplies by ten, two losses still give ten
/// times, three give a hundred times.
pub proof fn law_paired_amount(start: u64, lose: u32)
    requires
        lose + 1 < u32::MAX,
    ensures
        paired_amount(start, 0) == start,
        lose % 2 == 0 ==> paired_amount(start, (lose + 1) as u32) == if paired_amount(start, lose)
            * 10 > u64::MAX {
            u64::MAX as nat
        } else {
            paired_amount(start, lose) * 10
        },
        lose % 2 == 1 ==> paired_amount(start, (lose + 1) as u32) == paired_amount(start, lose),
{
    vstd::arithmetic::power::lemma_pow0(10);
    assert(start * 1 == start);
    let steps = ((lose as nat + 1) / 2) as nat;
    lemma_paired_amount_step(start, steps);
    assert(paired_amount(start, lose) == paired_amount_steps(start, steps));
    if lose % 2 == 0 {
        assert(((lose as nat + 2) / 2) as nat == steps + 1);
        assert(paired_amount(start, (lose + 1) as u32) == paired_amount_steps(start, steps + 1));
    } else {
        assert(((lose as nat + 2) / 2) as nat == steps);
        assert(paired_amount(start, (lose + 1) as u32) == paired_amount_steps(start, steps));
    }
}

/// `start * 10^steps`, saturating at `u64::MAX`.
pub open spec fn paired_amount_steps(start: u64, steps: nat) -> nat {
    let product = start * vstd::arithmetic::power::pow(10, steps);
    if product > u64::MAX {
        u64::MAX as nat
    } else {
        product as nat
    }
}

proof fn lemma_paired_amount_step(start: u64, steps: nat)
    ensures
        paired_amount_steps(start, steps + 1) == if paired_amount_steps(start, steps) * 10
            > u64::MAX {
            u64::MAX as nat
        } else {
            paired_amount_steps(start, steps) * 10
        },
{
    vstd::arithmetic::power::lemma_pow_adds(10, steps, 1);
    vstd::arithmetic::power::lemma_pow1(10);
    vstd::arithmetic::power::lemma_pow_positive(10, steps);
    let p = vstd::arithmetic::power::pow(10, steps);
    assert(vstd::arithmetic::power::pow(10, steps + 1) == p * 10);
    assert(start * (p * 10) == (start * p) * 10) by (nonlinear_arith);
    if start * p > u64::MAX {
        assert((start * p) * 10 > u64::MAX) by (nonlinear_arith)
            requires
                start * p > u64::MAX,
        ;
    }
}

} // verus!
