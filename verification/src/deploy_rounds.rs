//! Per-round bookkeeping of the deploying loops, which predict with the
//! frequency predictor, deploy on the board with several miners and claim
//! winnings after winning streaks.

use crate::predictor::HybridPredictor;
use crate::rounds::{MinerKey, BASE_AMOUNT};
use crate::seqs::{all_squares, square_seq, vec_contains, SQUARES};
use vstd::prelude::*;

verus! {

/// One deployment: which squares, with which miner.
#[derive(Clone, Debug)]
pub struct DeployStep {
    pub squares: Vec<usize>,
    pub miner: MinerKey,
}

/// `plan` deploys `squares[k]` with `miners[k]`, in this order.
pub open spec fn plan_is(plan: Seq<DeployStep>, squares: Seq<Seq<usize>>, miners: Seq<MinerKey>) -> bool {
    &&& plan.len() == squares.len()
    &&& plan.len() == miners.len()
    &&& forall|k: int| 0 <= k < plan.len() ==> (#[trigger] plan[k]).squares@ == squares[k]
        && plan[k].miner == miners[k]
}

/// The four miners in the order the deploying loops use them last.
pub open spec fn all_miners() -> Seq<MinerKey> {
    seq![MinerKey::PoolMiner1, MinerKey::PoolMiner3, MinerKey::MeBest, MinerKey::MeMiner1]
}

fn step(squares: &Vec<usize>, miner: MinerKey) -> (s: DeployStep)
    ensures
        s.squares@ == squares@,
        s.miner == miner,
{
    let copy = squares.clone();
    assert(copy@ =~= squares@);
    DeployStep { squares: copy, miner }
}

/// The loss counter after a result: one less after a hit (never below
/// zero), one more after a miss.
pub open spec fn next_lose(lose: int, hit: bool) -> int {
    if hit {
        if lose > 0 {
            lose - 1
        } else {
            0
        }
    } else {
        lose + 1
    }
}

/// A hit pays back one outstanding loss (and none when there is none to
/// pay back); a miss adds one. The counter never drops below zero and moves
/// by at most one per result.
pub proof fn law_next_lose(lose: int)
    requires
        lose >= 0,
    ensures
        next_lose(lose, false) == lose + 1,
        lose > 0 ==> next_lose(lose, true) == lose - 1,
        lose == 0 ==> next_lose(lose, true) == 0,
        next_lose(lose, true) >= 0,
        next_lose(lose, true) < next_lose(lose, false),
{
}

// ---------------------------------------------------------------------
// two alternatives, two miners each
// ---------------------------------------------------------------------

/// The abstract state of the two-alternative loop.
pub struct TwoAltRoundsView {
    pub total: int,
    pub wins_first: nat,
    pub wins_second: nat,
    pub streak_first: int,
    pub streak_second: int,
    pub lose: int,
    pub negative_sol: nat,
    pub first: Seq<usize>,
    pub second: Seq<usize>,
    pub last_round: Option<u64>,
}

/// Record of the loop that deploys two alternative picks with two miners
/// each, and claims after winning streaks.
pub struct TwoAltRounds {
    model: HybridPredictor,
    total: i32,
    wins_first: u64,
    wins_second: u64,
    streak_first: i32,
    streak_second: i32,
    lose: i32,
    negative_sol: u64,
    first: Vec<usize>,
    second: Vec<usize>,
    last_round: Option<u64>,
}

impl View for TwoAltRounds {
    type V = TwoAltRoundsView;

    closed spec fn view(&self) -> TwoAltRoundsView {
        TwoAltRoundsView {
            total: self.total as int,
            wins_first: self.wins_first as nat,
            wins_second: self.wins_second as nat,
            streak_first: self.streak_first as int,
            streak_second: self.streak_second as int,
            lose: self.lose as int,
            negative_sol: self.negative_sol as nat,
            first: self.first@,
            second: self.second@,
            last_round: self.last_round,
        }
    }
}

impl TwoAltRounds {
    #[verifier::type_invariant]
    spec fn well_formed(self) -> bool {
        &&& self.lose >= 0
        &&& self.streak_first >= 0
        &&& self.streak_second >= 0
        &&& self.total >= 0
    }

    /// The predictor as it stands.
    pub closed spec fn model_view(&self) -> HybridPredictor {
        self.model
    }

    /// A fresh record around `model`, with its first two picks.
    pub fn new(model: HybridPredictor, first: Vec<usize>, second: Vec<usize>) -> (r: Self)
        ensures
            r.model_view() == model,
            r@ == (TwoAltRoundsView {
                total: 0,
                wins_first: 0,
                wins_second: 0,
                streak_first: 0,
                streak_second: 0,
                lose: 0,
                negative_sol: 0,
                first: first@,
                second: second@,
                last_round: None,
            }),
    {
        TwoAltRounds {
            model,
            total: 0,
            wins_first: 0,
            wins_second: 0,
            streak_first: 0,
            streak_second: 0,
            lose: 0,
            negative_sol: 0,
            first,
            second,
            last_round: None,
        }
    }

    /// The predictor.
    pub fn model(&self) -> (m: &HybridPredictor)
        ensures
            *m == self.model_view(),
    {
        &self.model
    }

    /// Notes the board's current round. A round not seen before is
    /// remembered and counted, its four deployments of 10 000 lamports are
    /// added to the SOL spent, and the amount is returned.
    pub fn begin_round(&mut self, round_id: u64) -> (amount: Option<u64>)
        requires
            old(self)@.last_round != Some(round_id) ==> old(self)@.total < i32::MAX
                && old(self)@.negative_sol + 4 * BASE_AMOUNT <= u64::MAX,
        ensures
            final(self).model_view() == old(self).model_view(),
            old(self)@.last_round == Some(round_id) ==> amount.is_none() && final(self)@
                == old(self)@,
            old(self)@.last_round != Some(round_id) ==> amount == Some(BASE_AMOUNT)
                && final(self)@ == (TwoAltRoundsView {
                last_round: Some(round_id),
                total: old(self)@.total + 1,
                negative_sol: (old(self)@.negative_sol + 4 * BASE_AMOUNT) as nat,
                ..old(self)@
            }),
    {
        proof {
            use_type_invariant(&*self);
        }
        let same = match self.last_round {
            Some(r) => r == round_id,
            None => false,
        };
        if same {
            return None;
        }
        self.last_round = Some(round_id);
        self.total = self.total + 1;
        let amount: u64 = BASE_AMOUNT;
        self.negative_sol = self.negative_sol + amount * 4;
        Some(BASE_AMOUNT)
    }

    /// Stores the two picks for the current round.
    pub fn set_predictions(&mut self, first: Vec<usize>, second: Vec<usize>)
        ensures
            final(self).model_view() == old(self).model_view(),
            final(self)@ == (TwoAltRoundsView { first: first@, second: second@, ..old(self)@ }),
    {
        proof {
            use_type_invariant(&*self);
        }
        self.first = first;
        self.second = second;
    }

    /// The deployments once the board's environment is known: both
    /// alternatives have positive expected value, so the first pick goes
    /// out with pool miners 3 and 1 and the second with the two own miners.
    pub fn deploy_plan(&self) -> (plan: Vec<DeployStep>)
        ensures
            plan_is(
                plan@,
                seq![self@.first, self@.first, self@.second, self@.second],
                seq![MinerKey::PoolMiner3, MinerKey::PoolMiner1, MinerKey::MeBest, MinerKey::MeMiner1],
            ),
    {
        let mut plan: Vec<DeployStep> = Vec::new();
        plan.push(step(&self.first, MinerKey::PoolMiner3));
        plan.push(step(&self.first, MinerKey::PoolMiner1));
        plan.push(step(&self.second, MinerKey::MeBest));
        plan.push(step(&self.second, MinerKey::MeMiner1));
        plan
    }

    /// Records a round's winning square against both picks: win counts,
    /// winning streaks (a miss resets them) and the loss counter. After
    /// two first-pick wins in a row the streak is reset and the pool miners
    /// 1 and 3 claim, in this order (returned).
    pub fn record_result(&mut self, winning_square: usize) -> (claims: Vec<MinerKey>)
        requires
            old(self)@.wins_first < u64::MAX,
            old(self)@.wins_second < u64::MAX,
            old(self)@.streak_first < i32::MAX,
            old(self)@.streak_second < i32::MAX,
            old(self)@.lose < i32::MAX,
        ensures
            ({
                let hit1 = old(self)@.first.contains(winning_square);
                let hit2 = old(self)@.second.contains(winning_square);
                let streak1 = if hit1 {
                    old(self)@.streak_first + 1
                } else {
                    0
                };
                &&& final(self)@.wins_first == old(self)@.wins_first + (if hit1 {
                    1int
                } else {
                    0int
                })
                &&& final(self)@.wins_second == old(self)@.wins_second + (if hit2 {
                    1int
                } else {
                    0int
                })
                &&& final(self)@.lose == next_lose(old(self)@.lose, hit1)
                &&& hit1 && old(self)@.lose > 0 ==> final(self)@.lose == old(self)@.lose - 1
                &&& hit1 && old(self)@.lose == 0 ==> final(self)@.lose == 0
                &&& !hit1 ==> final(self)@.lose == old(self)@.lose + 1
                &&& final(self)@.streak_second == if hit2 {
                    old(self)@.streak_second + 1
                } else {
                    0
                }
                &&& final(self)@.streak_first == if streak1 > 1 {
                    0
                } else {
                    streak1
                }
                &&& claims@ == if streak1 > 1 {
                    seq![MinerKey::PoolMiner1, MinerKey::PoolMiner3]
                } else {
                    Seq::<MinerKey>::empty()
                }
            }),
            final(self)@.total == old(self)@.total,
            final(self)@.negative_sol == old(self)@.negative_sol,
            final(self)@.first == old(self)@.first,
            final(self)@.second == old(self)@.second,
            final(self)@.last_round == old(self)@.last_round,
            final(self).model_view() == old(self).model_view(),
    {
        proof {
            use_type_invariant(&*self);
        }
        let hit1 = vec_contains(&self.first, winning_square);
        let hit2 = vec_contains(&self.second, winning_square);
        if hit1 {
            self.wins_first = self.wins_first + 1;
            self.streak_first = self.streak_first + 1;
            if self.lose > 0 {
                self.lose = self.lose - 1;
            }
        } else {
            self.lose = self.lose + 1;
            self.streak_first = 0;
        }
        if hit2 {
            self.wins_second = self.wins_second + 1;
            self.streak_second = self.streak_second + 1;
        } else {
            self.streak_second = 0;
        }
        let mut claims: Vec<MinerKey> = Vec::new();
        if self.streak_first > 1 {
            self.streak_first = 0;
            claims.push(MinerKey::PoolMiner1);
            claims.push(MinerKey::PoolMiner3);
        }
        assert(claims@ =~= if old(self)@.streak_first + (if hit1 { 1int } else { 0int }) > 1 && hit1 {
            seq![MinerKey::PoolMiner1, MinerKey::PoolMiner3]
        } else {
            Seq::<MinerKey>::empty()
        });
        claims
    }

    /// After the first claims went through: when the second pick has a
    /// winning streak, the streak is reset and the two own miners claim,
    /// in this order (returned).
    pub fn second_claims(&mut self) -> (claims: Vec<MinerKey>)
        ensures
            claims@ == if old(self)@.streak_second > 0 {
                seq![MinerKey::MeBest, MinerKey::MeMiner1]
            } else {
                Seq::<MinerKey>::empty()
            },
            final(self)@ == (TwoAltRoundsView {
                streak_second: if old(self)@.streak_second > 0 {
                    0
                } else {
                    old(self)@.streak_second
                },
                ..old(self)@
            }),
            final(self).model_view() == old(self).model_view(),
    {
        proof {
            use_type_invariant(&*self);
        }
        let mut claims: Vec<MinerKey> = Vec::new();
        if self.streak_second > 0 {
            self.streak_second = 0;
            claims.push(MinerKey::MeBest);
            claims.push(MinerKey::MeMiner1);
        }
        assert(claims@ =~= if old(self)@.streak_second > 0 {
            seq![MinerKey::MeBest, MinerKey::MeMiner1]
        } else {
            Seq::<MinerKey>::empty()
        });
        claims
    }

    /// After all claims went through: the predictor records the winning
    /// square against the first pick.
    pub fn finish_round(&mut self, winning_square: usize)
        requires
            winning_square < SQUARES,
            old(self).model_view().rounds_view() < usize::MAX,
            old(self).model_view().count_view()[winning_square as int] < u64::MAX,
        ensures
            final(self)@ == old(self)@,
            final(self).model_view().rounds_view() == old(self).model_view().rounds_view() + 1,
            final(self).model_view().hits_view() == old(self).model_view().hits_view() + (if old(self)@.first.contains(winning_square) {
                1int
            } else {
                0int
            }),
            final(self).model_view().count_view() == old(self).model_view().count_view().update(
                winning_square as int,
                (old(self).model_view().count_view()[winning_square as int] + 1) as u64,
            ),
    {
        proof {
            use_type_invariant(&*self);
        }
        let mut model = HybridPredictor::new();
        std::mem::swap(&mut model, &mut self.model);
        model.update(winning_square, self.first.as_slice());
        self.model = model;
    }

    /// Number of rounds started.
    pub fn total(&self) -> (r: i32)
        ensures
            r == self@.total,
    {
        self.total
    }

    /// The loss counter, which never drops below zero.
    pub fn lose(&self) -> (r: i32)
        ensures
            r == self@.lose,
            r >= 0,
    {
        proof {
            use_type_invariant(self);
        }
        self.lose
    }

    /// Wins of the first and of the second pick.
    pub fn wins(&self) -> (r: (u64, u64))
        ensures
            r.0 == self@.wins_first,
            r.1 == self@.wins_second,
    {
        (self.wins_first, self.wins_second)
    }

    /// Winning streaks of the first and of the second pick.
    pub fn streaks(&self) -> (r: (i32, i32))
        ensures
            r.0 == self@.streak_first,
            r.1 == self@.streak_second,
            r.0 >= 0,
            r.1 >= 0,
    {
        proof {
            use_type_invariant(self);
        }
        (self.streak_first, self.streak_second)
    }

    /// Lamports spent on deployments so far.
    pub fn negative_sol(&self) -> (r: u64)
        ensures
            r == self@.negative_sol,
    {
        self.negative_sol
    }

    /// The current two picks.
    pub fn picks(&self) -> (r: (&Vec<usize>, &Vec<usize>))
        ensures
            r.0@ == self@.first,
            r.1@ == self@.second,
    {
        (&self.first, &self.second)
    }
}

// ---------------------------------------------------------------------
// a single pick, four miners
// ---------------------------------------------------------------------

/// Which deploying loop a single-pick record belongs to.
#[derive(Clone, Copy, Debug)]
pub enum SinglePickPolicy {
    /// The three-way loop: deploys the three alternatives, claims after
    /// every hit.
    ThreeWay,
    /// The hybrid loop: deploys the hybrid pick while the predictor is
    /// accurate (or every square when the expected value is good), claims
    /// after two hits in a row.
    Hybrid,
}

/// The abstract state of a single-pick loop.
pub struct PickRoundsView {
    pub total: int,
    pub wins_pred: nat,
    pub wins_logic: nat,
    pub streak: int,
    pub lose: int,
    pub picks: Seq<Seq<usize>>,
    pub last_round: Option<u64>,
}

/// Record of the loops that score one main pick against each round: the
/// three-way loop and the hybrid loop. The first pick is the one scored and
/// recorded in the predictor; "logic" is the pick of every square.
pub struct PickRounds {
    policy: SinglePickPolicy,
    model: HybridPredictor,
    total: i32,
    wins_pred: u64,
    wins_logic: u64,
    streak: i32,
    lose: i32,
    picks: Vec<Vec<usize>>,
    last_round: Option<u64>,
}

/// The views of a list of picks.
pub open spec fn picks_view(picks: Seq<Vec<usize>>) -> Seq<Seq<usize>> {
    picks.map_values(|p: Vec<usize>| p@)
}

impl View for PickRounds {
    type V = PickRoundsView;

    closed spec fn view(&self) -> PickRoundsView {
        PickRoundsView {
            total: self.total as int,
            wins_pred: self.wins_pred as nat,
            wins_logic: self.wins_logic as nat,
            streak: self.streak as int,
            lose: self.lose as int,
            picks: picks_view(self.picks@),
            last_round: self.last_round,
        }
    }
}

/// Number of picks each policy deploys from.
pub open spec fn pick_count(policy: SinglePickPolicy) -> nat {
    match policy {
        SinglePickPolicy::ThreeWay => 3,
        SinglePickPolicy::Hybrid => 1,
    }
}

/// Whether a loop with this policy claims once its streak reaches `streak`.
pub open spec fn claims_at(policy: SinglePickPolicy, streak: int) -> bool {
    match policy {
        SinglePickPolicy::ThreeWay => streak >= 1,
        SinglePickPolicy::Hybrid => streak > 1,
    }
}

/// The percentage of hits from which the hybrid loop deploys its pick.
pub const ACCURACY_PERCENT: u64 = 80;

impl PickRounds {
    #[verifier::type_invariant]
    spec fn well_formed(self) -> bool {
        &&& self.lose >= 0
        &&& self.streak >= 0
        &&& self.total >= 0
        &&& self.picks@.len() == pick_count(self.policy)
    }

    /// The predictor as it stands.
    pub closed spec fn model_view(&self) -> HybridPredictor {
        self.model
    }

    /// The loop this record belongs to.
    pub closed spec fn policy_view(&self) -> SinglePickPolicy {
        self.policy
    }

    /// A fresh record around `model`, with the loop's first picks (three
    /// for the three-way loop, one for the hybrid loop).
    pub fn new(policy: SinglePickPolicy, model: HybridPredictor, picks: Vec<Vec<usize>>) -> (r:
        Self)
        requires
            picks@.len() == pick_count(policy),
        ensures
            r.model_view() == model,
            r.policy_view() == policy,
            r@ == (PickRoundsView {
                total: 0,
                wins_pred: 0,
                wins_logic: 0,
                streak: 0,
                lose: 0,
                picks: picks_view(picks@),
                last_round: None,
            }),
    {
        PickRounds {
            policy,
            model,
            total: 0,
            wins_pred: 0,
            wins_logic: 0,
            streak: 0,
            lose: 0,
            picks,
            last_round: None,
        }
    }

    /// The predictor.
    pub fn model(&self) -> (m: &HybridPredictor)
        ensures
            *m == self.model_view(),
    {
        &self.model
    }

    /// Notes the board's current round. A round not seen before is
    /// remembered and counted, and the amount to deploy (10 000 lamports)
    /// is returned.
    pub fn begin_round(&mut self, round_id: u64) -> (amount: Option<u64>)
        requires
            old(self)@.last_round != Some(round_id) ==> old(self)@.total < i32::MAX,
        ensures
            final(self).model_view() == old(self).model_view(),
            final(self).policy_view() == old(self).policy_view(),
            old(self)@.last_round == Some(round_id) ==> amount.is_none() && final(self)@
                == old(self)@,
            old(self)@.last_round != Some(round_id) ==> amount == Some(BASE_AMOUNT)
                && final(self)@ == (PickRoundsView {
                last_round: Some(round_id),
                total: old(self)@.total + 1,
                ..old(self)@
            }),
    {
        proof {
            use_type_invariant(&*self);
        }
        let same = match self.last_round {
            Some(r) => r == round_id,
            None => false,
        };
        if same {
            return None;
        }
        self.last_round = Some(round_id);
        self.total = self.total + 1;
        Some(BASE_AMOUNT)
    }

    /// Stores the picks for the current round.
    pub fn set_predictions(&mut self, picks: Vec<Vec<usize>>)
        requires
            picks@.len() == pick_count(old(self).policy_view()),
        ensures
            final(self).model_view() == old(self).model_view(),
            final(self).policy_view() == old(self).policy_view(),
            final(self)@ == (PickRoundsView { picks: picks_view(picks@), ..old(self)@ }),
    {
        proof {
            use_type_invariant(&*self);
        }
        self.picks = picks;
    }

    /// The deployments of a new round. The three-way loop deploys its
    /// first, second, third and again first pick with pool miners 1 and 3,
    /// the own miner and the own pool miner. The hybrid loop deploys its
    /// pick with all four miners while the predictor hits at least 80% of
    /// the time; otherwise, when the expected value of the board is good
    /// (`should_deploy`), it deploys every square with all four; otherwise
    /// nothing.
    pub fn deploy_plan(&self, should_deploy: bool) -> (plan: Vec<DeployStep>)
        ensures
            self.policy_view() == SinglePickPolicy::ThreeWay ==> plan_is(
                plan@,
                seq![self@.picks[0], self@.picks[1], self@.picks[2], self@.picks[0]],
                all_miners(),
            ),
            self.policy_view() == SinglePickPolicy::Hybrid ==> {
                let accurate = self.model_view().rounds_view() > 0
                    && self.model_view().hits_view() * 100 >= ACCURACY_PERCENT
                    * self.model_view().rounds_view();
                &&& accurate ==> plan_is(
                    plan@,
                    seq![self@.picks[0], self@.picks[0], self@.picks[0], self@.picks[0]],
                    all_miners(),
                )
                &&& !accurate && should_deploy ==> plan_is(
                    plan@,
                    seq![square_seq(), square_seq(), square_seq(), square_seq()],
                    all_miners(),
                )
                &&& !accurate && !should_deploy ==> plan@.len() == 0
            },
    {
        proof {
            use_type_invariant(self);
        }
        let mut plan: Vec<DeployStep> = Vec::new();
        match self.policy {
            SinglePickPolicy::ThreeWay => {
                plan.push(step(&self.picks[0], MinerKey::PoolMiner1));
                plan.push(step(&self.picks[1], MinerKey::PoolMiner3));
                plan.push(step(&self.picks[2], MinerKey::MeBest));
                plan.push(step(&self.picks[0], MinerKey::MeMiner1));
            },
            SinglePickPolicy::Hybrid => {
                if self.model.accuracy_at_least(ACCURACY_PERCENT) {
                    plan.push(step(&self.picks[0], MinerKey::PoolMiner1));
                    plan.push(step(&self.picks[0], MinerKey::PoolMiner3));
                    plan.push(step(&self.picks[0], MinerKey::MeBest));
                    plan.push(step(&self.picks[0], MinerKey::MeMiner1));
                } else if should_deploy {
                    let logic = all_squares();
                    plan.push(step(&logic, MinerKey::PoolMiner1));
                    plan.push(step(&logic, MinerKey::PoolMiner3));
                    plan.push(step(&logic, MinerKey::MeBest));
                    plan.push(step(&logic, MinerKey::MeMiner1));
                }
            },
        }
        plan
    }

    /// Records a round's winning square against the first pick and against
    /// every square: win counts, winning streak (a miss resets it) and the
    /// loss counter. When the streak is long enough to claim (one hit for
    /// the three-way loop, two in a row for the hybrid loop) it is reset
    /// and all four miners claim, in order (returned).
    pub fn record_result(&mut self, winning_square: usize) -> (claims: Vec<MinerKey>)
        requires
            old(self)@.wins_pred < u64::MAX,
            old(self)@.wins_logic < u64::MAX,
            old(self)@.streak < i32::MAX,
            old(self)@.lose < i32::MAX,
        ensures
            ({
                let hit = old(self)@.picks[0].contains(winning_square);
                let streak = if hit {
                    old(self)@.streak + 1
                } else {
                    0
                };
                let claim = claims_at(old(self).policy_view(), streak);
                &&& final(self)@.wins_pred == old(self)@.wins_pred + (if hit {
                    1int
                } else {
                    0int
                })
                &&& final(self)@.wins_logic == old(self)@.wins_logic + (if winning_square
                    < SQUARES {
                    1int
                } else {
                    0int
                })
                &&& final(self)@.lose == next_lose(old(self)@.lose, hit)
                &&& hit && old(self)@.lose > 0 ==> final(self)@.lose == old(self)@.lose - 1
                &&& hit && old(self)@.lose == 0 ==> final(self)@.lose == 0
                &&& !hit ==> final(self)@.lose == old(self)@.lose + 1
                &&& final(self)@.streak == if claim {
                    0
                } else {
                    streak
                }
                &&& claims@ == if claim {
                    all_miners()
                } else {
                    Seq::<MinerKey>::empty()
                }
            }),
            final(self)@.total == old(self)@.total,
            final(self)@.picks == old(self)@.picks,
            final(self)@.last_round == old(self)@.last_round,
            final(self).model_view() == old(self).model_view(),
            final(self).policy_view() == old(self).policy_view(),
    {
        proof {
            use_type_invariant(&*self);
        }
        let hit = vec_contains(&self.picks[0], winning_square);
        let logic = all_squares();
        proof {
            vstd::seq_lib::lemma_seq_contains(square_seq(), winning_square);
            crate::seqs::lemma_square_seq();
        }
        let hit_logic = vec_contains(&logic, winning_square);
        if hit {
            self.wins_pred = self.wins_pred + 1;
            self.streak = self.streak + 1;
            if self.lose > 0 {
                self.lose = self.lose - 1;
            }
        } else {
            self.lose = self.lose + 1;
            self.streak = 0;
        }
        if hit_logic {
            self.wins_logic = self.wins_logic + 1;
        }
        let claim = match self.policy {
            SinglePickPolicy::ThreeWay => self.streak >= 1,
            SinglePickPolicy::Hybrid => self.streak > 1,
        };
        let mut claims: Vec<MinerKey> = Vec::new();
        if claim {
            self.streak = 0;
            claims.push(MinerKey::PoolMiner1);
            claims.push(MinerKey::PoolMiner3);
            claims.push(MinerKey::MeBest);
            claims.push(MinerKey::MeMiner1);
        }
        assert(claims@ =~= if claim {
            all_miners()
        } else {
            Seq::<MinerKey>::empty()
        });
        claims
    }

    /// After all claims went through: the predictor records the winning
    /// square against the first pick.
    pub fn finish_round(&mut self, winning_square: usize)
        requires
            winning_square < SQUARES,
            old(self).model_view().rounds_view() < usize::MAX,
            old(self).model_view().count_view()[winning_square as int] < u64::MAX,
        ensures
            final(self)@ == old(self)@,
            final(self).policy_view() == old(self).policy_view(),
            final(self).model_view().rounds_view() == old(self).model_view().rounds_view() + 1,
            final(self).model_view().hits_view() == old(self).model_view().hits_view() + (if old(self)@.picks[0].contains(winning_square) {
                1int
            } else {
                0int
            }),
            final(self).model_view().count_view() == old(self).model_view().count_view().update(
                winning_square as int,
                (old(self).model_view().count_view()[winning_square as int] + 1) as u64,
            ),
    {
        proof {
            use_type_invariant(&*self);
        }
        let mut model = HybridPredictor::new();
        std::mem::swap(&mut model, &mut self.model);
        model.update(winning_square, self.picks[0].as_slice());
        self.model = model;
    }

    /// Number of rounds started.
    pub fn total(&self) -> (r: i32)
        ensures
            r == self@.total,
    {
        self.total
    }

    /// The loss counter, which never drops below zero.
    pub fn lose(&self) -> (r: i32)
        ensures
            r == self@.lose,
            r >= 0,
    {
        proof {
            use_type_invariant(self);
        }
        self.lose
    }

    /// Wins of the pick and of the every-square pick.
    pub fn wins(&self) -> (r: (u64, u64))
        ensures
            r.0 == self@.wins_pred,
            r.1 == self@.wins_logic,
    {
        (self.wins_pred, self.wins_logic)
    }

    /// The current winning streak.
    pub fn streak(&self) -> (r: i32)
        ensures
            r == self@.streak,
            r >= 0,
    {
        proof {
            use_type_invariant(self);
        }
        self.streak
    }

    /// The current picks.
    pub fn picks(&self) -> (r: &Vec<Vec<usize>>)
        ensures
            picks_view(r@) == self@.picks,
    {
        &self.picks
    }
}

} // verus!
