use vstd::multiset::Multiset;
use vstd::prelude::*;

verus! {

/// Why a call on the bandit was refused.
#[derive(Debug, Clone, Copy, PartialEq, Eq, Structural)]
pub enum BanditError {
    /// The bandit was asked for zero arms.
    InvalidConfig,
    /// An arm index at or past the number of arms.
    InvalidArm,
}

/// The posterior parameters of one arm: Beta(success_weight, failure_weight).
///
/// Both start at one (the uniform prior) and each observed reward adds one to
/// exactly one of them, so they are always whole numbers.
#[derive(Debug, Clone, Copy, PartialEq, Eq, Structural)]
pub struct Belief {
    pub success_weight: u64,
    pub failure_weight: u64,
}

/// The posterior mean of an arm, as the exact fraction
/// `numerator / denominator`.
#[derive(Debug, Clone, Copy, PartialEq, Eq, Structural)]
pub struct Estimate {
    pub numerator: u64,
    pub denominator: u64,
}

/// A Thompson Sampling bandit over the arms `0 .. num_arms`.
pub struct ThompsonSampler {
    num_arms: usize,
    beliefs: Vec<Belief>,
}

/// The mathematical value of a belief: (success weight, failure weight).
pub open spec fn belief_view(b: Belief) -> (nat, nat) {
    (b.success_weight as nat, b.failure_weight as nat)
}

/// The uniform prior of every arm.
pub open spec fn prior() -> (nat, nat) {
    (1, 1)
}

/// The beliefs of a freshly made bandit with `n` arms.
pub open spec fn fresh_beliefs(n: nat) -> Seq<(nat, nat)> {
    Seq::new(n, |i: int| prior())
}

/// One reward applied to one arm: a success adds one to the success weight,
/// a failure adds one to the failure weight; an arm outside the table leaves
/// the table as it is.
pub open spec fn update_spec(b: Seq<(nat, nat)>, arm: int, success: bool) -> Seq<(nat, nat)> {
    if 0 <= arm < b.len() {
        if success {
            b.update(arm, (b[arm].0 + 1, b[arm].1))
        } else {
            b.update(arm, (b[arm].0, b[arm].1 + 1))
        }
    } else {
        b
    }
}

/// A sequence of rewards applied in order to the same arm.
pub open spec fn update_all(b: Seq<(nat, nat)>, arm: int, rewards: Seq<bool>) -> Seq<(nat, nat)>
    decreases rewards.len(),
{
    if rewards.len() == 0 {
        b
    } else {
        update_all(update_spec(b, arm, rewards[0]), arm, rewards.drop_first())
    }
}

/// How many of the rewards are successes.
pub open spec fn count_successes(rewards: Seq<bool>) -> nat
    decreases rewards.len(),
{
    if rewards.len() == 0 {
        0
    } else {
        (if rewards[0] { 1nat } else { 0nat }) + count_successes(rewards.drop_first())
    }
}

/// How many of the rewards are failures.
pub open spec fn count_failures(rewards: Seq<bool>) -> nat
    decreases rewards.len(),
{
    if rewards.len() == 0 {
        0
    } else {
        (if rewards[0] { 0nat } else { 1nat }) + count_failures(rewards.drop_first())
    }
}

/// `r` is the first index at which `scores` takes its greatest value.
pub open spec fn is_first_max(scores: Seq<u64>, r: int) -> bool {
    &&& 0 <= r < scores.len()
    &&& forall|j: int| 0 <= j < scores.len() ==> scores[j] <= scores[r]
    &&& forall|j: int| 0 <= j < r ==> scores[j] < scores[r]
}

impl ThompsonSampler {
    /// The beliefs, arm by arm.
    pub closed spec fn view(&self) -> Seq<(nat, nat)> {
        self.beliefs@.map_values(|b: Belief| belief_view(b))
    }

    pub closed spec fn wf(&self) -> bool {
        &&& self.num_arms >= 1
        &&& self.beliefs@.len() == self.num_arms
        &&& forall|i: int| 0 <= i < self.beliefs@.len() ==> self.beliefs@[i].success_weight >= 1
        &&& forall|i: int| 0 <= i < self.beliefs@.len() ==> self.beliefs@[i].failure_weight >= 1
    }

    /// Whether one more reward on `arm` keeps both weights and their sum
    /// within `u64`.
    pub open spec fn has_room(&self, arm: int) -> bool {
        0 <= arm < self@.len() ==> self@[arm].0 + self@[arm].1 < u64::MAX
    }

    /// Whether the sum of the weights of `arm` fits in `u64`.
    pub open spec fn sum_fits(&self, arm: int) -> bool {
        0 <= arm < self@.len() ==> self@[arm].0 + self@[arm].1 <= u64::MAX
    }

    /// Makes a bandit with `num_arms` arms, each at the uniform prior.
    pub fn new(num_arms: usize) -> (r: Result<ThompsonSampler, BanditError>)
        ensures
            num_arms == 0 <==> r == Err::<ThompsonSampler, BanditError>(BanditError::InvalidConfig),
            num_arms > 0 <==> r is Ok,
            r matches Ok(s) ==> s.wf() && s@ == fresh_beliefs(num_arms as nat),
    {
        if num_arms == 0 {
            return Err(BanditError::InvalidConfig);
        }
        let mut beliefs: Vec<Belief> = Vec::new();
        let mut i: usize = 0;
        while i < num_arms
            invariant
                i <= num_arms,
                beliefs@.len() == i,
                forall|j: int| 0 <= j < i ==> beliefs@[j] == (Belief { success_weight: 1, failure_weight: 1 }),
            decreases num_arms - i,
        {
            beliefs.push(Belief { success_weight: 1, failure_weight: 1 });
            i = i + 1;
        }
        let s = ThompsonSampler { num_arms, beliefs };
        assert(s@ =~= fresh_beliefs(num_arms as nat));
        Ok(s)
    }

    /// The number of arms.
    pub fn num_arms(&self) -> (r: usize)
        requires
            self.wf(),
        ensures
            r == self@.len(),
    {
        self.num_arms
    }

    /// The belief of `arm`, or `None` where there is no such arm.
    pub fn belief(&self, arm: usize) -> (r: Option<Belief>)
        requires
            self.wf(),
        ensures
            arm < self@.len() <==> r.is_some(),
            r matches Some(b) ==> belief_view(b) == self@[arm as int],
    {
        if arm < self.num_arms {
            Some(self.beliefs[arm])
        } else {
            None
        }
    }

    /// The posterior mean of `arm`: success weight over the sum of both
    /// weights, or `None` where there is no such arm.
    pub fn estimate(&self, arm: usize) -> (r: Option<Estimate>)
        requires
            self.wf(),
            self.sum_fits(arm as int),
        ensures
            arm < self@.len() <==> r.is_some(),
            r matches Some(e) ==> e.numerator == self@[arm as int].0
                && e.denominator == self@[arm as int].0 + self@[arm as int].1,
    {
        if arm < self.num_arms {
            let b = self.beliefs[arm];
            Some(Estimate { numerator: b.success_weight, denominator: b.success_weight + b.failure_weight })
        } else {
            None
        }
    }

    /// Picks the arm whose score is strictly greatest, the lowest index among
    /// equal greatest scores. `scores[i]` is the draw for arm `i` from its
    /// posterior, as a key whose integer order is the order of the draws.
    pub fn select_arm(&self, scores: &Vec<u64>) -> (r: usize)
        requires
            self.wf(),
            scores@.len() == self@.len(),
        ensures
            is_first_max(scores@, r as int),
    {
        let mut best: usize = 0;
        let mut i: usize = 1;
        while i < scores.len()
            invariant
                1 <= i <= scores@.len(),
                scores@.len() >= 1,
                best < i,
                forall|j: int| 0 <= j < i ==> scores@[j] <= scores@[best as int],
                forall|j: int| 0 <= j < best ==> scores@[j] < scores@[best as int],
            decreases scores@.len() - i,
        {
            if scores[i] > scores[best] {
                best = i;
            }
            i = i + 1;
        }
        best
    }

    /// Records one reward for `arm`: 1 is a success, 0 a failure. An arm out
    /// of range is refused whatever the reward.
    pub fn update(&mut self, arm: usize, reward: usize) -> (r: Result<(), BanditError>)
        requires
            old(self).wf(),
            old(self).has_room(arm as int),
            arm < old(self)@.len() ==> reward == 0 || reward == 1,
        ensures
            final(self).wf(),
            final(self)@.len() == old(self)@.len(),
            arm < old(self)@.len() <==> r.is_ok(),
            r.is_err() ==> r == Err::<(), BanditError>(BanditError::InvalidArm),
            arm >= old(self)@.len() ==> final(self)@ == old(self)@,
            final(self)@ == update_spec(old(self)@, arm as int, reward == 1),
    {
        if arm >= self.num_arms {
            return Err(BanditError::InvalidArm);
        }
        let b = self.beliefs[arm];
        let nb = if reward == 1 {
            Belief { success_weight: b.success_weight + 1, failure_weight: b.failure_weight }
        } else {
            Belief { success_weight: b.success_weight, failure_weight: b.failure_weight + 1 }
        };
        self.beliefs.set(arm, nb);
        assert(self@ =~= update_spec(old(self)@, arm as int, reward == 1));
        Ok(())
    }
}

/// Rewards on any arms, applied in order; arms out of range are skipped.
pub open spec fn update_seq(b: Seq<(nat, nat)>, us: Seq<(int, bool)>) -> Seq<(nat, nat)>
    decreases us.len(),
{
    if us.len() == 0 {
        b
    } else {
        update_spec(update_seq(b, us.drop_last()), us.last().0, us.last().1)
    }
}

/// After a sequence of rewards, each arm's weights are its starting weights
/// plus the number of successes and of failures it received.
pub proof fn lemma_update_seq_counts(b: Seq<(nat, nat)>, us: Seq<(int, bool)>)
    ensures
        update_seq(b, us).len() == b.len(),
        forall|a: int| 0 <= a < b.len() ==> #[trigger] update_seq(b, us)[a] == (
            b[a].0 + us.to_multiset().count((a, true)),
            b[a].1 + us.to_multiset().count((a, false)),
        ),
    decreases us.len(),
{
    broadcast use vstd::seq_lib::group_to_multiset_ensures;
    if us.len() == 0 {
        assert(us.to_multiset() =~= Multiset::empty());
    } else {
        let init = us.drop_last();
        lemma_update_seq_counts(b, init);
        assert(us == init.push(us.last()));
        assert(us.to_multiset() == init.to_multiset().insert(us.last()));
    }
}

/// The beliefs after a sequence of rewards do not depend on the order in
/// which the rewards were applied.
pub proof fn lemma_update_order_irrelevant(b: Seq<(nat, nat)>, us1: Seq<(int, bool)>, us2: Seq<(int, bool)>)
    requires
        us1.to_multiset() == us2.to_multiset(),
    ensures
        update_seq(b, us1) == update_seq(b, us2),
{
    lemma_update_seq_counts(b, us1);
    lemma_update_seq_counts(b, us2);
    assert(update_seq(b, us1) =~= update_seq(b, us2));
}

/// A fresh bandit estimates every arm at exactly one half.
pub proof fn lemma_fresh_estimate_is_half(num_arms: nat, arm: int)
    requires
        0 <= arm < num_arms,
    ensures
        2 * fresh_beliefs(num_arms)[arm].0 == fresh_beliefs(num_arms)[arm].0 + fresh_beliefs(num_arms)[arm].1,
{
}

/// Rewards applied to one arm, in any order, add the number of successes to
/// its success weight and the number of failures to its failure weight, and
/// leave every other arm as it was.
pub proof fn lemma_update_all_counts(b: Seq<(nat, nat)>, arm: int, rewards: Seq<bool>)
    requires
        0 <= arm < b.len(),
    ensures
        update_all(b, arm, rewards).len() == b.len(),
        update_all(b, arm, rewards)[arm] == (b[arm].0 + count_successes(rewards), b[arm].1 + count_failures(rewards)),
        forall|j: int| 0 <= j < b.len() && j != arm ==> #[trigger] update_all(b, arm, rewards)[j] == b[j],
    decreases rewards.len(),
{
    if rewards.len() > 0 {
        lemma_update_all_counts(update_spec(b, arm, rewards[0]), arm, rewards.drop_first());
    }
}

/// Starting from a fresh bandit, `k` successes and `m` failures on one arm, in
/// any order, give that arm the estimate `(1 + k) / (2 + k + m)`.
pub proof fn lemma_fresh_then_rewards(num_arms: nat, arm: int, rewards: Seq<bool>)
    requires
        0 <= arm < num_arms,
    ensures
        update_all(fresh_beliefs(num_arms), arm, rewards)[arm].0 == 1 + count_successes(rewards),
        update_all(fresh_beliefs(num_arms), arm, rewards)[arm].0 + update_all(fresh_beliefs(num_arms), arm, rewards)[arm].1
            == 2 + count_successes(rewards) + count_failures(rewards),
{
    lemma_update_all_counts(fresh_beliefs(num_arms), arm, rewards);
}

} // verus!
