//! The per-task voting state machine and its pluggable policies.
//!
//! A round for a task goes absent → open → concluded: `start_task_voting`
//! creates it (refusing a second round for the same task), `submit_vote`
//! registers weighted votes through the injected power policy, and
//! `try_conclude_voting` finalizes and deletes the round once the
//! injected quorum predicate holds, handing the tally summary to the
//! injected conclusion hook. Every transition is total and deterministic;
//! all failures are ordinary errors.
use vstd::prelude::*;
use crate::kv::{kv_has, kv_index, kv_get, kv_unique, lemma_kv_index};
use crate::votes::{
    AccountId, DataId, DataView, Votes, VotesView, options_wf, register_result, max_power,
    insert_pos, lemma_insert_pos, lemma_insert_pos_exists, add_voter_result, Summary,
};
use crate::{Error, Power};

verus! {

/// Identifies one task.
pub type TaskId = u64;

/// The rounds in existence, as mathematical content: one entry per task.
pub type RoundsView = Seq<(TaskId, VotesView)>;

/// At most one round per task, each internally well formed.
pub open spec fn rounds_wf(s: RoundsView) -> bool {
    &&& kv_unique(s)
    &&& forall|i: int| 0 <= i < s.len() ==> options_wf(#[trigger] s[i].1.options)
}

/// Looks up the voting power a voter carries for a task. Supplied by the
/// host; may refuse a voter that is not entitled to the task.
pub trait VoterPower: Sized {
    spec fn power_spec(&self, task: TaskId, voter: AccountId) -> Result<Power, Error>;

    fn voting_power_of(&self, task: &TaskId, voter: &AccountId) -> (r: Result<Power, Error>)
        ensures
            r == self.power_spec(*task, *voter),
    ;
}

/// Decides when a round has gathered enough voting power to be
/// finalized. Supplied by the host; a pure predicate over the round.
pub trait QuorumMet: Sized {
    /// The predicate the policy decides.
    spec fn quorum_spec(&self, task: TaskId, votes: VotesView) -> bool;

    fn meets_quorum(&self, task: &TaskId, votes: &Votes) -> (r: bool)
        requires
            votes.wf(),
        ensures
            r == self.quorum_spec(*task, votes@),
    ;
}

/// Receives the summary of a concluded round, exactly once per round,
/// after removal of the round is decided. Side effects here belong to
/// the host.
pub trait OnVoteConclusion: Sized {
    fn voting_concluded(&mut self, task: &TaskId, summary: Summary, votes: &Votes);
}

/// The default power policy: every voter carries power 1.
pub struct UniformVoterPower;

impl VoterPower for UniformVoterPower {
    open spec fn power_spec(&self, task: TaskId, voter: AccountId) -> Result<Power, Error> {
        Ok(1 as Power)
    }

    fn voting_power_of(&self, task: &TaskId, voter: &AccountId) -> (r: Result<Power, Error>) {
        Ok(1)
    }
}

/// The default quorum policy: met as soon as any outcome has positive
/// power.
pub struct AtLeastOneVote;

impl QuorumMet for AtLeastOneVote {
    open spec fn quorum_spec(&self, task: TaskId, votes: VotesView) -> bool {
        exists|i: int| 0 <= i < votes.options.len() && #[trigger] votes.options[i].1.power > 0
    }

    fn meets_quorum(&self, task: &TaskId, votes: &Votes) -> (r: bool) {
        let n = votes.votes.len();
        let mut i: usize = 0;
        while i < n
            invariant
                n == votes.votes@.len(),
                i <= n,
                forall|t: int| 0 <= t < i ==> !(#[trigger] votes@.options[t].1.power > 0),
            decreases n - i,
        {
            if votes.votes[i].1.total_voting_power > 0 {
                proof {
                    assert(votes@.options[i as int].1.power > 0);
                }
                return true;
            }
            i = i + 1;
        }
        false
    }
}

/// A conclusion hook that discards the summary; for hosts with nothing
/// to do at conclusion.
pub struct DiscardConclusion;

impl OnVoteConclusion for DiscardConclusion {
    fn voting_concluded(&mut self, _task: &TaskId, _summary: Summary, _votes: &Votes) {
    }
}

/// Composes an independent power policy and quorum policy; each call is
/// forwarded to the policy that supplies it, with no shared state.
pub struct VotingProviderStrategy<P, Q> {
    pub power: P,
    pub quorum: Q,
}

impl<P: VoterPower, Q> VoterPower for VotingProviderStrategy<P, Q> {
    open spec fn power_spec(&self, task: TaskId, voter: AccountId) -> Result<Power, Error> {
        self.power.power_spec(task, voter)
    }

    fn voting_power_of(&self, task: &TaskId, voter: &AccountId) -> (r: Result<Power, Error>) {
        self.power.voting_power_of(task, voter)
    }
}

impl<P, Q: QuorumMet> QuorumMet for VotingProviderStrategy<P, Q> {
    open spec fn quorum_spec(&self, task: TaskId, votes: VotesView) -> bool {
        self.quorum.quorum_spec(task, votes)
    }

    fn meets_quorum(&self, task: &TaskId, votes: &Votes) -> (r: bool) {
        self.quorum.meets_quorum(task, votes)
    }
}

/// What `start_task_voting` does: refused while a round exists; with no
/// initial vote, a fresh empty round appears; with one, the power policy
/// answers first (its error surfaces unchanged), a zero capacity is
/// refused, and otherwise the round opens holding that one vote.
pub open spec fn start_post(
    olds: RoundsView,
    news: RoundsView,
    task: TaskId,
    initial_vote: Option<(AccountId, DataId)>,
    pw: Result<Power, Error>,
    max_voters: usize,
    r: Result<(), Error>,
) -> bool {
    if kv_has(olds, task) {
        r == Err::<(), Error>(Error::VoteInProgress) && news == olds
    } else {
        match initial_vote {
            None => r == Ok::<(), Error>(()) && news == olds.push(
                (task, VotesView { options: Seq::empty(), total: 0 as Power }),
            ),
            Some((voter, data)) => match pw {
                Err(e) => r == Err::<(), Error>(e) && news == olds,
                Ok(p) => {
                    if max_voters == 0 {
                        r == Err::<(), Error>(Error::TooManyVoters) && news == olds
                    } else {
                        r == Ok::<(), Error>(()) && news == olds.push(
                            (
                                task,
                                VotesView {
                                    options: seq![
                                        (data, DataView { power: p, voters: seq![voter] }),
                                    ],
                                    total: p,
                                },
                            ),
                        )
                    }
                },
            },
        }
    }
}

/// What `submit_vote` does: unknown tasks are refused, a power policy
/// error surfaces unchanged, and otherwise the task's round changes
/// exactly as `register_result` says, every other round untouched.
pub open spec fn submit_post(
    olds: RoundsView,
    news: RoundsView,
    task: TaskId,
    data: DataId,
    voter: AccountId,
    pw: Result<Power, Error>,
    max_voters: usize,
    r: Result<(), Error>,
) -> bool {
    if !kv_has(olds, task) {
        r == Err::<(), Error>(Error::UnknownTask) && news == olds
    } else {
        match pw {
            Err(e) => r == Err::<(), Error>(e) && news == olds,
            Ok(p) => {
                let i = kv_index(olds, task);
                let step = register_result(olds[i].1, data, voter, p, max_voters);
                r == step.1 && news == olds.update(i, (task, step.0))
            },
        }
    }
}

/// What `try_conclude_voting` does: unknown tasks are refused; an unmet
/// quorum is a successful no-op, so the call is safe to repeat; a met
/// quorum over a powerless round reports `NoWinner` and changes nothing;
/// otherwise the round is deleted (and, in the executable transition,
/// the conclusion hook receives the tally summary exactly once).
pub open spec fn conclude_post(
    olds: RoundsView,
    news: RoundsView,
    task: TaskId,
    quorum: bool,
    r: Result<(), Error>,
) -> bool {
    if !kv_has(olds, task) {
        r == Err::<(), Error>(Error::UnknownTask) && news == olds
    } else if !quorum {
        r == Ok::<(), Error>(()) && news == olds
    } else {
        let i = kv_index(olds, task);
        if max_power(olds[i].1.options) == 0 {
            r == Err::<(), Error>(Error::NoWinner) && news == olds
        } else {
            r == Ok::<(), Error>(()) && news == olds.remove(i)
        }
    }
}

/// The voting state machine: the rounds in existence, the injected
/// policies, and the capacity bound applied to outcomes per round and
/// voters per outcome.
pub struct Pallet<V, C> {
    pub rounds: Vec<(TaskId, Votes)>,
    pub provider: V,
    pub conclusion: C,
    pub max_voters: usize,
}

impl<V, C> Pallet<V, C> {
    pub open spec fn rounds_view(self) -> RoundsView {
        self.rounds@.map_values(|kv: (TaskId, Votes)| (kv.0, kv.1@))
    }

    pub open spec fn wf(self) -> bool {
        rounds_wf(self.rounds_view())
    }
}

impl<V: VoterPower + QuorumMet, C: OnVoteConclusion> Pallet<V, C> {
    pub fn new(provider: V, conclusion: C, max_voters: usize) -> (r: Pallet<V, C>)
        ensures
            r.wf(),
            r.rounds_view() =~= Seq::<(TaskId, VotesView)>::empty(),
            r.provider == provider,
            r.conclusion == conclusion,
            r.max_voters == max_voters,
    {
        Pallet { rounds: Vec::new(), provider, conclusion, max_voters }
    }

    /// The index holding the round for `task`, if one exists.
    fn find_round(&self, task: &TaskId) -> (r: Option<usize>)
        ensures
            match r {
                Some(i) => i < self.rounds@.len() && self.rounds_view()[i as int].0 == *task,
                None => !kv_has(self.rounds_view(), *task),
            },
    {
        let n = self.rounds.len();
        let mut i: usize = 0;
        while i < n
            invariant
                n == self.rounds@.len(),
                i <= n,
                forall|t: int| 0 <= t < i ==> #[trigger] self.rounds@[t].0 != *task,
            decreases n - i,
        {
            if self.rounds[i].0 == *task {
                return Some(i);
            }
            i = i + 1;
        }
        assert(forall|t: int| 0 <= t < self.rounds_view().len()
            ==> #[trigger] self.rounds_view()[t].0 != *task);
        None
    }

    /// Whether a round is open for `task`.
    pub fn contains_round(&self, task: &TaskId) -> (r: bool)
        ensures
            r == kv_has(self.rounds_view(), *task),
    {
        match self.find_round(task) {
            Some(i) => {
                proof {
                    assert(kv_has(self.rounds_view(), *task));
                }
                true
            },
            None => false,
        }
    }

    /// The cumulative power of the round for `task`, if one is open.
    pub fn round_total(&self, task: &TaskId) -> (r: Option<Power>)
        requires
            self.wf(),
        ensures
            match r {
                Some(t) => kv_has(self.rounds_view(), *task) && t == kv_get(
                    self.rounds_view(),
                    *task,
                ).total,
                None => !kv_has(self.rounds_view(), *task),
            },
    {
        match self.find_round(task) {
            Some(i) => {
                proof {
                    lemma_kv_index(self.rounds_view(), *task, i as int);
                }
                Some(self.rounds[i].1.vote_total)
            },
            None => None,
        }
    }

    /// Opens a round for `task_id`, optionally seeded with one vote.
    /// Fails `VoteInProgress` while the task already has a round; a
    /// seeded vote goes through the power policy and the capacity rules
    /// exactly as `submit_vote` would apply them.
    pub fn start_task_voting(
        &mut self,
        task_id: TaskId,
        initial_vote: Option<(AccountId, DataId)>,
    ) -> (r: Result<(), Error>)
        requires
            old(self).wf(),
        ensures
            final(self).wf(),
            final(self).provider == old(self).provider,
            final(self).conclusion == old(self).conclusion,
            final(self).max_voters == old(self).max_voters,
            start_post(
                old(self).rounds_view(),
                final(self).rounds_view(),
                task_id,
                initial_vote,
                match initial_vote {
                    Some((voter, _)) => old(self).provider.power_spec(task_id, voter),
                    None => Ok(0 as Power),
                },
                old(self).max_voters,
                r,
            ),
    {
        match self.find_round(&task_id) {
            Some(_) => {
                proof {
                    assert(kv_has(self.rounds_view(), task_id));
                }
                return Err(Error::VoteInProgress);
            },
            None => {},
        }
        let mut votes = Votes::new();
        match initial_vote {
            None => {},
            Some((voter, data)) => {
                let power = match self.provider.voting_power_of(&task_id, &voter) {
                    Ok(p) => p,
                    Err(e) => {
                        return Err(e);
                    },
                };
                if self.max_voters == 0 {
                    return Err(Error::TooManyVoters);
                }
                let res = votes.register_vote(data, voter, power, self.max_voters);
                proof {
                    lemma_insert_pos(Seq::<(DataId, DataView)>::empty(), data, 0);
                    assert(votes@.options =~= seq![
                        (data, DataView { power: power, voters: seq![voter] }),
                    ]);
                    assert(res is Ok);
                }
            },
        }
        let ghost olds = self.rounds_view();
        self.rounds.push((task_id, votes));
        proof {
            assert(self.rounds_view() =~= olds.push((task_id, votes@)));
            assert forall|a: int, b: int|
                0 <= a < b < self.rounds_view().len() implies self.rounds_view()[a].0
                != self.rounds_view()[b].0 by {
                if b < self.rounds_view().len() - 1 {
                    assert(olds[a].0 != olds[b].0);
                } else {
                    // the pushed entry bears the fresh key `task_id`
                    assert(self.rounds_view()[b].0 == task_id);
                    assert(self.rounds_view()[a].0 == olds[a].0);
                    if olds[a].0 == task_id {
                        assert(kv_has(olds, task_id));
                    }
                }
            }
            assert(self.wf());
        }
        Ok(())
    }

    /// Registers `voter`'s vote for outcome `data` on `task_id`'s round.
    /// Fails `UnknownTask` without an open round; surfaces the power
    /// policy's error unchanged; refuses duplicates and exhausted
    /// capacity; on success the outcome's and the round's total power
    /// both grow by the voter's power. Duplicate detection is scoped to
    /// one outcome, deliberately: a voter may back several distinct
    /// outcomes of the same round, and only a repeat for the same
    /// outcome is rejected.
    pub fn submit_vote(&mut self, task_id: TaskId, data: DataId, voter: AccountId) -> (r: Result<
        (),
        Error,
    >)
        requires
            old(self).wf(),
        ensures
            final(self).wf(),
            final(self).provider == old(self).provider,
            final(self).conclusion == old(self).conclusion,
            final(self).max_voters == old(self).max_voters,
            submit_post(
                old(self).rounds_view(),
                final(self).rounds_view(),
                task_id,
                data,
                voter,
                old(self).provider.power_spec(task_id, voter),
                old(self).max_voters,
                r,
            ),
    {
        let ghost olds = self.rounds_view();
        let i = match self.find_round(&task_id) {
            Some(i) => i,
            None => {
                return Err(Error::UnknownTask);
            },
        };
        proof {
            assert(kv_has(olds, task_id));
            lemma_kv_index(olds, task_id, i as int);
        }
        let power = match self.provider.voting_power_of(&task_id, &voter) {
            Ok(p) => p,
            Err(e) => {
                return Err(e);
            },
        };
        let (tid, mut votes) = self.rounds.remove(i);
        let res = votes.register_vote(data, voter, power, self.max_voters);
        self.rounds.insert(i, (tid, votes));
        proof {
            let step = register_result(olds[i as int].1, data, voter, power, self.max_voters);
            assert(self.rounds_view() =~= olds.update(i as int, (task_id, step.0)));
            assert forall|a: int, b: int|
                0 <= a < b < self.rounds_view().len() implies self.rounds_view()[a].0
                != self.rounds_view()[b].0 by {
                assert(olds[a].0 != olds[b].0);
                assert(self.rounds_view()[a].0 == olds[a].0);
                assert(self.rounds_view()[b].0 == olds[b].0);
            }
            assert(self.wf());
        }
        res
    }

    /// Attempts to finalize `task_id`'s round. Fails `UnknownTask`
    /// without an open round. While the quorum predicate is unmet this
    /// is a successful no-op, safe to call on every new vote. Once met,
    /// the round is tallied: `NoWinner` surfaces (round kept) when no
    /// outcome has power; otherwise the conclusion hook receives the
    /// summary exactly once and the round is deleted in the same
    /// transition.
    pub fn try_conclude_voting(&mut self, task_id: TaskId) -> (r: Result<(), Error>)
        requires
            old(self).wf(),
        ensures
            final(self).wf(),
            final(self).provider == old(self).provider,
            final(self).max_voters == old(self).max_voters,
            conclude_post(
                old(self).rounds_view(),
                final(self).rounds_view(),
                task_id,
                old(self).provider.quorum_spec(
                    task_id,
                    kv_get(old(self).rounds_view(), task_id),
                ),
                r,
            ),
    {
        let ghost olds = self.rounds_view();
        let i = match self.find_round(&task_id) {
            Some(i) => i,
            None => {
                return Err(Error::UnknownTask);
            },
        };
        proof {
            assert(kv_has(olds, task_id));
            lemma_kv_index(olds, task_id, i as int);
        }
        let (tid, votes) = self.rounds.remove(i);
        let q = self.provider.meets_quorum(&task_id, &votes);
        if !q {
            self.rounds.insert(i, (tid, votes));
            proof {
                assert(self.rounds_view() =~= olds);
            }
            return Ok(());
        }
        let summary = match votes.tally_votes() {
            Ok(s) => s,
            Err(e) => {
                self.rounds.insert(i, (tid, votes));
                proof {
                    assert(self.rounds_view() =~= olds);
                }
                return Err(e);
            },
        };
        proof {
            assert(max_power(olds[i as int].1.options) != 0);
            assert(self.rounds_view() =~= olds.remove(i as int));
            assert forall|a: int, b: int|
                0 <= a < b < self.rounds_view().len() implies self.rounds_view()[a].0
                != self.rounds_view()[b].0 by {
                let s = olds.remove(i as int);
                assert(self.rounds_view()[a] == s[a] && self.rounds_view()[b] == s[b]);
                if a < i && b < i {
                    assert(olds[a].0 != olds[b].0);
                } else if a < i {
                    assert(olds[a].0 != olds[b + 1].0);
                } else {
                    assert(olds[a + 1].0 != olds[b + 1].0);
                }
            }
            assert(self.wf());
        }
        self.conclusion.voting_concluded(&task_id, summary, &votes);
        Ok(())
    }
}

/// Law: after a round for a task has been started, a second start for
/// the same task fails with `VoteInProgress` and leaves every round
/// unchanged, whatever either call's initial vote or power answer was.
pub proof fn lemma_start_twice(
    r0: RoundsView,
    r1: RoundsView,
    r2: RoundsView,
    task: TaskId,
    init1: Option<(AccountId, DataId)>,
    init2: Option<(AccountId, DataId)>,
    pw1: Result<Power, Error>,
    pw2: Result<Power, Error>,
    max_voters: usize,
    res1: Result<(), Error>,
    res2: Result<(), Error>,
)
    requires
        start_post(r0, r1, task, init1, pw1, max_voters, res1),
        res1 is Ok,
        start_post(r1, r2, task, init2, pw2, max_voters, res2),
    ensures
        res2 == Err::<(), Error>(Error::VoteInProgress),
        r2 == r1,
{
    assert(r1[r1.len() - 1].0 == task);
    assert(kv_has(r1, task));
}

/// Law: a voter who already backs an outcome is rejected with
/// `DuplicateVoter` on a repeated, identical submission, and the repeat
/// leaves the rounds — in particular the round's total power —
/// unchanged.
pub proof fn lemma_duplicate_vote(
    r0: RoundsView,
    r1: RoundsView,
    r2: RoundsView,
    task: TaskId,
    data: DataId,
    voter: AccountId,
    pw: Result<Power, Error>,
    max_voters: usize,
    res2: Result<(), Error>,
)
    requires
        rounds_wf(r0),
        submit_post(r0, r1, task, data, voter, pw, max_voters, Ok(())),
        submit_post(r1, r2, task, data, voter, pw, max_voters, res2),
    ensures
        res2 == Err::<(), Error>(Error::DuplicateVoter),
        r2 == r1,
{
    assert(kv_has(r0, task));
    assert(pw is Ok);
    let p = pw->Ok_0;
    let i = kv_index(r0, task);
    assert(0 <= i < r0.len() && r0[i].0 == task);
    let v0 = r0[i].1;
    let step1 = register_result(v0, data, voter, p, max_voters);
    assert(step1.1 == Ok::<(), Error>(()));
    assert(r1 == r0.update(i, (task, step1.0)));
    let v1 = step1.0;
    assert forall|a: int, b: int| 0 <= a < b < r1.len() implies r1[a].0 != r1[b].0 by {
        assert(r1[a].0 == r0[a].0 && r1[b].0 == r0[b].0);
        assert(r0[a].0 != r0[b].0);
    }
    lemma_kv_index(r1, task, i);
    let opts0 = v0.options;
    assert(options_wf(opts0));
    let rec1: DataView;
    let j1: int;
    if kv_has(opts0, data) {
        let j = kv_index(opts0, data);
        assert(0 <= j < opts0.len() && opts0[j].0 == data);
        let av = add_voter_result(opts0[j].1, voter, p, max_voters);
        assert(av.1 == Ok::<(), Error>(()));
        rec1 = av.0;
        j1 = j;
        assert(v1.options == opts0.update(j, (data, rec1)));
        assert(rec1.voters == opts0[j].1.voters.push(voter));
        assert(rec1.voters[opts0[j].1.voters.len() as int] == voter);
    } else {
        assert forall|a: int, b: int| 0 <= a < b < opts0.len() implies #[trigger] opts0[a].0
            < #[trigger] opts0[b].0 by {}
        lemma_insert_pos_exists(opts0, data);
        let pos = insert_pos(opts0, data);
        rec1 = DataView { power: p, voters: seq![voter] };
        j1 = pos;
        assert(v1.options == opts0.insert(pos, (data, rec1)));
        assert(v1.options[pos] == (data, rec1));
        assert(rec1.voters[0] == voter);
        assert forall|a: int, b: int| 0 <= a < b < v1.options.len() implies v1.options[a].0
            != v1.options[b].0 by {
            if b < pos {
                assert(v1.options[a] == opts0[a] && v1.options[b] == opts0[b]);
            } else if a < pos && b == pos {
                assert(v1.options[a] == opts0[a]);
                assert(opts0[a].0 < data);
            } else if a < pos {
                assert(v1.options[a] == opts0[a] && v1.options[b] == opts0[b - 1]);
                assert(opts0[a].0 < data && !(opts0[b - 1].0 < data));
            } else if a == pos {
                assert(v1.options[b] == opts0[b - 1]);
                assert(!(opts0[b - 1].0 < data));
                assert(opts0[b - 1].0 != data);
            } else {
                assert(v1.options[a] == opts0[a - 1] && v1.options[b] == opts0[b - 1]);
            }
        }
    }
    assert(rec1.voters.contains(voter));
    assert(v1.options[j1].0 == data && v1.options[j1].1 == rec1);
    assert forall|a: int, b: int| 0 <= a < b < v1.options.len() implies v1.options[a].0
        != v1.options[b].0 by {
        if kv_has(opts0, data) {
            assert(v1.options[a].0 == opts0[a].0 && v1.options[b].0 == opts0[b].0);
        }
    }
    lemma_kv_index(v1.options, data, j1);
    let step2 = register_result(v1, data, voter, p, max_voters);
    assert(kv_has(v1.options, data));
    assert(add_voter_result(rec1, voter, p, max_voters).1 == Err::<(), Error>(
        Error::DuplicateVoter,
    ));
    assert(step2.0 == v1 && step2.1 == Err::<(), Error>(Error::DuplicateVoter));
    assert(r1[i] == (task, v1));
    assert(r1.update(i, (task, v1)) =~= r1);
}

/// Law: the `AtLeastOneVote` quorum cannot hold of a round with no
/// voting power, so under the default policies `try_conclude_voting`
/// never reports `NoWinner`.
pub proof fn lemma_default_quorum_finds_a_winner(
    r0: RoundsView,
    r1: RoundsView,
    task: TaskId,
    res: Result<(), Error>,
)
    requires
        conclude_post(r0, r1, task, AtLeastOneVote.quorum_spec(task, kv_get(r0, task)), res),
    ensures
        res != Err::<(), Error>(Error::NoWinner),
{
    if kv_has(r0, task) && AtLeastOneVote.quorum_spec(task, kv_get(r0, task)) {
        let i = kv_index(r0, task);
        crate::votes::lemma_max_power_pos(r0[i].1.options);
        assert(max_power(kv_get(r0, task).options) > 0);
    }
}

/// Law: under the `AtLeastOneVote` quorum, concluding a round in which
/// no outcome has any power succeeds as a no-op: the round survives
/// untouched.
pub proof fn lemma_conclude_without_votes(
    r0: RoundsView,
    r1: RoundsView,
    task: TaskId,
    res: Result<(), Error>,
)
    requires
        kv_has(r0, task),
        forall|i: int| 0 <= i < kv_get(r0, task).options.len()
            ==> #[trigger] kv_get(r0, task).options[i].1.power == 0,
        conclude_post(r0, r1, task, AtLeastOneVote.quorum_spec(task, kv_get(r0, task)), res),
    ensures
        res == Ok::<(), Error>(()),
        r1 == r0,
{
    assert(!AtLeastOneVote.quorum_spec(task, kv_get(r0, task)));
}

} // verus!
