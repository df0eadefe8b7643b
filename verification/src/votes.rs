//! Per-task voting rounds: bounded vote records and the deterministic
//! tally.
//!
//! A round holds, for each candidate outcome, the voters supporting it
//! and their cumulative power, in ascending outcome order. Capacity is
//! bounded in both directions — outcomes per round and voters per
//! outcome — and exceeding a bound is an ordinary error, never growth or
//! a panic. The tally walks outcomes in ascending key order and picks the
//! first outcome reaching the maximal power, so ties break toward the
//! smallest key deterministically.
use vstd::prelude::*;
use crate::kv::{kv_has, kv_index, lemma_kv_index};
use crate::{Error, Power};

verus! {

/// Identifies one voter.
pub type AccountId = u64;

/// Identifies one candidate outcome for a task.
pub type DataId = u64;

/// Mathematical content of a `Data`: cumulative power and the voters
/// in registration order.
#[verifier::ext_equal]
pub ghost struct DataView {
    pub power: Power,
    pub voters: Seq<AccountId>,
}

/// Mathematical content of a `Votes`: the outcome records in ascending
/// key order, and the round's total power.
#[verifier::ext_equal]
pub ghost struct VotesView {
    pub options: Seq<(DataId, DataView)>,
    pub total: Power,
}

/// One candidate outcome's record: its supporting voters and their
/// cumulative voting power.
pub struct Data {
    pub total_voting_power: Power,
    pub voters: Vec<AccountId>,
}

impl View for Data {
    type V = DataView;

    open spec fn view(&self) -> DataView {
        DataView { power: self.total_voting_power, voters: self.voters@ }
    }
}

/// One task's voting round: outcome records keyed by outcome id, plus
/// the round's cumulative power.
pub struct Votes {
    pub votes: Vec<(DataId, Data)>,
    pub vote_total: Power,
}

impl View for Votes {
    type V = VotesView;

    open spec fn view(&self) -> VotesView {
        VotesView {
            options: self.votes@.map_values(|kv: (DataId, Data)| (kv.0, kv.1@)),
            total: self.vote_total,
        }
    }
}

/// The terminal snapshot of a concluded round.
#[derive(Clone, Copy, Debug, PartialEq, Eq, Structural)]
pub struct Summary {
    pub vote_total: Power,
    pub winning_vote_total: Power,
    pub winning_data: DataId,
    pub runner_up_total: Power,
}

/// Power sums saturate at the top of the 64-bit range instead of
/// wrapping or panicking.
pub open spec fn sat_add(a: Power, b: Power) -> Power {
    if a + b <= u64::MAX {
        (a + b) as Power
    } else {
        u64::MAX as Power
    }
}

/// Saturating addition of voting powers.
pub fn power_sat_add(a: Power, b: Power) -> (r: Power)
    ensures
        r == sat_add(a, b),
{
    if b <= u64::MAX - a {
        a + b
    } else {
        u64::MAX
    }
}

/// No voter registered twice.
pub open spec fn voters_wf(v: Seq<AccountId>) -> bool {
    forall|i: int, j: int| 0 <= i < j < v.len() ==> v[i] != v[j]
}

/// Outcome records in strictly ascending key order, each well formed.
pub open spec fn options_wf(s: Seq<(DataId, DataView)>) -> bool {
    &&& forall|i: int, j: int| 0 <= i < j < s.len() ==> #[trigger] s[i].0 < #[trigger] s[j].0
    &&& forall|i: int| 0 <= i < s.len() ==> voters_wf(#[trigger] s[i].1.voters)
}

/// The outcome of registering one voter into one record: a duplicate is
/// rejected, a full record is rejected, and otherwise the voter is
/// appended and the record's power grows by the voter's power.
pub open spec fn add_voter_result(
    d: DataView,
    voter: AccountId,
    power: Power,
    max_voters: usize,
) -> (DataView, Result<(), Error>) {
    if d.voters.contains(voter) {
        (d, Err(Error::DuplicateVoter))
    } else if d.voters.len() >= max_voters as nat {
        (d, Err(Error::TooManyVoters))
    } else {
        (
            DataView { power: sat_add(d.power, power), voters: d.voters.push(voter) },
            Ok(()),
        )
    }
}

impl Data {
    pub fn new() -> (r: Data)
        ensures
            r@.power == 0,
            r@.voters =~= Seq::<AccountId>::empty(),
    {
        Data { total_voting_power: 0, voters: Vec::new() }
    }

    /// Registers `voter` with the given power, refusing duplicates and
    /// respecting the per-outcome capacity `max_voters`.
    pub fn add_voter(&mut self, voter: AccountId, power: Power, max_voters: usize) -> (r: Result<
        (),
        Error,
    >)
        requires
            voters_wf(old(self)@.voters),
        ensures
            voters_wf(final(self)@.voters),
            (final(self)@, r) == add_voter_result(old(self)@, voter, power, max_voters),
    {
        let mut i: usize = 0;
        let n = self.voters.len();
        while i < n
            invariant
                i <= n,
                n == self.voters@.len(),
                self@ == old(self)@,
                voters_wf(self@.voters),
                forall|t: int| 0 <= t < i ==> self.voters@[t] != voter,
            decreases n - i,
        {
            if self.voters[i] == voter {
                proof {
                    assert(old(self)@.voters.contains(voter));
                }
                return Err(Error::DuplicateVoter);
            }
            i = i + 1;
        }
        assert(!self@.voters.contains(voter));
        if self.voters.len() >= max_voters {
            return Err(Error::TooManyVoters);
        }
        self.voters.push(voter);
        self.total_voting_power = power_sat_add(self.total_voting_power, power);
        Ok(())
    }
}

/// Position at which `id` would be inserted to keep the keys ordered.
pub open spec fn is_insert_pos(s: Seq<(DataId, DataView)>, id: DataId, p: int) -> bool {
    &&& 0 <= p <= s.len()
    &&& forall|i: int| 0 <= i < p ==> s[i].0 < id
    &&& forall|i: int| p <= i < s.len() ==> !(s[i].0 < id)
}

/// The insertion position for `id`.
pub open spec fn insert_pos(s: Seq<(DataId, DataView)>, id: DataId) -> int {
    choose|p: int| is_insert_pos(s, id, p)
}

/// The insertion position is unique, so `insert_pos` returns any
/// position shown to fit.
pub proof fn lemma_insert_pos(s: Seq<(DataId, DataView)>, id: DataId, p: int)
    requires
        is_insert_pos(s, id, p),
    ensures
        insert_pos(s, id) == p,
{
    let q = insert_pos(s, id);
    assert(is_insert_pos(s, id, q));
    if q < p {
        assert(s[q].0 < id);
        assert(!(s[q].0 < id));
    } else if p < q {
        assert(s[p].0 < id);
        assert(!(s[p].0 < id));
    }
}

/// A sequence with strictly ascending keys always offers an insertion
/// position, so `insert_pos` picks a fitting one.
pub proof fn lemma_insert_pos_exists(s: Seq<(DataId, DataView)>, id: DataId)
    requires
        forall|i: int, j: int| 0 <= i < j < s.len() ==> #[trigger] s[i].0 < #[trigger] s[j].0,
    ensures
        is_insert_pos(s, id, insert_pos(s, id)),
    decreases s.len(),
{
    if s.len() == 0 {
        assert(is_insert_pos(s, id, 0));
    } else if s.last().0 < id {
        assert forall|i: int| 0 <= i < s.len() implies #[trigger] s[i].0 < id by {
            if i < s.len() - 1 {
                assert(s[i].0 < s[s.len() - 1].0);
            }
        }
        assert(is_insert_pos(s, id, s.len() as int));
    } else {
        assert forall|i: int, j: int| 0 <= i < j < s.drop_last().len() implies #[trigger] s.drop_last()[i].0
            < #[trigger] s.drop_last()[j].0 by {
            assert(s.drop_last()[i] == s[i] && s.drop_last()[j] == s[j]);
        }
        lemma_insert_pos_exists(s.drop_last(), id);
        let p = insert_pos(s.drop_last(), id);
        assert forall|i: int| 0 <= i < p implies #[trigger] s[i].0 < id by {
            assert(s.drop_last()[i].0 < id);
        }
        assert forall|i: int| p <= i < s.len() implies !(#[trigger] s[i].0 < id) by {
            if i < s.len() - 1 {
                assert(!(s.drop_last()[i].0 < id));
            }
        }
        assert(is_insert_pos(s, id, p));
    }
}

/// The outcome of registering one vote into a round. A vote for a known
/// outcome updates that record in place; a vote for a fresh outcome
/// claims a new record at its ordered position, if the round still has
/// room. On success the round's total power also grows by the voter's
/// power.
pub open spec fn register_result(
    v: VotesView,
    data: DataId,
    voter: AccountId,
    power: Power,
    max_voters: usize,
) -> (VotesView, Result<(), Error>) {
    if kv_has(v.options, data) {
        let j = kv_index(v.options, data);
        let step = add_voter_result(v.options[j].1, voter, power, max_voters);
        if step.1 is Err {
            (v, step.1)
        } else {
            (
                VotesView {
                    options: v.options.update(j, (data, step.0)),
                    total: sat_add(v.total, power),
                },
                Ok(()),
            )
        }
    } else if max_voters == 0 || v.options.len() >= max_voters as nat {
        (v, Err(Error::TooManyVoters))
    } else {
        (
            VotesView {
                options: v.options.insert(
                    insert_pos(v.options, data),
                    (data, DataView { power: power, voters: seq![voter] }),
                ),
                total: sat_add(v.total, power),
            },
            Ok(()),
        )
    }
}

/// The greatest cumulative power any outcome reached (zero when there
/// are no outcomes).
pub open spec fn max_power(s: Seq<(DataId, DataView)>) -> Power
    decreases s.len(),
{
    if s.len() == 0 {
        0 as Power
    } else {
        let m = max_power(s.drop_last());
        if s.last().1.power > m {
            s.last().1.power
        } else {
            m
        }
    }
}

/// The greatest cumulative power among outcomes other than `k`.
pub open spec fn max_power_except(s: Seq<(DataId, DataView)>, k: DataId) -> Power
    decreases s.len(),
{
    if s.len() == 0 {
        0 as Power
    } else {
        let m = max_power_except(s.drop_last(), k);
        if s.last().0 != k && s.last().1.power > m {
            s.last().1.power
        } else {
            m
        }
    }
}

/// `k` wins the tally: it reaches the maximal power, and no outcome of
/// that power has a smaller key (ties break toward the smallest key).
pub open spec fn is_winner(s: Seq<(DataId, DataView)>, k: DataId) -> bool {
    &&& exists|i: int|
        0 <= i < s.len() && s[i].0 == k && #[trigger] s[i].1.power == max_power(s)
    &&& forall|i: int|
        0 <= i < s.len() && #[trigger] s[i].1.power == max_power(s) ==> k <= s[i].0
}

/// What a tally returns: `NoWinner` when no outcome has any power, else
/// the summary naming the winning outcome, its power, the runner-up
/// power (the best among the other outcomes) and the round's total.
pub open spec fn tally_post(v: VotesView, r: Result<Summary, Error>) -> bool {
    if max_power(v.options) == 0 {
        r == Err::<Summary, Error>(Error::NoWinner)
    } else {
        match r {
            Ok(s) => {
                &&& is_winner(v.options, s.winning_data)
                &&& s.winning_vote_total == max_power(v.options)
                &&& s.runner_up_total == max_power_except(v.options, s.winning_data)
                &&& s.vote_total == v.total
            },
            Err(_) => false,
        }
    }
}

/// No outcome outpowers the maximum.
pub proof fn lemma_max_power_ge(s: Seq<(DataId, DataView)>, i: int)
    requires
        0 <= i < s.len(),
    ensures
        s[i].1.power <= max_power(s),
    decreases s.len(),
{
    if i < s.len() - 1 {
        lemma_max_power_ge(s.drop_last(), i);
        assert(s.drop_last()[i] == s[i]);
    }
}

/// Some outcome has positive power exactly when the maximum is positive.
pub proof fn lemma_max_power_pos(s: Seq<(DataId, DataView)>)
    ensures
        (max_power(s) > 0) <==> (exists|i: int|
            0 <= i < s.len() && #[trigger] s[i].1.power > 0),
    decreases s.len(),
{
    if s.len() > 0 {
        lemma_max_power_pos(s.drop_last());
        if max_power(s) > 0 {
            if s.last().1.power > max_power(s.drop_last()) {
                assert(s[s.len() - 1].1.power > 0);
            } else {
                let i = choose|i: int|
                    0 <= i < s.drop_last().len() && #[trigger] s.drop_last()[i].1.power > 0;
                assert(s[i].1.power > 0);
            }
        }
        if exists|i: int| 0 <= i < s.len() && #[trigger] s[i].1.power > 0 {
            let i = choose|i: int| 0 <= i < s.len() && #[trigger] s[i].1.power > 0;
            lemma_max_power_ge(s, i);
        }
    }
}

/// Excluding a key that no outcome bears leaves the maximum unchanged.
pub proof fn lemma_max_power_except_absent(s: Seq<(DataId, DataView)>, k: DataId)
    requires
        forall|i: int| 0 <= i < s.len() ==> #[trigger] s[i].0 != k,
    ensures
        max_power_except(s, k) == max_power(s),
    decreases s.len(),
{
    if s.len() > 0 {
        assert forall|i: int| 0 <= i < s.drop_last().len() implies #[trigger] s.drop_last()[i].0
            != k by {
            assert(s.drop_last()[i] == s[i]);
        }
        lemma_max_power_except_absent(s.drop_last(), k);
        assert(s[s.len() - 1].0 != k);
    }
}

impl Votes {
    /// Outcome keys strictly ascending, every record well formed.
    pub open spec fn wf(self) -> bool {
        options_wf(self@.options)
    }

    pub fn new() -> (r: Votes)
        ensures
            r.wf(),
            r@.options =~= Seq::<(DataId, DataView)>::empty(),
            r@.total == 0,
    {
        Votes { votes: Vec::new(), vote_total: 0 }
    }

    /// The outcome records in ascending key order.
    pub fn iter(&self) -> (r: &Vec<(DataId, Data)>)
        ensures
            r@ == self.votes@,
    {
        &self.votes
    }

    /// The index holding outcome `data`, if the round knows it.
    fn find_option(&self, data: DataId) -> (r: Option<usize>)
        requires
            self.wf(),
        ensures
            match r {
                Some(i) => i < self.votes@.len() && self.votes@[i as int].0 == data,
                None => !kv_has(self@.options, data),
            },
    {
        let n = self.votes.len();
        let mut i: usize = 0;
        while i < n
            invariant
                i <= n,
                n == self.votes@.len(),
                forall|t: int| 0 <= t < i ==> self.votes@[t].0 != data,
            decreases n - i,
        {
            if self.votes[i].0 == data {
                return Some(i);
            }
            i = i + 1;
        }
        assert(forall|t: int| 0 <= t < self@.options.len() ==> self@.options[t].0 != data);
        None
    }

    /// First position whose key is not below `data`.
    fn find_insert_pos(&self, data: DataId) -> (p: usize)
        requires
            self.wf(),
        ensures
            p <= self.votes@.len(),
            is_insert_pos(self@.options, data, p as int),
    {
        let n = self.votes.len();
        let mut i: usize = 0;
        while i < n
            invariant
                self.wf(),
                i <= n,
                n == self.votes@.len(),
                forall|t: int| 0 <= t < i ==> self.votes@[t].0 < data,
            decreases n - i,
        {
            if !(self.votes[i].0 < data) {
                proof {
                    assert(!(self@.options[i as int].0 < data));
                    assert forall|t: int| i < t < self@.options.len() implies !(
                    #[trigger] self@.options[t].0 < data) by {
                        assert(self@.options[i as int].0 < self@.options[t].0);
                    }
                }
                return i;
            }
            i = i + 1;
        }
        n
    }

    /// Registers one vote: `voter` backs outcome `data` with `power`.
    /// Both capacities are enforced; on success both the record's and the
    /// round's total power grow by `power` (saturating).
    pub fn register_vote(
        &mut self,
        data: DataId,
        voter: AccountId,
        power: Power,
        max_voters: usize,
    ) -> (r: Result<(), Error>)
        requires
            old(self).wf(),
        ensures
            final(self).wf(),
            (final(self)@, r) == register_result(old(self)@, data, voter, power, max_voters),
    {
        let ghost v0 = self@;
        match self.find_option(data) {
            Some(j) => {
                proof {
                    lemma_kv_index(v0.options, data, j as int);
                }
                let (id0, mut rec) = self.votes.remove(j);
                let res = rec.add_voter(voter, power, max_voters);
                self.votes.insert(j, (id0, rec));
                match res {
                    Ok(()) => {
                        self.vote_total = power_sat_add(self.vote_total, power);
                        proof {
                            assert(self@.options =~= v0.options.update(
                                j as int,
                                (data, add_voter_result(v0.options[j as int].1, voter, power,
                                    max_voters).0),
                            ));
                            assert(self@ =~= register_result(v0, data, voter, power,
                                max_voters).0);
                        }
                        Ok(())
                    },
                    Err(e) => {
                        proof {
                            assert(self@.options =~= v0.options);
                            assert(self@ =~= v0);
                        }
                        Err(e)
                    },
                }
            },
            None => {
                if max_voters == 0 || self.votes.len() >= max_voters {
                    return Err(Error::TooManyVoters);
                }
                let mut rec = Data::new();
                let res = rec.add_voter(voter, power, max_voters);
                proof {
                    assert(res is Ok);
                    assert(rec@.voters =~= seq![voter]);
                }
                let pos = self.find_insert_pos(data);
                self.votes.insert(pos, (data, rec));
                self.vote_total = power_sat_add(self.vote_total, power);
                proof {
                    lemma_insert_pos(v0.options, data, pos as int);
                    assert(self@.options =~= v0.options.insert(
                        pos as int,
                        (data, DataView { power: power, voters: seq![voter] }),
                    ));
                    assert(self@ =~= register_result(v0, data, voter, power, max_voters).0);
                    // Sortedness survives insertion at the ordered position:
                    // keys before stay below `data`, keys after stay above.
                    assert(forall|t: int| pos <= t < v0.options.len()
                        ==> data < #[trigger] v0.options[t].0);
                    assert(options_wf(self@.options));
                }
                Ok(())
            },
        }
    }

    /// Tallies the round: one pass over the outcomes in ascending key
    /// order, tracking the best and second-best powers. A strict
    /// comparison keeps the first outcome reaching the maximal power as
    /// the winner, so equal powers resolve toward the smallest key.
    /// Fails with `NoWinner` when no outcome has any power.
    pub fn tally_votes(&self) -> (r: Result<Summary, Error>)
        requires
            self.wf(),
        ensures
            tally_post(self@, r),
    {
        let ghost opts = self@.options;
        let mut best_power: Power = 0;
        let mut best: Option<DataId> = None;
        let mut second_best_power: Power = 0;
        let n = self.votes.len();
        let mut idx: usize = 0;
        while idx < n
            invariant
                self.wf(),
                opts == self@.options,
                n == self.votes@.len(),
                idx <= n,
                match best {
                    None => best_power == 0 && second_best_power == 0 && max_power(
                        opts.take(idx as int),
                    ) == 0,
                    Some(k) => {
                        &&& best_power == max_power(opts.take(idx as int))
                        &&& best_power > 0
                        &&& is_winner(opts.take(idx as int), k)
                        &&& second_best_power == max_power_except(opts.take(idx as int), k)
                    },
                },
            decreases n - idx,
        {
            let id = self.votes[idx].0;
            let power = self.votes[idx].1.total_voting_power;
            let ghost p = opts.take(idx as int);
            let ghost p2 = opts.take(idx as int + 1);
            proof {
                assert(p2.drop_last() =~= p);
                assert(p2.last() == opts[idx as int]);
                assert(opts[idx as int].0 == id && opts[idx as int].1.power == power);
                assert forall|t: int| 0 <= t < idx implies #[trigger] p[t].0 < id by {
                    assert(opts[t].0 < opts[idx as int].0);
                }
            }
            if power > best_power {
                proof {
                    assert(max_power(p2) == power);
                    assert forall|t: int|
                        0 <= t < p2.len() && #[trigger] p2[t].1.power == max_power(p2)
                        implies id <= p2[t].0 by {
                        if t < idx {
                            lemma_max_power_ge(p, t);
                        }
                    }
                    assert(is_winner(p2, id));
                    lemma_max_power_except_absent(p, id);
                    assert(max_power_except(p2, id) == max_power(p));
                }
                second_best_power = best_power;
                best_power = power;
                best = Some(id);
            } else {
                proof {
                    assert(max_power(p2) == max_power(p));
                    if let Some(k) = best {
                        let w = choose|i: int|
                            0 <= i < p.len() && p[i].0 == k && #[trigger] p[i].1.power
                                == max_power(p);
                        assert(p2[w] == p[w]);
                        assert forall|t: int|
                            0 <= t < p2.len() && #[trigger] p2[t].1.power == max_power(p2)
                            implies k <= p2[t].0 by {
                            if t == idx {
                                assert(p[w].0 < id);
                            }
                        }
                        assert(is_winner(p2, k));
                        assert(p[w].0 == k && p[w].0 < id);
                        assert(max_power_except(p2, k) == if power > max_power_except(p, k) {
                            power
                        } else {
                            max_power_except(p, k)
                        });
                    }
                }
                if power > second_best_power {
                    second_best_power = power;
                }
            }
            idx = idx + 1;
        }
        proof {
            assert(opts.take(n as int) =~= opts);
        }
        match best {
            None => Err(Error::NoWinner),
            Some(k) => Ok(
                Summary {
                    vote_total: self.vote_total,
                    winning_vote_total: best_power,
                    winning_data: k,
                    runner_up_total: second_best_power,
                },
            ),
        }
    }
}

} // verus!
