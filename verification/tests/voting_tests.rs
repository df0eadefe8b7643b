use task_voting::votes::{Data, Summary, Votes};
use task_voting::voting::{
    AtLeastOneVote, DiscardConclusion, OnVoteConclusion, Pallet, TaskId, UniformVoterPower,
    VotingProviderStrategy,
};
use task_voting::Error;

type Provider = VotingProviderStrategy<UniformVoterPower, AtLeastOneVote>;

fn new_pallet(max_voters: usize) -> Pallet<Provider, DiscardConclusion> {
    Pallet::new(
        VotingProviderStrategy { power: UniformVoterPower, quorum: AtLeastOneVote },
        DiscardConclusion,
        max_voters,
    )
}

#[test]
fn start_twice_fails() {
    let mut pallet = new_pallet(8);
    assert_eq!(pallet.start_task_voting(7, None), Ok(()));
    assert_eq!(pallet.start_task_voting(7, None), Err(Error::VoteInProgress));
    assert!(pallet.contains_round(&7));
}

#[test]
fn start_with_initial_vote() {
    let mut pallet = new_pallet(8);
    assert_eq!(pallet.start_task_voting(7, Some((100, 1))), Ok(()));
    assert_eq!(pallet.round_total(&7), Some(1));
}

#[test]
fn start_initial_vote_without_capacity() {
    let mut pallet = new_pallet(0);
    assert_eq!(pallet.start_task_voting(7, Some((100, 1))), Err(Error::TooManyVoters));
    assert!(!pallet.contains_round(&7));
}

#[test]
fn duplicate_vote_rejected() {
    let mut pallet = new_pallet(8);
    assert_eq!(pallet.start_task_voting(7, None), Ok(()));
    assert_eq!(pallet.submit_vote(7, 1, 100), Ok(()));
    let before = pallet.round_total(&7);
    assert_eq!(pallet.submit_vote(7, 1, 100), Err(Error::DuplicateVoter));
    assert_eq!(pallet.round_total(&7), before);
    assert_eq!(before, Some(1));
}

#[test]
fn vote_for_unknown_task_fails() {
    let mut pallet = new_pallet(8);
    assert_eq!(pallet.submit_vote(9, 1, 100), Err(Error::UnknownTask));
    assert_eq!(pallet.try_conclude_voting(9), Err(Error::UnknownTask));
}

#[test]
fn capacity_bounds_are_enforced() {
    let mut pallet = new_pallet(1);
    assert_eq!(pallet.start_task_voting(7, None), Ok(()));
    assert_eq!(pallet.submit_vote(7, 1, 100), Ok(()));
    // the single outcome's voter capacity is exhausted
    assert_eq!(pallet.submit_vote(7, 1, 101), Err(Error::TooManyVoters));
    // and so is the round's outcome capacity
    assert_eq!(pallet.submit_vote(7, 2, 101), Err(Error::TooManyVoters));
}

#[test]
fn conclude_without_votes_is_a_noop() {
    let mut pallet = new_pallet(8);
    assert_eq!(pallet.start_task_voting(7, None), Ok(()));
    assert_eq!(pallet.try_conclude_voting(7), Ok(()));
    assert!(pallet.contains_round(&7));
}

/// Records what the conclusion hook is handed.
struct Recorder {
    concluded: Vec<(TaskId, Summary)>,
}

impl OnVoteConclusion for Recorder {
    fn voting_concluded(&mut self, task: &TaskId, summary: Summary, _votes: &Votes) {
        self.concluded.push((*task, summary));
    }
}

#[test]
fn conclude_removes_round_and_reports_summary() {
    let mut pallet: Pallet<Provider, Recorder> = Pallet::new(
        VotingProviderStrategy { power: UniformVoterPower, quorum: AtLeastOneVote },
        Recorder { concluded: Vec::new() },
        8,
    );
    assert_eq!(pallet.start_task_voting(7, None), Ok(()));
    assert_eq!(pallet.submit_vote(7, 3, 100), Ok(()));
    assert_eq!(pallet.submit_vote(7, 3, 101), Ok(()));
    assert_eq!(pallet.submit_vote(7, 5, 102), Ok(()));
    assert_eq!(pallet.try_conclude_voting(7), Ok(()));
    assert!(!pallet.contains_round(&7));
    assert_eq!(pallet.conclusion.concluded.len(), 1);
    let (task, summary) = pallet.conclusion.concluded[0];
    assert_eq!(task, 7);
    assert_eq!(
        summary,
        Summary {
            vote_total: 3,
            winning_vote_total: 2,
            winning_data: 3,
            runner_up_total: 1,
        },
    );
    // concluding again: the round is gone
    assert_eq!(pallet.try_conclude_voting(7), Err(Error::UnknownTask));
}

#[test]
fn tally_scenario() {
    let mut votes = Votes::new();
    assert_eq!(votes.register_vote(1, 100, 10, 8), Ok(()));
    assert_eq!(votes.register_vote(2, 101, 7, 8), Ok(()));
    assert_eq!(votes.register_vote(3, 102, 3, 8), Ok(()));
    assert_eq!(
        votes.tally_votes(),
        Ok(Summary {
            vote_total: 20,
            winning_vote_total: 10,
            winning_data: 1,
            runner_up_total: 7,
        }),
    );
}

#[test]
fn tally_tie_keeps_first_key() {
    let mut votes = Votes::new();
    assert_eq!(votes.register_vote(1, 100, 5, 8), Ok(()));
    assert_eq!(votes.register_vote(2, 101, 5, 8), Ok(()));
    assert_eq!(
        votes.tally_votes(),
        Ok(Summary {
            vote_total: 10,
            winning_vote_total: 5,
            winning_data: 1,
            runner_up_total: 5,
        }),
    );
}

#[test]
fn tally_without_power_has_no_winner() {
    let mut votes = Votes::new();
    assert_eq!(votes.tally_votes(), Err(Error::NoWinner));
    // a recorded vote of zero power still leaves no winner
    assert_eq!(votes.register_vote(1, 100, 0, 8), Ok(()));
    assert_eq!(votes.tally_votes(), Err(Error::NoWinner));
}

#[test]
fn tally_is_insertion_order_independent() {
    // outcomes arrive out of key order; the tally walks keys ascending
    let mut votes = Votes::new();
    assert_eq!(votes.register_vote(9, 100, 4, 8), Ok(()));
    assert_eq!(votes.register_vote(2, 101, 4, 8), Ok(()));
    let summary = votes.tally_votes().unwrap();
    assert_eq!(summary.winning_data, 2);
    assert_eq!(summary.runner_up_total, 4);
}

#[test]
fn add_voter_rejects_duplicates_and_overflowing_capacity() {
    let mut data = Data::new();
    assert_eq!(data.add_voter(100, 2, 2), Ok(()));
    assert_eq!(data.add_voter(100, 2, 2), Err(Error::DuplicateVoter));
    assert_eq!(data.add_voter(101, 3, 2), Ok(()));
    assert_eq!(data.add_voter(102, 1, 2), Err(Error::TooManyVoters));
    assert_eq!(data.total_voting_power, 5);
    assert_eq!(data.voters, vec![100, 101]);
}
