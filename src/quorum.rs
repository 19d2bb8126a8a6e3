use vstd::prelude::*;
use vstd::set_lib::{lemma_len_subset, lemma_set_intersect_union_lens};

verus! {

/// Whether `voters` is a strict majority of `members`.
pub open spec fn is_quorum(voters: Set<u64>, members: Set<u64>) -> bool {
    &&& voters.subset_of(members)
    &&& 2 * voters.len() > members.len()
}

/// Any two majorities of one finite membership share a member.
pub proof fn lemma_quorums_intersect(a: Set<u64>, b: Set<u64>, members: Set<u64>)
    requires
        members.finite(),
        is_quorum(a, members),
        is_quorum(b, members),
    ensures
        exists|x: u64| a.contains(x) && b.contains(x),
{
    lemma_len_subset(a, members);
    lemma_len_subset(b, members);
    lemma_set_intersect_union_lens(a, b);
    lemma_len_subset(a + b, members);
    assert(a.intersect(b).len() > 0);
    let x = a.intersect(b).choose();
    assert(a.intersect(b).contains(x)) by {
        if !a.intersect(b).contains(x) {
            a.intersect(b).lemma_len0_is_empty();
        }
    }
}

/// Election safety. Where every member grants at most one vote in a term
/// (`vote_of` maps each voter to the one candidate it voted for), two
/// candidates that each hold the votes of a majority in that term are the
/// same node: a term has at most one leader.
pub proof fn lemma_one_leader_per_term(
    members: Set<u64>,
    vote_of: Map<u64, u64>,
    a: u64,
    votes_a: Set<u64>,
    b: u64,
    votes_b: Set<u64>,
)
    requires
        members.finite(),
        is_quorum(votes_a, members),
        is_quorum(votes_b, members),
        forall|v: u64| #[trigger] votes_a.contains(v) ==> vote_of.contains_key(v) && vote_of[v] == a,
        forall|v: u64| #[trigger] votes_b.contains(v) ==> vote_of.contains_key(v) && vote_of[v] == b,
    ensures
        a == b,
{
    lemma_quorums_intersect(votes_a, votes_b, members);
    let x = choose|x: u64| votes_a.contains(x) && votes_b.contains(x);
    assert(vote_of[x] == a);
    assert(vote_of[x] == b);
}

/// Part of leader completeness. Where every voter of a winning candidate
/// found the candidate's log, ending at `(cand_term, cand_index)`, at least
/// as up to date as its own (`last_of` maps a node to the term and index of
/// its last entry), and a majority holds an entry, some holder of that
/// entry voted for the candidate, and the candidate's log is at least as up
/// to date as that holder's.
pub proof fn lemma_winner_up_to_date_with_a_holder(
    members: Set<u64>,
    voters: Set<u64>,
    holders: Set<u64>,
    last_of: Map<u64, (u64, u64)>,
    cand_term: u64,
    cand_index: u64,
)
    requires
        members.finite(),
        is_quorum(voters, members),
        is_quorum(holders, members),
        forall|v: u64| #[trigger] voters.contains(v) ==> last_of.contains_key(v) && (cand_term > last_of[v].0
            || (cand_term == last_of[v].0 && cand_index >= last_of[v].1)),
    ensures
        exists|h: u64| #[trigger] holders.contains(h) && voters.contains(h) && (cand_term > last_of[h].0 || (
        cand_term == last_of[h].0 && cand_index >= last_of[h].1)),
{
    lemma_quorums_intersect(voters, holders, members);
    let h = choose|x: u64| voters.contains(x) && holders.contains(x);
    assert(holders.contains(h) && voters.contains(h));
}

} // verus!
