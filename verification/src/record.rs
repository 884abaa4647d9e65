//! One election's record and the ballot engine that casts votes on it.

use crate::bytes::{all_distinct, holds_token, same_bytes};
use crate::codec::{
    decode_roster, decode_roster_spec, encode_roster, encode_roster_spec, encode_tallies,
    encode_tallies_spec, total_votes, Candidate, CandidateView,
};
use vstd::prelude::*;

verus! {

/// What became of one ballot.
#[derive(Clone, Copy, Debug, PartialEq, Eq, Structural)]
pub enum VoteOutcome {
    /// The token was fresh and the named candidate's tally grew by one.
    Counted,
    /// The token was fresh and is now spent, but no candidate has the
    /// identifier that the ballot named: no tally changed.
    NoSuchCandidate,
    /// The token had been spent before: nothing changed.
    DuplicateToken,
}

/// The mathematical value of an [`Entry`].
pub struct EntryView {
    /// The election's title; empty where none was given.
    pub name: Seq<u8>,
    /// The deadline, as the creator supplied it.
    pub time_frame: u64,
    /// The roster, in creation order.
    pub candidates: Seq<CandidateView>,
    /// The voter tokens that are spent, oldest first.
    pub bvns: Seq<Seq<u8>>,
}

/// The position of the first candidate whose identifier is `id`, or the
/// roster's length where there is none.
pub open spec fn first_match(roster: Seq<CandidateView>, id: Seq<u8>) -> int
    decreases roster.len(),
{
    if roster.len() == 0 || roster[0].hash == id {
        0
    } else {
        1 + first_match(roster.drop_first(), id)
    }
}

/// The roster after one more vote for the candidate at position `k`.
pub open spec fn with_vote(roster: Seq<CandidateView>, k: int) -> Seq<CandidateView> {
    roster.update(k, CandidateView { votes: roster[k].votes + 1, ..roster[k] })
}

impl EntryView {
    /// The record that stands for an election nobody created: no title, a
    /// zero deadline, no candidate and no spent token.
    pub open spec fn blank() -> EntryView {
        EntryView {
            name: Seq::<u8>::empty(),
            time_frame: 0,
            candidates: Seq::<CandidateView>::empty(),
            bvns: Seq::<Seq<u8>>::empty(),
        }
    }

    /// The record of a newly created election.
    pub open spec fn commence(
        names: Seq<u8>,
        parties: Seq<u8>,
        hashes: Seq<u8>,
        time_frame: u64,
        name: Seq<u8>,
    ) -> EntryView {
        EntryView {
            name,
            time_frame,
            candidates: decode_roster_spec(names, parties, hashes),
            bvns: Seq::<Seq<u8>>::empty(),
        }
    }

    /// What every record obeys: no token is spent twice, and there are no more
    /// votes counted than tokens spent.
    pub open spec fn valid(self) -> bool {
        &&& self.bvns.no_duplicates()
        &&& total_votes(self.candidates) <= self.bvns.len()
    }

    /// Whether `token` has been spent.
    pub open spec fn is_spent(self, token: Seq<u8>) -> bool {
        self.bvns.contains(token)
    }

    /// What becomes of a ballot that names candidate `id` and carries `token`.
    pub open spec fn outcome(self, id: Seq<u8>, token: Seq<u8>) -> VoteOutcome {
        if self.is_spent(token) {
            VoteOutcome::DuplicateToken
        } else if first_match(self.candidates, id) < self.candidates.len() {
            VoteOutcome::Counted
        } else {
            VoteOutcome::NoSuchCandidate
        }
    }

    /// The record after a ballot that names candidate `id` and carries
    /// `token`. A spent token changes nothing. A fresh token becomes spent,
    /// and the first candidate with that identifier, if there is one, gains
    /// one vote.
    pub open spec fn cast(self, id: Seq<u8>, token: Seq<u8>) -> EntryView {
        if self.is_spent(token) {
            self
        } else {
            let k = first_match(self.candidates, id);
            EntryView {
                candidates: if k < self.candidates.len() {
                    with_vote(self.candidates, k)
                } else {
                    self.candidates
                },
                bvns: self.bvns.push(token),
                ..self
            }
        }
    }

    /// The roster reply: every candidate's line, then the title trailer.
    pub open spec fn roster_bytes(self) -> Seq<u8> {
        encode_roster_spec(self.candidates, Some(self.name))
    }

    /// The tally reply.
    pub open spec fn tally_bytes(self) -> Seq<u8> {
        encode_tallies_spec(self.candidates)
    }
}

/// The deadline of the election that a lookup found, or zero where it found
/// none.
pub open spec fn deadline_or_zero(found: Option<EntryView>) -> u64 {
    match found {
        Some(entry) => entry.time_frame,
        None => 0,
    }
}

/// The roster reply of the election that a lookup found, or the empty buffer
/// where it found none.
pub open spec fn roster_or_empty(found: Option<EntryView>) -> Seq<u8> {
    match found {
        Some(entry) => entry.roster_bytes(),
        None => Seq::<u8>::empty(),
    }
}

/// The tally reply of the election that a lookup found, or the empty buffer
/// where it found none.
pub open spec fn tallies_or_empty(found: Option<EntryView>) -> Seq<u8> {
    match found {
        Some(entry) => entry.tally_bytes(),
        None => Seq::<u8>::empty(),
    }
}

/// Whether `token` is spent in the election that a lookup found; false where
/// it found none.
pub open spec fn spent_or_false(found: Option<EntryView>, token: Seq<u8>) -> bool {
    match found {
        Some(entry) => entry.is_spent(token),
        None => false,
    }
}

/// The record to store after a ballot: the record that the lookup found with
/// the ballot cast on it, or, where it found none, the blank record, on which
/// the ballot leaves no trace.
pub open spec fn cast_or_blank(found: Option<EntryView>, id: Seq<u8>, token: Seq<u8>) -> EntryView {
    match found {
        Some(entry) => entry.cast(id, token),
        None => EntryView::blank(),
    }
}

/// What a lookup found, as a mathematical value.
pub open spec fn found_view(found: Option<&Entry>) -> Option<EntryView> {
    match found {
        Some(entry) => Some(entry@),
        None => None,
    }
}

/// `first_match` is a position in the roster or its length; before it no
/// identifier is `id`, and at it, if it is a position, the identifier is `id`.
pub proof fn lemma_first_match(roster: Seq<CandidateView>, id: Seq<u8>)
    ensures
        0 <= first_match(roster, id) <= roster.len(),
        forall|j: int| 0 <= j < first_match(roster, id) ==> roster[j].hash != id,
        first_match(roster, id) < roster.len() ==> roster[first_match(roster, id)].hash == id,
    decreases roster.len(),
{
    if roster.len() > 0 && roster[0].hash != id {
        let rest = roster.drop_first();
        lemma_first_match(rest, id);
        assert forall|j: int| 0 <= j < first_match(roster, id) implies roster[j].hash != id by {
            if j > 0 {
                assert(roster[j] == rest[j - 1]);
            }
        }
    }
}

/// A position `k` that no earlier identifier matches, and that is the
/// roster's end or holds `id`, is `first_match`.
pub proof fn lemma_first_match_is(roster: Seq<CandidateView>, id: Seq<u8>, k: int)
    requires
        0 <= k <= roster.len(),
        forall|j: int| 0 <= j < k ==> roster[j].hash != id,
        k < roster.len() ==> roster[k].hash == id,
    ensures
        first_match(roster, id) == k,
{
    lemma_first_match(roster, id);
}

/// No single tally exceeds the sum of all tallies.
pub proof fn lemma_tally_within_total(roster: Seq<CandidateView>, k: int)
    requires
        0 <= k < roster.len(),
    ensures
        roster[k].votes <= total_votes(roster),
    decreases roster.len(),
{
    if k < roster.len() - 1 {
        lemma_tally_within_total(roster.drop_last(), k);
    }
}

/// One more vote for one candidate raises the sum of all tallies by one.
pub proof fn lemma_with_vote_total(roster: Seq<CandidateView>, k: int)
    requires
        0 <= k < roster.len(),
    ensures
        total_votes(with_vote(roster, k)) == total_votes(roster) + 1,
    decreases roster.len(),
{
    let after = with_vote(roster, k);
    if k < roster.len() - 1 {
        lemma_with_vote_total(roster.drop_last(), k);
        assert(after.drop_last() =~= with_vote(roster.drop_last(), k));
    } else {
        assert(after.drop_last() =~= roster.drop_last());
    }
}

/// A newly decoded roster has counted no vote.
pub proof fn lemma_decoded_total(names: Seq<u8>, parties: Seq<u8>, hashes: Seq<u8>)
    ensures
        total_votes(decode_roster_spec(names, parties, hashes)) == 0,
{
    let roster = decode_roster_spec(names, parties, hashes);
    lemma_zero_total(roster);
}

/// A roster whose tallies are all zero sums to zero.
pub proof fn lemma_zero_total(roster: Seq<CandidateView>)
    requires
        forall|i: int| 0 <= i < roster.len() ==> roster[i].votes == 0,
    ensures
        total_votes(roster) == 0,
    decreases roster.len(),
{
    if roster.len() > 0 {
        lemma_zero_total(roster.drop_last());
    }
}

/// Whether two rosters have the same candidates but for their tallies.
pub open spec fn same_candidates(a: Seq<CandidateView>, b: Seq<CandidateView>) -> bool {
    &&& a.len() == b.len()
    &&& forall|k: int|
        0 <= k < a.len() ==> (#[trigger] a[k]).hash == b[k].hash && a[k].name == b[k].name
            && a[k].party == b[k].party
}

/// Rosters with the same candidates agree on what an identifier names.
pub proof fn lemma_first_match_same(a: Seq<CandidateView>, b: Seq<CandidateView>, id: Seq<u8>)
    requires
        same_candidates(a, b),
    ensures
        first_match(a, id) == first_match(b, id),
{
    lemma_first_match(a, id);
    let k = first_match(a, id);
    assert forall|j: int| 0 <= j < k implies b[j].hash != id by {
        assert(a[j].hash == b[j].hash);
    }
    lemma_first_match_is(b, id, k);
}

/// After one more token is spent, the spent tokens are the old ones and the
/// new one.
pub proof fn lemma_spent_after_push(tokens: Seq<Seq<u8>>, token: Seq<u8>, other: Seq<u8>)
    ensures
        tokens.push(token).contains(other) <==> tokens.contains(other) || other == token,
{
    let after = tokens.push(token);
    if tokens.contains(other) {
        let i = choose|i: int| 0 <= i < tokens.len() && tokens[i] == other;
        assert(after[i] == other);
    }
    if other == token {
        assert(after[tokens.len() as int] == other);
    }
}

/// What one ballot does to a record: the candidates stay but for one tally,
/// the token is spent afterwards, every token that was spent stays spent and
/// no other token becomes spent, the sum of all tallies grows by one exactly
/// when the ballot is counted, and no tally shrinks.
pub proof fn lemma_cast(entry: EntryView, candidate: Seq<u8>, token: Seq<u8>)
    ensures
        same_candidates(entry.cast(candidate, token).candidates, entry.candidates),
        entry.cast(candidate, token).name == entry.name,
        entry.cast(candidate, token).time_frame == entry.time_frame,
        entry.cast(candidate, token).is_spent(token),
        forall|other: Seq<u8>|
            entry.cast(candidate, token).is_spent(other) <==> entry.is_spent(other) || other
                == token,
        total_votes(entry.cast(candidate, token).candidates) == total_votes(entry.candidates) + (
        if !entry.is_spent(token) && first_match(entry.candidates, candidate)
            < entry.candidates.len() {
            1nat
        } else {
            0nat
        }),
        forall|k: int|
            0 <= k < entry.candidates.len() ==> (#[trigger] entry.cast(
                candidate,
                token,
            ).candidates[k]).votes >= entry.candidates[k].votes,
        entry.valid() ==> entry.cast(candidate, token).valid(),
{
    let after = entry.cast(candidate, token);
    lemma_first_match(entry.candidates, candidate);
    assert forall|other: Seq<u8>| after.is_spent(other) <==> entry.is_spent(other) || other
        == token by {
        if !entry.is_spent(token) {
            lemma_spent_after_push(entry.bvns, token, other);
        }
    }
    if !entry.is_spent(token) {
        let k = first_match(entry.candidates, candidate);
        if k < entry.candidates.len() {
            lemma_with_vote_total(entry.candidates, k);
        }
    }
}

/// One election: its title, its deadline, its roster and the voter tokens
/// that are spent.
pub struct Entry {
    name: Vec<u8>,
    time_frame: u64,
    candidates: Vec<Candidate>,
    bvns: Vec<Vec<u8>>,
}

impl View for Entry {
    type V = EntryView;

    closed spec fn view(&self) -> EntryView {
        EntryView {
            name: self.name@,
            time_frame: self.time_frame,
            candidates: self.candidates.deep_view(),
            bvns: self.bvns.deep_view(),
        }
    }
}

/// The position of the first candidate whose identifier is `id`, or the
/// roster's length where there is none.
pub fn find_candidate(roster: &Vec<Candidate>, id: &Vec<u8>) -> (k: usize)
    ensures
        k == first_match(roster.deep_view(), id@),
        k <= roster.len(),
{
    let mut i: usize = 0;
    while i < roster.len()
        invariant
            i <= roster.len(),
            forall|j: int| 0 <= j < i ==> roster.deep_view()[j].hash != id@,
        decreases roster.len() - i,
    {
        if same_bytes(&roster[i].hash, id) {
            proof {
                lemma_first_match_is(roster.deep_view(), id@, i as int);
            }
            return i;
        }
        i += 1;
    }
    proof {
        lemma_first_match_is(roster.deep_view(), id@, i as int);
    }
    i
}

/// Counts one more vote for the candidate at position `k`.
fn count_vote(roster: &mut Vec<Candidate>, k: usize)
    requires
        k < old(roster).len(),
        old(roster)@[k as int].votes < u64::MAX,
    ensures
        final(roster).deep_view() == with_vote(old(roster).deep_view(), k as int),
{
    roster[k].votes = roster[k].votes + 1;
}

/// Whether the sum of all tallies does not exceed `limit`.
fn total_within(roster: &Vec<Candidate>, limit: usize) -> (within: bool)
    ensures
        within == (total_votes(roster.deep_view()) <= limit),
{
    let mut sum: u128 = 0;
    let mut i: usize = 0;
    while i < roster.len()
        invariant
            i <= roster.len(),
            sum == total_votes(roster.deep_view().take(i as int)),
            sum <= i * 0xFFFF_FFFF_FFFF_FFFF,
        decreases roster.len() - i,
    {
        proof {
            let upto = roster.deep_view().take(i + 1);
            assert(upto.drop_last() =~= roster.deep_view().take(i as int));
        }
        sum = sum + roster[i].votes as u128;
        i += 1;
    }
    assert(roster.deep_view().take(i as int) =~= roster.deep_view());
    sum <= limit as u128
}

impl Default for Entry {
    /// The record that stands for an election nobody created.
    fn default() -> (entry: Entry)
        ensures
            entry.wf(),
            entry@ == EntryView::blank(),
    {
        let entry = Entry {
            name: Vec::new(),
            time_frame: 0,
            candidates: Vec::new(),
            bvns: Vec::new(),
        };
        assert(entry@.candidates =~= Seq::<CandidateView>::empty());
        assert(entry@.bvns =~= Seq::<Seq<u8>>::empty());
        entry
    }
}

impl Entry {
    /// Whether the record obeys what every record obeys.
    pub open spec fn wf(&self) -> bool {
        self@.valid()
    }

    /// Creates an election's record: the roster that the three field lists
    /// describe, the deadline and the title, and no spent token.
    pub fn commence(
        names: &Vec<u8>,
        parties: &Vec<u8>,
        blake_hashes: &Vec<u8>,
        time_frame: u64,
        election_name: Vec<u8>,
    ) -> (entry: Entry)
        ensures
            entry.wf(),
            entry@ == EntryView::commence(
                names@,
                parties@,
                blake_hashes@,
                time_frame,
                election_name@,
            ),
    {
        let entry = Entry {
            name: election_name,
            time_frame,
            candidates: decode_roster(names, parties, blake_hashes),
            bvns: Vec::new(),
        };
        proof {
            lemma_decoded_total(names@, parties@, blake_hashes@);
            assert(entry@.bvns =~= Seq::<Seq<u8>>::empty());
        }
        entry
    }

    /// Puts a record together from its parts, as they were taken apart by
    /// [`Entry::into_parts`]. Parts that no record can have are refused: a
    /// token that is spent twice, or more votes counted than tokens spent.
    pub fn from_parts(
        name: Vec<u8>,
        time_frame: u64,
        candidates: Vec<Candidate>,
        bvns: Vec<Vec<u8>>,
    ) -> (made: Option<Entry>)
        ensures
            made is Some <==> (EntryView {
                name: name@,
                time_frame,
                candidates: candidates.deep_view(),
                bvns: bvns.deep_view(),
            }).valid(),
            made matches Some(entry) ==> entry.wf() && entry@ == (EntryView {
                name: name@,
                time_frame,
                candidates: candidates.deep_view(),
                bvns: bvns.deep_view(),
            }),
    {
        if all_distinct(&bvns) && total_within(&candidates, bvns.len()) {
            Some(Entry { name, time_frame, candidates, bvns })
        } else {
            None
        }
    }

    /// Takes the record apart: title, deadline, roster and spent tokens.
    pub fn into_parts(self) -> (parts: (Vec<u8>, u64, Vec<Candidate>, Vec<Vec<u8>>))
        ensures
            parts.0@ == self@.name,
            parts.1 == self@.time_frame,
            parts.2.deep_view() == self@.candidates,
            parts.3.deep_view() == self@.bvns,
    {
        (self.name, self.time_frame, self.candidates, self.bvns)
    }

    /// The deadline, as the creator supplied it.
    pub fn time_frame(&self) -> (deadline: u64)
        ensures
            deadline == self@.time_frame,
    {
        self.time_frame
    }

    /// The election's title.
    pub fn name(&self) -> (title: &Vec<u8>)
        ensures
            title@ == self@.name,
    {
        &self.name
    }

    /// The roster, in creation order.
    pub fn candidates(&self) -> (roster: &Vec<Candidate>)
        ensures
            roster.deep_view() == self@.candidates,
    {
        &self.candidates
    }

    /// The voter tokens that are spent, oldest first.
    pub fn bvns(&self) -> (tokens: &Vec<Vec<u8>>)
        ensures
            tokens.deep_view() == self@.bvns,
    {
        &self.bvns
    }

    /// The roster reply: every candidate's name, party and identifier in
    /// roster order, then the title separator and the title.
    pub fn fetch_candidates(&self) -> (reply: Vec<u8>)
        ensures
            reply@ == self@.roster_bytes(),
    {
        encode_roster(&self.candidates, Some(&self.name))
    }

    /// The tally reply: every candidate's tally in roster order, eight
    /// little-endian bytes each.
    pub fn get_votes(&self) -> (reply: Vec<u8>)
        ensures
            reply@ == self@.tally_bytes(),
    {
        encode_tallies(&self.candidates)
    }

    /// Whether `bvn` has been spent in this election.
    pub fn bvn_isunique(&self, bvn: &Vec<u8>) -> (spent: bool)
        ensures
            spent == self@.is_spent(bvn@),
    {
        holds_token(&self.bvns, bvn)
    }

    /// Casts one ballot. A token that is spent changes nothing. A fresh token
    /// becomes spent whether or not a candidate has the identifier `uniq_str`;
    /// the first candidate that has it gains exactly one vote.
    pub fn cast_vote(&mut self, uniq_str: &Vec<u8>, bvn: Vec<u8>) -> (outcome: VoteOutcome)
        requires
            old(self).wf(),
        ensures
            final(self).wf(),
            final(self)@ == old(self)@.cast(uniq_str@, bvn@),
            final(self)@.is_spent(bvn@),
            outcome == old(self)@.outcome(uniq_str@, bvn@),
    {
        proof {
            lemma_cast(self@, uniq_str@, bvn@);
        }
        if holds_token(&self.bvns, &bvn) {
            return VoteOutcome::DuplicateToken;
        }
        let k = find_candidate(&self.candidates, uniq_str);
        let ghost before = self@;
        let ghost token = bvn@;
        self.bvns.push(bvn);
        assert(self@.bvns =~~= before.bvns.push(token));
        if k < self.candidates.len() {
            proof {
                lemma_tally_within_total(before.candidates, k as int);
                lemma_with_vote_total(before.candidates, k as int);
                assert(self.bvns.len() == before.bvns.len() + 1);
            }
            count_vote(&mut self.candidates, k);
            VoteOutcome::Counted
        } else {
            VoteOutcome::NoSuchCandidate
        }
    }
}

/// The deadline of the election that a lookup found, or zero where it found
/// none.
pub fn fetch_time_of(found: Option<&Entry>) -> (deadline: u64)
    ensures
        deadline == deadline_or_zero(found_view(found)),
        found is None ==> deadline == 0,
{
    match found {
        Some(entry) => entry.time_frame(),
        None => 0,
    }
}

/// The roster reply of the election that a lookup found, or the empty buffer
/// where it found none.
pub fn fetch_candidates_of(found: Option<&Entry>) -> (reply: Vec<u8>)
    ensures
        reply@ == roster_or_empty(found_view(found)),
        found is None ==> reply@.len() == 0,
{
    match found {
        Some(entry) => entry.fetch_candidates(),
        None => Vec::new(),
    }
}

/// The tally reply of the election that a lookup found, or the empty buffer
/// where it found none.
pub fn get_votes_of(found: Option<&Entry>) -> (reply: Vec<u8>)
    ensures
        reply@ == tallies_or_empty(found_view(found)),
        found is None ==> reply@.len() == 0,
{
    match found {
        Some(entry) => entry.get_votes(),
        None => Vec::new(),
    }
}

/// Whether `bvn` is spent in the election that a lookup found; false where
/// it found none.
pub fn bvn_isunique_in(found: Option<&Entry>, bvn: &Vec<u8>) -> (spent: bool)
    ensures
        spent == spent_or_false(found_view(found), bvn@),
        found is None ==> !spent,
{
    match found {
        Some(entry) => entry.bvn_isunique(bvn),
        None => false,
    }
}

/// The record to store after a ballot for the candidate whose identifier is
/// `uniq_str`, with the voter token `bvn`: the record that the lookup found
/// with the ballot cast on it, or, where it found none, the blank record.
pub fn cast_vote_on(found: Option<Entry>, uniq_str: &Vec<u8>, bvn: Vec<u8>) -> (entry: Entry)
    requires
        found matches Some(before) ==> before.wf(),
    ensures
        entry.wf(),
        entry@ == cast_or_blank(
            match found {
                Some(before) => Some(before@),
                None => None,
            },
            uniq_str@,
            bvn@,
        ),
        found is Some ==> entry@.is_spent(bvn@),
{
    match found {
        Some(before) => {
            let mut entry = before;
            entry.cast_vote(uniq_str, bvn);
            entry
        },
        None => Entry::default(),
    }
}

} // verus!
