//! The roster codec: comma-separated input fields to candidates, and candidates
//! to the separator-delimited reply buffers.

use crate::bytes::{le_bytes, push_le_bytes, TALLY_WIDTH};
use vstd::prelude::*;

verus! {

/// Separates the entries of an input field list (`,`).
pub const COMMA: u8 = 0x2C;

/// Doubled, separates the fields of one candidate in a roster reply (`%%`).
pub const FIELD_MARK: u8 = 0x25;

/// Doubled, closes one candidate in a roster reply (`&&`).
pub const RECORD_MARK: u8 = 0x26;

/// Tripled, introduces the election's title in a roster reply (`***`).
pub const TITLE_MARK: u8 = 0x2A;

/// The tally every candidate starts with.
pub const INITIAL_VOTES: u64 = 0;

/// One ballot line item.
pub struct Candidate {
    /// Identifier by which a vote names this candidate.
    pub hash: Vec<u8>,
    /// Display name.
    pub name: Vec<u8>,
    /// Affiliation label; empty when none was supplied.
    pub party: Vec<u8>,
    /// Votes counted so far.
    pub votes: u64,
}

/// The mathematical value of a [`Candidate`].
pub struct CandidateView {
    pub hash: Seq<u8>,
    pub name: Seq<u8>,
    pub party: Seq<u8>,
    pub votes: nat,
}

impl View for Candidate {
    type V = CandidateView;

    open spec fn view(&self) -> CandidateView {
        CandidateView {
            hash: self.hash@,
            name: self.name@,
            party: self.party@,
            votes: self.votes as nat,
        }
    }
}

impl Default for Candidate {
    /// The candidate with no identifier, no name, no party and no vote.
    fn default() -> (candidate: Candidate)
        ensures
            candidate@ == (CandidateView {
                hash: Seq::<u8>::empty(),
                name: Seq::<u8>::empty(),
                party: Seq::<u8>::empty(),
                votes: 0,
            }),
    {
        Candidate { hash: Vec::new(), name: Vec::new(), party: Vec::new(), votes: 0 }
    }
}

impl DeepView for Candidate {
    type V = CandidateView;

    open spec fn deep_view(&self) -> CandidateView {
        self@
    }
}

/// What a buffer splits into at its commas, read byte by byte: a comma opens a
/// new, empty entry and any other byte extends the entry that is open. There
/// is always at least one entry.
pub open spec fn split_commas(buffer: Seq<u8>) -> Seq<Seq<u8>>
    decreases buffer.len(),
{
    if buffer.len() == 0 {
        seq![Seq::<u8>::empty()]
    } else {
        let before = split_commas(buffer.drop_last());
        if buffer.last() == COMMA {
            before.push(Seq::<u8>::empty())
        } else {
            before.drop_last().push(before.last().push(buffer.last()))
        }
    }
}

/// The entries of an input field list. The empty buffer lists nothing; any
/// other buffer lists what its commas split it into.
pub open spec fn fields(buffer: Seq<u8>) -> Seq<Seq<u8>> {
    if buffer.len() == 0 {
        Seq::<Seq<u8>>::empty()
    } else {
        split_commas(buffer)
    }
}

/// The entry at position `i`, or the empty value where the list is too short.
pub open spec fn field_at(entries: Seq<Seq<u8>>, i: int) -> Seq<u8> {
    if 0 <= i < entries.len() {
        entries[i]
    } else {
        Seq::<u8>::empty()
    }
}

/// The roster that three parallel field lists describe: one candidate per
/// name, matched by position with a party and an identifier.
pub open spec fn decode_roster_spec(names: Seq<u8>, parties: Seq<u8>, hashes: Seq<u8>) -> Seq<
    CandidateView,
> {
    let name_list = fields(names);
    let party_list = fields(parties);
    let hash_list = fields(hashes);
    Seq::new(
        name_list.len(),
        |i: int|
            CandidateView {
                hash: field_at(hash_list, i),
                name: name_list[i],
                party: field_at(party_list, i),
                votes: INITIAL_VOTES as nat,
            },
    )
}

/// The two bytes between the fields of one candidate.
pub open spec fn field_separator() -> Seq<u8> {
    seq![FIELD_MARK, FIELD_MARK]
}

/// The two bytes after each candidate.
pub open spec fn record_separator() -> Seq<u8> {
    seq![RECORD_MARK, RECORD_MARK]
}

/// The three bytes before the election's title.
pub open spec fn title_separator() -> Seq<u8> {
    seq![TITLE_MARK, TITLE_MARK, TITLE_MARK]
}

/// One candidate in a roster reply: name, party and identifier, closed by the
/// record separator.
pub open spec fn candidate_line(candidate: CandidateView) -> Seq<u8> {
    candidate.name + field_separator() + candidate.party + field_separator() + candidate.hash
        + record_separator()
}

/// The lines of all candidates, in roster order.
pub open spec fn roster_lines(roster: Seq<CandidateView>) -> Seq<u8>
    decreases roster.len(),
{
    if roster.len() == 0 {
        Seq::<u8>::empty()
    } else {
        roster_lines(roster.drop_last()) + candidate_line(roster.last())
    }
}

/// The trailer of a roster reply: nothing without a title, else the title
/// separator and the title.
pub open spec fn title_trailer(title: Option<Seq<u8>>) -> Seq<u8> {
    match title {
        Some(text) => title_separator() + text,
        None => Seq::<u8>::empty(),
    }
}

/// A complete roster reply.
pub open spec fn encode_roster_spec(roster: Seq<CandidateView>, title: Option<Seq<u8>>) -> Seq<
    u8,
> {
    roster_lines(roster) + title_trailer(title)
}

/// The tallies of all candidates, in roster order, eight little-endian bytes
/// each.
pub open spec fn encode_tallies_spec(roster: Seq<CandidateView>) -> Seq<u8>
    decreases roster.len(),
{
    if roster.len() == 0 {
        Seq::<u8>::empty()
    } else {
        encode_tallies_spec(roster.drop_last()) + le_bytes(
            roster.last().votes,
            TALLY_WIDTH as nat,
        )
    }
}

/// The sum of all tallies of a roster.
pub open spec fn total_votes(roster: Seq<CandidateView>) -> nat
    decreases roster.len(),
{
    if roster.len() == 0 {
        0
    } else {
        total_votes(roster.drop_last()) + roster.last().votes
    }
}

/// Splits an input field list into its entries.
pub fn split_fields(buffer: &Vec<u8>) -> (entries: Vec<Vec<u8>>)
    ensures
        entries.deep_view() == fields(buffer@),
{
    let mut entries: Vec<Vec<u8>> = Vec::new();
    if buffer.len() == 0 {
        return entries;
    }
    let mut open: Vec<u8> = Vec::new();
    let mut i: usize = 0;
    while i < buffer.len()
        invariant
            i <= buffer.len(),
            split_commas(buffer@.take(i as int)) == entries.deep_view().push(open@),
        decreases buffer.len() - i,
    {
        let byte = buffer[i];
        let ghost before = entries.deep_view().push(open@);
        proof {
            let upto = buffer@.take(i + 1);
            assert(upto.drop_last() =~= buffer@.take(i as int));
        }
        if byte == COMMA {
            entries.push(open);
            open = Vec::new();
            proof {
                assert(entries.deep_view() =~~= before);
            }
        } else {
            open.push(byte);
            proof {
                assert(entries.deep_view().push(open@) =~= before.drop_last().push(
                    before.last().push(byte),
                ));
            }
        }
        i += 1;
    }
    proof {
        assert(buffer@.take(i as int) =~= buffer@);
    }
    let ghost done = entries.deep_view().push(open@);
    entries.push(open);
    assert(entries.deep_view() =~~= done);
    entries
}

/// A copy of the entry at position `i`, or the empty value where the list is
/// too short.
pub fn entry_or_empty(entries: &Vec<Vec<u8>>, i: usize) -> (entry: Vec<u8>)
    ensures
        entry@ == field_at(entries.deep_view(), i as int),
{
    if i < entries.len() {
        entries[i].clone()
    } else {
        Vec::new()
    }
}

/// Builds the roster that three parallel field lists describe. Alignment is by
/// position alone; where `parties` or `blake_hashes` lists fewer entries than
/// `names`, the candidates beyond get the empty value.
pub fn decode_roster(names: &Vec<u8>, parties: &Vec<u8>, blake_hashes: &Vec<u8>) -> (roster: Vec<
    Candidate,
>)
    ensures
        roster.deep_view() == decode_roster_spec(names@, parties@, blake_hashes@),
{
    let name_list = split_fields(names);
    let party_list = split_fields(parties);
    let hash_list = split_fields(blake_hashes);
    let ghost goal = decode_roster_spec(names@, parties@, blake_hashes@);
    let mut roster: Vec<Candidate> = Vec::new();
    let mut i: usize = 0;
    while i < name_list.len()
        invariant
            i <= name_list.len(),
            name_list.deep_view() == fields(names@),
            party_list.deep_view() == fields(parties@),
            hash_list.deep_view() == fields(blake_hashes@),
            goal == decode_roster_spec(names@, parties@, blake_hashes@),
            roster.deep_view() == goal.take(i as int),
        decreases name_list.len() - i,
    {
        let candidate = Candidate {
            hash: entry_or_empty(&hash_list, i),
            name: entry_or_empty(&name_list, i),
            party: entry_or_empty(&party_list, i),
            votes: INITIAL_VOTES,
        };
        let ghost before = roster.deep_view();
        let ghost added = candidate@;
        roster.push(candidate);
        assert(before.push(added) =~= goal.take(i + 1));
        i += 1;
    }
    roster
}

/// Appends one candidate's line to a roster reply.
fn push_candidate_line(out: &mut Vec<u8>, candidate: &Candidate)
    ensures
        final(out)@ == old(out)@ + candidate_line(candidate@),
{
    out.extend_from_slice(candidate.name.as_slice());
    out.push(FIELD_MARK);
    out.push(FIELD_MARK);
    out.extend_from_slice(candidate.party.as_slice());
    out.push(FIELD_MARK);
    out.push(FIELD_MARK);
    out.extend_from_slice(candidate.hash.as_slice());
    out.push(RECORD_MARK);
    out.push(RECORD_MARK);
}

/// Flattens a roster into one reply buffer: every candidate's line in roster
/// order, then, where a title is given, the title separator and the title.
pub fn encode_roster(candidates: &Vec<Candidate>, election_name: Option<&Vec<u8>>) -> (reply: Vec<
    u8,
>)
    ensures
        reply@ == encode_roster_spec(
            candidates.deep_view(),
            match election_name {
                Some(title) => Some(title@),
                None => None,
            },
        ),
{
    let mut reply: Vec<u8> = Vec::new();
    let mut i: usize = 0;
    while i < candidates.len()
        invariant
            i <= candidates.len(),
            reply@ == roster_lines(candidates.deep_view().take(i as int)),
        decreases candidates.len() - i,
    {
        proof {
            let upto = candidates.deep_view().take(i + 1);
            assert(upto.drop_last() =~= candidates.deep_view().take(i as int));
        }
        push_candidate_line(&mut reply, &candidates[i]);
        i += 1;
    }
    assert(candidates.deep_view().take(i as int) =~= candidates.deep_view());
    if let Some(title) = election_name {
        reply.push(TITLE_MARK);
        reply.push(TITLE_MARK);
        reply.push(TITLE_MARK);
        reply.extend_from_slice(title.as_slice());
        assert(reply@ =~= roster_lines(candidates.deep_view()) + (title_separator() + title@));
    }
    reply
}

/// Serializes every candidate's tally, in roster order, as eight
/// little-endian bytes each.
pub fn encode_tallies(candidates: &Vec<Candidate>) -> (reply: Vec<u8>)
    ensures
        reply@ == encode_tallies_spec(candidates.deep_view()),
{
    let mut reply: Vec<u8> = Vec::new();
    let mut i: usize = 0;
    while i < candidates.len()
        invariant
            i <= candidates.len(),
            reply@ == encode_tallies_spec(candidates.deep_view().take(i as int)),
        decreases candidates.len() - i,
    {
        proof {
            let upto = candidates.deep_view().take(i + 1);
            assert(upto.drop_last() =~= candidates.deep_view().take(i as int));
        }
        push_le_bytes(&mut reply, candidates[i].votes);
        i += 1;
    }
    assert(candidates.deep_view().take(i as int) =~= candidates.deep_view());
    reply
}

} // verus!
