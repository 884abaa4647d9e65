//! What holds of the codec and of the ballot engine on all inputs.

use crate::bytes::{
    le_bytes, le_value, lemma_le_bytes_len, lemma_le_bytes_lossless, radix_pow, TALLY_WIDTH,
};
use crate::codec::{
    candidate_line, decode_roster_spec, encode_roster_spec, encode_tallies_spec, field_at,
    field_separator, fields, record_separator, roster_lines, split_commas, title_separator,
    title_trailer, total_votes, CandidateView, COMMA, FIELD_MARK, INITIAL_VOTES, RECORD_MARK,
    TITLE_MARK,
};
use crate::record::{
    first_match, lemma_cast, lemma_first_match, lemma_first_match_same, same_candidates,
};
use crate::store::{cast_vote_spec, Elections};
use vstd::prelude::*;

verus! {

/// Whether a field value holds no comma.
pub open spec fn comma_free(field: Seq<u8>) -> bool {
    forall|i: int| 0 <= i < field.len() ==> field[i] != COMMA
}

/// Whether every field value of a list holds no comma.
pub open spec fn all_comma_free(entries: Seq<Seq<u8>>) -> bool {
    forall|i: int| 0 <= i < entries.len() ==> comma_free(#[trigger] entries[i])
}

/// The buffer that lists the given field values, with a comma between each
/// two.
pub open spec fn join_commas(entries: Seq<Seq<u8>>) -> Seq<u8>
    decreases entries.len(),
{
    if entries.len() == 0 {
        Seq::<u8>::empty()
    } else if entries.len() == 1 {
        entries[0]
    } else {
        join_commas(entries.drop_last()) + seq![COMMA] + entries.last()
    }
}

/// The roster that is meant by three lists of field values: one candidate
/// per name, with the party and the identifier at the same position, or the
/// empty value where that list is too short, and no vote counted.
pub open spec fn listing(names: Seq<Seq<u8>>, parties: Seq<Seq<u8>>, hashes: Seq<Seq<u8>>) -> Seq<
    CandidateView,
> {
    Seq::new(
        names.len(),
        |i: int|
            CandidateView {
                hash: field_at(hashes, i),
                name: names[i],
                party: field_at(parties, i),
                votes: INITIAL_VOTES as nat,
            },
    )
}

/// Bytes without a comma, appended to a buffer, extend the last entry that
/// the buffer splits into.
proof fn lemma_split_extend(buffer: Seq<u8>, field: Seq<u8>)
    requires
        comma_free(field),
    ensures
        split_commas(buffer).len() >= 1,
        split_commas(buffer + field) == split_commas(buffer).drop_last().push(
            split_commas(buffer).last() + field,
        ),
    decreases field.len(),
{
    lemma_split_some(buffer);
    let whole = split_commas(buffer);
    if field.len() == 0 {
        assert(buffer + field =~= buffer);
        assert(whole.last() + field =~= whole.last());
        assert(whole.drop_last().push(whole.last()) =~= whole);
    } else {
        let shorter = field.drop_last();
        let byte = field.last();
        lemma_split_extend(buffer, shorter);
        let before = split_commas(buffer + shorter);
        assert((buffer + field).drop_last() =~= buffer + shorter);
        assert((buffer + field).last() == byte);
        assert(before.drop_last() =~= whole.drop_last());
        assert((whole.last() + shorter).push(byte) =~= whole.last() + field);
    }
}

/// Every buffer splits into at least one entry.
proof fn lemma_split_some(buffer: Seq<u8>)
    ensures
        split_commas(buffer).len() >= 1,
    decreases buffer.len(),
{
    if buffer.len() > 0 {
        lemma_split_some(buffer.drop_last());
    }
}

/// Splitting a buffer at its commas undoes joining comma-free field values.
pub proof fn lemma_split_join(entries: Seq<Seq<u8>>)
    requires
        entries.len() >= 1,
        all_comma_free(entries),
    ensures
        split_commas(join_commas(entries)) == entries,
    decreases entries.len(),
{
    let empty = Seq::<u8>::empty();
    if entries.len() == 1 {
        lemma_split_extend(empty, entries[0]);
        assert(empty + entries[0] =~= entries[0]);
        assert(split_commas(empty) =~= seq![empty]);
        assert(seq![empty].drop_last().push(empty + entries[0]) =~= entries);
    } else {
        let front = entries.drop_last();
        lemma_split_join(front);
        let opened = join_commas(front).push(COMMA);
        assert(opened.drop_last() =~= join_commas(front));
        assert(split_commas(opened) == front.push(empty));
        lemma_split_extend(opened, entries.last());
        assert(join_commas(entries) =~= opened + entries.last());
        assert(front.push(empty).drop_last().push(empty + entries.last()) =~= entries);
    }
}

/// Joining what a buffer splits into gives the buffer again, and no entry
/// that it splits into holds a comma.
pub proof fn lemma_join_split(buffer: Seq<u8>)
    ensures
        join_commas(split_commas(buffer)) == buffer,
        all_comma_free(split_commas(buffer)),
    decreases buffer.len(),
{
    let whole = split_commas(buffer);
    if buffer.len() == 0 {
    } else {
        let shorter = buffer.drop_last();
        let byte = buffer.last();
        let before = split_commas(shorter);
        lemma_join_split(shorter);
        lemma_split_some(shorter);
        assert(shorter.push(byte) =~= buffer);
        if byte == COMMA {
            assert(whole.drop_last() =~= before);
            assert(join_commas(whole) =~= join_commas(before) + seq![COMMA] + Seq::<u8>::empty());
            assert(join_commas(whole) =~= buffer);
        } else {
            let grown = before.last().push(byte);
            assert(whole.last() == grown);
            assert(whole.drop_last() =~= before.drop_last());
            if whole.len() == 1 {
                assert(join_commas(whole) =~= buffer);
            } else {
                assert(join_commas(before) == join_commas(before.drop_last()) + seq![COMMA]
                    + before.last());
                assert(join_commas(whole) =~= join_commas(before).push(byte));
            }
            assert forall|i: int| 0 <= i < whole.len() implies comma_free(#[trigger] whole[i]) by {
                if i < whole.len() - 1 {
                    assert(whole[i] == before[i]);
                } else {
                    assert(comma_free(before.last()));
                }
            }
        }
    }
}

/// The entries of a joined list are the field values that were joined,
/// unless the list is a single empty value: that joins to the empty buffer,
/// which lists nothing.
pub proof fn lemma_fields_join(entries: Seq<Seq<u8>>)
    requires
        all_comma_free(entries),
        !(entries.len() == 1 && entries[0].len() == 0),
    ensures
        fields(join_commas(entries)) == entries,
{
    if entries.len() == 0 {
        assert(fields(join_commas(entries)) =~= entries);
    } else {
        lemma_split_join(entries);
        if entries.len() >= 2 {
            assert(join_commas(entries).len() > 0);
        }
    }
}

/// The entries of a joined list of party labels or identifiers, read by
/// position, are the values that were joined.
proof fn lemma_field_at_join(entries: Seq<Seq<u8>>, i: int)
    requires
        all_comma_free(entries),
    ensures
        field_at(fields(join_commas(entries)), i) == field_at(entries, i),
{
    if entries.len() == 1 && entries[0].len() == 0 {
        assert(field_at(entries, i) =~= Seq::<u8>::empty());
    } else {
        lemma_fields_join(entries);
    }
}

/// Round trip. Field values without commas, joined by commas and decoded,
/// give one candidate per name with exactly the values that were joined, in
/// the order in which they were joined, and a candidate beyond the end of the
/// party or identifier list gets the empty value. Encoding that roster lays
/// out those same values. This leaves out one input: a name list that holds
/// a single empty name joins to the empty buffer, which decodes to no
/// candidate at all.
pub proof fn law_round_trip(
    names: Seq<Seq<u8>>,
    parties: Seq<Seq<u8>>,
    hashes: Seq<Seq<u8>>,
    title: Option<Seq<u8>>,
)
    requires
        all_comma_free(names),
        all_comma_free(parties),
        all_comma_free(hashes),
        !(names.len() == 1 && names[0].len() == 0),
    ensures
        decode_roster_spec(join_commas(names), join_commas(parties), join_commas(hashes))
            == listing(names, parties, hashes),
        encode_roster_spec(
            decode_roster_spec(join_commas(names), join_commas(parties), join_commas(hashes)),
            title,
        ) == roster_lines(listing(names, parties, hashes)) + title_trailer(title),
{
    let decoded = decode_roster_spec(
        join_commas(names),
        join_commas(parties),
        join_commas(hashes),
    );
    let meant = listing(names, parties, hashes);
    lemma_fields_join(names);
    assert forall|i: int| 0 <= i < names.len() implies decoded[i] == meant[i] by {
        lemma_field_at_join(parties, i);
        lemma_field_at_join(hashes, i);
    }
    assert(decoded =~= meant);
}

/// One call of `cast_vote`: the election, the candidate that the ballot
/// names, and the voter token.
pub struct Call {
    pub id: Seq<u8>,
    pub candidate: Seq<u8>,
    pub token: Seq<u8>,
}

/// The store after a sequence of calls of `cast_vote`, made in order.
pub open spec fn cast_all(store: Elections, calls: Seq<Call>) -> Elections
    decreases calls.len(),
{
    if calls.len() == 0 {
        store
    } else {
        let call = calls.last();
        cast_vote_spec(cast_all(store, calls.drop_last()), call.id, call.candidate, call.token)
    }
}

/// Whether some call of the sequence carried `token` into election `id`.
pub open spec fn was_sent(calls: Seq<Call>, id: Seq<u8>, token: Seq<u8>) -> bool {
    exists|i: int| 0 <= i < calls.len() && (#[trigger] calls[i]).id == id && calls[i].token == token
}

/// Whether the last call of the sequence is an accepted vote in election
/// `id`: it goes to that election, its token was not spent in `store` and
/// was carried by no earlier call to that election, and its candidate
/// identifier is that of a candidate.
pub open spec fn last_is_accepted(store: Elections, calls: Seq<Call>, id: Seq<u8>) -> bool {
    let call = calls.last();
    &&& calls.len() > 0
    &&& call.id == id
    &&& store.contains_key(id)
    &&& !store[id].is_spent(call.token)
    &&& !was_sent(calls.drop_last(), id, call.token)
    &&& first_match(store[id].candidates, call.candidate) < store[id].candidates.len()
}

/// The number of accepted votes in election `id` among the calls.
pub open spec fn accepted_votes(store: Elections, calls: Seq<Call>, id: Seq<u8>) -> nat
    decreases calls.len(),
{
    if calls.len() == 0 {
        0
    } else {
        accepted_votes(store, calls.drop_last(), id) + if last_is_accepted(store, calls, id) {
            1nat
        } else {
            0nat
        }
    }
}

/// The store after the first `n + 1` calls is the store after the first `n`
/// with call `n` made on it.
proof fn lemma_cast_all_step(store: Elections, calls: Seq<Call>, n: int)
    requires
        0 <= n < calls.len(),
    ensures
        cast_all(store, calls.take(n + 1)) == cast_vote_spec(
            cast_all(store, calls.take(n)),
            calls[n].id,
            calls[n].candidate,
            calls[n].token,
        ),
{
    assert(calls.take(n + 1).drop_last() =~= calls.take(n));
    assert(calls.take(n + 1).last() == calls[n]);
}

/// A token was carried by some call exactly if it was carried by the last
/// call or by one before it.
proof fn lemma_was_sent_grows(calls: Seq<Call>, id: Seq<u8>, token: Seq<u8>)
    requires
        calls.len() > 0,
    ensures
        was_sent(calls, id, token) <==> was_sent(calls.drop_last(), id, token) || (calls.last().id
            == id && calls.last().token == token),
{
    let front = calls.drop_last();
    if was_sent(calls, id, token) {
        let i = choose|i: int|
            0 <= i < calls.len() && (#[trigger] calls[i]).id == id && calls[i].token == token;
        if i < front.len() {
            assert(front[i].id == id && front[i].token == token);
        }
    }
    if was_sent(front, id, token) {
        let i = choose|i: int|
            0 <= i < front.len() && (#[trigger] front[i]).id == id && front[i].token == token;
        assert(calls[i].id == id && calls[i].token == token);
    }
    if calls.last().id == id && calls.last().token == token {
        assert(calls[calls.len() - 1].id == id);
    }
}

/// What a sequence of calls does to an election that exists: it still
/// exists, its candidates stay but for their tallies, a token is spent
/// afterwards exactly if it was spent before or some call carried it into
/// that election, the sum of all tallies has grown by the number of accepted
/// votes, and no tally has shrunk.
pub proof fn lemma_cast_all(store: Elections, calls: Seq<Call>, id: Seq<u8>)
    requires
        store.contains_key(id),
    ensures
        cast_all(store, calls).contains_key(id),
        same_candidates(cast_all(store, calls)[id].candidates, store[id].candidates),
        forall|token: Seq<u8>|
            #![trigger cast_all(store, calls)[id].is_spent(token)]
            #![trigger was_sent(calls, id, token)]
            cast_all(store, calls)[id].is_spent(token) <==> store[id].is_spent(token) || was_sent(
                calls,
                id,
                token,
            ),
        total_votes(cast_all(store, calls)[id].candidates) == total_votes(store[id].candidates)
            + accepted_votes(store, calls, id),
        forall|k: int|
            0 <= k < store[id].candidates.len() ==> (#[trigger] cast_all(
                store,
                calls,
            )[id].candidates[k]).votes >= store[id].candidates[k].votes,
    decreases calls.len(),
{
    if calls.len() == 0 {
        assert forall|token: Seq<u8>| !was_sent(calls, id, token) by {}
    } else {
        let front = calls.drop_last();
        let call = calls.last();
        let before = cast_all(store, front);
        let after = cast_all(store, calls);
        lemma_cast_all(store, front, id);
        assert(before[id].is_spent(call.token) <==> store[id].is_spent(call.token) || was_sent(
            front,
            id,
            call.token,
        ));
        if call.id == id {
            lemma_cast(before[id], call.candidate, call.token);
            lemma_first_match_same(before[id].candidates, store[id].candidates, call.candidate);
            assert(after[id] == before[id].cast(call.candidate, call.token));
        } else {
            assert(after[id] == before[id]);
        }
        assert forall|token: Seq<u8>|
            #![trigger after[id].is_spent(token)]
            #![trigger was_sent(calls, id, token)]
            after[id].is_spent(token) <==> store[id].is_spent(token) || was_sent(
                calls,
                id,
                token,
            ) by {
            lemma_was_sent_grows(calls, id, token);
            assert(before[id].is_spent(token) <==> store[id].is_spent(token) || was_sent(
                front,
                id,
                token,
            ));
        }
    }
}

/// Uniqueness. Where two calls of a sequence carry the same token into the
/// same election, the later one changes no tally: after it every election
/// has the roster, tallies included, that it had before it.
pub proof fn law_repeated_token_changes_no_tally(
    store: Elections,
    calls: Seq<Call>,
    first: int,
    again: int,
)
    requires
        0 <= first < again < calls.len(),
        calls[first].id == calls[again].id,
        calls[first].token == calls[again].token,
    ensures
        forall|id: Seq<u8>|
            cast_all(store, calls.take(again)).contains_key(id) ==> #[trigger] cast_all(
                store,
                calls.take(again + 1),
            ).contains_key(id) && cast_all(store, calls.take(again + 1))[id].candidates
                == cast_all(store, calls.take(again))[id].candidates,
        cast_all(store, calls.take(again + 1)).dom() == cast_all(store, calls.take(again)).dom(),
{
    let id = calls[first].id;
    lemma_settled(store, calls, first, again);
    lemma_cast_all_step(store, calls, again);
    let before = cast_all(store, calls.take(again));
    let after = cast_all(store, calls.take(again + 1));
    lemma_first_match(before[id].candidates, calls[again].candidate);
    assert(after.dom() =~= before.dom());
}

/// Whether election `id` exists and a ballot with `token` can change no
/// tally in it: the token is spent, or there is no candidate.
spec fn settled(store: Elections, id: Seq<u8>, token: Seq<u8>) -> bool {
    store.contains_key(id) && (store[id].is_spent(token) || store[id].candidates.len() == 0)
}

/// Once a call has carried a token into an election, a ballot with that
/// token can change no tally in it, however many calls follow.
proof fn lemma_settled(store: Elections, calls: Seq<Call>, first: int, upto: int)
    requires
        0 <= first < upto <= calls.len(),
    ensures
        settled(cast_all(store, calls.take(upto)), calls[first].id, calls[first].token),
    decreases upto,
{
    let n = upto - 1;
    lemma_cast_all_step(store, calls, n);
    let before = cast_all(store, calls.take(n));
    if n > first {
        lemma_settled(store, calls, first, n);
    }
    if before.contains_key(calls[n].id) {
        lemma_cast(before[calls[n].id], calls[n].candidate, calls[n].token);
    }
}

/// Tally integrity. After any sequence of calls, the sum of all tallies of
/// an election that existed before them is the sum that it had before them
/// plus the number of accepted votes: the calls to that election whose token
/// was not spent before, was carried by no earlier call to it, and whose
/// candidate identifier is that of a candidate.
pub proof fn law_tally_integrity(store: Elections, calls: Seq<Call>, id: Seq<u8>)
    requires
        store.contains_key(id),
    ensures
        cast_all(store, calls).contains_key(id),
        total_votes(cast_all(store, calls)[id].candidates) == total_votes(store[id].candidates)
            + accepted_votes(store, calls, id),
{
    lemma_cast_all(store, calls, id);
}

/// Token accounting. Every token that a call carried into an election that
/// existed before the calls is spent in it after them, whether or not the
/// call named a candidate; and no token is spent that was neither spent
/// before nor carried by a call.
pub proof fn law_token_accounting(store: Elections, calls: Seq<Call>, id: Seq<u8>)
    requires
        store.contains_key(id),
    ensures
        cast_all(store, calls).contains_key(id),
        forall|i: int|
            0 <= i < calls.len() && (#[trigger] calls[i]).id == id ==> cast_all(
                store,
                calls,
            )[id].is_spent(calls[i].token),
        forall|token: Seq<u8>|
            cast_all(store, calls)[id].is_spent(token) ==> store[id].is_spent(token) || was_sent(
                calls,
                id,
                token,
            ),
{
    lemma_cast_all(store, calls, id);
    assert forall|i: int| 0 <= i < calls.len() && (#[trigger] calls[i]).id == id implies cast_all(
        store,
        calls,
    )[id].is_spent(calls[i].token) by {
        assert(was_sent(calls, id, calls[i].token));
    }
}

/// Whether every tally of a roster fits in eight bytes.
pub open spec fn tallies_fit(roster: Seq<CandidateView>) -> bool {
    forall|k: int| 0 <= k < roster.len() ==> (#[trigger] roster[k]).votes <= u64::MAX
}

/// The tally reply is lossless. It holds eight bytes per candidate, and the
/// eight bytes at a candidate's position, read as a little-endian number, are
/// that candidate's tally.
pub proof fn law_tally_reply_lossless(roster: Seq<CandidateView>, k: int)
    requires
        tallies_fit(roster),
        0 <= k < roster.len(),
    ensures
        encode_tallies_spec(roster).len() == TALLY_WIDTH * roster.len(),
        le_value(
            encode_tallies_spec(roster).subrange(TALLY_WIDTH * k, TALLY_WIDTH * k + TALLY_WIDTH),
        ) == roster[k].votes,
    decreases roster.len(),
{
    let front = roster.drop_last();
    let word = le_bytes(roster.last().votes, TALLY_WIDTH as nat);
    let reply = encode_tallies_spec(roster);
    lemma_tallies_len(front);
    lemma_le_bytes_len(roster.last().votes, TALLY_WIDTH as nat);
    if k == roster.len() - 1 {
        assert(reply.subrange(TALLY_WIDTH * k, TALLY_WIDTH * k + TALLY_WIDTH) =~= word);
        assert(radix_pow(8) == 0x1_0000_0000_0000_0000) by {
            reveal_with_fuel(radix_pow, 9);
        }
        assert(roster[k].votes <= u64::MAX);
        lemma_le_bytes_lossless(roster.last().votes, TALLY_WIDTH as nat);
    } else {
        law_tally_reply_lossless(front, k);
        assert(reply.subrange(TALLY_WIDTH * k, TALLY_WIDTH * k + TALLY_WIDTH)
            =~= encode_tallies_spec(front).subrange(
            TALLY_WIDTH * k,
            TALLY_WIDTH * k + TALLY_WIDTH,
        ));
    }
}

/// The tally reply holds eight bytes per candidate.
proof fn lemma_tallies_len(roster: Seq<CandidateView>)
    ensures
        encode_tallies_spec(roster).len() == TALLY_WIDTH * roster.len(),
    decreases roster.len(),
{
    if roster.len() > 0 {
        lemma_tallies_len(roster.drop_last());
        lemma_le_bytes_len(roster.last().votes, TALLY_WIDTH as nat);
    }
}

/// Whether a field value holds none of the three separator bytes of a roster
/// reply.
pub open spec fn mark_free(field: Seq<u8>) -> bool {
    forall|i: int|
        0 <= i < field.len() ==> field[i] != FIELD_MARK && field[i] != RECORD_MARK && field[i]
            != TITLE_MARK
}

/// Whether no name, party or identifier of a roster holds a separator byte.
pub open spec fn roster_mark_free(roster: Seq<CandidateView>) -> bool {
    forall|k: int|
        0 <= k < roster.len() ==> mark_free((#[trigger] roster[k]).name) && mark_free(
            roster[k].party,
        ) && mark_free(roster[k].hash)
}

/// Two buffers that are equal, and that each start with a value free of
/// `mark` followed by `mark`, start with the same value and go on alike.
proof fn lemma_cut(a: Seq<u8>, x: Seq<u8>, b: Seq<u8>, y: Seq<u8>, mark: u8)
    requires
        forall|i: int| 0 <= i < a.len() ==> a[i] != mark,
        forall|i: int| 0 <= i < b.len() ==> b[i] != mark,
        a + seq![mark] + x == b + seq![mark] + y,
    ensures
        a == b,
        x == y,
{
    let left = a + seq![mark] + x;
    let right = b + seq![mark] + y;
    if a.len() < b.len() {
        assert(left[a.len() as int] == mark);
        assert(right[a.len() as int] == b[a.len() as int]);
    } else if b.len() < a.len() {
        assert(right[b.len() as int] == mark);
        assert(left[b.len() as int] == a[b.len() as int]);
    } else {
        assert forall|i: int| 0 <= i < a.len() implies a[i] == b[i] by {
            assert(left[i] == a[i]);
            assert(right[i] == b[i]);
        }
        assert(a =~= b);
        assert(left.len() == right.len());
        assert forall|i: int| 0 <= i < x.len() implies x[i] == y[i] by {
            assert(left[a.len() + 1 + i] == x[i]);
            assert(right[b.len() + 1 + i] == y[i]);
        }
        assert(x =~= y);
    }
}

/// The lines of a roster are the first candidate's line and the lines of the
/// others.
proof fn lemma_lines_front(roster: Seq<CandidateView>)
    requires
        roster.len() > 0,
    ensures
        roster_lines(roster) == candidate_line(roster[0]) + roster_lines(roster.drop_first()),
    decreases roster.len(),
{
    let empty = Seq::<u8>::empty();
    if roster.len() == 1 {
        assert(roster_lines(roster.drop_last()) =~= empty);
        assert(roster_lines(roster.drop_first()) =~= empty);
        assert(empty + candidate_line(roster[0]) =~= candidate_line(roster[0]) + empty);
    } else {
        let front = roster.drop_last();
        let rest = roster.drop_first();
        lemma_lines_front(front);
        assert(front.drop_first() =~= rest.drop_last());
        assert(rest.last() == roster.last());
        assert(front[0] == roster[0]);
        assert((candidate_line(roster[0]) + roster_lines(rest.drop_last())) + candidate_line(
            roster.last(),
        ) =~= candidate_line(roster[0]) + (roster_lines(rest.drop_last()) + candidate_line(
            roster.last(),
        )));
    }
}

/// The first byte of a reply with a candidate is no title mark.
proof fn lemma_line_start(roster: Seq<CandidateView>, tail: Seq<u8>)
    requires
        roster.len() > 0,
        roster_mark_free(roster),
    ensures
        (roster_lines(roster) + tail).len() > 0,
        (roster_lines(roster) + tail)[0] != TITLE_MARK,
{
    lemma_lines_front(roster);
    let first = roster[0];
    let line = candidate_line(first);
    assert(mark_free(first.name));
    assert(line.len() >= 4);
    if first.name.len() > 0 {
        assert(line[0] == first.name[0]);
    } else {
        assert(line[0] == FIELD_MARK);
    }
    assert((roster_lines(roster) + tail)[0] == line[0]);
}

/// As `lemma_cut`, for values followed by a doubled `mark`.
proof fn lemma_cut_pair(a: Seq<u8>, x: Seq<u8>, b: Seq<u8>, y: Seq<u8>, mark: u8)
    requires
        forall|i: int| 0 <= i < a.len() ==> a[i] != mark,
        forall|i: int| 0 <= i < b.len() ==> b[i] != mark,
        a + seq![mark, mark] + x == b + seq![mark, mark] + y,
    ensures
        a == b,
        x == y,
{
    let ax = seq![mark] + x;
    let by = seq![mark] + y;
    assert(a + seq![mark, mark] + x =~= a + seq![mark] + ax);
    assert(b + seq![mark, mark] + y =~= b + seq![mark] + by);
    lemma_cut(a, ax, b, by, mark);
    assert(x =~= ax.drop_first());
    assert(y =~= by.drop_first());
}

/// Two buffers that are equal and that each start with a candidate's line
/// start with the same name, party and identifier and go on alike.
proof fn lemma_line_cut(
    first_a: CandidateView,
    rest_a: Seq<u8>,
    first_b: CandidateView,
    rest_b: Seq<u8>,
)
    requires
        mark_free(first_a.name) && mark_free(first_a.party) && mark_free(first_a.hash),
        mark_free(first_b.name) && mark_free(first_b.party) && mark_free(first_b.hash),
        candidate_line(first_a) + rest_a == candidate_line(first_b) + rest_b,
    ensures
        first_a.name == first_b.name,
        first_a.party == first_b.party,
        first_a.hash == first_b.hash,
        rest_a == rest_b,
{
    let fields = seq![FIELD_MARK, FIELD_MARK];
    let records = seq![RECORD_MARK, RECORD_MARK];
    assert(field_separator() =~= fields);
    assert(record_separator() =~= records);
    let a2 = first_a.hash + records + rest_a;
    let b2 = first_b.hash + records + rest_b;
    let a1 = first_a.party + fields + a2;
    let b1 = first_b.party + fields + b2;
    assert(candidate_line(first_a) + rest_a =~= first_a.name + fields + a1);
    assert(candidate_line(first_b) + rest_b =~= first_b.name + fields + b1);
    lemma_cut_pair(first_a.name, a1, first_b.name, b1, FIELD_MARK);
    lemma_cut_pair(first_a.party, a2, first_b.party, b2, FIELD_MARK);
    lemma_cut_pair(first_a.hash, rest_a, first_b.hash, rest_b, RECORD_MARK);
}

/// Replies with the same bytes come from the same candidates and title.
proof fn lemma_reply_lossless(
    a: Seq<CandidateView>,
    title_a: Seq<u8>,
    b: Seq<CandidateView>,
    title_b: Seq<u8>,
)
    requires
        roster_mark_free(a),
        roster_mark_free(b),
        roster_lines(a) + (title_separator() + title_a) == roster_lines(b) + (title_separator()
            + title_b),
    ensures
        same_candidates(a, b),
        title_a == title_b,
    decreases a.len(),
{
    let tail_a = title_separator() + title_a;
    let tail_b = title_separator() + title_b;
    let reply_a = roster_lines(a) + tail_a;
    let reply_b = roster_lines(b) + tail_b;
    if a.len() == 0 || b.len() == 0 {
        if a.len() > 0 {
            lemma_line_start(a, tail_a);
            assert(reply_b =~= tail_b);
            assert(tail_b[0] == TITLE_MARK);
        } else if b.len() > 0 {
            lemma_line_start(b, tail_b);
            assert(reply_a =~= tail_a);
            assert(tail_a[0] == TITLE_MARK);
        } else {
            assert(reply_a =~= tail_a);
            assert(reply_b =~= tail_b);
            assert(title_a =~= tail_a.subrange(3, tail_a.len() as int));
            assert(title_b =~= tail_b.subrange(3, tail_b.len() as int));
        }
    } else {
        let rest_a = roster_lines(a.drop_first()) + tail_a;
        let rest_b = roster_lines(b.drop_first()) + tail_b;
        lemma_lines_front(a);
        lemma_lines_front(b);
        assert(reply_a =~= candidate_line(a[0]) + rest_a);
        assert(reply_b =~= candidate_line(b[0]) + rest_b);
        assert(mark_free(a[0].name) && mark_free(a[0].party) && mark_free(a[0].hash));
        assert(mark_free(b[0].name) && mark_free(b[0].party) && mark_free(b[0].hash));
        lemma_line_cut(a[0], rest_a, b[0], rest_b);
        let more_a = a.drop_first();
        let more_b = b.drop_first();
        assert forall|k: int| 0 <= k < more_a.len() implies mark_free(
            (#[trigger] more_a[k]).name,
        ) && mark_free(more_a[k].party) && mark_free(more_a[k].hash) by {
            assert(more_a[k] == a[k + 1]);
        }
        assert forall|k: int| 0 <= k < more_b.len() implies mark_free(
            (#[trigger] more_b[k]).name,
        ) && mark_free(more_b[k].party) && mark_free(more_b[k].hash) by {
            assert(more_b[k] == b[k + 1]);
        }
        lemma_reply_lossless(more_a, title_a, more_b, title_b);
        assert forall|k: int| 0 <= k < a.len() implies (#[trigger] a[k]).hash == b[k].hash
            && a[k].name == b[k].name && a[k].party == b[k].party by {
            if k > 0 {
                assert(a[k] == more_a[k - 1]);
                assert(b[k] == more_b[k - 1]);
            }
        }
    }
}

/// The roster reply is lossless. Two replies with the same bytes come from
/// rosters with the same names, parties and identifiers in the same order,
/// and from the same title, as long as no name, party or identifier holds a
/// separator byte. The title may hold any byte; the tallies are not part of
/// the reply.
pub proof fn law_roster_reply_lossless(
    a: Seq<CandidateView>,
    title_a: Seq<u8>,
    b: Seq<CandidateView>,
    title_b: Seq<u8>,
)
    requires
        roster_mark_free(a),
        roster_mark_free(b),
        encode_roster_spec(a, Some(title_a)) == encode_roster_spec(b, Some(title_b)),
    ensures
        same_candidates(a, b),
        title_a == title_b,
{
    lemma_reply_lossless(a, title_a, b, title_b);
}

} // verus!
