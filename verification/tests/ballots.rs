use election_ledger::record::{
    bvn_isunique_in, cast_vote_on, fetch_candidates_of, fetch_time_of, find_candidate,
    get_votes_of,
};
use election_ledger::{Candidate, Encode, Entry, VoteOutcome};

fn bytes(text: &str) -> Vec<u8> {
    text.as_bytes().to_vec()
}

fn key(tag: &str) -> [u8; 32] {
    let mut id = [0u8; 32];
    id[..tag.len()].copy_from_slice(tag.as_bytes());
    id
}

fn tallies(store: &Encode, id: [u8; 32]) -> Vec<u64> {
    store
        .get_votes(id)
        .chunks(8)
        .map(|c| {
            let mut word = [0u8; 8];
            word.copy_from_slice(c);
            u64::from_le_bytes(word)
        })
        .collect()
}

fn two_way() -> Encode {
    let mut store = Encode::new();
    store.commence(key("E1"), bytes("Alice,Bob"), bytes("Red,Blue"), bytes(""), 1000, bytes(""));
    store
}

fn three_way() -> Encode {
    let mut store = Encode::new();
    store.commence(
        key("E1"),
        bytes("Alice,Bob,Carol"),
        bytes("Red,Blue,Green"),
        bytes("a1,b2,c3"),
        77,
        bytes("Council"),
    );
    store
}

#[test]
fn create_then_read_deadline_and_roster() {
    let store = two_way();
    assert_eq!(store.fetch_time(key("E1")), 1000);
    assert_eq!(store.fetch_candidates(key("E1")), bytes("Alice%%Red%%&&Bob%%Blue%%&&***"));
    let entry = store.find(&key("E1")).unwrap();
    let roster = entry.candidates();
    assert_eq!(roster.len(), 2);
    assert_eq!(roster[0].name, bytes("Alice"));
    assert_eq!(roster[0].party, bytes("Red"));
    assert_eq!(roster[1].name, bytes("Bob"));
    assert_eq!(roster[1].party, bytes("Blue"));
}

#[test]
fn vote_then_repeat_with_same_token() {
    let mut store = two_way();
    let alice = store.find(&key("E1")).unwrap().candidates()[0].hash.clone();
    store.cast_vote(key("E1"), alice.clone(), bytes("V1"));
    assert_eq!(
        store.get_votes(key("E1")),
        vec![1, 0, 0, 0, 0, 0, 0, 0, 0, 0, 0, 0, 0, 0, 0, 0]
    );
    assert_eq!(tallies(&store, key("E1")), vec![1, 0]);
    store.cast_vote(key("E1"), alice, bytes("V1"));
    assert_eq!(tallies(&store, key("E1")), vec![1, 0]);
    store.cast_vote(key("E1"), bytes("anyone"), bytes("V1"));
    assert_eq!(tallies(&store, key("E1")), vec![1, 0]);
}

#[test]
fn vote_then_repeat_with_supplied_identifiers() {
    let mut store = three_way();
    store.cast_vote(key("E1"), bytes("a1"), bytes("V1"));
    assert_eq!(tallies(&store, key("E1")), vec![1, 0, 0]);
    store.cast_vote(key("E1"), bytes("b2"), bytes("V1"));
    assert_eq!(tallies(&store, key("E1")), vec![1, 0, 0]);
    store.cast_vote(key("E1"), bytes("b2"), bytes("V2"));
    assert_eq!(tallies(&store, key("E1")), vec![1, 1, 0]);
}

#[test]
fn vote_in_election_never_created() {
    let mut store = Encode::new();
    assert_eq!(store.fetch_candidates(key("ghost")), bytes(""));
    store.cast_vote(key("ghost"), bytes("a1"), bytes("V1"));
    assert_eq!(store.fetch_candidates(key("ghost")), bytes("***"));
    assert_eq!(store.fetch_time(key("ghost")), 0);
    assert_eq!(store.get_votes(key("ghost")), Vec::<u8>::new());
    assert!(!store.bvn_isunique(key("ghost"), bytes("V1")));
    assert!(store.find(&key("ghost")).is_some());
    store.cast_vote(key("ghost"), bytes("a1"), bytes("V1"));
    assert!(store.bvn_isunique(key("ghost"), bytes("V1")));
    assert_eq!(store.fetch_candidates(key("ghost")), bytes("***"));
    assert_eq!(store.get_votes(key("ghost")), Vec::<u8>::new());
}

#[test]
fn missing_election_defaults() {
    let store = two_way();
    assert_eq!(store.fetch_time(key("E2")), 0);
    assert_eq!(store.fetch_candidates(key("E2")), Vec::<u8>::new());
    assert_eq!(store.get_votes(key("E2")), Vec::<u8>::new());
    assert!(!store.bvn_isunique(key("E2"), bytes("V1")));
    assert!(store.find(&key("E2")).is_none());
    let empty = Encode::new();
    assert_eq!(empty.fetch_time(key("E1")), 0);
    assert_eq!(empty.fetch_candidates(key("E1")), Vec::<u8>::new());
    assert_eq!(empty.get_votes(key("E1")), Vec::<u8>::new());
}

#[test]
fn roster_reply_carries_identifiers_and_title() {
    let store = three_way();
    assert_eq!(
        store.fetch_candidates(key("E1")),
        bytes("Alice%%Red%%a1&&Bob%%Blue%%b2&&Carol%%Green%%c3&&***Council")
    );
    assert_eq!(store.fetch_time(key("E1")), 77);
}

#[test]
fn roster_reply_does_not_change_with_votes() {
    let mut store = three_way();
    let before = store.fetch_candidates(key("E1"));
    store.cast_vote(key("E1"), bytes("a1"), bytes("V1"));
    assert_eq!(store.fetch_candidates(key("E1")), before);
}

#[test]
fn fresh_election_has_zero_tallies() {
    let store = three_way();
    assert_eq!(tallies(&store, key("E1")), vec![0, 0, 0]);
    assert_eq!(store.get_votes(key("E1")).len(), 24);
}

#[test]
fn repeated_token_changes_no_tally() {
    let mut store = three_way();
    store.cast_vote(key("E1"), bytes("c3"), bytes("T"));
    let after_first = tallies(&store, key("E1"));
    assert_eq!(after_first, vec![0, 0, 1]);
    for id in ["a1", "b2", "c3", "nobody", ""] {
        store.cast_vote(key("E1"), bytes(id), bytes("T"));
        assert_eq!(tallies(&store, key("E1")), after_first);
    }
}

#[test]
fn tally_sum_grows_by_accepted_votes() {
    let mut store = three_way();
    let calls = [
        ("a1", "V1"),
        ("b2", "V2"),
        ("a1", "V1"),
        ("zz", "V3"),
        ("c3", "V3"),
        ("a1", "V4"),
        ("b2", "V2"),
        ("c3", "V5"),
    ];
    for (id, token) in calls {
        store.cast_vote(key("E1"), bytes(id), bytes(token));
    }
    let now = tallies(&store, key("E1"));
    assert_eq!(now, vec![2, 1, 1]);
    assert_eq!(now.iter().sum::<u64>(), 4);
}

#[test]
fn every_token_passed_is_spent() {
    let mut store = three_way();
    assert!(!store.bvn_isunique(key("E1"), bytes("V1")));
    store.cast_vote(key("E1"), bytes("a1"), bytes("V1"));
    assert!(store.bvn_isunique(key("E1"), bytes("V1")));
    store.cast_vote(key("E1"), bytes("nobody"), bytes("V2"));
    assert!(store.bvn_isunique(key("E1"), bytes("V2")));
    assert!(store.bvn_isunique(key("E1"), bytes("V1")));
    assert!(!store.bvn_isunique(key("E1"), bytes("V3")));
    assert_eq!(tallies(&store, key("E1")), vec![1, 0, 0]);
}

#[test]
fn vote_for_unknown_candidate_burns_the_token() {
    let mut store = three_way();
    store.cast_vote(key("E1"), bytes("nobody"), bytes("V1"));
    assert_eq!(tallies(&store, key("E1")), vec![0, 0, 0]);
    store.cast_vote(key("E1"), bytes("a1"), bytes("V1"));
    assert_eq!(tallies(&store, key("E1")), vec![0, 0, 0]);
}

#[test]
fn first_of_duplicate_identifiers_gets_the_vote() {
    let mut store = Encode::new();
    store.commence(key("E1"), bytes("Alice,Bob,Carol"), bytes(""), bytes("x,y,y"), 5, bytes(""));
    store.cast_vote(key("E1"), bytes("y"), bytes("V1"));
    store.cast_vote(key("E1"), bytes("y"), bytes("V2"));
    assert_eq!(tallies(&store, key("E1")), vec![0, 2, 0]);
}

#[test]
fn elections_are_independent() {
    let mut store = three_way();
    store.commence(key("E2"), bytes("Dan"), bytes("Grey"), bytes("d4"), 9, bytes("Other"));
    store.cast_vote(key("E1"), bytes("a1"), bytes("V1"));
    assert_eq!(tallies(&store, key("E2")), vec![0]);
    assert!(!store.bvn_isunique(key("E2"), bytes("V1")));
    store.cast_vote(key("E2"), bytes("d4"), bytes("V1"));
    assert_eq!(tallies(&store, key("E2")), vec![1]);
    assert_eq!(tallies(&store, key("E1")), vec![1, 0, 0]);
    assert_eq!(store.fetch_time(key("E1")), 77);
    assert_eq!(store.fetch_time(key("E2")), 9);
}

#[test]
fn commence_overwrites_an_existing_election() {
    let mut store = three_way();
    store.cast_vote(key("E1"), bytes("a1"), bytes("V1"));
    store.commence(key("E1"), bytes("Zed"), bytes("Teal"), bytes("z9"), 3, bytes("Again"));
    assert_eq!(store.fetch_time(key("E1")), 3);
    assert_eq!(store.fetch_candidates(key("E1")), bytes("Zed%%Teal%%z9&&***Again"));
    assert_eq!(tallies(&store, key("E1")), vec![0]);
    assert!(!store.bvn_isunique(key("E1"), bytes("V1")));
}

#[test]
fn commence_with_empty_names_has_no_candidates() {
    let mut store = Encode::new();
    store.commence(key("E1"), bytes(""), bytes("Red"), bytes("a1"), 12, bytes("Void"));
    assert_eq!(store.fetch_candidates(key("E1")), bytes("***Void"));
    assert_eq!(store.get_votes(key("E1")), Vec::<u8>::new());
    assert_eq!(store.fetch_time(key("E1")), 12);
}

#[test]
fn keys_differ_in_any_byte() {
    let mut store = Encode::new();
    let mut a = [0u8; 32];
    let mut b = [0u8; 32];
    a[31] = 1;
    b[31] = 2;
    store.commence(a, bytes("Alice"), bytes(""), bytes(""), 1, bytes(""));
    store.commence(b, bytes("Bob"), bytes(""), bytes(""), 2, bytes(""));
    assert_eq!(store.fetch_time(a), 1);
    assert_eq!(store.fetch_time(b), 2);
    assert_eq!(store.fetch_time([0u8; 32]), 0);
}

#[test]
fn record_cast_vote_reports_the_outcome() {
    let mut entry =
        Entry::commence(&bytes("Alice,Bob"), &bytes("Red,Blue"), &bytes("a1,b2"), 10, bytes("T"));
    assert_eq!(entry.cast_vote(&bytes("b2"), bytes("V1")), VoteOutcome::Counted);
    assert_eq!(entry.cast_vote(&bytes("b2"), bytes("V1")), VoteOutcome::DuplicateToken);
    assert_eq!(entry.cast_vote(&bytes("zz"), bytes("V2")), VoteOutcome::NoSuchCandidate);
    assert_eq!(entry.cast_vote(&bytes("a1"), bytes("V2")), VoteOutcome::DuplicateToken);
    assert_eq!(entry.candidates()[0].votes, 0);
    assert_eq!(entry.candidates()[1].votes, 1);
    assert_eq!(entry.bvns(), &vec![bytes("V1"), bytes("V2")]);
    assert!(entry.bvn_isunique(&bytes("V1")));
    assert!(!entry.bvn_isunique(&bytes("V3")));
}

#[test]
fn record_getters_return_what_was_given() {
    let entry =
        Entry::commence(&bytes("Alice,Bob"), &bytes("Red,Blue"), &bytes("a1,b2"), 10, bytes("T"));
    assert_eq!(entry.time_frame(), 10);
    assert_eq!(entry.name(), &bytes("T"));
    assert_eq!(entry.candidates().len(), 2);
    assert_eq!(entry.bvns().len(), 0);
    assert_eq!(entry.fetch_candidates(), bytes("Alice%%Red%%a1&&Bob%%Blue%%b2&&***T"));
    assert_eq!(entry.get_votes(), vec![0u8; 16]);
}

#[test]
fn default_record_is_blank() {
    let entry = Entry::default();
    assert_eq!(entry.time_frame(), 0);
    assert_eq!(entry.name(), &bytes(""));
    assert_eq!(entry.candidates().len(), 0);
    assert_eq!(entry.bvns().len(), 0);
    assert_eq!(entry.fetch_candidates(), bytes("***"));
    assert_eq!(entry.get_votes(), Vec::<u8>::new());
}

#[test]
fn record_parts_round_trip() {
    let mut entry =
        Entry::commence(&bytes("Alice,Bob"), &bytes("Red,Blue"), &bytes("a1,b2"), 10, bytes("T"));
    entry.cast_vote(&bytes("a1"), bytes("V1"));
    entry.cast_vote(&bytes("zz"), bytes("V2"));
    let (name, time_frame, candidates, bvns) = entry.into_parts();
    assert_eq!(name, bytes("T"));
    assert_eq!(time_frame, 10);
    assert_eq!(candidates.len(), 2);
    assert_eq!(candidates[0].votes, 1);
    assert_eq!(bvns, vec![bytes("V1"), bytes("V2")]);
    let again = Entry::from_parts(name, time_frame, candidates, bvns).unwrap();
    assert_eq!(again.fetch_candidates(), bytes("Alice%%Red%%a1&&Bob%%Blue%%b2&&***T"));
    assert_eq!(again.get_votes(), vec![1, 0, 0, 0, 0, 0, 0, 0, 0, 0, 0, 0, 0, 0, 0, 0]);
    assert!(again.bvn_isunique(&bytes("V2")));
}

#[test]
fn from_parts_refuses_a_token_spent_twice() {
    let made = Entry::from_parts(bytes("T"), 1, Vec::new(), vec![bytes("V1"), bytes("V1")]);
    assert!(made.is_none());
}

#[test]
fn from_parts_refuses_more_votes_than_tokens() {
    let roster = vec![Candidate { hash: bytes("a1"), name: bytes("Alice"), party: bytes(""), votes: 2 }];
    assert!(Entry::from_parts(bytes("T"), 1, roster, vec![bytes("V1")]).is_none());
    let roster = vec![
        Candidate { hash: bytes("a1"), name: bytes("Alice"), party: bytes(""), votes: u64::MAX },
        Candidate { hash: bytes("b2"), name: bytes("Bob"), party: bytes(""), votes: u64::MAX },
    ];
    assert!(Entry::from_parts(bytes("T"), 1, roster, vec![bytes("V1")]).is_none());
}

#[test]
fn from_parts_accepts_votes_up_to_the_tokens() {
    let roster = vec![
        Candidate { hash: bytes("a1"), name: bytes("Alice"), party: bytes(""), votes: 1 },
        Candidate { hash: bytes("b2"), name: bytes("Bob"), party: bytes(""), votes: 1 },
    ];
    let made = Entry::from_parts(bytes("T"), 1, roster, vec![bytes("V1"), bytes("V2")]);
    assert!(made.is_some());
    assert!(Entry::from_parts(bytes(""), 0, Vec::new(), Vec::new()).is_some());
}

#[test]
fn find_candidate_returns_first_match_or_length() {
    let roster = vec![
        Candidate { hash: bytes("x"), name: bytes("A"), party: bytes(""), votes: 0 },
        Candidate { hash: bytes("y"), name: bytes("B"), party: bytes(""), votes: 0 },
        Candidate { hash: bytes("y"), name: bytes("C"), party: bytes(""), votes: 0 },
    ];
    assert_eq!(find_candidate(&roster, &bytes("x")), 0);
    assert_eq!(find_candidate(&roster, &bytes("y")), 1);
    assert_eq!(find_candidate(&roster, &bytes("z")), 3);
    assert_eq!(find_candidate(&Vec::new(), &bytes("x")), 0);
}

#[test]
fn lookup_answers_for_a_missing_election() {
    assert_eq!(fetch_time_of(None), 0);
    assert_eq!(fetch_candidates_of(None), Vec::<u8>::new());
    assert_eq!(get_votes_of(None), Vec::<u8>::new());
    assert!(!bvn_isunique_in(None, &bytes("V1")));
}

#[test]
fn lookup_answers_for_a_found_election() {
    let mut entry =
        Entry::commence(&bytes("Alice,Bob"), &bytes("Red,Blue"), &bytes("a1,b2"), 10, bytes("T"));
    entry.cast_vote(&bytes("b2"), bytes("V1"));
    assert_eq!(fetch_time_of(Some(&entry)), 10);
    assert_eq!(
        fetch_candidates_of(Some(&entry)),
        bytes("Alice%%Red%%a1&&Bob%%Blue%%b2&&***T")
    );
    assert_eq!(
        get_votes_of(Some(&entry)),
        vec![0, 0, 0, 0, 0, 0, 0, 0, 1, 0, 0, 0, 0, 0, 0, 0]
    );
    assert!(bvn_isunique_in(Some(&entry), &bytes("V1")));
    assert!(!bvn_isunique_in(Some(&entry), &bytes("V2")));
}

#[test]
fn cast_vote_on_missing_election_gives_the_blank_record() {
    let entry = cast_vote_on(None, &bytes("a1"), bytes("V1"));
    assert_eq!(entry.fetch_candidates(), bytes("***"));
    assert_eq!(entry.time_frame(), 0);
    assert_eq!(entry.bvns().len(), 0);
    assert_eq!(entry.candidates().len(), 0);
}

#[test]
fn cast_vote_on_found_election_casts_the_ballot() {
    let entry =
        Entry::commence(&bytes("Alice,Bob"), &bytes("Red,Blue"), &bytes("a1,b2"), 10, bytes("T"));
    let entry = cast_vote_on(Some(entry), &bytes("a1"), bytes("V1"));
    assert_eq!(entry.candidates()[0].votes, 1);
    assert_eq!(entry.candidates()[1].votes, 0);
    assert_eq!(entry.bvns(), &vec![bytes("V1")]);
    let entry = cast_vote_on(Some(entry), &bytes("b2"), bytes("V1"));
    assert_eq!(entry.candidates()[0].votes, 1);
    assert_eq!(entry.candidates()[1].votes, 0);
    assert_eq!(entry.bvns(), &vec![bytes("V1")]);
}

#[test]
fn default_candidate_is_empty() {
    let candidate = Candidate::default();
    assert_eq!(candidate.hash, bytes(""));
    assert_eq!(candidate.name, bytes(""));
    assert_eq!(candidate.party, bytes(""));
    assert_eq!(candidate.votes, 0);
}

#[test]
fn many_votes_for_one_candidate_carry_into_the_second_byte() {
    let mut store = three_way();
    for n in 0..300u32 {
        store.cast_vote(key("E1"), bytes("b2"), n.to_le_bytes().to_vec());
    }
    assert_eq!(tallies(&store, key("E1")), vec![0, 300, 0]);
    assert_eq!(store.get_votes(key("E1"))[8..16], [44, 1, 0, 0, 0, 0, 0, 0]);
}
