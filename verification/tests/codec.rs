use election_ledger::bytes::{all_distinct, holds_token, push_le_bytes, same_bytes, same_key};
use election_ledger::codec::{
    decode_roster, encode_roster, encode_tallies, entry_or_empty, split_fields,
};
use election_ledger::Candidate;

fn bytes(text: &str) -> Vec<u8> {
    text.as_bytes().to_vec()
}

fn rows(texts: &[&str]) -> Vec<Vec<u8>> {
    texts.iter().map(|t| t.as_bytes().to_vec()).collect()
}

fn candidate(hash: &str, name: &str, party: &str, votes: u64) -> Candidate {
    Candidate { hash: bytes(hash), name: bytes(name), party: bytes(party), votes }
}

#[test]
fn split_of_empty_buffer_lists_nothing() {
    assert_eq!(split_fields(&bytes("")), Vec::<Vec<u8>>::new());
}

#[test]
fn split_of_plain_text_is_one_entry() {
    assert_eq!(split_fields(&bytes("Alice")), rows(&["Alice"]));
}

#[test]
fn split_keeps_order_and_empty_entries() {
    assert_eq!(split_fields(&bytes("Alice,Bob")), rows(&["Alice", "Bob"]));
    assert_eq!(split_fields(&bytes("a,,b")), rows(&["a", "", "b"]));
    assert_eq!(split_fields(&bytes("a,")), rows(&["a", ""]));
    assert_eq!(split_fields(&bytes(",a")), rows(&["", "a"]));
    assert_eq!(split_fields(&bytes(",")), rows(&["", ""]));
    assert_eq!(split_fields(&bytes(",,")), rows(&["", "", ""]));
}

#[test]
fn split_agrees_with_slice_split_on_nonempty_buffers() {
    for text in ["x", "a,b,c", ",", "a,,", ",,b", "no commas here", "1,22,333,4444"] {
        let buffer = bytes(text);
        let expected: Vec<Vec<u8>> = buffer.split(|&c| c == b',').map(|t| t.to_vec()).collect();
        assert_eq!(split_fields(&buffer), expected);
    }
}

#[test]
fn entry_or_empty_pads_past_the_end() {
    let list = rows(&["Red", "Blue"]);
    assert_eq!(entry_or_empty(&list, 0), bytes("Red"));
    assert_eq!(entry_or_empty(&list, 1), bytes("Blue"));
    assert_eq!(entry_or_empty(&list, 2), bytes(""));
    assert_eq!(entry_or_empty(&Vec::new(), 0), bytes(""));
}

#[test]
fn decode_aligns_fields_by_position() {
    let roster = decode_roster(&bytes("Alice,Bob"), &bytes("Red,Blue"), &bytes("a1,b2"));
    assert_eq!(roster.len(), 2);
    assert_eq!(roster[0].name, bytes("Alice"));
    assert_eq!(roster[0].party, bytes("Red"));
    assert_eq!(roster[0].hash, bytes("a1"));
    assert_eq!(roster[0].votes, 0);
    assert_eq!(roster[1].name, bytes("Bob"));
    assert_eq!(roster[1].party, bytes("Blue"));
    assert_eq!(roster[1].hash, bytes("b2"));
    assert_eq!(roster[1].votes, 0);
}

#[test]
fn decode_of_empty_names_is_empty_roster() {
    let roster = decode_roster(&bytes(""), &bytes("Red,Blue"), &bytes("a1"));
    assert_eq!(roster.len(), 0);
}

#[test]
fn decode_pads_short_fields_with_empty_values() {
    let roster = decode_roster(&bytes("Alice,Bob,Carol"), &bytes("Red"), &bytes(""));
    assert_eq!(roster.len(), 3);
    assert_eq!(roster[0].party, bytes("Red"));
    assert_eq!(roster[1].party, bytes(""));
    assert_eq!(roster[2].party, bytes(""));
    assert_eq!(roster[0].hash, bytes(""));
    assert_eq!(roster[1].hash, bytes(""));
    assert_eq!(roster[2].hash, bytes(""));
    assert_eq!(roster[2].name, bytes("Carol"));
}

#[test]
fn decode_ignores_fields_beyond_the_names() {
    let roster = decode_roster(&bytes("Alice"), &bytes("Red,Blue,Green"), &bytes("a1,b2"));
    assert_eq!(roster.len(), 1);
    assert_eq!(roster[0].party, bytes("Red"));
    assert_eq!(roster[0].hash, bytes("a1"));
}

#[test]
fn decode_with_embedded_comma_shifts_alignment() {
    let roster = decode_roster(&bytes("Smith, John,Bob"), &bytes("Red,Blue"), &bytes(""));
    assert_eq!(roster.len(), 3);
    assert_eq!(roster[0].name, bytes("Smith"));
    assert_eq!(roster[1].name, bytes(" John"));
    assert_eq!(roster[1].party, bytes("Blue"));
    assert_eq!(roster[2].name, bytes("Bob"));
    assert_eq!(roster[2].party, bytes(""));
}

#[test]
fn encode_lays_out_fields_and_separators() {
    let roster = vec![candidate("a1", "Alice", "Red", 7), candidate("b2", "Bob", "Blue", 0)];
    let title = bytes("Board");
    assert_eq!(
        encode_roster(&roster, Some(&title)),
        bytes("Alice%%Red%%a1&&Bob%%Blue%%b2&&***Board")
    );
}

#[test]
fn encode_without_title_has_no_trailer() {
    let roster = vec![candidate("a1", "Alice", "Red", 0)];
    assert_eq!(encode_roster(&roster, None), bytes("Alice%%Red%%a1&&"));
    assert_eq!(encode_roster(&Vec::new(), None), bytes(""));
}

#[test]
fn encode_with_empty_title_keeps_the_separator() {
    let title = bytes("");
    assert_eq!(encode_roster(&Vec::new(), Some(&title)), bytes("***"));
}

#[test]
fn encode_uses_the_documented_separator_bytes() {
    let roster = vec![candidate("", "", "", 0)];
    let title = bytes("");
    assert_eq!(
        encode_roster(&roster, Some(&title)),
        vec![0x25, 0x25, 0x25, 0x25, 0x26, 0x26, 0x2A, 0x2A, 0x2A]
    );
}

#[test]
fn decode_then_encode_reproduces_the_fields() {
    let roster = decode_roster(&bytes("Alice,Bob,Carol"), &bytes("Red,Blue,Green"), &bytes("1,2,3"));
    let title = bytes("Council");
    assert_eq!(
        encode_roster(&roster, Some(&title)),
        bytes("Alice%%Red%%1&&Bob%%Blue%%2&&Carol%%Green%%3&&***Council")
    );
}

#[test]
fn decode_then_encode_with_short_party_list() {
    let roster = decode_roster(&bytes("Alice,Bob"), &bytes("Red"), &bytes("1,2"));
    assert_eq!(encode_roster(&roster, None), bytes("Alice%%Red%%1&&Bob%%%%2&&"));
}

#[test]
fn single_empty_name_is_not_reproduced() {
    let roster = decode_roster(&bytes(""), &bytes("Red"), &bytes("1"));
    assert_eq!(encode_roster(&roster, None), bytes(""));
}

#[test]
fn tallies_are_eight_little_endian_bytes_each() {
    let roster = vec![candidate("a", "A", "", 1), candidate("b", "B", "", 0), candidate("c", "C", "", 258)];
    assert_eq!(
        encode_tallies(&roster),
        vec![1, 0, 0, 0, 0, 0, 0, 0, 0, 0, 0, 0, 0, 0, 0, 0, 2, 1, 0, 0, 0, 0, 0, 0]
    );
    assert_eq!(encode_tallies(&Vec::new()), Vec::<u8>::new());
}

#[test]
fn push_le_bytes_agrees_with_to_le_bytes() {
    for value in [0u64, 1, 255, 256, 258, 65_535, 0x0102_0304_0506_0708, u64::MAX] {
        let mut out = vec![9u8];
        push_le_bytes(&mut out, value);
        let mut expected = vec![9u8];
        expected.extend(value.to_le_bytes());
        assert_eq!(out, expected);
    }
}

#[test]
fn push_le_bytes_exact_value() {
    let mut out = Vec::new();
    push_le_bytes(&mut out, 0x0102_0304_0506_0708);
    assert_eq!(out, vec![8, 7, 6, 5, 4, 3, 2, 1]);
}

#[test]
fn same_bytes_compares_contents() {
    assert!(same_bytes(&bytes("abc"), &bytes("abc")));
    assert!(!same_bytes(&bytes("abc"), &bytes("abd")));
    assert!(!same_bytes(&bytes("abc"), &bytes("ab")));
    assert!(same_bytes(&bytes(""), &bytes("")));
}

#[test]
fn same_key_compares_all_32_bytes() {
    let a = [7u8; 32];
    let mut b = [7u8; 32];
    assert!(same_key(&a, &b));
    b[31] = 8;
    assert!(!same_key(&a, &b));
    b[31] = 7;
    b[0] = 0;
    assert!(!same_key(&a, &b));
}

#[test]
fn holds_token_finds_members_only() {
    let tokens = rows(&["V1", "V2", ""]);
    assert!(holds_token(&tokens, &bytes("V1")));
    assert!(holds_token(&tokens, &bytes("V2")));
    assert!(holds_token(&tokens, &bytes("")));
    assert!(!holds_token(&tokens, &bytes("V3")));
    assert!(!holds_token(&Vec::new(), &bytes("V1")));
}

#[test]
fn all_distinct_detects_repeats() {
    assert!(all_distinct(&rows(&[])));
    assert!(all_distinct(&rows(&["V1"])));
    assert!(all_distinct(&rows(&["V1", "V2", "V3"])));
    assert!(!all_distinct(&rows(&["V1", "V2", "V1"])));
    assert!(!all_distinct(&rows(&["V1", "V1"])));
    assert!(!all_distinct(&rows(&["a", "b", "c", "c"])));
}
