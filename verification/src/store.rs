//! The election store: every election's record under its identifier.

use crate::bytes::same_key;
use crate::record::{
    bvn_isunique_in, cast_or_blank, deadline_or_zero, fetch_candidates_of, fetch_time_of,
    found_view, get_votes_of, roster_or_empty, spent_or_false, tallies_or_empty, Entry, EntryView,
};
use vstd::prelude::*;

verus! {

/// The mathematical value of a store: the records by election identifier.
pub type Elections = Map<Seq<u8>, EntryView>;

/// The store after an election is created under `id`: whatever stood there
/// is replaced.
pub open spec fn commence_spec(
    store: Elections,
    id: Seq<u8>,
    names: Seq<u8>,
    parties: Seq<u8>,
    hashes: Seq<u8>,
    time_frame: u64,
    name: Seq<u8>,
) -> Elections {
    store.insert(id, EntryView::commence(names, parties, hashes, time_frame, name))
}

/// The record of election `id`, if it exists.
pub open spec fn lookup(store: Elections, id: Seq<u8>) -> Option<EntryView> {
    if store.contains_key(id) {
        Some(store[id])
    } else {
        None
    }
}

/// The store after a ballot in election `id` that names candidate `candidate`
/// and carries `token`. In an election that exists the ballot is cast on its
/// record. An election that does not exist gets the blank record, on which
/// the ballot leaves no trace.
pub open spec fn cast_vote_spec(
    store: Elections,
    id: Seq<u8>,
    candidate: Seq<u8>,
    token: Seq<u8>,
) -> Elections {
    store.insert(id, cast_or_blank(lookup(store, id), candidate, token))
}

/// The deadline of election `id`, or zero where it does not exist.
pub open spec fn fetch_time_spec(store: Elections, id: Seq<u8>) -> u64 {
    deadline_or_zero(lookup(store, id))
}

/// The roster reply of election `id`, or the empty buffer where it does not
/// exist.
pub open spec fn fetch_candidates_spec(store: Elections, id: Seq<u8>) -> Seq<u8> {
    roster_or_empty(lookup(store, id))
}

/// The tally reply of election `id`, or the empty buffer where it does not
/// exist.
pub open spec fn get_votes_spec(store: Elections, id: Seq<u8>) -> Seq<u8> {
    tallies_or_empty(lookup(store, id))
}

/// Whether `token` is spent in election `id`; false where it does not exist.
pub open spec fn bvn_isunique_spec(store: Elections, id: Seq<u8>, token: Seq<u8>) -> bool {
    spent_or_false(lookup(store, id), token)
}

/// One election's place in the store.
struct Slot {
    key: [u8; 32],
    entry: Entry,
}

/// The position of the first slot under `key`, or the number of slots where
/// there is none.
spec fn slot_of(slots: Seq<Slot>, key: Seq<u8>) -> int
    decreases slots.len(),
{
    if slots.len() == 0 || slots[0].key@ == key {
        0
    } else {
        1 + slot_of(slots.drop_first(), key)
    }
}

/// The records that a sequence of slots holds, by identifier.
spec fn slots_map(slots: Seq<Slot>) -> Elections {
    Map::new(
        |key: Seq<u8>| slot_of(slots, key) < slots.len(),
        |key: Seq<u8>| slots[slot_of(slots, key)].entry@,
    )
}

/// Whether no two slots have the same identifier and every record is valid.
spec fn slots_wf(slots: Seq<Slot>) -> bool {
    &&& forall|i: int, j: int|
        0 <= i < slots.len() && 0 <= j < slots.len() && i != j ==> slots[i].key@ != slots[j].key@
    &&& forall|i: int| 0 <= i < slots.len() ==> (#[trigger] slots[i]).entry.wf()
}

/// `slot_of` is a position or the number of slots; before it no slot is under
/// `key`, and at it, if it is a position, the slot is under `key`.
proof fn lemma_slot_of(slots: Seq<Slot>, key: Seq<u8>)
    ensures
        0 <= slot_of(slots, key) <= slots.len(),
        forall|j: int| 0 <= j < slot_of(slots, key) ==> slots[j].key@ != key,
        slot_of(slots, key) < slots.len() ==> slots[slot_of(slots, key)].key@ == key,
    decreases slots.len(),
{
    if slots.len() > 0 && slots[0].key@ != key {
        let rest = slots.drop_first();
        lemma_slot_of(rest, key);
        assert forall|j: int| 0 <= j < slot_of(slots, key) implies slots[j].key@ != key by {
            if j > 0 {
                assert(slots[j] == rest[j - 1]);
            }
        }
    }
}

/// A position `k` that no earlier slot's identifier matches, and that is the
/// end or holds `key`, is `slot_of`.
proof fn lemma_slot_of_is(slots: Seq<Slot>, key: Seq<u8>, k: int)
    requires
        0 <= k <= slots.len(),
        forall|j: int| 0 <= j < k ==> slots[j].key@ != key,
        k < slots.len() ==> slots[k].key@ == key,
    ensures
        slot_of(slots, key) == k,
{
    lemma_slot_of(slots, key);
}

/// A slot appended under an identifier that no slot has adds its record to
/// the map.
proof fn lemma_slots_push(slots: Seq<Slot>, slot: Slot)
    requires
        slot_of(slots, slot.key@) == slots.len(),
    ensures
        slots_map(slots.push(slot)) == slots_map(slots).insert(slot.key@, slot.entry@),
{
    let after = slots.push(slot);
    let goal = slots_map(slots).insert(slot.key@, slot.entry@);
    assert forall|key: Seq<u8>|
        #![trigger slots_map(after).dom().contains(key)]
        #![trigger goal.dom().contains(key)]
        slots_map(after).dom().contains(key) == goal.dom().contains(key) && (goal.dom().contains(
            key,
        ) ==> slots_map(after)[key] == goal[key]) by {
        lemma_slot_of(slots, key);
        if key == slot.key@ {
            lemma_slot_of_is(after, key, slots.len() as int);
        } else if slot_of(slots, key) < slots.len() {
            lemma_slot_of_is(after, key, slot_of(slots, key));
        } else {
            lemma_slot_of_is(after, key, after.len() as int);
        }
    }
}

/// A slot that takes the place of another under the same identifier puts its
/// record in the map.
proof fn lemma_slots_update(slots: Seq<Slot>, k: int, slot: Slot)
    requires
        0 <= k < slots.len(),
        slot_of(slots, slot.key@) == k,
        slots[k].key@ == slot.key@,
    ensures
        slots_map(slots.update(k, slot)) == slots_map(slots).insert(slot.key@, slot.entry@),
{
    let after = slots.update(k, slot);
    let goal = slots_map(slots).insert(slot.key@, slot.entry@);
    assert forall|key: Seq<u8>|
        #![trigger slots_map(after).dom().contains(key)]
        #![trigger goal.dom().contains(key)]
        slots_map(after).dom().contains(key) == goal.dom().contains(key) && (goal.dom().contains(
            key,
        ) ==> slots_map(after)[key] == goal[key]) by {
        lemma_slot_of(slots, key);
        lemma_slot_of_is(after, key, slot_of(slots, key));
    }
}

/// The election store.
pub struct Encode {
    entries: Vec<Slot>,
}

impl View for Encode {
    type V = Elections;

    closed spec fn view(&self) -> Elections {
        slots_map(self.entries@)
    }
}

impl Encode {
    /// Whether the store is well formed: it holds one record per identifier,
    /// and every record is valid.
    pub closed spec fn wf(&self) -> bool {
        slots_wf(self.entries@)
    }

    /// In a well-formed store every record is valid, and every identifier is
    /// 32 bytes long.
    pub proof fn lemma_records_valid(&self)
        requires
            self.wf(),
        ensures
            forall|id: Seq<u8>| #[trigger] self@.contains_key(id) ==> self@[id].valid() && id.len() == 32,
    {
        assert forall|id: Seq<u8>| #[trigger] self@.contains_key(id) implies self@[id].valid()
            && id.len() == 32 by {
            lemma_slot_of(self.entries@, id);
            let k = slot_of(self.entries@, id);
        }
    }

    /// An empty store.
    pub fn new() -> (store: Encode)
        ensures
            store.wf(),
            store@ == Map::<Seq<u8>, EntryView>::empty(),
    {
        let store = Encode { entries: Vec::new() };
        store
    }

    /// The position of the slot under `hash`, or the number of slots where
    /// the election does not exist.
    fn position(&self, hash: &[u8; 32]) -> (k: usize)
        ensures
            k == slot_of(self.entries@, hash@),
            k <= self.entries.len(),
            k < self.entries.len() <==> self@.contains_key(hash@),
    {
        let mut i: usize = 0;
        while i < self.entries.len()
            invariant
                i <= self.entries.len(),
                forall|j: int| 0 <= j < i ==> self.entries@[j].key@ != hash@,
            decreases self.entries.len() - i,
        {
            if same_key(&self.entries[i].key, hash) {
                proof {
                    lemma_slot_of_is(self.entries@, hash@, i as int);
                }
                return i;
            }
            i += 1;
        }
        proof {
            lemma_slot_of_is(self.entries@, hash@, i as int);
        }
        i
    }

    /// The record of election `hash`, if it exists.
    pub fn find(&self, hash: &[u8; 32]) -> (found: Option<&Entry>)
        requires
            self.wf(),
        ensures
            found_view(found) == lookup(self@, hash@),
            found matches Some(entry) ==> entry.wf(),
    {
        let k = self.position(hash);
        if k < self.entries.len() {
            Some(&self.entries[k].entry)
        } else {
            None
        }
    }

    /// Creates election `hash` with the roster that the three field lists
    /// describe, the deadline `time_frame`, the title `election_name` and no
    /// spent token. A record that stood under `hash` is replaced.
    pub fn commence(
        &mut self,
        hash: [u8; 32],
        names: Vec<u8>,
        parties: Vec<u8>,
        blake_hashes: Vec<u8>,
        time_frame: u64,
        election_name: Vec<u8>,
    )
        requires
            old(self).wf(),
        ensures
            final(self).wf(),
            final(self)@ == commence_spec(
                old(self)@,
                hash@,
                names@,
                parties@,
                blake_hashes@,
                time_frame,
                election_name@,
            ),
    {
        let entry = Entry::commence(&names, &parties, &blake_hashes, time_frame, election_name);
        self.put(hash, entry);
    }

    /// Puts `entry` under `hash`, in place of what stood there.
    fn put(&mut self, hash: [u8; 32], entry: Entry)
        requires
            old(self).wf(),
            entry.wf(),
        ensures
            final(self).wf(),
            final(self)@ == old(self)@.insert(hash@, entry@),
    {
        let k = self.position(&hash);
        let slot = Slot { key: hash, entry };
        proof {
            lemma_slot_of(self.entries@, hash@);
            if k < self.entries.len() {
                lemma_slots_update(self.entries@, k as int, slot);
            } else {
                lemma_slots_push(self.entries@, slot);
            }
        }
        if k < self.entries.len() {
            self.entries[k] = slot;
        } else {
            self.entries.push(slot);
        }
    }

    /// The roster reply of election `hash`: every candidate's name, party and
    /// identifier in roster order, then the title separator and the title.
    /// The empty buffer where the election does not exist.
    pub fn fetch_candidates(&self, hash: [u8; 32]) -> (reply: Vec<u8>)
        requires
            self.wf(),
        ensures
            reply@ == fetch_candidates_spec(self@, hash@),
            !self@.contains_key(hash@) ==> reply@.len() == 0,
    {
        fetch_candidates_of(self.find(&hash))
    }

    /// The deadline of election `hash`, or zero where it does not exist.
    pub fn fetch_time(&self, hash: [u8; 32]) -> (deadline: u64)
        requires
            self.wf(),
        ensures
            deadline == fetch_time_spec(self@, hash@),
            !self@.contains_key(hash@) ==> deadline == 0,
    {
        fetch_time_of(self.find(&hash))
    }

    /// Whether `bvn` is spent in election `hash`; false where the election
    /// does not exist.
    pub fn bvn_isunique(&self, hash: [u8; 32], bvn: Vec<u8>) -> (spent: bool)
        requires
            self.wf(),
        ensures
            spent == bvn_isunique_spec(self@, hash@, bvn@),
            !self@.contains_key(hash@) ==> !spent,
    {
        bvn_isunique_in(self.find(&hash), &bvn)
    }

    /// The tally reply of election `hash`: every candidate's tally in roster
    /// order, eight little-endian bytes each. The empty buffer where the
    /// election does not exist.
    pub fn get_votes(&self, hash: [u8; 32]) -> (reply: Vec<u8>)
        requires
            self.wf(),
        ensures
            reply@ == get_votes_spec(self@, hash@),
            !self@.contains_key(hash@) ==> reply@.len() == 0,
    {
        get_votes_of(self.find(&hash))
    }

    /// Casts one ballot in election `hash`, for the candidate whose
    /// identifier is `uniq_str`, with the voter token `bvn`. Where the
    /// election does not exist, the blank record is put under `hash` and the
    /// token is not spent.
    pub fn cast_vote(&mut self, hash: [u8; 32], uniq_str: Vec<u8>, bvn: Vec<u8>)
        requires
            old(self).wf(),
        ensures
            final(self).wf(),
            final(self)@ == cast_vote_spec(old(self)@, hash@, uniq_str@, bvn@),
            final(self)@.contains_key(hash@),
            old(self)@.contains_key(hash@) ==> final(self)@[hash@].is_spent(bvn@),
    {
        let k = self.position(&hash);
        if k < self.entries.len() {
            let ghost before = self.entries@;
            proof {
                lemma_slot_of(before, hash@);
            }
            self.entries[k].entry.cast_vote(&uniq_str, bvn);
            proof {
                let slot = self.entries@[k as int];
                lemma_slots_update(before, k as int, slot);
            }
        } else {
            self.put(hash, Entry::default());
        }
    }
}

} // verus!
