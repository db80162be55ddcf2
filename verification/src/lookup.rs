use crate::codec::write_u32;
use crate::format::{
    first_named, lookup_id, names, table_bytes, table_bytes_from, HashEntryView, TableView,
};
use crate::text::same_text;
use std::collections::HashMap;
use vstd::prelude::*;
use vstd::std_specs::hash::*;
use vstd::std_specs::iter::IteratorSpec;

verus! {

/// One hash algorithm of a lookup table: its id in the table, its name, and the length
/// in bytes of its digests.
#[derive(Debug, Clone)]
pub struct HashEntry {
    pub(crate) id: u32,
    pub(crate) output_length: u32,
    pub(crate) name: String,
}

impl View for HashEntry {
    type V = HashEntryView;

    closed spec fn view(&self) -> HashEntryView {
        HashEntryView { id: self.id, output_length: self.output_length, name: self.name@ }
    }
}

impl HashEntry {
    /// An entry that no table has given an id yet: it carries id 0.
    pub fn new(name: String, output_length: u32) -> (entry: Self)
        ensures
            entry@ == (HashEntryView { id: 0, output_length, name: name@ }),
    {
        Self { id: 0, name, output_length }
    }

    /// An entry under the id that a table or a payload gives it.
    pub(crate) fn with_id(id: u32, name: String, output_length: u32) -> (entry: Self)
        ensures
            entry@ == (HashEntryView { id, output_length, name: name@ }),
    {
        Self { id, name, output_length }
    }

    /// The entry under another id.
    pub(crate) fn renumbered(self, id: u32) -> (entry: Self)
        ensures
            entry@ == (HashEntryView { id, ..self@ }),
    {
        Self { id, name: self.name, output_length: self.output_length }
    }

    /// The id of the entry.
    pub fn id(&self) -> (id: u32)
        ensures
            id == self@.id,
    {
        self.id
    }

    /// The length in bytes of the digests of this algorithm.
    pub fn output_length(&self) -> (length: u32)
        ensures
            length == self@.output_length,
    {
        self.output_length
    }

    /// The name of the algorithm.
    pub fn name(&self) -> (name: &String)
        ensures
            name@ == self@.name,
    {
        &self.name
    }

    /// The record that carries this entry in a lookup-table payload.
    pub fn serialize(&self) -> (out: Vec<u8>)
        ensures
            out@ == self@.bytes(),
    {
        let mut serialized: Vec<u8> = Vec::new();
        let mut id_raw = write_u32(self.id);
        serialized.append(&mut id_raw);
        let mut output_length_raw = write_u32(self.output_length);
        serialized.append(&mut output_length_raw);
        let name_raw = self.name.as_str().as_bytes();
        let mut name_length_raw = write_u32(#[verifier::truncate] (name_raw.len() as u32));
        serialized.append(&mut name_length_raw);
        serialized.extend_from_slice(name_raw);
        serialized
    }
}

/// The hash algorithms of a container by id.
#[derive(Debug, Clone)]
pub struct HashLookupTable {
    pub entries: HashMap<u32, HashEntry>,
}

/// The table that a map of entries stands for.
pub open spec fn table_view(entries: Map<u32, HashEntry>) -> TableView {
    entries.map_values(|entry: HashEntry| entry@)
}

impl View for HashLookupTable {
    type V = TableView;

    open spec fn view(&self) -> TableView {
        table_view(self.entries@)
    }
}

/// Whether the ids stand in strictly ascending order.
pub open spec fn ascending(ids: Seq<u32>) -> bool {
    forall|i: int, j: int| 0 <= i < j < ids.len() ==> ids[i] < ids[j]
}

/// Puts `id` in its place among ascending ids that do not hold it yet.
fn insert_ascending(ids: &mut Vec<u32>, id: u32)
    requires
        ascending(old(ids)@),
        !old(ids)@.contains(id),
    ensures
        ascending(final(ids)@),
        forall|x: u32| final(ids)@.contains(x) <==> (old(ids)@.contains(x) || x == id),
{
    let mut at: usize = 0;
    while at < ids.len() && ids[at] < id
        invariant
            at <= ids.len(),
            ids@ == old(ids)@,
            forall|j: int| 0 <= j < at ==> ids@[j] < id,
        decreases ids.len() - at,
    {
        at = at + 1;
    }
    let ghost before = ids@;
    ids.insert(at, id);
    proof {
        let after = ids@;
        assert(after.len() == before.len() + 1);
        assert(forall|j: int| 0 <= j < at ==> after[j] == before[j]);
        assert(after[at as int] == id);
        assert(forall|j: int| at < j < after.len() ==> after[j] == before[j - 1]);
        assert forall|j: int| at <= j < before.len() implies id < before[j] by {
            assert(before.contains(before[at as int]));
            assert(before.contains(before[j]));
        }
        assert forall|x: u32| after.contains(x) <==> (before.contains(x) || x == id) by {
            if before.contains(x) {
                let j = choose|j: int| 0 <= j < before.len() && before[j] == x;
                if j < at {
                    assert(after[j] == x);
                } else {
                    assert(after[j + 1] == x);
                }
            }
            if x == id {
                assert(after[at as int] == x);
            }
            if after.contains(x) {
                let j = choose|j: int| 0 <= j < after.len() && after[j] == x;
                if j < at {
                    assert(before[j] == x);
                } else if j > at {
                    assert(before[j - 1] == x);
                }
            }
        }
    }
}

/// Where no key of `table` lies from `from` up to `to`, the records from `from` on
/// are those from `to` on.
proof fn lemma_table_bytes_gap(table: TableView, from: nat, to: nat)
    requires
        from <= to <= 0x1_0000_0000,
        forall|id: u32| from <= id < to ==> !table.contains_key(id),
    ensures
        table_bytes_from(table, from) == table_bytes_from(table, to),
    decreases to - from,
{
    if from < to {
        lemma_table_bytes_gap(table, from + 1, to);
        assert(!table.contains_key(from as u32));
        assert(Seq::<u8>::empty() + table_bytes_from(table, from + 1) =~= table_bytes_from(
            table,
            from + 1,
        ));
    }
}

/// What an iteration over the keys of a map yields are the keys of the map: each
/// is a key, and each key is among them.
proof fn lemma_keys_iterated(entries: &HashMap<u32, HashEntry>)
    ensures
        forall|j: int|
            0 <= j < spec_keys_iter(entries).remaining().len() ==> entries@.contains_key(
                *#[trigger] spec_keys_iter(entries).remaining()[j],
            ),
        forall|id: u32| #[trigger]
            entries@.contains_key(id) ==> exists|j: int|
                0 <= j < spec_keys_iter(entries).remaining().len() && *spec_keys_iter(
                    entries,
                ).remaining()[j] == id,
{
    broadcast use group_hash_axioms;

    let keys = spec_keys_iter(entries).remaining();
    assert forall|j: int| 0 <= j < keys.len() implies entries@.contains_key(
        *#[trigger] keys[j],
    ) by {
        assert(keys.unref()[j] == *keys[j]);
        assert(keys.unref().to_set().contains(keys.unref()[j]));
    }
    assert forall|id: u32| #[trigger] entries@.contains_key(id) implies exists|j: int|
        0 <= j < keys.len() && *keys[j] == id by {
        assert(keys.unref().to_set().contains(id));
        let j = choose|j: int| 0 <= j < keys.unref().len() && keys.unref()[j] == id;
        assert(*keys[j] == id);
    }
}

/// Whether a candidate stands and its key does not exceed `id`.
spec fn at_most(best: Option<(&u32, &HashEntry)>, id: u32) -> bool {
    match best {
        Some((key, _)) => *key <= id,
        None => false,
    }
}

impl HashLookupTable {
    /// A table of the given entries.
    pub fn new(entries: HashMap<u32, HashEntry>) -> (table: Self)
        ensures
            table.entries == entries,
    {
        Self { entries }
    }

    /// The keys of the table in ascending order.
    pub fn ids(&self) -> (ids: Vec<u32>)
        ensures
            ascending(ids@),
            forall|id: u32| ids@.contains(id) <==> self@.contains_key(id),
    {
        broadcast use group_hash_axioms;

        let mut ids: Vec<u32> = Vec::new();
        proof {
            lemma_keys_iterated(&self.entries);
        }
        for key in it: self.entries.keys()
            invariant
                ascending(ids@),
                it.seq().no_duplicates(),
                forall|j: int|
                    0 <= j < it.seq().len() ==> self.entries@.contains_key(*#[trigger] it.seq()[j]),
                forall|id: u32| #[trigger]
                    self.entries@.contains_key(id) ==> exists|j: int|
                        0 <= j < it.seq().len() && *it.seq()[j] == id,
                forall|id: u32|
                    ids@.contains(id) <==> exists|j: int|
                        0 <= j < it.index() && *it.seq()[j] == id,
        {
            let id = *key;
            assert(*it.seq()[it.index() as int] == id);
            assert(!ids@.contains(id));
            let ghost before = ids@;
            insert_ascending(&mut ids, id);
            assert forall|x: u32|
                ids@.contains(x) <==> exists|j: int|
                    0 <= j < it.index() + 1 && *it.seq()[j] == x by {
                if ids@.contains(x) {
                    if x == id {
                        assert(*it.seq()[it.index() as int] == x);
                    } else {
                        assert(before.contains(x));
                    }
                }
                if exists|j: int| 0 <= j < it.index() + 1 && *it.seq()[j] == x {
                    let j = choose|j: int| 0 <= j < it.index() + 1 && *it.seq()[j] == x;
                    if j < it.index() {
                        assert(before.contains(x));
                    }
                }
            }
        }
        ids
    }

    /// The entry that a name resolves to, with its key: of the entries that bear the
    /// name, the one with the least key.
    pub fn get_entry(&self, name: &String) -> (found: Option<(&u32, &HashEntry)>)
        ensures
            match found {
                Some((id, entry)) => lookup_id(self@, name@) == Some(*id)
                    && self.entries@.contains_key(*id) && self.entries@[*id] == *entry,
                None => lookup_id(self@, name@) is None,
            },
    {
        broadcast use group_hash_axioms;

        let mut best: Option<(&u32, &HashEntry)> = None;
        proof {
            lemma_keys_iterated(&self.entries);
        }
        for key in it: self.entries.keys()
            invariant
                forall|j: int|
                    0 <= j < it.seq().len() ==> self.entries@.contains_key(*#[trigger] it.seq()[j]),
                forall|id: u32| #[trigger]
                    self.entries@.contains_key(id) ==> exists|j: int|
                        0 <= j < it.seq().len() && *it.seq()[j] == id,
                match best {
                    Some((id, entry)) => names(self@, *id, name@) && self.entries@[*id] == *entry,
                    None => true,
                },
                forall|j: int|
                    0 <= j < it.index() && names(self@, *#[trigger] it.seq()[j], name@) ==> at_most(
                        best,
                        *it.seq()[j],
                    ),
        {
            assert(*it.seq()[it.index() as int] == *key);
            match self.entries.get(key) {
                Some(entry) => {
                    if same_text(&entry.name, name) {
                        let better = match best {
                            Some((id, _)) => *key < *id,
                            None => true,
                        };
                        if better {
                            best = Some((key, entry));
                        }
                    }
                },
                None => {},
            }
        }
        proof {
            match best {
                Some((id, entry)) => {
                    assert(first_named(self@, *id, name@));
                    let chosen = choose|id: u32| first_named(self@, id, name@);
                    assert(first_named(self@, chosen, name@));
                    assert(chosen == *id);
                },
                None => {
                    assert forall|id: u32| !first_named(self@, id, name@) by {
                        if names(self@, id, name@) {
                            assert(self.entries@.contains_key(id));
                        }
                    }
                },
            }
        }
        best
    }

    /// The payload of the chunk that carries the table: the records of all entries, in
    /// ascending order of key.
    pub fn serialize(&self) -> (out: Vec<u8>)
        ensures
            out@ == table_bytes(self@),
    {
        broadcast use group_hash_axioms;

        let ids = self.ids();
        let mut serialized_full: Vec<u8> = Vec::new();
        let ghost mut done: nat = 0;
        let mut i: usize = 0;
        while i < ids.len()
            invariant
                i <= ids.len(),
                ascending(ids@),
                forall|id: u32| ids@.contains(id) <==> self@.contains_key(id),
                done <= 0x1_0000_0000,
                i > 0 ==> done == ids@[i - 1] + 1,
                i == 0 ==> done == 0,
                table_bytes(self@) == serialized_full@ + table_bytes_from(self@, done),
            decreases ids.len() - i,
        {
            let id = ids[i];
            let ghost so_far = serialized_full@;
            proof {
                assert(ids@.contains(id));
                assert forall|other: u32| done <= other < id implies !self@.contains_key(other) by {
                    if self@.contains_key(other) {
                        assert(ids@.contains(other));
                        let j = choose|j: int| 0 <= j < ids@.len() && ids@[j] == other;
                        if j < i {
                            if j < i - 1 {
                                assert(ids@[j] < ids@[i - 1]);
                            }
                        } else if j > i {
                            assert(ids@[i as int] < ids@[j]);
                        }
                    }
                }
                lemma_table_bytes_gap(self@, done, id as nat);
            }
            match self.entries.get(&id) {
                Some(entry) => {
                    let mut record = entry.serialize();
                    serialized_full.append(&mut record);
                },
                None => {},
            }
            proof {
                assert(serialized_full@ + table_bytes_from(self@, (id + 1) as nat) =~= so_far
                    + table_bytes_from(self@, id as nat));
                done = (id + 1) as nat;
            }
            i = i + 1;
        }
        proof {
            assert forall|other: u32| done <= other < 0x1_0000_0000 implies !self@.contains_key(
                other,
            ) by {
                if self@.contains_key(other) {
                    assert(ids@.contains(other));
                    let j = choose|j: int| 0 <= j < ids@.len() && ids@[j] == other;
                    if j < i - 1 {
                        assert(ids@[j] < ids@[i - 1]);
                    }
                }
            }
            lemma_table_bytes_gap(self@, done, 0x1_0000_0000);
            assert(serialized_full@ + Seq::<u8>::empty() =~= serialized_full@);
        }
        serialized_full
    }
}

} // verus!
