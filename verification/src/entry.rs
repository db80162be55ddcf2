use crate::codec::write_u32;
use crate::format::{
    digest_map, digest_records, distinct_names, entry_bytes, position_of, put, unpacked_all,
    DataEntryView, DigestView, Digests, PackedEntry,
};
use crate::lookup::HashLookupTable;
use crate::text::same_text;
use vstd::prelude::*;
use vstd::utf8::encode_utf8;

verus! {

/// One digest as an entry holds it.
#[derive(Debug, Clone)]
struct HashValue {
    name: String,
    value: Vec<u8>,
}

impl View for HashValue {
    type V = DigestView;

    closed spec fn view(&self) -> DigestView {
        DigestView { name: self.name@, value: self.value@ }
    }
}

/// One record of a catalogue: a plaintext and its digests, one for each name of a hash
/// algorithm.
#[derive(Debug, Clone)]
pub struct DataEntry {
    pub plain: String,
    hashes: Vec<HashValue>,
}

impl View for DataEntry {
    type V = DataEntryView;

    closed spec fn view(&self) -> DataEntryView {
        DataEntryView { plain: self.plain@, hashes: digest_map(self.pairs()) }
    }
}

/// Where the first digest of a name stands is a place among the digests, or their
/// number; no digest before it bears the name, and the one at it does.
pub proof fn lemma_position_of(pairs: Digests, name: Seq<char>)
    ensures
        0 <= position_of(pairs, name) <= pairs.len(),
        position_of(pairs, name) < pairs.len() ==> pairs[position_of(pairs, name)].name == name,
        forall|j: int| 0 <= j < position_of(pairs, name) ==> pairs[j].name != name,
    decreases pairs.len(),
{
    if pairs.len() > 0 && pairs[0].name != name {
        let rest = pairs.drop_first();
        lemma_position_of(rest, name);
        assert forall|j: int| 0 <= j < position_of(pairs, name) implies pairs[j].name != name by {
            if j > 0 {
                assert(pairs[j] == rest[j - 1]);
            }
        }
    }
}

/// A place before which no digest bears the name, and at which one does or the
/// digests end, is where the first digest of the name stands.
pub proof fn lemma_position_found(pairs: Digests, name: Seq<char>, at: int)
    requires
        0 <= at <= pairs.len(),
        forall|j: int| 0 <= j < at ==> pairs[j].name != name,
        at < pairs.len() ==> pairs[at].name == name,
    ensures
        position_of(pairs, name) == at,
{
    lemma_position_of(pairs, name);
    let found = position_of(pairs, name);
    if found < at {
        assert(pairs[found].name == name);
    } else if at < found {
        assert(pairs[at].name != name);
    }
}

/// A name has a digest in the map exactly where one of the digests bears it, and the
/// map gives the first such digest.
pub proof fn lemma_digest_map(pairs: Digests, name: Seq<char>)
    ensures
        digest_map(pairs).contains_key(name) <==> position_of(pairs, name) < pairs.len(),
        position_of(pairs, name) < pairs.len() ==> digest_map(pairs)[name] == pairs[position_of(
            pairs,
            name,
        )].value,
    decreases pairs.len(),
{
    if pairs.len() > 0 {
        let rest = pairs.drop_first();
        lemma_digest_map(rest, name);
        lemma_position_of(rest, name);
        if pairs[0].name != name && position_of(rest, name) < rest.len() {
            assert(pairs[position_of(rest, name) + 1] == rest[position_of(rest, name)]);
        }
    }
}

/// Putting a digest among the digests is inserting it into their map.
pub proof fn lemma_put_inserts(pairs: Digests, digest: DigestView)
    ensures
        digest_map(put(pairs, digest)) == digest_map(pairs).insert(digest.name, digest.value),
    decreases pairs.len(),
{
    let after = put(pairs, digest);
    if pairs.len() == 0 {
        assert(after.drop_first() =~= pairs);
        assert(digest_map(after) =~= digest_map(pairs).insert(digest.name, digest.value));
    } else {
        let rest = pairs.drop_first();
        lemma_position_of(rest, digest.name);
        if pairs[0].name == digest.name {
            assert(after.drop_first() =~= rest);
            assert(digest_map(after) =~= digest_map(pairs).insert(digest.name, digest.value));
        } else {
            lemma_put_inserts(rest, digest);
            assert(after.drop_first() =~= put(rest, digest));
            assert(after[0] == pairs[0]);
            assert(digest_map(after) =~= digest_map(pairs).insert(digest.name, digest.value));
        }
    }
}

/// Putting a digest among digests of distinct names leaves the names distinct.
pub proof fn lemma_put_keeps_distinct(pairs: Digests, digest: DigestView)
    requires
        distinct_names(pairs),
    ensures
        distinct_names(put(pairs, digest)),
{
    lemma_position_of(pairs, digest.name);
    let at = position_of(pairs, digest.name);
    let after = put(pairs, digest);
    assert forall|i: int, j: int| 0 <= i < j < after.len() implies after[i].name
        != after[j].name by {
        if at < pairs.len() {
            if i != at && j != at {
                assert(after[i] == pairs[i] && after[j] == pairs[j]);
            } else if i == at {
                assert(after[j] == pairs[j]);
                assert(pairs[at].name != pairs[j].name);
            } else {
                assert(after[i] == pairs[i]);
                assert(pairs[i].name != pairs[at].name);
            }
        } else {
            if j < pairs.len() {
                assert(after[i] == pairs[i] && after[j] == pairs[j]);
            } else {
                assert(after[i] == pairs[i]);
            }
        }
    }
}

/// What the entries say, one by one.
pub open spec fn entry_views(entries: Seq<DataEntry>) -> Seq<DataEntryView> {
    entries.map_values(|entry: DataEntry| entry@)
}

/// The entries as they are packed, one by one.
pub open spec fn packed(entries: Seq<DataEntry>) -> Seq<PackedEntry> {
    entries.map_values(|entry: DataEntry| PackedEntry { plain: entry@.plain, pairs: entry.pairs() })
}

/// Whether each of the entries holds digests of distinct names.
pub open spec fn all_wf(entries: Seq<DataEntry>) -> bool {
    forall|i: int| 0 <= i < entries.len() ==> (#[trigger] entries[i]).wf()
}

/// What entries say is what their packed forms say.
pub proof fn lemma_entry_views(entries: Seq<DataEntry>)
    ensures
        entry_views(entries) == unpacked_all(packed(entries)),
{
    assert forall|i: int| 0 <= i < entries.len() implies entry_views(entries)[i]
        == unpacked_all(packed(entries))[i] by {
        entries[i].lemma_hashes();
    }
    assert(entry_views(entries) =~= unpacked_all(packed(entries)));
}

impl DataEntry {
    /// The digests in the order in which the entry holds them.
    pub closed spec fn pairs(&self) -> Digests {
        self.hashes@.map_values(|hash: HashValue| hash@)
    }

    /// Whether no two digests of the entry bear one name. Every entry that this
    /// library hands out is of this kind.
    pub open spec fn wf(&self) -> bool {
        distinct_names(self.pairs())
    }

    /// The digests of an entry by name are those that it holds in order, the first of
    /// a name standing for the name.
    pub proof fn lemma_hashes(&self)
        ensures
            self@.hashes == digest_map(self.pairs()),
    {
    }

    /// An entry without digests.
    pub fn new(plain: String) -> (entry: Self)
        ensures
            entry.pairs() == Seq::<DigestView>::empty(),
            entry.wf(),
            entry@ == (DataEntryView { plain: plain@, hashes: Map::empty() }),
    {
        let entry = Self { hashes: Vec::new(), plain };
        assert(entry.pairs() =~= Seq::<DigestView>::empty());
        entry
    }

    /// The plaintext of the entry.
    pub fn plain(&self) -> (plain: &String)
        ensures
            plain@ == self@.plain,
    {
        &self.plain
    }

    /// Where the first digest of that name stands among those of the entry.
    fn find(&self, name: &String) -> (at: usize)
        ensures
            at == position_of(self.pairs(), name@),
            at <= self.hashes@.len(),
            self.hashes@.len() == self.pairs().len(),
    {
        let mut at: usize = 0;
        while at < self.hashes.len() && !same_text(&self.hashes[at].name, name)
            invariant
                at <= self.hashes@.len(),
                forall|j: int| 0 <= j < at ==> self.pairs()[j].name != name@,
            decreases self.hashes@.len() - at,
        {
            at = at + 1;
        }
        proof {
            lemma_position_found(self.pairs(), name@, at as int);
        }
        at
    }

    /// Gives the entry a digest under `name`, in the place of the one that it held
    /// under that name, if any.
    pub fn add_hash_value(&mut self, name: String, value: Vec<u8>)
        ensures
            final(self)@.plain == old(self)@.plain,
            final(self).pairs() == put(
                old(self).pairs(),
                DigestView { name: name@, value: value@ },
            ),
            final(self)@.hashes == old(self)@.hashes.insert(name@, value@),
            old(self).wf() ==> final(self).wf(),
    {
        let at = self.find(&name);
        let ghost digest = DigestView { name: name@, value: value@ };
        let ghost before = self.pairs();
        if at < self.hashes.len() {
            self.hashes.set(at, HashValue { name, value });
            assert(self.pairs() =~= before.update(at as int, digest));
        } else {
            self.hashes.push(HashValue { name, value });
            assert(self.pairs() =~= before.push(digest));
        }
        proof {
            lemma_put_inserts(before, digest);
            if distinct_names(before) {
                lemma_put_keeps_distinct(before, digest);
            }
        }
    }

    /// The digest that the entry holds under `name`.
    pub fn get_hash_value(&self, name: String) -> (found: Option<&Vec<u8>>)
        ensures
            match found {
                Some(value) => self@.hashes.contains_key(name@) && self@.hashes[name@] == value@,
                None => !self@.hashes.contains_key(name@),
            },
    {
        let at = self.find(&name);
        proof {
            lemma_digest_map(self.pairs(), name@);
        }
        if at < self.hashes.len() {
            Some(&self.hashes[at].value)
        } else {
            None
        }
    }

    /// The entry as it is packed into a data payload. A digest whose name the table
    /// does not resolve is left out.
    pub fn serialize(&self, lookup_table: &HashLookupTable) -> (out: Vec<u8>)
        ensures
            out@ == entry_bytes(
                encode_utf8(self@.plain),
                digest_records(self.pairs(), lookup_table@),
            ),
    {
        let pw_plain_raw = self.plain.as_str().as_bytes();
        let plain_length: u32 = #[verifier::truncate] (pw_plain_raw.len() as u32);
        let mut hash_data: Vec<u8> = Vec::new();
        let mut i: usize = 0;
        proof {
            assert(self.pairs().skip(0) =~= self.pairs());
        }
        while i < self.hashes.len()
            invariant
                i <= self.hashes@.len(),
                self.hashes@.len() == self.pairs().len(),
                digest_records(self.pairs(), lookup_table@) == hash_data@ + digest_records(
                    self.pairs().skip(i as int),
                    lookup_table@,
                ),
            decreases self.hashes@.len() - i,
        {
            let ghost so_far = hash_data@;
            let ghost rest = self.pairs().skip(i as int);
            match lookup_table.get_entry(&self.hashes[i].name) {
                Some((id, _)) => {
                    let mut id_raw = write_u32(*id);
                    hash_data.append(&mut id_raw);
                    hash_data.extend_from_slice(self.hashes[i].value.as_slice());
                },
                None => {},
            }
            proof {
                assert(rest[0] == self.pairs()[i as int]);
                assert(rest.drop_first() =~= self.pairs().skip(i + 1));
                assert(hash_data@ + digest_records(self.pairs().skip(i + 1), lookup_table@)
                    =~= so_far + digest_records(rest, lookup_table@));
            }
            i = i + 1;
        }
        let records_length: u32 = #[verifier::truncate] (hash_data.len() as u32);
        let entry_length: u32 = #[verifier::truncate] ((4u64 + plain_length as u64
            + records_length as u64) as u32);
        let mut serialized_data: Vec<u8> = Vec::new();
        let mut length_total_raw = write_u32(entry_length);
        serialized_data.append(&mut length_total_raw);
        let mut pw_length_raw = write_u32(plain_length);
        serialized_data.append(&mut pw_length_raw);
        serialized_data.extend_from_slice(pw_plain_raw);
        serialized_data.append(&mut hash_data);
        proof {
            assert(self.pairs().skip(self.pairs().len() as int) =~= Seq::<DigestView>::empty());
        }
        serialized_data
    }
}

} // verus!
