use crate::checksum::crc32_ieee;
use crate::codec::{
    be_u32, lemma_be_lengths, lemma_be_u32_of_u32_be, lemma_be_u64_of_u64_be, u32_be, u64_be,
};
use crate::error::BdfError;
use crate::entry::{
    entry_views, lemma_digest_map, lemma_entry_views, lemma_position_of, packed, DataEntry,
};
use crate::format::{
    chunk_count_for, data_chunk, digest_map, digest_records, distinct_names, encodes,
    entries_bytes, entry_bytes, expect_chunk, first_named, handed_out, head_bytes, keyed_by_id,
    known_name, lookup_id, magic, meta_chunk, missing, no_method, open_meta, open_table,
    parse_chunk, parse_digests, parse_entries, parse_entries_from, parse_meta, parse_table,
    position_of, table_bytes, table_bytes_from, table_chunk, unpack, unpacked, unpacked_all,
    with_payload, ChunkView, DataEntryView, DigestView, Digests, MetaChunkView, PackedEntry,
    TableView, DTBL_CHUNK_NAME, HTBL_CHUNK_NAME, LZMA, META_CHUNK_NAME,
};
use crate::lzma::xz_content;
use vstd::prelude::*;
use vstd::utf8::{
    encode_utf8, encode_utf8_decode_utf8, encode_utf8_valid_utf8, is_ascii_chars,
    is_ascii_chars_encode_utf8,
};

verus! {

/// The number of chunks that a description announces is the quotient of the number of
/// entries by the number of entries per chunk, rounded up: the least number of chunks
/// that hold all entries. This holds of every catalogue that is not empty, has room
/// in its chunks, and whose chunks 32 bits can count.
pub proof fn lemma_chunk_count_is_ceiling(entry_count: u64, per_chunk: u32)
    requires
        entry_count > 0,
        per_chunk > 0,
        (entry_count - 1) / (per_chunk as int) + 1 <= u32::MAX,
    ensures
        (chunk_count_for(entry_count, per_chunk) - 1) * per_chunk < entry_count
            <= chunk_count_for(entry_count, per_chunk) * per_chunk,
{
    let n = entry_count as int - 1;
    let d = per_chunk as int;
    let q = n / d;
    vstd::arithmetic::div_mod::lemma_fundamental_div_mod(n, d);
    vstd::arithmetic::div_mod::lemma_mod_bound(n, d);
    assert(chunk_count_for(entry_count, per_chunk) == q + 1);
    assert(d * q + n % d == n);
    assert(q * d == d * q) by (nonlinear_arith);
    assert((q + 1) * d == q * d + d) by (nonlinear_arith);
}

/// The names of the chunks that the format knows are four bytes long each, and so is
/// the name of the compression method, which is not the empty slot.
pub proof fn lemma_names_are_four_bytes()
    ensures
        encode_utf8(META_CHUNK_NAME@).len() == 4,
        encode_utf8(HTBL_CHUNK_NAME@).len() == 4,
        encode_utf8(DTBL_CHUNK_NAME@).len() == 4,
        encode_utf8(LZMA@).len() == 4,
        encode_utf8(LZMA@) != no_method(),
        META_CHUNK_NAME@ != HTBL_CHUNK_NAME@,
        META_CHUNK_NAME@ != DTBL_CHUNK_NAME@,
        HTBL_CHUNK_NAME@ != DTBL_CHUNK_NAME@,
{
    reveal_strlit("META");
    reveal_strlit("HTBL");
    reveal_strlit("DTBL");
    reveal_strlit("lzma");
    assert(is_ascii_chars(META_CHUNK_NAME@));
    assert(is_ascii_chars(HTBL_CHUNK_NAME@));
    assert(is_ascii_chars(DTBL_CHUNK_NAME@));
    assert(is_ascii_chars(LZMA@));
    is_ascii_chars_encode_utf8(META_CHUNK_NAME@);
    is_ascii_chars_encode_utf8(HTBL_CHUNK_NAME@);
    is_ascii_chars_encode_utf8(DTBL_CHUNK_NAME@);
    is_ascii_chars_encode_utf8(LZMA@);
    assert(LZMA@[0] == 'l');
    assert(encode_utf8(LZMA@)[0] == 'l' as u8);
    assert(no_method()[0] == 0u8);
    assert(META_CHUNK_NAME@[0] != HTBL_CHUNK_NAME@[0]);
    assert(META_CHUNK_NAME@[0] != DTBL_CHUNK_NAME@[0]);
    assert(HTBL_CHUNK_NAME@[0] != DTBL_CHUNK_NAME@[0]);
}

/// A chunk that is serialized and parsed again comes back as it was, declared length
/// and checksum included, wherever in a container it lies. This holds of every chunk
/// whose name is four bytes long and whose declared length is that of its payload.
pub proof fn lemma_chunk_round_trip(chunk: ChunkView, before: Seq<u8>, after: Seq<u8>)
    requires
        encode_utf8(chunk.name).len() == 4,
        chunk.length == chunk.data.len(),
    ensures
        chunk.bytes().len() == 12 + chunk.data.len(),
        parse_chunk(before + chunk.bytes() + after, before.len() as int) == Ok::<
            (ChunkView, int),
            BdfError,
        >((chunk, (before.len() + chunk.bytes().len()) as int)),
{
    let data = before + chunk.bytes() + after;
    let at = before.len() as int;
    let name = encode_utf8(chunk.name);
    lemma_be_u32_of_u32_be(chunk.length);
    lemma_be_u32_of_u32_be(chunk.crc);
    encode_utf8_valid_utf8(chunk.name);
    encode_utf8_decode_utf8(chunk.name);
    assert(data.subrange(at, at + 4) =~= u32_be(chunk.length));
    assert(data.subrange(at + 4, at + 8) =~= name);
    assert(data.subrange(at + 8, at + 8 + chunk.length) =~= chunk.data);
    assert(data.subrange(at + 8 + chunk.length, at + 12 + chunk.length) =~= u32_be(chunk.crc));
}

/// A description that is serialized and parsed again comes back as it was. This holds
/// of every description whose compression method, if it names one, is four bytes
/// long and not four zero bytes.
pub proof fn lemma_meta_round_trip(meta: MetaChunkView)
    requires
        meta.compression_method matches Some(method) ==> encode_utf8(method).len() == 4
            && encode_utf8(method) != no_method(),
    ensures
        meta.bytes().len() == 20,
        parse_meta(meta.bytes()) == Ok::<MetaChunkView, BdfError>(meta),
{
    let data = meta.bytes();
    lemma_be_u32_of_u32_be(meta.chunk_count);
    lemma_be_u32_of_u32_be(meta.entries_per_chunk);
    lemma_be_u64_of_u64_be(meta.entry_count);
    assert(data.subrange(0, 4) =~= u32_be(meta.chunk_count));
    assert(data.subrange(4, 8) =~= u32_be(meta.entries_per_chunk));
    assert(data.subrange(8, 16) =~= u64_be(meta.entry_count));
    assert(data.subrange(16, 20) =~= meta.method_bytes());
    match meta.compression_method {
        Some(method) => {
            encode_utf8_valid_utf8(method);
            encode_utf8_decode_utf8(method);
        },
        None => {},
    }
}

/// A description that a writer makes comes back as it was: it names no compression
/// method, or `lzma`.
pub proof fn lemma_written_meta_round_trip(meta: MetaChunkView)
    requires
        meta.compression_method is None || meta.compression_method == Some(LZMA@),
    ensures
        meta.bytes().len() == 20,
        parse_meta(meta.bytes()) == Ok::<MetaChunkView, BdfError>(meta),
{
    lemma_names_are_four_bytes();
    lemma_meta_round_trip(meta);
}

/// Whatever a reader hands out for a chunk has the checksum that the chunk declares
/// in the container, and a payload that was compressed is handed out as the bytes
/// that it unpacks to. A compressed payload that was changed in the container is
/// therefore refused: by the codec, where the decoder rejects it, and by the
/// checksum, where it unpacks to bytes with another checksum. It is handed out only
/// where it unpacks to bytes that have the declared checksum.
pub proof fn lemma_handed_out_has_declared_crc(framed: ChunkView, compressed: bool)
    ensures
        handed_out(framed, compressed) matches Ok(chunk) ==> crc32_ieee(chunk.data) == framed.crc
            && chunk.crc == framed.crc && chunk.name == framed.name,
        compressed && framed.name == DTBL_CHUNK_NAME@ ==> match xz_content(framed.data) {
            Some(content) => handed_out(framed, compressed) == if crc32_ieee(content)
                == framed.crc {
                Ok::<ChunkView, BdfError>(with_payload(framed, content))
            } else {
                Err::<ChunkView, BdfError>(BdfError::CrcMismatch)
            },
            None => handed_out(framed, compressed) == Err::<ChunkView, BdfError>(
                BdfError::IoError,
            ),
        },
        !(compressed && framed.name == DTBL_CHUNK_NAME@) ==> (handed_out(framed, compressed)
            matches Ok(chunk) ==> chunk == framed),
{
    lemma_names_are_four_bytes();
}

/// A chunk whose payload is compressed and unpacked again comes back as it was,
/// payload, declared length and checksum: unpacking the chunk with any stream for
/// its payload that unpacks to the payload, as compression makes it, gives the
/// chunk. This holds of every chunk that declares the checksum and the length of its
/// payload.
pub proof fn lemma_compression_round_trip(chunk: ChunkView, stream: Seq<u8>)
    requires
        xz_content(stream) == Some(chunk.data),
        chunk.crc == crc32_ieee(chunk.data),
        chunk.length == chunk.data.len() as u32,
    ensures
        unpack(with_payload(chunk, stream)) == Ok::<ChunkView, BdfError>(chunk),
{
}

/// Whether every entry of the table carries the id under which the table holds it,
/// and a name whose length 32 bits can hold.
pub open spec fn table_wf(table: TableView) -> bool {
    &&& keyed_by_id(table)
    &&& forall|id: u32| #[trigger]
        table.contains_key(id) ==> encode_utf8(table[id].name).len() <= u32::MAX
}

/// The entries of the table whose key is `from` or more.
pub open spec fn table_from(table: TableView, from: nat) -> TableView {
    table.restrict(Set::new(|id: u32| from <= id))
}

/// The records of the entries from `from` on say what these entries are.
proof fn lemma_table_round_trip_from(table: TableView, from: nat)
    requires
        table_wf(table),
        from <= 0x1_0000_0000,
    ensures
        parse_table(table_bytes_from(table, from)) == Ok::<TableView, BdfError>(
            table_from(table, from),
        ),
    decreases 0x1_0000_0000 - from,
{
    let data = table_bytes_from(table, from);
    if from >= 0x1_0000_0000 {
        assert(table_from(table, from) =~= Map::empty());
    } else {
        lemma_table_round_trip_from(table, from + 1);
        let rest = table_bytes_from(table, from + 1);
        let later = table_from(table, from + 1);
        let id = from as u32;
        if table.contains_key(id) {
            let entry = table[id];
            let name = encode_utf8(entry.name);
            lemma_be_u32_of_u32_be(entry.id);
            lemma_be_u32_of_u32_be(entry.output_length);
            lemma_be_u32_of_u32_be(name.len() as u32);
            encode_utf8_valid_utf8(entry.name);
            encode_utf8_decode_utf8(entry.name);
            assert(data == entry.bytes() + rest);
            assert(data.subrange(0, 4) =~= u32_be(entry.id));
            assert(data.subrange(4, 8) =~= u32_be(entry.output_length));
            assert(data.subrange(8, 12) =~= u32_be(name.len() as u32));
            let n = name.len() as int;
            assert(data.subrange(12, 12 + n) =~= name);
            assert(data.skip(12 + n) =~= rest);
            assert(!later.contains_key(id));
            assert(later.insert(id, entry) =~= table_from(table, from));
        } else {
            assert(data =~= rest);
            assert(later =~= table_from(table, from));
        }
    }
}

/// A lookup table that is serialized and parsed again comes back as it was, entry by
/// entry. This holds of every table whose entries carry the ids under which the table
/// holds them, with names whose lengths 32 bits can hold.
pub proof fn lemma_table_round_trip(table: TableView)
    requires
        table_wf(table),
    ensures
        parse_table(table_bytes(table)) == Ok::<TableView, BdfError>(table),
{
    lemma_table_round_trip_from(table, 0);
    assert(table_from(table, 0) =~= table);
}

/// Whether the table resolves the digest's name to an algorithm whose digests have
/// the length of this one.
pub open spec fn resolves(table: TableView, digest: DigestView) -> bool {
    lookup_id(table, digest.name) matches Some(id) && table[id].output_length
        == digest.value.len()
}

/// Whether the entry can be packed against the table and found again: its digests
/// bear distinct names, the table resolves each to an algorithm of the digest's
/// length, and 32 bits can hold the length of the packed entry.
pub open spec fn packable(entry: PackedEntry, table: TableView) -> bool {
    &&& distinct_names(entry.pairs)
    &&& forall|i: int| 0 <= i < entry.pairs.len() ==> resolves(table, #[trigger] entry.pairs[i])
    &&& 4 + encode_utf8(entry.plain).len() + digest_records(entry.pairs, table).len() <= u32::MAX
}

/// The digests laid over `seen` one after the other, a later one in the place of an
/// earlier one of its name.
pub open spec fn laid_over(seen: Map<Seq<char>, Seq<u8>>, pairs: Digests) -> Map<
    Seq<char>,
    Seq<u8>,
>
    decreases pairs.len(),
{
    if pairs.len() == 0 {
        seen
    } else {
        laid_over(seen.insert(pairs[0].name, pairs[0].value), pairs.drop_first())
    }
}

/// The id that a name resolves to is a key of the table, and its entry bears the name.
pub proof fn lemma_lookup_id(table: TableView, name: Seq<char>)
    ensures
        lookup_id(table, name) matches Some(id) ==> first_named(table, id, name),
{
}

/// Digests of distinct names that are laid over others stand as their map says.
proof fn lemma_laid_over_distinct(seen: Map<Seq<char>, Seq<u8>>, pairs: Digests)
    requires
        distinct_names(pairs),
    ensures
        laid_over(seen, pairs) == seen.union_prefer_right(digest_map(pairs)),
    decreases pairs.len(),
{
    if pairs.len() == 0 {
        assert(seen.union_prefer_right(digest_map(pairs)) =~= seen);
    } else {
        let rest = pairs.drop_first();
        let first = pairs[0];
        assert forall|i: int, j: int| 0 <= i < j < rest.len() implies rest[i].name
            != rest[j].name by {
            assert(rest[i] == pairs[i + 1] && rest[j] == pairs[j + 1]);
        }
        lemma_laid_over_distinct(seen.insert(first.name, first.value), rest);
        lemma_digest_map(rest, first.name);
        lemma_position_of(rest, first.name);
        if position_of(rest, first.name) < rest.len() {
            assert(rest[position_of(rest, first.name)] == pairs[position_of(rest, first.name) + 1]);
        }
        assert(!digest_map(rest).contains_key(first.name));
        assert(seen.insert(first.name, first.value).union_prefer_right(digest_map(rest))
            =~= seen.union_prefer_right(digest_map(pairs)));
    }
}

/// The digest records of an entry, wherever in a payload they lie, are read back as
/// the digests that they were made of.
proof fn lemma_digests_read_back(
    data: Seq<u8>,
    at: int,
    pairs: Digests,
    table: TableView,
    seen: Map<Seq<char>, Seq<u8>>,
)
    requires
        0 <= at,
        at + digest_records(pairs, table).len() <= data.len(),
        data.subrange(at, at + digest_records(pairs, table).len()) == digest_records(pairs, table),
        forall|i: int| 0 <= i < pairs.len() ==> resolves(table, #[trigger] pairs[i]),
    ensures
        parse_digests(data, at, at + digest_records(pairs, table).len(), table, seen) == Ok::<
            (Map<Seq<char>, Seq<u8>>, int),
            BdfError,
        >((laid_over(seen, pairs), at + digest_records(pairs, table).len())),
    decreases pairs.len(),
{
    let records = digest_records(pairs, table);
    let end = at + records.len();
    if pairs.len() > 0 {
        let first = pairs[0];
        let rest = pairs.drop_first();
        assert(resolves(table, first));
        lemma_lookup_id(table, first.name);
        let id = lookup_id(table, first.name)->Some_0;
        let later = digest_records(rest, table);
        lemma_be_u32_of_u32_be(id);
        assert(records == u32_be(id) + first.value + later);
        let width = first.value.len() as int;
        assert(data.subrange(at, at + 4) =~= records.subrange(0, 4));
        assert(records.subrange(0, 4) =~= u32_be(id));
        assert(data.subrange(at + 4, at + 4 + width) =~= records.subrange(4, 4 + width));
        assert(records.subrange(4, 4 + width) =~= first.value);
        assert(data.subrange(at + 4 + width, at + 4 + width + later.len()) =~= records.subrange(
            4 + width,
            4 + width + later.len(),
        ));
        assert(records.subrange(4 + width, 4 + width + later.len()) =~= later);
        assert forall|i: int| 0 <= i < rest.len() implies resolves(table, #[trigger] rest[i]) by {
            assert(rest[i] == pairs[i + 1]);
        }
        lemma_digests_read_back(
            data,
            at + 4 + width,
            rest,
            table,
            seen.insert(first.name, first.value),
        );
    }
}

/// Where a packed entry lies at `at`, its fields lie where the layout says.
proof fn lemma_entry_fields(data: Seq<u8>, at: int, plain: Seq<u8>, records: Seq<u8>)
    requires
        0 <= at,
        at + entry_bytes(plain, records).len() <= data.len(),
        data.subrange(at, at + entry_bytes(plain, records).len()) == entry_bytes(plain, records),
        4 + plain.len() + records.len() <= u32::MAX,
    ensures
        entry_bytes(plain, records).len() == 8 + plain.len() + records.len(),
        be_u32(data.subrange(at, at + 4)) == 4 + plain.len() + records.len(),
        be_u32(data.subrange(at + 4, at + 8)) == plain.len(),
        data.subrange(at + 8, at + 8 + plain.len()) == plain,
        data.subrange(at + 8 + plain.len(), at + 8 + plain.len() + records.len()) == records,
{
    let packed = entry_bytes(plain, records);
    let p = plain.len() as int;
    let r = records.len() as int;
    let entry_length = (4 + p + r) as u32;
    assert((4 + (plain.len() as u32) + (records.len() as u32)) as u32 == entry_length);
    lemma_be_u32_of_u32_be(entry_length);
    lemma_be_u32_of_u32_be(plain.len() as u32);
    assert(packed.len() == 8 + p + r);
    assert(data.subrange(at, at + 4) =~= packed.subrange(0, 4));
    assert(packed.subrange(0, 4) =~= u32_be(entry_length));
    assert(data.subrange(at + 4, at + 8) =~= packed.subrange(4, 8));
    assert(packed.subrange(4, 8) =~= u32_be(plain.len() as u32));
    assert(data.subrange(at + 8, at + 8 + p) =~= packed.subrange(8, 8 + p));
    assert(packed.subrange(8, 8 + p) =~= plain);
    assert(data.subrange(at + 8 + p, at + 8 + p + r) =~= packed.subrange(8 + p, 8 + p + r));
    assert(packed.subrange(8 + p, 8 + p + r) =~= records);
}

/// Reading the entries of a payload from an entry whose fields lie where the layout
/// says, and whose digest records are read back as `hashes`, goes on behind that
/// entry with the entry among those that are done.
proof fn lemma_entry_step(
    data: Seq<u8>,
    at: int,
    table: TableView,
    done: Seq<DataEntryView>,
    plain: Seq<char>,
    records_length: int,
    hashes: Map<Seq<char>, Seq<u8>>,
)
    requires
        0 <= at,
        0 <= records_length,
        at + 8 + encode_utf8(plain).len() + records_length <= data.len(),
        be_u32(data.subrange(at, at + 4)) == 4 + encode_utf8(plain).len() + records_length,
        be_u32(data.subrange(at + 4, at + 8)) == encode_utf8(plain).len(),
        data.subrange(at + 8, at + 8 + encode_utf8(plain).len()) == encode_utf8(plain),
        parse_digests(
            data,
            at + 8 + encode_utf8(plain).len(),
            at + 8 + encode_utf8(plain).len() + records_length,
            table,
            Map::empty(),
        ) == Ok::<(Map<Seq<char>, Seq<u8>>, int), BdfError>(
            (hashes, at + 8 + encode_utf8(plain).len() + records_length),
        ),
    ensures
        parse_entries_from(data, at, table, done) == parse_entries_from(
            data,
            at + 8 + encode_utf8(plain).len() + records_length,
            table,
            done.push(DataEntryView { plain, hashes }),
        ),
{
    encode_utf8_valid_utf8(plain);
    encode_utf8_decode_utf8(plain);
}

/// The packed entries that end a payload are read back as what they say, behind the
/// entries that were read before them.
proof fn lemma_entries_read_back(
    data: Seq<u8>,
    at: int,
    entries: Seq<PackedEntry>,
    table: TableView,
    done: Seq<DataEntryView>,
)
    requires
        0 <= at <= data.len(),
        data.skip(at) == entries_bytes(entries, table),
        forall|i: int| 0 <= i < entries.len() ==> packable(#[trigger] entries[i], table),
    ensures
        parse_entries_from(data, at, table, done) == Ok::<Seq<DataEntryView>, BdfError>(
            done + unpacked_all(entries),
        ),
    decreases entries.len(),
{
    let views = unpacked_all(entries);
    if entries.len() == 0 {
        assert(done + views =~= done);
    } else {
        let first = entries[0];
        let rest = entries.drop_first();
        assert(packable(first, table));
        let plain = encode_utf8(first.plain);
        let records = digest_records(first.pairs, table);
        let packed = entry_bytes(plain, records);
        let later = entries_bytes(rest, table);
        let p = plain.len() as int;
        let r = records.len() as int;
        let start = at + 8 + p;
        let end = start + r;
        assert(data.skip(at) == packed + later);
        assert(packed.len() == 8 + p + r) by {
            lemma_be_lengths((4 + (plain.len() as u32) + (records.len() as u32)) as u32, 0);
            lemma_be_lengths(plain.len() as u32, 0);
        }
        assert(data.subrange(at, at + packed.len()) == packed) by {
            assert(data.subrange(at, at + packed.len()) =~= data.skip(at).subrange(
                0,
                packed.len() as int,
            ));
            assert((packed + later).subrange(0, packed.len() as int) =~= packed);
        }
        lemma_entry_fields(data, at, plain, records);
        lemma_digests_read_back(data, start, first.pairs, table, Map::empty());
        assert(laid_over(Map::empty(), first.pairs) == digest_map(first.pairs)) by {
            lemma_laid_over_distinct(Map::empty(), first.pairs);
            assert(Map::<Seq<char>, Seq<u8>>::empty().union_prefer_right(
                digest_map(first.pairs),
            ) =~= digest_map(first.pairs));
        }
        lemma_entry_step(data, at, table, done, first.plain, r, digest_map(first.pairs));
        assert(data.skip(end) == later) by {
            assert(data.skip(end) =~= data.skip(at).skip(packed.len() as int));
            assert((packed + later).skip(packed.len() as int) =~= later);
        }
        assert forall|i: int| 0 <= i < rest.len() implies packable(#[trigger] rest[i], table) by {
            assert(rest[i] == entries[i + 1]);
        }
        lemma_entries_read_back(data, end, rest, table, done.push(unpacked(first)));
        assert(done.push(unpacked(first)) + unpacked_all(rest)
            =~= done + views);
    }
}

/// The entries of a data payload that are packed and read again against one table
/// come back as what they said, in their order, the digests of each by name. This
/// holds of all entries that can be packed against the table.
pub proof fn lemma_entries_round_trip(entries: Seq<PackedEntry>, table: TableView)
    requires
        forall|i: int| 0 <= i < entries.len() ==> packable(#[trigger] entries[i], table),
    ensures
        parse_entries(entries_bytes(entries, table), table) == Ok::<
            Seq<DataEntryView>,
            BdfError,
        >(unpacked_all(entries)),
{
    let data = entries_bytes(entries, table);
    assert(data.skip(0) =~= data);
    lemma_entries_read_back(data, 0, entries, table, Seq::empty());
    assert(Seq::<DataEntryView>::empty() + unpacked_all(entries) =~= unpacked_all(entries));
}

/// The entries that go into a data chunk are what comes out of its payload: reading
/// the payload of the chunk of some entries against the table against which they
/// were packed gives what the entries say, in their order. This holds of all entries
/// that can be packed against the table.
pub proof fn lemma_data_chunk_round_trip(entries: Seq<DataEntry>, table: TableView)
    requires
        forall|i: int| 0 <= i < entries.len() ==> packable(#[trigger] packed(entries)[i], table),
    ensures
        parse_entries(data_chunk(packed(entries), table).data, table) == Ok::<
            Seq<DataEntryView>,
            BdfError,
        >(entry_views(entries)),
{
    lemma_entries_round_trip(packed(entries), table);
    lemma_entry_views(entries);
}

/// One entry that is packed and read again against one table comes back as what it
/// said: its plaintext, and its digests by name. This holds of every entry that can be
/// packed against the table.
pub proof fn lemma_entry_round_trip(entry: PackedEntry, table: TableView)
    requires
        packable(entry, table),
    ensures
        parse_entries(
            entry_bytes(encode_utf8(entry.plain), digest_records(entry.pairs, table)),
            table,
        ) == Ok::<Seq<DataEntryView>, BdfError>(seq![unpacked(entry)]),
{
    let entries = seq![entry];
    assert(entries.drop_first() =~= Seq::<PackedEntry>::empty());
    assert(entries_bytes(entries, table) =~= entry_bytes(
        encode_utf8(entry.plain),
        digest_records(entry.pairs, table),
    )) by {
        reveal_with_fuel(entries_bytes, 2);
    }
    lemma_entries_round_trip(entries, table);
    assert(unpacked_all(entries) =~= seq![unpacked(entry)]);
}

/// The pieces one after the other.
pub open spec fn joined(pieces: Seq<Seq<u8>>) -> Seq<u8>
    decreases pieces.len(),
{
    if pieces.len() == 0 {
        Seq::empty()
    } else {
        pieces[0] + joined(pieces.drop_first())
    }
}

/// A container: what opens it, and then its data chunks as the writer emitted them.
pub open spec fn container(meta: MetaChunkView, table: TableView, pieces: Seq<Seq<u8>>) -> Seq<
    u8,
> {
    head_bytes(meta, table) + joined(pieces)
}

/// Where the data chunk `i` of a container begins.
pub open spec fn chunk_start(
    meta: MetaChunkView,
    table: TableView,
    pieces: Seq<Seq<u8>>,
    i: int,
) -> int {
    (head_bytes(meta, table).len() + joined(pieces.take(i)).len()) as int
}

/// Joined pieces are the pieces before one of them, that one, and those behind it.
proof fn lemma_joined_split(pieces: Seq<Seq<u8>>, i: int)
    requires
        0 <= i < pieces.len(),
    ensures
        joined(pieces) == joined(pieces.take(i)) + pieces[i] + joined(pieces.skip(i + 1)),
        joined(pieces.take(i + 1)) == joined(pieces.take(i)) + pieces[i],
    decreases i,
{
    let rest = pieces.drop_first();
    if i == 0 {
        assert(pieces.take(0) =~= Seq::<Seq<u8>>::empty());
        assert(pieces.skip(1) =~= rest);
        assert(pieces.take(1).drop_first() =~= Seq::<Seq<u8>>::empty());
        assert(joined(pieces.take(1)) =~= pieces[0]) by {
            reveal_with_fuel(joined, 2);
        }
        assert(joined(pieces) =~= joined(pieces.take(i)) + pieces[i] + joined(pieces.skip(i + 1)));
        assert(joined(pieces.take(i + 1)) =~= joined(pieces.take(i)) + pieces[i]);
    } else {
        lemma_joined_split(rest, i - 1);
        assert(pieces.take(i).drop_first() =~= rest.take(i - 1));
        assert(pieces.take(i + 1).drop_first() =~= rest.take(i));
        assert(rest.skip(i) =~= pieces.skip(i + 1));
        assert(rest[i - 1] == pieces[i]);
        assert(joined(pieces.take(i)) == pieces[0] + joined(rest.take(i - 1)));
        assert(joined(pieces.take(i + 1)) == pieces[0] + joined(rest.take(i)));
        assert(joined(pieces) =~= joined(pieces.take(i)) + pieces[i] + joined(pieces.skip(i + 1)));
        assert(joined(pieces.take(i + 1)) =~= joined(pieces.take(i)) + pieces[i]);
    }
}

/// A chunk of the expected name and with the checksum of its payload, wherever in a
/// container it lies, is found as it is.
proof fn lemma_expected_chunk(chunk: ChunkView, before: Seq<u8>, after: Seq<u8>)
    requires
        encode_utf8(chunk.name).len() == 4,
        chunk.length == chunk.data.len(),
        chunk.crc == crc32_ieee(chunk.data),
    ensures
        expect_chunk(before + chunk.bytes() + after, before.len() as int, chunk.name) == Ok::<
            (ChunkView, int),
            BdfError,
        >((chunk, (before.len() + 12 + chunk.data.len()) as int)),
{
    lemma_chunk_round_trip(chunk, before, after);
}

/// A container that begins with the magic bytes and a meta chunk says of itself what
/// the payload of that chunk says.
proof fn lemma_open_meta(file: Seq<u8>, chunk: ChunkView, next: int, meta: MetaChunkView)
    requires
        file.len() >= 11,
        file.subrange(0, 11) == magic(),
        expect_chunk(file, 11, META_CHUNK_NAME@) == Ok::<(ChunkView, int), BdfError>(
            (chunk, next),
        ),
        parse_meta(chunk.data) == Ok::<MetaChunkView, BdfError>(meta),
        meta.compression_method is None || meta.compression_method == Some(LZMA@),
    ensures
        open_meta(file, 0) == Ok::<(MetaChunkView, int), BdfError>((meta, next)),
{
}

/// The bytes that follow the magic bytes do not change them.
proof fn lemma_magic_leads(rest: Seq<u8>)
    ensures
        magic().len() == 11,
        (magic() + rest).subrange(0, 11) == magic(),
{
    assert((magic() + rest).subrange(0, 11) =~= magic());
}

/// The description of a container is read back from what opens it.
proof fn lemma_meta_opens(meta: MetaChunkView, rest: Seq<u8>)
    requires
        meta.compression_method is None || meta.compression_method == Some(LZMA@),
    ensures
        meta_chunk(meta).bytes().len() == 32,
        open_meta(magic() + meta_chunk(meta).bytes() + rest, 0) == Ok::<
            (MetaChunkView, int),
            BdfError,
        >((meta, 43)),
{
    let chunk = meta_chunk(meta);
    let file = magic() + chunk.bytes() + rest;
    assert(encode_utf8(chunk.name).len() == 4) by {
        lemma_names_are_four_bytes();
    }
    assert(chunk.data.len() == 20 && parse_meta(chunk.data) == Ok::<MetaChunkView, BdfError>(
        meta,
    )) by {
        lemma_written_meta_round_trip(meta);
    }
    assert(expect_chunk(file, 11, META_CHUNK_NAME@) == Ok::<(ChunkView, int), BdfError>(
        (chunk, 43),
    )) by {
        lemma_magic_leads(rest);
        lemma_expected_chunk(chunk, magic(), rest);
    }
    assert(chunk.bytes().len() == 32) by {
        lemma_chunk_round_trip(chunk, magic(), rest);
    }
    assert(file.subrange(0, 11) == magic() && file.len() >= 11) by {
        lemma_magic_leads(chunk.bytes() + rest);
        assert(file =~= magic() + (chunk.bytes() + rest));
    }
    lemma_open_meta(file, chunk, 43, meta);
}

/// The lookup table of a container is read back from its chunk.
proof fn lemma_table_opens(table: TableView, before: Seq<u8>, rest: Seq<u8>)
    requires
        table_wf(table),
        table_bytes(table).len() <= u32::MAX,
    ensures
        table_chunk(table).bytes().len() == 12 + table_bytes(table).len(),
        open_table(before + table_chunk(table).bytes() + rest, before.len() as int) == Ok::<
            (TableView, int),
            BdfError,
        >((table, (before.len() + 12 + table_bytes(table).len()) as int)),
{
    let chunk = table_chunk(table);
    let file = before + chunk.bytes() + rest;
    assert(encode_utf8(chunk.name).len() == 4) by {
        lemma_names_are_four_bytes();
    }
    assert(parse_table(chunk.data) == Ok::<TableView, BdfError>(table)) by {
        lemma_table_round_trip(table);
    }
    assert(expect_chunk(file, before.len() as int, HTBL_CHUNK_NAME@) == Ok::<
        (ChunkView, int),
        BdfError,
    >((chunk, (before.len() + 12 + chunk.data.len()) as int))) by {
        lemma_expected_chunk(chunk, before, rest);
    }
    assert(chunk.bytes().len() == 12 + chunk.data.len()) by {
        lemma_chunk_round_trip(chunk, before, rest);
    }
}

/// What opens a container is read back as the description and the lookup table that
/// the writer held, whatever follows. This holds of every description that names no
/// compression method or `lzma`, and of every table whose entries carry their ids and
/// whose payload 32 bits can measure.
pub proof fn lemma_head_reads_back(meta: MetaChunkView, table: TableView, rest: Seq<u8>)
    requires
        meta.compression_method is None || meta.compression_method == Some(LZMA@),
        table_wf(table),
        table_bytes(table).len() <= u32::MAX,
    ensures
        head_bytes(meta, table).len() == 55 + table_bytes(table).len(),
        open_meta(head_bytes(meta, table) + rest, 0) == Ok::<(MetaChunkView, int), BdfError>(
            (meta, 43),
        ),
        open_table(head_bytes(meta, table) + rest, 43) == Ok::<(TableView, int), BdfError>(
            (table, head_bytes(meta, table).len() as int),
        ),
{
    let file = head_bytes(meta, table) + rest;
    let first = meta_chunk(meta).bytes();
    let second = table_chunk(table).bytes();
    lemma_meta_opens(meta, second + rest);
    lemma_table_opens(table, magic() + first, rest);
    assert(file =~= magic() + first + (second + rest));
    assert(file =~= (magic() + first) + second + rest);
}

/// A data chunk that a writer emitted, wherever in a container it lies, is found by
/// the framing, and what a reader hands out for it holds the entries that went into
/// it, in their order. This holds of all entries that can be packed against the
/// table, in a piece whose payload 32 bits can measure.
pub proof fn lemma_data_chunk_reads_back(
    before: Seq<u8>,
    piece: Seq<u8>,
    after: Seq<u8>,
    entries: Seq<PackedEntry>,
    table: TableView,
    compressed: bool,
)
    requires
        encodes(piece, data_chunk(entries, table), compressed),
        piece.len() <= 12 + u32::MAX,
        forall|i: int| 0 <= i < entries.len() ==> packable(#[trigger] entries[i], table),
    ensures
        parse_chunk(before + piece + after, before.len() as int) matches Ok(framed) && framed.1
            == before.len() + piece.len() && (handed_out(framed.0, compressed) matches Ok(chunk)
            && parse_entries(chunk.data, table) == Ok::<Seq<DataEntryView>, BdfError>(
            unpacked_all(entries),
        )),
{
    let plain = data_chunk(entries, table);
    let file = before + piece + after;
    assert(encode_utf8(plain.name).len() == 4 && known_name(plain.name)) by {
        lemma_names_are_four_bytes();
    }
    lemma_entries_round_trip(entries, table);
    if compressed {
        let stream = choose|stream: Seq<u8>| #[trigger]
            xz_content(stream) == Some(plain.data) && piece == with_payload(
                plain,
                stream,
            ).bytes();
        let framed = with_payload(plain, stream);
        assert(piece == framed.bytes());
        assert(stream.len() <= u32::MAX) by {
            lemma_be_lengths(framed.length, 0);
            lemma_be_lengths(framed.crc, 0);
        }
        lemma_chunk_round_trip(framed, before, after);
        assert(unpack(framed) matches Ok(chunk) && chunk.data == plain.data);
    } else {
        assert(piece == plain.bytes());
        assert(plain.data.len() <= u32::MAX) by {
            lemma_be_lengths(plain.length, 0);
            lemma_be_lengths(plain.crc, 0);
        }
        lemma_chunk_round_trip(plain, before, after);
    }
}

/// Reading a container back gives the entries in the order in which they were
/// handed to the writer: the description and the table first, and then, one data
/// chunk after the other, the entries of each chunk as they were packed. Chunk `i`
/// begins where chunk `i - 1` ended, and what a reader hands out for it holds the
/// entries of batch `i`. Behind the last chunk the container ends.
#[verifier::rlimit(40)]
pub proof fn lemma_container_reads_back(
    meta: MetaChunkView,
    table: TableView,
    batches: Seq<Seq<PackedEntry>>,
    pieces: Seq<Seq<u8>>,
    i: int,
)
    requires
        meta.compression_method is None || meta.compression_method == Some(LZMA@),
        table_wf(table),
        table_bytes(table).len() <= u32::MAX,
        pieces.len() == batches.len(),
        forall|k: int|
            0 <= k < pieces.len() ==> encodes(
                #[trigger] pieces[k],
                data_chunk(batches[k], table),
                meta.compression_method is Some,
            ) && pieces[k].len() <= 12 + u32::MAX,
        forall|k: int, j: int|
            0 <= k < batches.len() && 0 <= j < batches[k].len() ==> packable(
                #[trigger] batches[k][j],
                table,
            ),
        0 <= i < pieces.len(),
    ensures
        open_meta(container(meta, table, pieces), 0) == Ok::<(MetaChunkView, int), BdfError>(
            (meta, 43),
        ),
        open_table(container(meta, table, pieces), 43) == Ok::<(TableView, int), BdfError>(
            (table, chunk_start(meta, table, pieces, 0)),
        ),
        parse_chunk(container(meta, table, pieces), chunk_start(meta, table, pieces, i))
            matches Ok(framed) && framed.1 == chunk_start(meta, table, pieces, i + 1) && (
        handed_out(framed.0, meta.compression_method is Some) matches Ok(chunk) && parse_entries(
            chunk.data,
            table,
        ) == Ok::<Seq<DataEntryView>, BdfError>(unpacked_all(batches[i]))),
        chunk_start(meta, table, pieces, pieces.len() as int) == container(
            meta,
            table,
            pieces,
        ).len(),
        parse_chunk(container(meta, table, pieces), container(meta, table, pieces).len() as int)
            == Err::<(ChunkView, int), BdfError>(BdfError::Truncation),
{
    let head = head_bytes(meta, table);
    let file = container(meta, table, pieces);
    let compressed = meta.compression_method is Some;
    lemma_head_reads_back(meta, table, joined(pieces));
    assert(chunk_start(meta, table, pieces, 0) == head.len()) by {
        assert(pieces.take(0) =~= Seq::<Seq<u8>>::empty());
    }
    assert(chunk_start(meta, table, pieces, pieces.len() as int) == file.len()) by {
        assert(pieces.take(pieces.len() as int) =~= pieces);
    }
    let before = head + joined(pieces.take(i));
    let after = joined(pieces.skip(i + 1));
    assert(file == before + pieces[i] + after && chunk_start(meta, table, pieces, i + 1)
        == before.len() + pieces[i].len()) by {
        lemma_joined_split(pieces, i);
        assert(file =~= before + pieces[i] + after);
    }
    assert(encodes(pieces[i], data_chunk(batches[i], table), compressed) && pieces[i].len() <= 12
        + u32::MAX);
    assert forall|j: int| 0 <= j < batches[i].len() implies packable(
        #[trigger] batches[i][j],
        table,
    ) by {}
    lemma_data_chunk_reads_back(before, pieces[i], after, batches[i], table, compressed);
}

/// What a reading step finds or refuses at a place does not change where `data` goes
/// on, unless it was cut short there: a chunk that lies whole in the bytes read so far
/// is the chunk that lies in the container.
pub proof fn lemma_reading_is_stable(data: Seq<u8>, more: Seq<u8>, at: int, name: Seq<char>)
    ensures
        parse_chunk(data, at) != Err::<(ChunkView, int), BdfError>(BdfError::Truncation)
            ==> parse_chunk(data + more, at) == parse_chunk(data, at),
        expect_chunk(data, at, name) != Err::<(ChunkView, int), BdfError>(BdfError::Truncation)
            ==> expect_chunk(data + more, at, name) == expect_chunk(data, at, name),
        open_table(data, at) != Err::<(TableView, int), BdfError>(BdfError::Truncation)
            ==> open_table(data + more, at) == open_table(data, at),
        open_meta(data, at) is Ok ==> open_meta(data + more, at) == open_meta(data, at),
{
    let longer = data + more;
    lemma_chunk_is_stable(data, more, at);
    if at >= 0 && data.len() - at >= 11 {
        assert(longer.subrange(at, at + 11) =~= data.subrange(at, at + 11));
        lemma_chunk_is_stable(data, more, at + 11);
    }
}

/// A chunk that lies whole in the bytes read so far is the chunk that lies in the
/// container.
proof fn lemma_chunk_is_stable(data: Seq<u8>, more: Seq<u8>, at: int)
    ensures
        parse_chunk(data, at) != Err::<(ChunkView, int), BdfError>(BdfError::Truncation)
            ==> parse_chunk(data + more, at) == parse_chunk(data, at),
{
    let longer = data + more;
    if at >= 0 && data.len() - at >= 8 {
        let length = be_u32(data.subrange(at, at + 4));
        assert(longer.subrange(at, at + 4) =~= data.subrange(at, at + 4));
        assert(longer.subrange(at + 4, at + 8) =~= data.subrange(at + 4, at + 8));
        if data.len() - at - 8 >= length + 4 {
            assert(longer.subrange(at + 8, at + 8 + length) =~= data.subrange(
                at + 8,
                at + 8 + length,
            ));
            assert(longer.subrange(at + 8 + length, at + 12 + length) =~= data.subrange(
                at + 8 + length,
                at + 12 + length,
            ));
        }
    }
}

/// A reader that lets go of the bytes that it has read finds what it would have
/// found: the chunk at a place behind `gone` bytes is the chunk at that place once
/// the bytes are gone, and the place behind it moves with it.
pub proof fn lemma_reading_after_letting_go(data: Seq<u8>, gone: int, at: int)
    requires
        0 <= gone <= data.len(),
        0 <= at,
    ensures
        parse_chunk(data.skip(gone), at) == match parse_chunk(data, gone + at) {
            Ok(framed) => Ok::<(ChunkView, int), BdfError>((framed.0, framed.1 - gone)),
            Err(e) => Err(e),
        },
        missing(data.skip(gone), at, 0) == missing(data, gone + at, 0),
{
    let rest = data.skip(gone);
    if rest.len() - at >= 4 {
        assert(rest.subrange(at, at + 4) =~= data.subrange(gone + at, gone + at + 4));
    }
    if rest.len() - at >= 8 {
        let length = be_u32(rest.subrange(at, at + 4));
        assert(rest.subrange(at + 4, at + 8) =~= data.subrange(gone + at + 4, gone + at + 8));
        if rest.len() - at - 8 >= length + 4 {
            assert(rest.subrange(at + 8, at + 8 + length) =~= data.subrange(
                gone + at + 8,
                gone + at + 8 + length,
            ));
            assert(rest.subrange(at + 8 + length, at + 12 + length) =~= data.subrange(
                gone + at + 8 + length,
                gone + at + 12 + length,
            ));
        }
    }
}

/// A reader that lacks no bytes for its next chunk is not cut short when it reads
/// the chunk, and a reader that finds a chunk lacked no bytes for it.
pub proof fn lemma_nothing_missing(data: Seq<u8>, at: int)
    requires
        0 <= at <= data.len(),
    ensures
        missing(data, at, 0) >= 0,
        missing(data, at, 0) == 0 ==> parse_chunk(data, at) != Err::<(ChunkView, int), BdfError>(
            BdfError::Truncation,
        ),
        parse_chunk(data, at) is Ok ==> missing(data, at, 0) == 0,
{
}

} // verus!
