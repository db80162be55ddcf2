use crate::checksum::crc32_ieee;
use crate::codec::{be_u32, be_u64, u32_be, u64_be};
use crate::error::BdfError;
use crate::lzma::xz_content;
use vstd::prelude::*;
use vstd::utf8::{decode_utf8, encode_utf8, valid_utf8};

verus! {

/// The one compression method that the format knows.
pub const LZMA: &'static str = "lzma";

/// The name of the chunk that describes the container.
pub const META_CHUNK_NAME: &'static str = "META";

/// The name of the chunk that carries the lookup table.
pub const HTBL_CHUNK_NAME: &'static str = "HTBL";

/// The name of a chunk that carries data entries.
pub const DTBL_CHUNK_NAME: &'static str = "DTBL";

/// The eleven bytes that open every container; the fourth is the format version.
pub open spec fn magic() -> Seq<u8> {
    seq![0x42u8, 0x44u8, 0x46u8, 0x01u8, 0x52u8, 0x41u8, 0x49u8, 0x4Eu8, 0x42u8, 0x4Fu8, 0x57u8]
}

/// A chunk as it lies in a container: declared length, name, payload, checksum.
pub open spec fn chunk_bytes(length: u32, name: Seq<u8>, data: Seq<u8>, crc: u32) -> Seq<u8> {
    u32_be(length) + name + data + u32_be(crc)
}

/// A chunk as the format frames it.
pub struct ChunkView {
    pub length: u32,
    pub name: Seq<char>,
    pub data: Seq<u8>,
    pub crc: u32,
}

impl ChunkView {
    /// The bytes of the chunk as it lies in a container.
    pub open spec fn bytes(self) -> Seq<u8> {
        chunk_bytes(self.length, encode_utf8(self.name), self.data, self.crc)
    }
}

/// The chunk that lies at `at`, with the place behind it: four bytes of length, four
/// of name, as many of payload as the length says, four of checksum. A field that
/// the data cannot fill is cut short.
pub open spec fn parse_chunk(data: Seq<u8>, at: int) -> Result<(ChunkView, int), BdfError> {
    if at < 0 || data.len() - at < 8 {
        Err(BdfError::Truncation)
    } else {
        let length = be_u32(data.subrange(at, at + 4));
        let name = data.subrange(at + 4, at + 8);
        if !valid_utf8(name) {
            Err(BdfError::InvalidUtf8)
        } else if data.len() - at - 8 < length + 4 {
            Err(BdfError::Truncation)
        } else {
            let payload = data.subrange(at + 8, at + 8 + length);
            let crc = be_u32(data.subrange(at + 8 + length, at + 12 + length));
            Ok(
                (
                    ChunkView { length, name: decode_utf8(name), data: payload, crc },
                    at + 12 + length,
                ),
            )
        }
    }
}

/// How many bytes `data` lacks before the chunk that begins `lead` bytes behind `at`
/// lies whole in it: what is missing of the length and the name, or, once the length
/// can be read, what is missing of the chunk.
pub open spec fn missing(data: Seq<u8>, at: int, lead: int) -> int {
    let have = data.len() - at;
    if have < lead + 8 {
        lead + 8 - have
    } else {
        let whole = lead + 12 + be_u32(data.subrange(at + lead, at + lead + 4));
        if have < whole {
            whole - have
        } else {
            0
        }
    }
}

/// The number of chunks that `entry_count` entries fill at `per_chunk` entries each,
/// held to what 32 bits can count. With no room in a chunk, no number of chunks
/// holds a non-empty catalogue, and the count is the largest there is.
pub open spec fn chunk_count_for(entry_count: u64, per_chunk: u32) -> u32 {
    if entry_count == 0 {
        0
    } else if per_chunk == 0 {
        u32::MAX
    } else {
        let full = (entry_count - 1) / (per_chunk as int) + 1;
        if full > u32::MAX {
            u32::MAX
        } else {
            full as u32
        }
    }
}

/// The payload of a meta chunk; `method` is the compression slot as it is stored.
pub open spec fn meta_bytes(
    chunk_count: u32,
    entries_per_chunk: u32,
    entry_count: u64,
    method: Seq<u8>,
) -> Seq<u8> {
    u32_be(chunk_count) + u32_be(entries_per_chunk) + u64_be(entry_count) + method
}

/// The compression slot of a meta chunk that names no method.
pub open spec fn no_method() -> Seq<u8> {
    seq![0u8, 0u8, 0u8, 0u8]
}

/// What a meta chunk says of the container it opens.
pub struct MetaChunkView {
    pub chunk_count: u32,
    pub entries_per_chunk: u32,
    pub entry_count: u64,
    pub compression_method: Option<Seq<char>>,
}

impl MetaChunkView {
    /// The compression slot as it is stored: the method's bytes, or four zero bytes.
    pub open spec fn method_bytes(self) -> Seq<u8> {
        match self.compression_method {
            Some(method) => encode_utf8(method),
            None => no_method(),
        }
    }

    /// The payload that carries this description.
    pub open spec fn bytes(self) -> Seq<u8> {
        meta_bytes(self.chunk_count, self.entries_per_chunk, self.entry_count, self.method_bytes())
    }
}

/// What a meta payload says, or why it says nothing: a payload under twenty bytes
/// is cut short, and a compression slot that is neither empty nor UTF-8 names nothing.
pub open spec fn parse_meta(data: Seq<u8>) -> Result<MetaChunkView, BdfError> {
    if data.len() < 20 {
        Err(BdfError::Truncation)
    } else {
        let method = data.subrange(16, 20);
        if method != no_method() && !valid_utf8(method) {
            Err(BdfError::InvalidUtf8)
        } else {
            Ok(
                MetaChunkView {
                    chunk_count: be_u32(data.subrange(0, 4)),
                    entries_per_chunk: be_u32(data.subrange(4, 8)),
                    entry_count: be_u64(data.subrange(8, 16)),
                    compression_method: if method == no_method() {
                        None
                    } else {
                        Some(decode_utf8(method))
                    },
                },
            )
        }
    }
}

/// One record of a lookup-table payload.
pub open spec fn hash_entry_bytes(id: u32, output_length: u32, name: Seq<u8>) -> Seq<u8> {
    u32_be(id) + u32_be(output_length) + u32_be(name.len() as u32) + name
}

/// One hash algorithm as a lookup table knows it.
pub struct HashEntryView {
    pub id: u32,
    pub output_length: u32,
    pub name: Seq<char>,
}

impl HashEntryView {
    /// The record that carries this entry.
    pub open spec fn bytes(self) -> Seq<u8> {
        hash_entry_bytes(self.id, self.output_length, encode_utf8(self.name))
    }
}

/// A lookup table: hash algorithms by id.
pub type TableView = Map<u32, HashEntryView>;

/// The records of the entries whose key is `from` or more, in ascending order of key.
pub open spec fn table_bytes_from(table: TableView, from: nat) -> Seq<u8>
    decreases 0x1_0000_0000 - from,
{
    if from >= 0x1_0000_0000 {
        Seq::empty()
    } else {
        let id = from as u32;
        let head = if table.contains_key(id) {
            table[id].bytes()
        } else {
            Seq::empty()
        };
        head + table_bytes_from(table, from + 1)
    }
}

/// The payload of a lookup-table chunk: the records of all entries, in ascending
/// order of key.
pub open spec fn table_bytes(table: TableView) -> Seq<u8> {
    table_bytes_from(table, 0)
}

/// Whether every entry of the table carries the id under which the table holds it.
pub open spec fn keyed_by_id(table: TableView) -> bool {
    forall|id: u32| #[trigger] table.contains_key(id) ==> table[id].id == id
}

/// Whether the ids of the table are the numbers below the number of its entries.
pub open spec fn dense(table: TableView) -> bool {
    forall|id: u32| table.contains_key(id) <==> id < table.len()
}

/// Whether `table` holds an entry of that name under `id`.
pub open spec fn names(table: TableView, id: u32, name: Seq<char>) -> bool {
    table.contains_key(id) && table[id].name == name
}

/// Whether `id` is the least key under which `table` holds an entry of that name.
pub open spec fn first_named(table: TableView, id: u32, name: Seq<char>) -> bool {
    names(table, id, name) && forall|other: u32| names(table, other, name) ==> id <= other
}

/// The key that a name resolves to: the least one whose entry bears it.
pub open spec fn lookup_id(table: TableView, name: Seq<char>) -> Option<u32> {
    if exists|id: u32| first_named(table, id, name) {
        Some(choose|id: u32| first_named(table, id, name))
    } else {
        None
    }
}

/// What a lookup-table payload says, or why it says nothing. Records are read
/// from the front while at least twelve bytes remain; a shorter tail is passed over.
/// Where two records share an id, the later one stands.
pub open spec fn parse_table(data: Seq<u8>) -> Result<TableView, BdfError>
    decreases data.len(),
{
    if data.len() < 12 {
        Ok(Map::empty())
    } else {
        let id = be_u32(data.subrange(0, 4));
        let output_length = be_u32(data.subrange(4, 8));
        let name_length = be_u32(data.subrange(8, 12)) as int;
        if data.len() < 12 + name_length {
            Err(BdfError::Truncation)
        } else {
            let name = data.subrange(12, 12 + name_length);
            if !valid_utf8(name) {
                Err(BdfError::InvalidUtf8)
            } else {
                match parse_table(data.skip(12 + name_length)) {
                    Ok(rest) => Ok(
                        if rest.contains_key(id) {
                            rest
                        } else {
                            rest.insert(
                                id,
                                HashEntryView { id, output_length, name: decode_utf8(name) },
                            )
                        },
                    ),
                    Err(e) => Err(e),
                }
            }
        }
    }
}

/// One digest of a data entry: the name of the hash algorithm and the digest's bytes.
pub struct DigestView {
    pub name: Seq<char>,
    pub value: Seq<u8>,
}

/// The digests of a data entry in the order in which the entry holds them.
pub type Digests = Seq<DigestView>;

/// One record of a catalogue: a plaintext and its digests by algorithm name.
pub struct DataEntryView {
    pub plain: Seq<char>,
    pub hashes: Map<Seq<char>, Seq<u8>>,
}

/// Where the first digest of that name stands among `pairs`; their number where none
/// bears the name.
pub open spec fn position_of(pairs: Digests, name: Seq<char>) -> int
    decreases pairs.len(),
{
    if pairs.len() == 0 {
        0
    } else if pairs[0].name == name {
        0
    } else {
        1 + position_of(pairs.drop_first(), name)
    }
}

/// The digests by name; of two digests with one name the first stands.
pub open spec fn digest_map(pairs: Digests) -> Map<Seq<char>, Seq<u8>>
    decreases pairs.len(),
{
    if pairs.len() == 0 {
        Map::empty()
    } else {
        digest_map(pairs.drop_first()).insert(pairs[0].name, pairs[0].value)
    }
}

/// Whether no two of the digests bear one name.
pub open spec fn distinct_names(pairs: Digests) -> bool {
    forall|i: int, j: int| 0 <= i < j < pairs.len() ==> pairs[i].name != pairs[j].name
}

/// `pairs` with `digest` in the place of the first digest of its name, or behind the
/// last one where none bears the name.
pub open spec fn put(pairs: Digests, digest: DigestView) -> Digests {
    let at = position_of(pairs, digest.name);
    if at < pairs.len() {
        pairs.update(at, digest)
    } else {
        pairs.push(digest)
    }
}

/// The digest records of an entry: for each digest whose name the table resolves, the
/// id and the digest's bytes; a digest of an unknown name leaves no record.
pub open spec fn digest_records(pairs: Digests, table: TableView) -> Seq<u8>
    decreases pairs.len(),
{
    if pairs.len() == 0 {
        Seq::empty()
    } else {
        let head = match lookup_id(table, pairs[0].name) {
            Some(id) => u32_be(id) + pairs[0].value,
            None => Seq::empty(),
        };
        head + digest_records(pairs.drop_first(), table)
    }
}

/// One packed entry: the length of what follows the length field, the length of the
/// plaintext, the plaintext, the digest records. Lengths are held to 32 bits.
pub open spec fn entry_bytes(plain: Seq<u8>, records: Seq<u8>) -> Seq<u8> {
    u32_be((4 + (plain.len() as u32) + (records.len() as u32)) as u32) + u32_be(
        plain.len() as u32,
    ) + plain + records
}

/// The plaintext and digests of an entry as they are packed.
pub struct PackedEntry {
    pub plain: Seq<char>,
    pub pairs: Digests,
}

/// What a packed entry says.
pub open spec fn unpacked(entry: PackedEntry) -> DataEntryView {
    DataEntryView { plain: entry.plain, hashes: digest_map(entry.pairs) }
}

/// What packed entries say, one by one.
pub open spec fn unpacked_all(entries: Seq<PackedEntry>) -> Seq<DataEntryView> {
    entries.map_values(|entry: PackedEntry| unpacked(entry))
}

/// The payload of a data chunk: the packed entries one after the other.
pub open spec fn entries_bytes(entries: Seq<PackedEntry>, table: TableView) -> Seq<u8>
    decreases entries.len(),
{
    if entries.len() == 0 {
        Seq::empty()
    } else {
        entry_bytes(encode_utf8(entries[0].plain), digest_records(entries[0].pairs, table))
            + entries_bytes(entries.drop_first(), table)
    }
}

/// The digests read from `at` up to `end`, laid over `seen`, with the place where
/// reading stopped. A record whose id the table does not hold cannot be measured and
/// ends the reading, as does a record that runs past the payload.
pub open spec fn parse_digests(
    data: Seq<u8>,
    at: int,
    end: int,
    table: TableView,
    seen: Map<Seq<char>, Seq<u8>>,
) -> Result<(Map<Seq<char>, Seq<u8>>, int), BdfError>
    decreases data.len() - at,
{
    if at < 0 || at >= end {
        Ok((seen, at))
    } else if data.len() - at < 4 {
        Err(BdfError::Truncation)
    } else {
        let id = be_u32(data.subrange(at, at + 4));
        if !table.contains_key(id) {
            Err(BdfError::UnknownHashId)
        } else {
            let width = table[id].output_length as int;
            if data.len() - at - 4 < width {
                Err(BdfError::Truncation)
            } else {
                parse_digests(
                    data,
                    at + 4 + width,
                    end,
                    table,
                    seen.insert(table[id].name, data.subrange(at + 4, at + 4 + width)),
                )
            }
        }
    }
}

/// Reading digests never moves backwards and never leaves the payload.
pub proof fn lemma_parse_digests_advances(
    data: Seq<u8>,
    at: int,
    end: int,
    table: TableView,
    seen: Map<Seq<char>, Seq<u8>>,
)
    requires
        0 <= at <= data.len(),
    ensures
        parse_digests(data, at, end, table, seen) matches Ok(read) ==> at <= read.1 <= data.len(),
    decreases data.len() - at,
{
    if at < end && data.len() - at >= 4 {
        let id = be_u32(data.subrange(at, at + 4));
        if table.contains_key(id) {
            let width = table[id].output_length as int;
            if data.len() - at - 4 >= width {
                lemma_parse_digests_advances(
                    data,
                    at + 4 + width,
                    end,
                    table,
                    seen.insert(table[id].name, data.subrange(at + 4, at + 4 + width)),
                );
            }
        }
    }
}

/// The entries read from `at` to the end of the payload, behind those in `done`.
/// Entries are read while at least eight bytes remain; a shorter tail is passed over.
pub open spec fn parse_entries_from(
    data: Seq<u8>,
    at: int,
    table: TableView,
    done: Seq<DataEntryView>,
) -> Result<Seq<DataEntryView>, BdfError>
    decreases data.len() - at,
{
    if at < 0 || data.len() - at < 8 {
        Ok(done)
    } else {
        let entry_length = be_u32(data.subrange(at, at + 4)) as int;
        let plain_length = be_u32(data.subrange(at + 4, at + 8)) as int;
        if data.len() - at - 8 < plain_length {
            Err(BdfError::Truncation)
        } else {
            let plain = data.subrange(at + 8, at + 8 + plain_length);
            if !valid_utf8(plain) {
                Err(BdfError::InvalidUtf8)
            } else {
                let start = at + 8 + plain_length;
                match parse_digests(data, start, at + 4 + entry_length, table, Map::empty()) {
                    Ok(read) => {
                        proof {
                            lemma_parse_digests_advances(
                                data,
                                start,
                                at + 4 + entry_length,
                                table,
                                Map::empty(),
                            );
                        }
                        parse_entries_from(
                            data,
                            read.1,
                            table,
                            done.push(
                                DataEntryView { plain: decode_utf8(plain), hashes: read.0 },
                            ),
                        )
                    },
                    Err(e) => Err(e),
                }
            }
        }
    }
}

/// The entries that a data payload holds, or why it cannot be read.
pub open spec fn parse_entries(data: Seq<u8>, table: TableView) -> Result<
    Seq<DataEntryView>,
    BdfError,
> {
    parse_entries_from(data, 0, table, Seq::empty())
}

/// Whether the format knows a chunk of that name.
pub open spec fn known_name(name: Seq<char>) -> bool {
    name == META_CHUNK_NAME@ || name == HTBL_CHUNK_NAME@ || name == DTBL_CHUNK_NAME@
}

/// The chunk with another payload in the place of its own, and the length of that
/// payload declared.
pub open spec fn with_payload(chunk: ChunkView, payload: Seq<u8>) -> ChunkView {
    ChunkView { length: payload.len() as u32, data: payload, ..chunk }
}

/// The chunk with its payload unpacked: where the decoder rejects the payload the
/// codec has failed, and where the unpacked bytes do not have the checksum that the
/// chunk declares the checksum has.
pub open spec fn unpack(chunk: ChunkView) -> Result<ChunkView, BdfError> {
    match xz_content(chunk.data) {
        Some(content) => if crc32_ieee(content) == chunk.crc {
            Ok(with_payload(chunk, content))
        } else {
            Err(BdfError::CrcMismatch)
        },
        None => Err(BdfError::IoError),
    }
}

/// What a reader hands out for the chunk `framed` that it found in a container. A
/// name that the format does not know is refused. The payload of a data chunk in a
/// compressed container is unpacked first. In every case a payload is handed out
/// only with the checksum that its chunk declares.
pub open spec fn handed_out(framed: ChunkView, compressed: bool) -> Result<ChunkView, BdfError> {
    if !known_name(framed.name) {
        Err(BdfError::InvalidChunkName)
    } else if compressed && framed.name == DTBL_CHUNK_NAME@ {
        unpack(framed)
    } else if crc32_ieee(framed.data) == framed.crc {
        Ok(framed)
    } else {
        Err(BdfError::CrcMismatch)
    }
}

/// The chunk of the name `expected` that lies at `at`, stored without compression,
/// with the place behind it.
pub open spec fn expect_chunk(data: Seq<u8>, at: int, expected: Seq<char>) -> Result<
    (ChunkView, int),
    BdfError,
> {
    match parse_chunk(data, at) {
        Ok(framed) => if framed.0.name != expected {
            Err(BdfError::InvalidChunkName)
        } else if crc32_ieee(framed.0.data) != framed.0.crc {
            Err(BdfError::CrcMismatch)
        } else {
            Ok(framed)
        },
        Err(e) => Err(e),
    }
}

/// What a container that begins at `at` says of itself, with the place behind its
/// meta chunk: the magic bytes, then a meta chunk that names no compression method
/// or `lzma`.
pub open spec fn open_meta(data: Seq<u8>, at: int) -> Result<(MetaChunkView, int), BdfError> {
    if at < 0 || data.len() - at < 11 || data.subrange(at, at + 11) != magic() {
        Err(BdfError::InvalidHeader)
    } else {
        match expect_chunk(data, at + 11, META_CHUNK_NAME@) {
            Ok(framed) => match parse_meta(framed.0.data) {
                Ok(meta) => if meta.compression_method is Some && meta.compression_method
                    != Some(LZMA@) {
                    Err(BdfError::UnsupportedCompression)
                } else {
                    Ok((meta, framed.1))
                },
                Err(e) => Err(e),
            },
            Err(e) => Err(e),
        }
    }
}

/// The lookup table whose chunk lies at `at`, with the place behind it.
pub open spec fn open_table(data: Seq<u8>, at: int) -> Result<(TableView, int), BdfError> {
    match expect_chunk(data, at, HTBL_CHUNK_NAME@) {
        Ok(framed) => match parse_table(framed.0.data) {
            Ok(table) => Ok((table, framed.1)),
            Err(e) => Err(e),
        },
        Err(e) => Err(e),
    }
}

/// The chunk that carries a description of a container.
pub open spec fn meta_chunk(meta: MetaChunkView) -> ChunkView {
    ChunkView {
        length: meta.bytes().len() as u32,
        name: META_CHUNK_NAME@,
        data: meta.bytes(),
        crc: crc32_ieee(meta.bytes()),
    }
}

/// The chunk that carries a lookup table.
pub open spec fn table_chunk(table: TableView) -> ChunkView {
    ChunkView {
        length: table_bytes(table).len() as u32,
        name: HTBL_CHUNK_NAME@,
        data: table_bytes(table),
        crc: crc32_ieee(table_bytes(table)),
    }
}

/// The data chunk that holds the given entries, not compressed.
pub open spec fn data_chunk(entries: Seq<PackedEntry>, table: TableView) -> ChunkView {
    ChunkView {
        length: entries_bytes(entries, table).len() as u32,
        name: DTBL_CHUNK_NAME@,
        data: entries_bytes(entries, table),
        crc: crc32_ieee(entries_bytes(entries, table)),
    }
}

/// What opens a container: the magic bytes, the meta chunk, the lookup-table chunk.
pub open spec fn head_bytes(meta: MetaChunkView, table: TableView) -> Seq<u8> {
    magic() + meta_chunk(meta).bytes() + table_chunk(table).bytes()
}

/// Whether `bytes` are a form in which a writer may emit `chunk`: the chunk as it
/// is, or, where the container is compressed, the chunk with an xz stream for its
/// payload that unpacks to the payload; the checksum stays that of the payload.
pub open spec fn encodes(bytes: Seq<u8>, chunk: ChunkView, compress: bool) -> bool {
    if compress {
        exists|stream: Seq<u8>| #[trigger]
            xz_content(stream) == Some(chunk.data) && bytes == with_payload(
                chunk,
                stream,
            ).bytes()
    } else {
        bytes == chunk.bytes()
    }
}

} // verus!
