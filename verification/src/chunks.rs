use crate::checksum::{checksum, crc32_ieee};
use crate::codec::{read_u32, read_u64, write_u32, write_u64};
use crate::error::BdfError;
use crate::format::{
    chunk_count_for, data_chunk, encodes, entries_bytes, handed_out, meta_chunk, no_method,
    parse_chunk, parse_digests, parse_entries, parse_entries_from, parse_meta, parse_table,
    table_chunk, unpack, with_payload, ChunkView, DataEntryView, MetaChunkView, PackedEntry,
    TableView,
};
use crate::lzma::{xz_content, xz_decode, xz_encode};
use crate::text::{name_is, string_from_utf8};
use std::collections::HashMap;
use std::convert::{From, TryFrom};
use vstd::prelude::*;
use vstd::slice::{slice_subrange, slice_to_vec};
use vstd::std_specs::convert::{FromSpecImpl, TryFromSpecImpl};
use vstd::std_specs::hash::*;
use vstd::utf8::decode_utf8;

pub use crate::entry::{all_wf, entry_views, packed, DataEntry};
pub use crate::format::{DTBL_CHUNK_NAME, HTBL_CHUNK_NAME, LZMA, META_CHUNK_NAME};
pub use crate::lookup::{table_view, HashEntry, HashLookupTable};

verus! {

/// The eleven bytes that open every container.
pub const BDF_HDR: [u8; 11] = [0x42, 0x44, 0x46, 0x01, 0x52, 0x41, 0x49, 0x4E, 0x42, 0x4F, 0x57];

/// The compression slot of a meta chunk that names no method.
pub const NULL_BYTES: [u8; 4] = [0, 0, 0, 0];

/// The unit in which a container holds everything: a declared length, a name of four
/// bytes, a payload, and the checksum of the payload before any compression.
#[derive(Debug, Clone)]
pub struct GenericChunk {
    pub length: u32,
    pub(crate) name: String,
    pub data: Vec<u8>,
    pub crc: u32,
}

impl View for GenericChunk {
    type V = ChunkView;

    closed spec fn view(&self) -> ChunkView {
        ChunkView { length: self.length, name: self.name@, data: self.data@, crc: self.crc }
    }
}

/// The description of a container: how many data chunks and entries it announces, how
/// many entries a chunk holds, and how the data chunks are compressed, if they are.
#[derive(Debug, Clone)]
pub struct MetaChunk {
    pub chunk_count: u32,
    pub(crate) entries_per_chunk: u32,
    pub entry_count: u64,
    pub compression_method: Option<String>,
}

impl View for MetaChunk {
    type V = MetaChunkView;

    closed spec fn view(&self) -> MetaChunkView {
        MetaChunkView {
            chunk_count: self.chunk_count,
            entries_per_chunk: self.entries_per_chunk,
            entry_count: self.entry_count,
            compression_method: match self.compression_method {
                Some(method) => Some(method@),
                None => None,
            },
        }
    }
}

impl GenericChunk {
    /// A chunk of the given fields.
    pub fn new(length: u32, name: String, data: Vec<u8>, crc: u32) -> (chunk: Self)
        ensures
            chunk@ == (ChunkView { length, name: name@, data: data@, crc }),
    {
        GenericChunk { length, name, data, crc }
    }

    /// The name of the chunk.
    pub fn name(&self) -> (name: &String)
        ensures
            name@ == self@.name,
    {
        &self.name
    }

    /// The length that the chunk declares for its payload.
    pub fn length(&self) -> (length: u32)
        ensures
            length == self@.length,
    {
        self.length
    }

    /// The payload of the chunk.
    pub fn data(&self) -> (data: &Vec<u8>)
        ensures
            data@ == self@.data,
    {
        &self.data
    }

    /// The checksum that the chunk declares for its payload.
    pub fn crc(&self) -> (crc: u32)
        ensures
            crc == self@.crc,
    {
        self.crc
    }

    /// The bytes of the chunk as it lies in a container. The payload moves into the
    /// result: the chunk is left with an empty one.
    pub fn serialize(&mut self) -> (out: Vec<u8>)
        ensures
            out@ == old(self)@.bytes(),
            final(self)@ == (ChunkView { data: Seq::empty(), ..old(self)@ }),
    {
        let mut serialized: Vec<u8> = Vec::new();
        let mut length_raw = write_u32(self.length);
        serialized.append(&mut length_raw);
        serialized.extend_from_slice(self.name.as_str().as_bytes());
        serialized.append(&mut self.data);
        let mut crc_raw = write_u32(self.crc);
        serialized.append(&mut crc_raw);
        serialized
    }

    /// Reads the chunk that lies at `at` in `source` and says where the next one
    /// begins.
    pub fn parse(source: &[u8], at: usize) -> (parsed: Result<(GenericChunk, usize), BdfError>)
        ensures
            match parsed {
                Ok((chunk, next)) => parse_chunk(source@, at as int) == Ok::<
                    (ChunkView, int),
                    BdfError,
                >((chunk@, next as int)),
                Err(e) => parse_chunk(source@, at as int) == Err::<(ChunkView, int), BdfError>(e),
            },
    {
        if at > source.len() || source.len() - at < 8 {
            return Err(BdfError::Truncation);
        }
        let length = read_u32(slice_subrange(source, at, at + 4));
        let name_raw = slice_to_vec(slice_subrange(source, at + 4, at + 8));
        proof {
            assert(source@.subrange(at as int, at + 4).subrange(0, 4) =~= source@.subrange(
                at as int,
                at + 4,
            ));
            assert(name_raw@ =~= source@.subrange(at + 4, at + 8));
        }
        let name = match string_from_utf8(name_raw) {
            Some(name) => name,
            None => {
                return Err(BdfError::InvalidUtf8);
            },
        };
        let rest = source.len() - at - 8;
        if rest < 4 || rest - 4 < length as usize {
            return Err(BdfError::Truncation);
        }
        let end = at + 8 + length as usize;
        let data = slice_to_vec(slice_subrange(source, at + 8, end));
        let crc = read_u32(slice_subrange(source, end, end + 4));
        proof {
            assert(source@.subrange(end as int, end + 4).subrange(0, 4) =~= source@.subrange(
                end as int,
                end + 4,
            ));
        }
        Ok((GenericChunk { length, name, data, crc }, end + 4))
    }

    /// The entries that the chunk holds, read against `lookup_table`. A lookup-table
    /// chunk holds none and is refused.
    pub fn data_entries(&mut self, lookup_table: &HashLookupTable) -> (decoded: Result<
        Vec<DataEntry>,
        BdfError,
    >)
        ensures
            final(self)@ == old(self)@,
            old(self)@.name == HTBL_CHUNK_NAME@ ==> decoded == Err::<Vec<DataEntry>, BdfError>(
                BdfError::InvalidChunkName,
            ),
            old(self)@.name != HTBL_CHUNK_NAME@ ==> match decoded {
                Ok(entries) => parse_entries(old(self)@.data, lookup_table@) == Ok::<
                    Seq<DataEntryView>,
                    BdfError,
                >(entry_views(entries@)) && all_wf(entries@),
                Err(e) => parse_entries(old(self)@.data, lookup_table@) == Err::<
                    Seq<DataEntryView>,
                    BdfError,
                >(e),
            },
    {
        broadcast use group_hash_axioms;

        if name_is(&self.name, HTBL_CHUNK_NAME) {
            return Err(BdfError::InvalidChunkName);
        }
        let data = self.data.as_slice();
        let ghost table = lookup_table@;
        let mut entries: Vec<DataEntry> = Vec::new();
        let mut position: usize = 0;
        proof {
            assert(entry_views(entries@) =~= Seq::<DataEntryView>::empty());
        }
        while data.len() - position >= 8
            invariant
                position <= data.len(),
                data@ == self@.data,
                *self == *old(self),
                self@.name != HTBL_CHUNK_NAME@,
                table == lookup_table@,
                all_wf(entries@),
                parse_entries_from(data@, position as int, table, entry_views(entries@))
                    == parse_entries(data@, table),
            decreases data.len() - position,
        {
            let entry_length = read_u32(slice_subrange(data, position, position + 4));
            let plain_length = read_u32(slice_subrange(data, position + 4, position + 8)) as usize;
            proof {
                assert(data@.subrange(position as int, position + 4).subrange(0, 4)
                    =~= data@.subrange(position as int, position + 4));
                assert(data@.subrange(position + 4, position + 8).subrange(0, 4)
                    =~= data@.subrange(position + 4, position + 8));
            }
            if data.len() - position - 8 < plain_length {
                return Err(BdfError::Truncation);
            }
            let start = position + 8 + plain_length;
            let plain_raw = slice_to_vec(slice_subrange(data, position + 8, start));
            assert(plain_raw@ =~= data@.subrange(position + 8, position + 8 + plain_length));
            let plain = match string_from_utf8(plain_raw) {
                Some(plain) => plain,
                None => {
                    return Err(BdfError::InvalidUtf8);
                },
            };
            let entry_end: u128 = position as u128 + 4 + entry_length as u128;
            let mut entry = DataEntry::new(plain);
            let mut cursor = start;
            while (cursor as u128) < entry_end
                invariant
                    start <= cursor <= data.len(),
                    table == lookup_table@,
                    entry.wf(),
                    entry@.plain == decode_utf8(
                        data@.subrange(position + 8, position + 8 + plain_length),
                    ),
                    parse_digests(data@, cursor as int, entry_end as int, table, entry@.hashes)
                        == parse_digests(
                        data@,
                        start as int,
                        entry_end as int,
                        table,
                        Map::empty(),
                    ),
                    parse_digests(data@, start as int, entry_end as int, table, Map::empty()) is Err
                        ==> parse_entries(data@, table) == Err::<Seq<DataEntryView>, BdfError>(
                        parse_digests(
                            data@,
                            start as int,
                            entry_end as int,
                            table,
                            Map::empty(),
                        )->Err_0,
                    ),
                    data@ == self@.data,
                    *self == *old(self),
                    self@.name != HTBL_CHUNK_NAME@,
                decreases data.len() - cursor,
            {
                if data.len() - cursor < 4 {
                    return Err(BdfError::Truncation);
                }
                let id = read_u32(slice_subrange(data, cursor, cursor + 4));
                proof {
                    assert(data@.subrange(cursor as int, cursor + 4).subrange(0, 4)
                        =~= data@.subrange(cursor as int, cursor + 4));
                }
                match lookup_table.entries.get(&id) {
                    None => {
                        return Err(BdfError::UnknownHashId);
                    },
                    Some(hash_entry) => {
                        let width = hash_entry.output_length() as usize;
                        if data.len() - cursor - 4 < width {
                            return Err(BdfError::Truncation);
                        }
                        let hash = slice_to_vec(
                            slice_subrange(data, cursor + 4, cursor + 4 + width),
                        );
                        assert(hash@ =~= data@.subrange(cursor + 4, cursor + 4 + width));
                        entry.add_hash_value(hash_entry.name().clone(), hash);
                        cursor = cursor + 4 + width;
                    },
                }
            }
            let ghost done = entry_views(entries@);
            entries.push(entry);
            proof {
                assert(entry_views(entries@) =~= done.push(entry@));
            }
            position = cursor;
        }
        Ok(entries)
    }

    /// The data chunk that holds `entries`, packed against `lookup_table`: named
    /// `DTBL`, with the checksum of its payload, not compressed.
    pub fn from_data_entries(entries: &Vec<DataEntry>, lookup_table: &HashLookupTable) -> (chunk:
        GenericChunk)
        ensures
            chunk@ == data_chunk(packed(entries@), lookup_table@),
    {
        let mut serialized_data: Vec<u8> = Vec::new();
        let mut i: usize = 0;
        proof {
            assert(packed(entries@).skip(0) =~= packed(entries@));
        }
        while i < entries.len()
            invariant
                i <= entries@.len(),
                entries_bytes(packed(entries@), lookup_table@) == serialized_data@ + entries_bytes(
                    packed(entries@).skip(i as int),
                    lookup_table@,
                ),
            decreases entries@.len() - i,
        {
            let ghost so_far = serialized_data@;
            let ghost rest = packed(entries@).skip(i as int);
            let mut piece = entries[i].serialize(lookup_table);
            serialized_data.append(&mut piece);
            proof {
                assert(rest[0] == packed(entries@)[i as int]);
                assert(rest.drop_first() =~= packed(entries@).skip(i + 1));
                assert(serialized_data@ + entries_bytes(
                    packed(entries@).skip(i + 1),
                    lookup_table@,
                ) =~= so_far + entries_bytes(rest, lookup_table@));
            }
            i = i + 1;
        }
        proof {
            assert(packed(entries@).skip(entries@.len() as int) =~= Seq::<PackedEntry>::empty());
        }
        let crc_sum = checksum(serialized_data.as_slice());
        GenericChunk {
            length: #[verifier::truncate] (serialized_data.len() as u32),
            name: DTBL_CHUNK_NAME.to_owned(),
            data: serialized_data,
            crc: crc_sum,
        }
    }

    /// Puts `payload` in the place of the chunk's payload and declares its length.
    /// The name and the checksum stay.
    pub fn set_payload(&mut self, payload: Vec<u8>)
        ensures
            final(self)@ == with_payload(old(self)@, payload@),
    {
        self.length = #[verifier::truncate] (payload.len() as u32);
        self.data = payload;
    }

    /// Whether the payload has the checksum that the chunk declares.
    pub fn has_declared_crc(&self) -> (intact: bool)
        ensures
            intact == (crc32_ieee(self@.data) == self@.crc),
    {
        checksum(self.data.as_slice()) == self.crc
    }

    /// Takes `payload` for the chunk's payload if it has the checksum that the chunk
    /// declares, and leaves the chunk as it is if not.
    pub fn set_intact_payload(&mut self, payload: Vec<u8>) -> (taken: Result<(), BdfError>)
        ensures
            crc32_ieee(payload@) == old(self)@.crc ==> taken == Ok::<(), BdfError>(())
                && final(self)@ == with_payload(old(self)@, payload@),
            crc32_ieee(payload@) != old(self)@.crc ==> taken == Err::<(), BdfError>(
                BdfError::CrcMismatch,
            ) && final(self)@ == old(self)@,
    {
        let crc = checksum(payload.as_slice());
        if crc != self.crc {
            return Err(BdfError::CrcMismatch);
        }
        self.set_payload(payload);
        Ok(())
    }

    /// Puts the xz-compressed form of the payload in its place, at preset `level`, and
    /// declares the new length. The checksum stays that of the payload before
    /// compression, and the new payload unpacks to the old one.
    pub fn compress(&mut self, level: u32) -> (done: Result<(), BdfError>)
        requires
            level <= 9,
        ensures
            done is Ok,
            xz_content(final(self)@.data) == Some(old(self)@.data),
            final(self)@ == with_payload(old(self)@, final(self)@.data),
    {
        match xz_encode(self.data.as_slice(), level) {
            Some(compressed) => {
                self.set_payload(compressed);
                Ok(())
            },
            None => Err(BdfError::IoError),
        }
    }

    /// Puts the unpacked form of an xz-compressed payload in its place and declares
    /// the new length, provided that the unpacked bytes have the checksum that the
    /// chunk declares. Where the decoder rejects the payload the codec has failed,
    /// and where the checksum differs the checksum has; the chunk is then left as it
    /// is.
    pub fn decompress(&mut self) -> (done: Result<(), BdfError>)
        ensures
            match unpack(old(self)@) {
                Ok(unpacked) => done == Ok::<(), BdfError>(()) && final(self)@ == unpacked,
                Err(e) => done == Err::<(), BdfError>(e) && final(self)@ == old(self)@,
            },
    {
        match xz_decode(self.data.as_slice()) {
            Some(decompressed) => self.set_intact_payload(decompressed),
            None => Err(BdfError::IoError),
        }
    }

    /// What a reader hands out for a chunk that it found in a container that is, or is
    /// not, compressed: the chunk with its payload unpacked where it was compressed,
    /// and only with the checksum that the chunk declares.
    pub fn admitted(self, compressed: bool) -> (out: Result<GenericChunk, BdfError>)
        ensures
            chunk_result(out) == handed_out(self@, compressed),
    {
        let mut chunk = self;
        let known = name_is(&chunk.name, META_CHUNK_NAME) || name_is(&chunk.name, HTBL_CHUNK_NAME)
            || name_is(&chunk.name, DTBL_CHUNK_NAME);
        if !known {
            return Err(BdfError::InvalidChunkName);
        }
        if compressed && name_is(&chunk.name, DTBL_CHUNK_NAME) {
            match chunk.decompress() {
                Ok(_) => Ok(chunk),
                Err(e) => Err(e),
            }
        } else if chunk.has_declared_crc() {
            Ok(chunk)
        } else {
            Err(BdfError::CrcMismatch)
        }
    }
}

/// The bytes in which a writer emits `chunk`: the chunk as it is, or, where the
/// container is compressed, with its payload compressed at preset `level`. The
/// preset counts only where the chunk is compressed.
pub fn encode_chunk(chunk: GenericChunk, compress: bool, level: u32) -> (out: Result<
    Vec<u8>,
    BdfError,
>)
    requires
        compress ==> level <= 9,
    ensures
        out is Ok,
        encodes(out->Ok_0@, chunk@, compress),
{
    let mut chunk = chunk;
    let ghost plain = chunk@;
    if compress {
        match chunk.compress(level) {
            Ok(_) => {},
            Err(e) => {
                return Err(e);
            },
        }
    }
    let ghost stream = chunk@.data;
    let bytes = chunk.serialize();
    proof {
        if compress {
            assert(xz_content(stream) == Some(plain.data) && bytes@ == with_payload(
                plain,
                stream,
            ).bytes());
        }
    }
    Ok(bytes)
}

/// The answer of a reader as the format sees it.
pub open spec fn chunk_result(out: Result<GenericChunk, BdfError>) -> Result<ChunkView, BdfError> {
    match out {
        Ok(chunk) => Ok(chunk@),
        Err(e) => Err(e),
    }
}

impl MetaChunk {
    /// Describes a container of `entry_count` entries in chunks of `entries_per_chunk`.
    pub fn new(entry_count: u64, entries_per_chunk: u32, compress: bool) -> (meta: Self)
        ensures
            meta@ == (MetaChunkView {
                chunk_count: chunk_count_for(entry_count, entries_per_chunk),
                entries_per_chunk,
                entry_count,
                compression_method: if compress {
                    Some(LZMA@)
                } else {
                    None
                },
            }),
    {
        let compression_method = if compress {
            Some(LZMA.to_owned())
        } else {
            None
        };
        let chunk_count = count_chunks(entry_count, entries_per_chunk);
        Self { chunk_count, entry_count, entries_per_chunk, compression_method }
    }

    /// The fields that every module may read are those of the view.
    pub(crate) proof fn lemma_view(&self)
        ensures
            self@.chunk_count == self.chunk_count,
            self@.entry_count == self.entry_count,
            self@.compression_method == match self.compression_method {
                Some(method) => Some(method@),
                None => None,
            },
    {
    }

    /// The number of chunks that the description announces.
    pub fn chunk_count(&self) -> (number: u32)
        ensures
            number == self@.chunk_count,
    {
        self.chunk_count
    }

    /// The number of entries that the description announces.
    pub fn entry_count(&self) -> (number: u64)
        ensures
            number == self@.entry_count,
    {
        self.entry_count
    }

    /// The compression method that the description names, if it names one.
    pub fn compression_method(&self) -> (method: Option<&String>)
        ensures
            match method {
                Some(name) => self@.compression_method == Some(name@),
                None => self@.compression_method is None,
            },
    {
        self.compression_method.as_ref()
    }

    /// The number of entries that a chunk holds.
    pub fn entries_per_chunk(&self) -> (number: u32)
        ensures
            number == self@.entries_per_chunk,
    {
        self.entries_per_chunk
    }

    /// Changes the number of entries that a chunk holds, and the number of chunks
    /// with it.
    pub fn set_entries_per_chunk(&mut self, number: u32)
        ensures
            final(self)@ == (MetaChunkView {
                chunk_count: chunk_count_for(old(self)@.entry_count, number),
                entries_per_chunk: number,
                ..old(self)@
            }),
    {
        self.entries_per_chunk = number;
        self.chunk_count = count_chunks(self.entry_count, number);
    }

    /// The payload of the chunk that carries this description.
    pub fn serialize(&self) -> (out: Vec<u8>)
        ensures
            out@ == self@.bytes(),
    {
        let mut serialized_data: Vec<u8> = Vec::new();
        let mut chunk_count_raw = write_u32(self.chunk_count);
        serialized_data.append(&mut chunk_count_raw);
        let mut entries_pc_raw = write_u32(self.entries_per_chunk);
        serialized_data.append(&mut entries_pc_raw);
        let mut total_entries_raw = write_u64(self.entry_count);
        serialized_data.append(&mut total_entries_raw);
        match &self.compression_method {
            Some(method) => {
                serialized_data.extend_from_slice(method.as_str().as_bytes());
            },
            None => {
                let ghost head = serialized_data@;
                let mut i: usize = 0;
                while i < 4
                    invariant
                        i <= 4,
                        serialized_data@ == head + Seq::new(i as nat, |j: int| 0u8),
                    decreases 4 - i,
                {
                    serialized_data.push(0u8);
                    i = i + 1;
                }
                assert(Seq::new(4, |j: int| 0u8) =~= no_method());
            },
        }
        serialized_data
    }
}

/// The number of chunks that `entry_count` entries fill at `per_chunk` entries each.
pub fn count_chunks(entry_count: u64, per_chunk: u32) -> (count: u32)
    ensures
        count == chunk_count_for(entry_count, per_chunk),
{
    if entry_count == 0 {
        0
    } else if per_chunk == 0 {
        u32::MAX
    } else {
        let full: u64 = (entry_count - 1) / (per_chunk as u64) + 1;
        if full > u32::MAX as u64 {
            u32::MAX
        } else {
            full as u32
        }
    }
}

impl TryFromSpecImpl<GenericChunk> for MetaChunk {
    open spec fn obeys_try_from_spec() -> bool {
        false
    }

    open spec fn try_from_spec(chunk: GenericChunk) -> Result<MetaChunk, BdfError> {
        Err(BdfError::InvalidChunkName)
    }
}

impl TryFrom<GenericChunk> for MetaChunk {
    type Error = BdfError;

    /// Reads the description that a meta chunk carries.
    fn try_from(chunk: GenericChunk) -> (parsed: Result<MetaChunk, BdfError>)
        ensures
            chunk@.name != META_CHUNK_NAME@ ==> parsed == Err::<MetaChunk, BdfError>(
                BdfError::InvalidChunkName,
            ),
            chunk@.name == META_CHUNK_NAME@ ==> match parsed {
                Ok(meta) => parse_meta(chunk@.data) == Ok::<MetaChunkView, BdfError>(meta@),
                Err(e) => parse_meta(chunk@.data) == Err::<MetaChunkView, BdfError>(e),
            },
    {
        if !name_is(&chunk.name, META_CHUNK_NAME) {
            return Err(BdfError::InvalidChunkName);
        }
        if chunk.data.len() < 20 {
            return Err(BdfError::Truncation);
        }
        let data = chunk.data.as_slice();
        let chunk_count = read_u32(slice_subrange(data, 0, 4));
        let entries_per_chunk = read_u32(slice_subrange(data, 4, 8));
        let entry_count = read_u64(slice_subrange(data, 8, 16));
        let method_raw = slice_to_vec(slice_subrange(data, 16, 20));
        assert(method_raw@ == chunk@.data.subrange(16, 20));
        let stored = method_raw[0] != 0 || method_raw[1] != 0 || method_raw[2] != 0
            || method_raw[3] != 0;
        assert(stored <==> method_raw@ != no_method()) by {
            if !stored {
                assert(method_raw@ =~= no_method());
            }
        }
        let compression_method = if stored {
            match string_from_utf8(method_raw) {
                Some(method) => Some(method),
                None => {
                    return Err(BdfError::InvalidUtf8);
                },
            }
        } else {
            None
        };
        assert(chunk@.data.subrange(0, 4) == chunk@.data.subrange(0, 4).subrange(0, 4));
        assert(chunk@.data.subrange(4, 8) == chunk@.data.subrange(4, 8).subrange(0, 4));
        assert(chunk@.data.subrange(8, 16) == chunk@.data.subrange(8, 16).subrange(0, 8));
        Ok(MetaChunk { chunk_count, entries_per_chunk, entry_count, compression_method })
    }
}

/// What the records read so far and the rest of a payload say together: a later
/// record stands where it shares an id with an earlier one.
spec fn overlay(seen: TableView, rest: Result<TableView, BdfError>) -> Result<TableView, BdfError> {
    match rest {
        Ok(later) => Ok(seen.union_prefer_right(later)),
        Err(e) => Err(e),
    }
}

impl TryFromSpecImpl<GenericChunk> for HashLookupTable {
    open spec fn obeys_try_from_spec() -> bool {
        false
    }

    open spec fn try_from_spec(chunk: GenericChunk) -> Result<HashLookupTable, BdfError> {
        Err(BdfError::InvalidChunkName)
    }
}

impl TryFrom<GenericChunk> for HashLookupTable {
    type Error = BdfError;

    /// Reads the table that a lookup-table chunk carries.
    fn try_from(chunk: GenericChunk) -> (parsed: Result<HashLookupTable, BdfError>)
        ensures
            chunk@.name != HTBL_CHUNK_NAME@ ==> parsed == Err::<HashLookupTable, BdfError>(
                BdfError::InvalidChunkName,
            ),
            chunk@.name == HTBL_CHUNK_NAME@ ==> match parsed {
                Ok(table) => parse_table(chunk@.data) == Ok::<TableView, BdfError>(table@),
                Err(e) => parse_table(chunk@.data) == Err::<TableView, BdfError>(e),
            },
    {
        broadcast use group_hash_axioms;

        if !name_is(&chunk.name, HTBL_CHUNK_NAME) {
            return Err(BdfError::InvalidChunkName);
        }
        let data = chunk.data.as_slice();
        let mut hash_entries: HashMap<u32, HashEntry> = HashMap::new();
        let mut position: usize = 0;
        proof {
            assert(data@.skip(0) =~= data@);
            match parse_table(data@) {
                Ok(table) => {
                    assert(table_view(hash_entries@).union_prefer_right(table) =~= table);
                },
                Err(_) => {},
            }
        }
        while data.len() - position >= 12
            invariant
                position <= data.len(),
                data@ == chunk@.data,
                chunk@.name == HTBL_CHUNK_NAME@,
                overlay(table_view(hash_entries@), parse_table(data@.skip(position as int)))
                    == parse_table(data@),
            decreases data.len() - position,
        {
            let ghost rest = data@.skip(position as int);
            let ghost seen = table_view(hash_entries@);
            let id = read_u32(slice_subrange(data, position, position + 4));
            let output_length = read_u32(slice_subrange(data, position + 4, position + 8));
            let name_length = read_u32(slice_subrange(data, position + 8, position + 12)) as usize;
            proof {
                assert(data@.subrange(position as int, position + 4).subrange(0, 4)
                    =~= rest.subrange(0, 4));
                assert(data@.subrange(position + 4, position + 8).subrange(0, 4)
                    =~= rest.subrange(4, 8));
                assert(data@.subrange(position + 8, position + 12).subrange(0, 4)
                    =~= rest.subrange(8, 12));
            }
            if data.len() - position - 12 < name_length {
                return Err(BdfError::Truncation);
            }
            let name_raw = slice_to_vec(
                slice_subrange(data, position + 12, position + 12 + name_length),
            );
            proof {
                assert(name_raw@ =~= rest.subrange(12, 12 + name_length));
                assert(rest.skip(12 + name_length) =~= data@.skip(position + 12 + name_length));
            }
            let name = match string_from_utf8(name_raw) {
                Some(name) => name,
                None => {
                    return Err(BdfError::InvalidUtf8);
                },
            };
            let entry = HashEntry::with_id(id, name, output_length);
            let ghost record = entry@;
            hash_entries.insert(id, entry);
            position = position + 12 + name_length;
            proof {
                assert(table_view(hash_entries@) =~= seen.insert(id, record));
                match parse_table(data@.skip(position as int)) {
                    Ok(later) => {
                        let head = if later.contains_key(id) {
                            later
                        } else {
                            later.insert(id, record)
                        };
                        assert(parse_table(rest) == Ok::<TableView, BdfError>(head));
                        assert(seen.insert(id, record).union_prefer_right(later)
                            =~= seen.union_prefer_right(head));
                    },
                    Err(_) => {},
                }
            }
        }
        proof {
            assert(table_view(hash_entries@).union_prefer_right(Map::empty()) =~= table_view(
                hash_entries@,
            ));
        }
        Ok(HashLookupTable { entries: hash_entries })
    }
}

impl FromSpecImpl<&MetaChunk> for GenericChunk {
    open spec fn obeys_from_spec() -> bool {
        false
    }

    open spec fn from_spec(meta: &MetaChunk) -> GenericChunk {
        arbitrary()
    }
}

impl From<&MetaChunk> for GenericChunk {
    /// The chunk that carries a description: named `META`, with the checksum of its
    /// payload.
    fn from(meta: &MetaChunk) -> (chunk: GenericChunk)
        ensures
            chunk@ == meta_chunk(meta@),
    {
        let serialized_data = meta.serialize();
        let crc_sum = checksum(serialized_data.as_slice());
        GenericChunk {
            length: #[verifier::truncate] (serialized_data.len() as u32),
            name: META_CHUNK_NAME.to_owned(),
            data: serialized_data,
            crc: crc_sum,
        }
    }
}

impl FromSpecImpl<&HashLookupTable> for GenericChunk {
    open spec fn obeys_from_spec() -> bool {
        false
    }

    open spec fn from_spec(table: &HashLookupTable) -> GenericChunk {
        arbitrary()
    }
}

impl From<&HashLookupTable> for GenericChunk {
    /// The chunk that carries a lookup table: named `HTBL`, with the checksum of its
    /// payload.
    fn from(table: &HashLookupTable) -> (chunk: GenericChunk)
        ensures
            chunk@ == table_chunk(table@),
    {
        let serialized_data = table.serialize();
        let crc_sum = checksum(serialized_data.as_slice());
        GenericChunk {
            length: #[verifier::truncate] (serialized_data.len() as u32),
            name: HTBL_CHUNK_NAME.to_owned(),
            data: serialized_data,
            crc: crc_sum,
        }
    }
}

} // verus!
