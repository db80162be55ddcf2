use crate::chunks::{
    chunk_result, encode_chunk, packed, DataEntry, GenericChunk, HashEntry, HashLookupTable,
    MetaChunk, BDF_HDR, HTBL_CHUNK_NAME, LZMA, META_CHUNK_NAME,
};
use crate::error::BdfError;
use crate::codec::read_u32;
use crate::format::{
    chunk_count_for, data_chunk, dense, encodes, expect_chunk, handed_out, head_bytes,
    keyed_by_id, magic, missing, open_meta, open_table, parse_chunk, ChunkView, HashEntryView, MetaChunkView,
    PackedEntry, TableView,
};
use crate::text::name_is;
use std::collections::HashMap;
use vstd::slice::slice_subrange;

use vstd::prelude::*;
use vstd::std_specs::hash::*;

verus! {

/// What a reader holds: the container's bytes, how far it has read, and what it has
/// learnt of the container.
pub struct ReaderView {
    pub source: Seq<u8>,
    pub position: int,
    pub metadata: Option<MetaChunkView>,
    pub lookup_table: Option<TableView>,
    pub compressed: bool,
}

impl ReaderView {
    /// Whether the reader stands within its source.
    pub open spec fn wf(self) -> bool {
        0 <= self.position <= self.source.len()
    }

    /// The bytes that lie before the next chunk: the magic bytes, as long as the meta
    /// chunk has not been read.
    pub open spec fn lead(self) -> int {
        if self.metadata is None {
            11
        } else {
            0
        }
    }
}

/// Reads a container from its bytes: the magic bytes and the meta chunk, the
/// lookup-table chunk, and then one data chunk after the other.
pub struct BDFReader {
    source: Vec<u8>,
    position: usize,
    pub metadata: Option<MetaChunk>,
    pub lookup_table: Option<HashLookupTable>,
    compressed: bool,
}

impl View for BDFReader {
    type V = ReaderView;

    closed spec fn view(&self) -> ReaderView {
        ReaderView {
            source: self.source@,
            position: self.position as int,
            metadata: match self.metadata {
                Some(meta) => Some(meta@),
                None => None,
            },
            lookup_table: match self.lookup_table {
                Some(table) => Some(table@),
                None => None,
            },
            compressed: self.compressed,
        }
    }
}

impl BDFReader {
    /// A reader at the start of a container's bytes.
    pub fn new(source: Vec<u8>) -> (reader: Self)
        ensures
            reader@ == (ReaderView {
                source: source@,
                position: 0,
                metadata: None,
                lookup_table: None,
                compressed: false,
            }),
            reader@.wf(),
    {
        Self { metadata: None, lookup_table: None, source, position: 0, compressed: false }
    }

    /// Gives the reader the bytes that follow those it holds.
    pub fn supply(&mut self, more: &[u8])
        ensures
            final(self)@ == (ReaderView { source: old(self)@.source + more@, ..old(self)@ }),
            old(self)@.wf() ==> final(self)@.wf(),
    {
        self.source.extend_from_slice(more);
        assert(self.source@ =~= old(self).source@ + more@);
    }

    /// How many bytes the reader lacks before its next chunk lies whole before it: the
    /// number of bytes to supply before the next reading step.
    pub fn wanted(&self) -> (more: u64)
        requires
            self@.wf(),
        ensures
            more == missing(self@.source, self@.position, self@.lead()),
    {
        let lead: usize = if self.metadata.is_none() {
            11
        } else {
            0
        };
        let have = self.source.len() - self.position;
        if have < lead + 8 {
            return (lead + 8 - have) as u64;
        }
        let at = self.position + lead;
        let length = read_u32(slice_subrange(self.source.as_slice(), at, at + 4));
        proof {
            assert(self.source@.subrange(at as int, at + 4).subrange(0, 4) =~= self.source@.subrange(
                at as int,
                at + 4,
            ));
        }
        let whole: u64 = lead as u64 + 12 + length as u64;
        if (have as u64) < whole {
            whole - have as u64
        } else {
            0
        }
    }

    /// Lets go of the bytes that have been read: the reader stands at the start of
    /// the bytes that remain.
    pub fn compact(&mut self)
        requires
            old(self)@.wf(),
        ensures
            final(self)@ == (ReaderView {
                source: old(self)@.source.skip(old(self)@.position),
                position: 0,
                ..old(self)@
            }),
            final(self)@.wf(),
    {
        let rest = self.source.split_off(self.position);
        self.source = rest;
        self.position = 0;
    }

    /// Whether the reader has read all the bytes that it holds.
    pub fn at_end(&self) -> (done: bool)
        ensures
            done == (self@.position >= self@.source.len()),
    {
        self.position >= self.source.len()
    }

    /// What the meta chunk said, once it has been read.
    pub fn metadata(&self) -> (meta: Option<&MetaChunk>)
        ensures
            match meta {
                Some(read) => self@.metadata == Some(read@),
                None => self@.metadata is None,
            },
    {
        self.metadata.as_ref()
    }

    /// The lookup table, once it has been read.
    pub fn lookup_table(&self) -> (table: Option<&HashLookupTable>)
        ensures
            match table {
                Some(read) => self@.lookup_table == Some(read@),
                None => self@.lookup_table is None,
            },
    {
        self.lookup_table.as_ref()
    }

    /// Whether the magic bytes lie at the reader's position.
    fn validate_header(&self) -> (valid: bool)
        ensures
            valid == (self@.source.len() - self@.position >= 11 && self@.source.subrange(
                self@.position,
                self@.position + 11,
            ) == magic()),
    {
        if self.position > self.source.len() || self.source.len() - self.position < 11 {
            return false;
        }
        let mut i: usize = 0;
        while i < 11
            invariant
                i <= 11,
                self.position + 11 <= self.source.len(),
                forall|j: int| 0 <= j < i ==> self.source@[self.position + j] == magic()[j],
            decreases 11 - i,
        {
            if self.source[self.position + i] != BDF_HDR[i] {
                assert(self.source@.subrange(self.position as int, self.position + 11)[i as int]
                    != magic()[i as int]);
                return false;
            }
            i = i + 1;
        }
        assert(self.source@.subrange(self.position as int, self.position + 11) =~= magic());
        true
    }

    /// Reads the chunk of the name `expected` that lies at `at`.
    fn read_expected(&self, at: usize, expected: &str) -> (read: Result<
        (GenericChunk, usize),
        BdfError,
    >)
        ensures
            match read {
                Ok((chunk, next)) => expect_chunk(self@.source, at as int, expected@) == Ok::<
                    (ChunkView, int),
                    BdfError,
                >((chunk@, next as int)),
                Err(e) => expect_chunk(self@.source, at as int, expected@) == Err::<
                    (ChunkView, int),
                    BdfError,
                >(e),
            },
    {
        match GenericChunk::parse(self.source.as_slice(), at) {
            Ok((chunk, next)) => {
                if !name_is(chunk.name(), expected) {
                    Err(BdfError::InvalidChunkName)
                } else if !chunk.has_declared_crc() {
                    Err(BdfError::CrcMismatch)
                } else {
                    Ok((chunk, next))
                }
            },
            Err(e) => Err(e),
        }
    }

    /// Reads the magic bytes and the meta chunk, and keeps what the meta chunk says.
    /// A reader that has done so before refuses; a reader that fails stays as it was.
    pub fn read_metadata(&mut self) -> (read: Result<&MetaChunk, BdfError>)
        ensures
            match after_meta(old(self)@) {
                Ok(after) => read is Ok && Some(read->Ok_0@) == after.metadata && final(self)@
                    == after,
                Err(e) => read is Err && read->Err_0 == e && final(self)@ == old(self)@,
            },
            old(self)@.wf() ==> final(self)@.wf(),
    {
        if self.metadata.is_some() {
            return Err(BdfError::StateViolation);
        }
        if !self.validate_header() {
            return Err(BdfError::InvalidHeader);
        }
        assert(self.position + 11 <= self.source.len());
        let (chunk, next) = match self.read_expected(self.position + 11, META_CHUNK_NAME) {
            Ok(read) => read,
            Err(e) => {
                return Err(e);
            },
        };
        let meta_chunk = match MetaChunk::try_from(chunk) {
            Ok(meta) => meta,
            Err(e) => {
                return Err(e);
            },
        };
        proof {
            meta_chunk.lemma_view();
        }
        let compressed = match &meta_chunk.compression_method {
            Some(method) => {
                if name_is(method, LZMA) {
                    true
                } else {
                    return Err(BdfError::UnsupportedCompression);
                }
            },
            None => false,
        };
        self.compressed = compressed;
        self.position = next;
        self.metadata = Some(meta_chunk);
        match &self.metadata {
            Some(meta) => Ok(meta),
            None => Err(BdfError::StateViolation),
        }
    }

    /// Reads the lookup-table chunk and keeps the table, after the meta chunk if that
    /// has not been read yet. A reader that holds a table refuses; a reader that fails
    /// stays where the failing step found it.
    pub fn read_lookup_table(&mut self) -> (read: Result<&HashLookupTable, BdfError>)
        ensures
            match ready_for_table(old(self)@) {
                Ok(ready) => match after_table(ready) {
                    Ok(after) => read is Ok && Some(read->Ok_0@) == after.lookup_table
                        && final(self)@ == after,
                    Err(e) => read is Err && read->Err_0 == e && final(self)@ == ready,
                },
                Err(e) => read is Err && read->Err_0 == e && final(self)@ == old(self)@,
            },
            old(self)@.wf() ==> final(self)@.wf(),
    {
        if self.metadata.is_none() {
            match self.read_metadata() {
                Ok(_) => {},
                Err(e) => {
                    return Err(e);
                },
            }
        }
        if self.lookup_table.is_some() {
            return Err(BdfError::StateViolation);
        }
        let (chunk, next) = match self.read_expected(self.position, HTBL_CHUNK_NAME) {
            Ok(read) => read,
            Err(e) => {
                return Err(e);
            },
        };
        let lookup_table = match HashLookupTable::try_from(chunk) {
            Ok(table) => table,
            Err(e) => {
                return Err(e);
            },
        };
        self.position = next;
        self.lookup_table = Some(lookup_table);
        match &self.lookup_table {
            Some(table) => Ok(table),
            None => Err(BdfError::StateViolation),
        }
    }

    /// Reads the meta chunk and the lookup-table chunk of a container that has not
    /// been read from yet.
    pub fn read_start(&mut self) -> (read: Result<(), BdfError>)
        ensures
            match after_meta(old(self)@) {
                Ok(ready) => match after_table(ready) {
                    Ok(after) => read is Ok && final(self)@ == after,
                    Err(e) => read == Err::<(), BdfError>(e) && final(self)@ == ready,
                },
                Err(e) => read == Err::<(), BdfError>(e) && final(self)@ == old(self)@,
            },
            old(self)@.wf() ==> final(self)@.wf(),
    {
        match self.read_metadata() {
            Ok(_) => {},
            Err(e) => {
                return Err(e);
            },
        }
        match self.read_lookup_table() {
            Ok(_) => Ok(()),
            Err(e) => Err(e),
        }
    }

    /// Reads the next chunk of a container whose lookup table has been read. The
    /// payload of a data chunk in a compressed container is unpacked; every payload
    /// is handed out only with the checksum that its chunk declares. A reader that
    /// fails stays as it was.
    pub fn next_chunk(&mut self) -> (read: Result<GenericChunk, BdfError>)
        ensures
            old(self)@.lookup_table is None ==> read is Err && read->Err_0
                == BdfError::StateViolation && final(self)@ == old(self)@,
            old(self)@.lookup_table is Some ==> match parse_chunk(
                old(self)@.source,
                old(self)@.position,
            ) {
                Ok(framed) => chunk_result(read) == handed_out(framed.0, old(self)@.compressed)
                    && final(self)@ == if read is Ok {
                    ReaderView { position: framed.1, ..old(self)@ }
                } else {
                    old(self)@
                },
                Err(e) => read is Err && read->Err_0 == e && final(self)@ == old(self)@,
            },
            old(self)@.wf() ==> final(self)@.wf(),
    {
        if self.lookup_table.is_none() {
            return Err(BdfError::StateViolation);
        }
        let (framed, next) = match GenericChunk::parse(self.source.as_slice(), self.position) {
            Ok(parsed) => parsed,
            Err(e) => {
                return Err(e);
            },
        };
        match framed.admitted(self.compressed) {
            Ok(chunk) => {
                self.position = next;
                Ok(chunk)
            },
            Err(e) => Err(e),
        }
    }
}

/// The reader after it has read the magic bytes and the meta chunk.
pub open spec fn after_meta(reader: ReaderView) -> Result<ReaderView, BdfError> {
    if reader.metadata is Some {
        Err(BdfError::StateViolation)
    } else {
        match open_meta(reader.source, reader.position) {
            Ok(opened) => Ok(
                ReaderView {
                    position: opened.1,
                    metadata: Some(opened.0),
                    compressed: opened.0.compression_method is Some,
                    ..reader
                },
            ),
            Err(e) => Err(e),
        }
    }
}

/// The reader as it stands before the lookup-table chunk: as it is, where it has
/// read the meta chunk, and after reading it, where it has not.
pub open spec fn ready_for_table(reader: ReaderView) -> Result<ReaderView, BdfError> {
    if reader.metadata is None {
        after_meta(reader)
    } else {
        Ok(reader)
    }
}

/// The reader after it has read the lookup-table chunk.
pub open spec fn after_table(reader: ReaderView) -> Result<ReaderView, BdfError> {
    if reader.lookup_table is Some {
        Err(BdfError::StateViolation)
    } else {
        match open_table(reader.source, reader.position) {
            Ok(opened) => Ok(
                ReaderView { position: opened.1, lookup_table: Some(opened.0), ..reader },
            ),
            Err(e) => Err(e),
        }
    }
}

/// The number of entries that a chunk holds unless the caller says otherwise.
pub const ENTRIES_PER_CHUNK: u32 = 100_000;

/// What a writer holds: the description and the lookup table of the container, the
/// entries that wait for their chunk, and how far the container has come.
pub struct WriterView {
    pub metadata: MetaChunkView,
    pub lookup_table: TableView,
    pub buffered: Seq<PackedEntry>,
    pub head_written: bool,
    pub closed: bool,
    pub compressed: bool,
    pub compression_level: u32,
}

impl WriterView {
    /// Whether the description names `lzma` exactly where the writer compresses, the
    /// preset of a writer that compresses is one that the codec knows, the
    /// description announces as many chunks as its entries fill, and every entry of
    /// the table carries its id.
    pub open spec fn wf(self) -> bool {
        &&& self.compressed ==> self.compression_level <= 9
        &&& self.metadata.compression_method == if self.compressed {
            Some(LZMA@)
        } else {
            None::<Seq<char>>
        }
        &&& self.metadata.chunk_count == chunk_count_for(
            self.metadata.entry_count,
            self.metadata.entries_per_chunk,
        )
        &&& keyed_by_id(self.lookup_table)
    }

    /// What opens the container, where it has not been emitted yet.
    pub open spec fn pending_head(self) -> Seq<u8> {
        if self.head_written {
            Seq::empty()
        } else {
            head_bytes(self.metadata, self.lookup_table)
        }
    }

    /// The writer after it has handed out its buffered entries for a chunk.
    pub open spec fn packed(self) -> WriterView {
        WriterView { head_written: true, buffered: Seq::empty(), ..self }
    }

    /// Whether `bytes` are what a flush may emit: what opens the container, where
    /// that is still due, and then the chunk of the buffered entries in a form that
    /// the container admits.
    pub open spec fn emits(self, bytes: Seq<u8>) -> bool {
        exists|encoded: Seq<u8>| #[trigger]
            encodes(encoded, data_chunk(self.buffered, self.lookup_table), self.compressed)
                && bytes == self.pending_head() + encoded
    }
}

/// Makes the bytes of a container: it collects the lookup table and the entries, and
/// emits what opens the container once, before the first data chunk.
pub struct BDFWriter {
    metadata: MetaChunk,
    lookup_table: HashLookupTable,
    data_entries: Vec<DataEntry>,
    head_written: bool,
    closed: bool,
    compressed: bool,
    compression_level: u32,
}

impl View for BDFWriter {
    type V = WriterView;

    closed spec fn view(&self) -> WriterView {
        WriterView {
            metadata: self.metadata@,
            lookup_table: self.lookup_table@,
            buffered: packed(self.data_entries@),
            head_written: self.head_written,
            closed: self.closed,
            compressed: self.compressed,
            compression_level: self.compression_level,
        }
    }
}

impl BDFWriter {
    /// A writer of a container that is to hold `entry_count` entries, compressed or
    /// not. It starts with an empty lookup table, chunks of 100000 entries and
    /// preset 1.
    pub fn new(entry_count: u64, compress: bool) -> (writer: Self)
        ensures
            writer@ == (WriterView {
                metadata: MetaChunkView {
                    chunk_count: chunk_count_for(entry_count, ENTRIES_PER_CHUNK),
                    entries_per_chunk: ENTRIES_PER_CHUNK,
                    entry_count,
                    compression_method: if compress {
                        Some(LZMA@)
                    } else {
                        None
                    },
                },
                lookup_table: Map::empty(),
                buffered: Seq::empty(),
                head_written: false,
                closed: false,
                compressed: compress,
                compression_level: 1,
            }),
            writer@.wf(),
    {
        let writer = Self {
            metadata: MetaChunk::new(entry_count, ENTRIES_PER_CHUNK, compress),
            lookup_table: HashLookupTable::new(HashMap::new()),
            data_entries: Vec::new(),
            head_written: false,
            closed: false,
            compressed: compress,
            compression_level: 1,
        };
        proof {
            assert(writer@.lookup_table =~= Map::empty());
            assert(writer@.buffered =~= Seq::empty());
        }
        writer
    }

    /// Whether the writer compresses its data chunks, and at which preset: what a
    /// worker needs to know to encode a chunk that `pack` handed out.
    pub fn encoding(&self) -> (mode: (bool, u32))
        ensures
            mode == (self@.compressed, self@.compression_level),
    {
        (self.compressed, self.compression_level)
    }

    /// Gives `entry` the next free id, which is the number of entries that the table
    /// holds, and puts it into the table. Once the head of the container has been
    /// emitted the table is closed.
    pub fn add_lookup_entry(&mut self, entry: HashEntry) -> (added: Result<u32, BdfError>)
        ensures
            old(self)@.head_written ==> added == Err::<u32, BdfError>(BdfError::StateViolation)
                && final(self)@ == old(self)@,
            !old(self)@.head_written ==> added == Ok::<u32, BdfError>(
                old(self)@.lookup_table.len() as u32,
            ) && final(self)@ == (WriterView {
                lookup_table: old(self)@.lookup_table.insert(
                    old(self)@.lookup_table.len() as u32,
                    HashEntryView { id: old(self)@.lookup_table.len() as u32, ..entry@ },
                ),
                ..old(self)@
            }),
            old(self)@.wf() ==> final(self)@.wf(),
            !old(self)@.head_written && dense(old(self)@.lookup_table)
                && old(self)@.lookup_table.len() <= u32::MAX ==> dense(final(self)@.lookup_table)
                && final(self)@.lookup_table.len() == old(self)@.lookup_table.len() + 1,
    {
        broadcast use group_hash_axioms;

        if self.head_written {
            return Err(BdfError::StateViolation);
        }
        let id = #[verifier::truncate] (self.lookup_table.entries.len() as u32);
        let ghost before = self.lookup_table@;
        proof {
            assert(before.dom() =~= self.lookup_table.entries@.dom());
        }
        let entry = entry.renumbered(id);
        let ghost record = entry@;
        self.lookup_table.entries.insert(id, entry);
        proof {
            assert(self.lookup_table@ =~= before.insert(id, record));
            if dense(before) && before.len() <= u32::MAX {
                broadcast use vstd::set::group_set_axioms;

                assert(before.dom().finite());
                assert(!before.contains_key(id));
                assert(before.insert(id, record).dom() =~= before.dom().insert(id));
            }
        }
        Ok(id)
    }

    /// Changes the number of entries that a chunk holds, and with it the number of
    /// chunks that the description announces. Once the head of the container has
    /// been emitted the description is closed.
    pub fn set_entries_per_chunk(&mut self, number: u32) -> (set: Result<(), BdfError>)
        ensures
            old(self)@.head_written ==> set == Err::<(), BdfError>(BdfError::StateViolation)
                && final(self)@ == old(self)@,
            !old(self)@.head_written ==> set == Ok::<(), BdfError>(()) && final(self)@ == (
            WriterView {
                metadata: MetaChunkView {
                    chunk_count: chunk_count_for(old(self)@.metadata.entry_count, number),
                    entries_per_chunk: number,
                    ..old(self)@.metadata
                },
                ..old(self)@
            }),
            old(self)@.wf() ==> final(self)@.wf(),
    {
        if self.head_written {
            return Err(BdfError::StateViolation);
        }
        self.metadata.set_entries_per_chunk(number);
        Ok(())
    }

    /// Sets the preset for the compression of the chunks that are packed from now on.
    /// A writer that does not compress keeps the number and makes no use of it.
    pub fn set_compression_level(&mut self, level: u32)
        requires
            old(self)@.compressed ==> level <= 9,
        ensures
            final(self)@ == (WriterView { compression_level: level, ..old(self)@ }),
            old(self)@.wf() ==> final(self)@.wf(),
    {
        self.compression_level = level;
    }

    /// Hands out what opens the container, where that is still due, and the chunk of
    /// the buffered entries, not compressed yet; the buffer is empty afterwards. A
    /// writer that has finished refuses.
    pub fn pack(&mut self) -> (job: Result<(Vec<u8>, GenericChunk), BdfError>)
        ensures
            old(self)@.closed ==> job is Err && job->Err_0 == BdfError::StateViolation
                && final(self)@ == old(self)@,
            !old(self)@.closed ==> job is Ok && job->Ok_0.0@ == old(self)@.pending_head()
                && job->Ok_0.1@ == data_chunk(old(self)@.buffered, old(self)@.lookup_table)
                && final(self)@ == old(self)@.packed(),
            old(self)@.wf() ==> final(self)@.wf(),
    {
        if self.closed {
            return Err(BdfError::StateViolation);
        }
        let mut head: Vec<u8> = Vec::new();
        if !self.head_written {
            let mut i: usize = 0;
            while i < 11
                invariant
                    i <= 11,
                    head@ == magic().subrange(0, i as int),
                decreases 11 - i,
            {
                head.push(BDF_HDR[i]);
                assert(head@ =~= magic().subrange(0, i + 1));
                i = i + 1;
            }
            assert(head@ =~= magic());
            let mut generic_meta = GenericChunk::from(&self.metadata);
            let mut meta_raw = generic_meta.serialize();
            head.append(&mut meta_raw);
            let mut generic_lookup = GenericChunk::from(&self.lookup_table);
            let mut lookup_raw = generic_lookup.serialize();
            head.append(&mut lookup_raw);
            self.head_written = true;
        }
        let data_chunk = GenericChunk::from_data_entries(&self.data_entries, &self.lookup_table);
        self.data_entries = Vec::new();
        proof {
            assert(self@.buffered =~= Seq::empty());
        }
        Ok((head, data_chunk))
    }

    /// Emits the buffered entries: what opens the container, where that is still due,
    /// and then the chunk of the entries, compressed where the container is. The
    /// buffer is empty afterwards. A writer that has finished refuses.
    pub fn flush(&mut self) -> (emitted: Result<Vec<u8>, BdfError>)
        requires
            old(self)@.wf(),
        ensures
            final(self)@.wf(),
            old(self)@.closed ==> emitted == Err::<Vec<u8>, BdfError>(BdfError::StateViolation)
                && final(self)@ == old(self)@,
            !old(self)@.closed ==> final(self)@ == old(self)@.packed() && emitted is Ok
                && old(self)@.emits(emitted->Ok_0@),
    {
        let (mut head, chunk) = match self.pack() {
            Ok(job) => job,
            Err(e) => {
                return Err(e);
            },
        };
        let ghost pending = head@;
        match encode_chunk(chunk, self.compressed, self.compression_level) {
            Ok(encoded) => {
                let mut encoded = encoded;
                let ghost tail = encoded@;
                head.append(&mut encoded);
                proof {
                    assert(encodes(
                        tail,
                        data_chunk(old(self)@.buffered, old(self)@.lookup_table),
                        old(self)@.compressed,
                    ) && head@ == old(self)@.pending_head() + tail);
                }
                Ok(head)
            },
            Err(e) => Err(e),
        }
    }

    /// Takes an entry into the buffer and says whether the buffer now holds as many
    /// entries as a chunk is to hold, so that the chunk is due. A writer that has
    /// finished refuses.
    pub fn buffer(&mut self, data_entry: DataEntry) -> (due: Result<bool, BdfError>)
        ensures
            old(self)@.closed ==> due == Err::<bool, BdfError>(BdfError::StateViolation)
                && final(self)@ == old(self)@,
            !old(self)@.closed ==> due == Ok::<bool, BdfError>(
                old(self)@.buffered.len() + 1 >= old(self)@.metadata.entries_per_chunk,
            ) && final(self)@ == old(self)@.taking(data_entry),
            old(self)@.wf() ==> final(self)@.wf(),
    {
        if self.closed {
            return Err(BdfError::StateViolation);
        }
        let ghost before = self@.buffered;
        self.data_entries.push(data_entry);
        proof {
            assert(self@.buffered =~= before.push(
                PackedEntry { plain: data_entry@.plain, pairs: data_entry.pairs() },
            ));
        }
        Ok(self.data_entries.len() >= self.metadata.entries_per_chunk() as usize)
    }

    /// Takes an entry into the buffer, and emits the buffer as `flush` does once it
    /// holds as many entries as a chunk is to hold. A writer that has finished
    /// refuses.
    pub fn add_data_entry(&mut self, data_entry: DataEntry) -> (emitted: Result<Vec<u8>, BdfError>)
        requires
            old(self)@.wf(),
        ensures
            final(self)@.wf(),
            old(self)@.closed ==> emitted == Err::<Vec<u8>, BdfError>(BdfError::StateViolation)
                && final(self)@ == old(self)@,
            !old(self)@.closed && old(self)@.buffered.len() + 1
                < old(self)@.metadata.entries_per_chunk ==> emitted is Ok && emitted->Ok_0@
                == Seq::<u8>::empty() && final(self)@ == old(self)@.taking(data_entry),
            !old(self)@.closed && old(self)@.buffered.len() + 1
                >= old(self)@.metadata.entries_per_chunk ==> emitted is Ok && final(self)@
                == old(self)@.taking(data_entry).packed() && old(self)@.taking(data_entry).emits(
                emitted->Ok_0@,
            ),
    {
        match self.buffer(data_entry) {
            Ok(true) => self.flush(),
            Ok(false) => Ok(Vec::new()),
            Err(e) => Err(e),
        }
    }

    /// Closes the writer: it takes no more entries and hands out no more chunks. A
    /// writer that has finished refuses.
    pub fn close(&mut self) -> (closed: Result<(), BdfError>)
        ensures
            old(self)@.closed ==> closed == Err::<(), BdfError>(BdfError::StateViolation)
                && final(self)@ == old(self)@,
            !old(self)@.closed ==> closed == Ok::<(), BdfError>(()) && final(self)@ == (
            WriterView { closed: true, ..old(self)@ }),
            old(self)@.wf() ==> final(self)@.wf(),
    {
        if self.closed {
            return Err(BdfError::StateViolation);
        }
        self.closed = true;
        Ok(())
    }

    /// Emits what is left in the buffer as `flush` does, and closes the writer.
    pub fn finish(&mut self) -> (emitted: Result<Vec<u8>, BdfError>)
        requires
            old(self)@.wf(),
        ensures
            final(self)@.wf(),
            old(self)@.closed ==> emitted == Err::<Vec<u8>, BdfError>(BdfError::StateViolation)
                && final(self)@ == old(self)@,
            !old(self)@.closed ==> emitted is Ok && final(self)@ == (WriterView {
                closed: true,
                ..old(self)@.packed()
            }) && old(self)@.emits(emitted->Ok_0@),
    {
        if self.closed {
            return Err(BdfError::StateViolation);
        }
        let emitted = self.flush();
        self.closed = true;
        emitted
    }
}

impl WriterView {
    /// The writer with one more entry in its buffer.
    pub open spec fn taking(self, entry: DataEntry) -> WriterView {
        WriterView {
            buffered: self.buffered.push(
                PackedEntry { plain: entry@.plain, pairs: entry.pairs() },
            ),
            ..self
        }
    }
}

} // verus!
