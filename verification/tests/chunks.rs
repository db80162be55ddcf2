use bdflib::chunks::{
    count_chunks, encode_chunk, DataEntry, GenericChunk, HashEntry, HashLookupTable, MetaChunk,
};
use bdflib::error::BdfError;
use std::collections::HashMap;
use std::convert::TryFrom;

fn table(entries: &[(u32, &str, u32)]) -> HashLookupTable {
    let mut reader_side = Vec::new();
    for (id, name, length) in entries {
        reader_side.extend_from_slice(&id.to_be_bytes());
        reader_side.extend_from_slice(&length.to_be_bytes());
        reader_side.extend_from_slice(&(name.len() as u32).to_be_bytes());
        reader_side.extend_from_slice(name.as_bytes());
    }
    let chunk = GenericChunk::new(reader_side.len() as u32, "HTBL".to_string(), reader_side, 0);
    HashLookupTable::try_from(chunk).unwrap()
}

#[test]
fn chunk_count_is_the_ceiling_of_the_quotient() {
    assert_eq!(count_chunks(10, 3), 4);
    assert_eq!(count_chunks(9, 3), 3);
    assert_eq!(count_chunks(1, 100_000), 1);
    assert_eq!(count_chunks(100_001, 100_000), 2);
    assert_eq!(count_chunks(0, 3), 0);
    assert_eq!(count_chunks(u64::MAX, u32::MAX), 4_294_967_297u64.min(u32::MAX as u64) as u32);
    assert_eq!(count_chunks(u64::MAX, 1), u32::MAX);
    assert_eq!(count_chunks(5, 0), u32::MAX);
    assert_eq!(count_chunks(0, 0), 0);
    assert_eq!(MetaChunk::new(2, 24, false).chunk_count, 1);
}

#[test]
fn meta_chunk_has_its_twenty_bytes() {
    let meta = MetaChunk::new(0x0102_0304_0506_0708, 0x0A0B_0C0D, true);
    assert_eq!(meta.chunk_count, 0x0102_0304_0506_0708u64.div_ceil(0x0A0B_0C0D) as u32);
    let count = meta.chunk_count.to_be_bytes();
    assert_eq!(
        meta.serialize(),
        vec![
            count[0], count[1], count[2], count[3], 0x0A, 0x0B, 0x0C, 0x0D, 1, 2, 3, 4, 5, 6, 7,
            8, b'l', b'z', b'm', b'a'
        ]
    );
    let plain = MetaChunk::new(2, 24, false);
    assert_eq!(
        plain.serialize(),
        vec![0, 0, 0, 1, 0, 0, 0, 24, 0, 0, 0, 0, 0, 0, 0, 2, 0, 0, 0, 0]
    );
}

#[test]
fn meta_chunk_survives_its_chunk() {
    for compress in [false, true] {
        let meta = MetaChunk::new(1234567, 1000, compress);
        let chunk = GenericChunk::from(&meta);
        assert_eq!(chunk.name(), "META");
        assert_eq!(chunk.length, 20);
        assert_eq!(chunk.crc, crc::crc32::checksum_ieee(&chunk.data));
        let back = MetaChunk::try_from(chunk).unwrap();
        assert_eq!(back.chunk_count, 1235);
        assert_eq!(back.entries_per_chunk(), 1000);
        assert_eq!(back.entry_count, 1234567);
        assert_eq!(back.compression_method, meta.compression_method);
    }
}

#[test]
fn meta_chunk_parsing_names_its_errors() {
    let short = GenericChunk::new(19, "META".to_string(), vec![0; 19], 0);
    assert_eq!(MetaChunk::try_from(short).err(), Some(BdfError::Truncation));
    let stranger = GenericChunk::new(20, "HTBL".to_string(), vec![0; 20], 0);
    assert_eq!(MetaChunk::try_from(stranger).err(), Some(BdfError::InvalidChunkName));
    let mut garbled = vec![0; 16];
    garbled.extend_from_slice(&[0xFF, 0xFE, 0x00, 0x00]);
    let chunk = GenericChunk::new(20, "META".to_string(), garbled, 0);
    assert_eq!(MetaChunk::try_from(chunk).err(), Some(BdfError::InvalidUtf8));
    let mut other = vec![0; 16];
    other.extend_from_slice(b"zstd");
    let chunk = GenericChunk::new(20, "META".to_string(), other, 0);
    assert_eq!(MetaChunk::try_from(chunk).unwrap().compression_method, Some("zstd".to_string()));
}

#[test]
fn hash_entry_has_its_record() {
    let entry = HashEntry::new("sha256".to_string(), 32);
    assert_eq!(
        entry.serialize(),
        vec![0, 0, 0, 0, 0, 0, 0, 32, 0, 0, 0, 6, b's', b'h', b'a', b'2', b'5', b'6']
    );
}

#[test]
fn lookup_table_is_written_in_the_order_of_its_ids() {
    let lookup = table(&[(2, "c", 3), (0, "a", 1), (1, "b", 2)]);
    assert_eq!(
        lookup.serialize(),
        vec![
            0, 0, 0, 0, 0, 0, 0, 1, 0, 0, 0, 1, b'a', 0, 0, 0, 1, 0, 0, 0, 2, 0, 0, 0, 1, b'b', 0,
            0, 0, 2, 0, 0, 0, 3, 0, 0, 0, 1, b'c'
        ]
    );
    assert_eq!(HashLookupTable::new(HashMap::new()).serialize(), Vec::<u8>::new());
    assert_eq!(lookup.ids(), vec![0, 1, 2]);
}

#[test]
fn lookup_table_survives_its_chunk() {
    let lookup = table(&[(0, "md5", 16), (1, "sha1", 20), (7, "sha256", 32)]);
    let chunk = GenericChunk::from(&lookup);
    assert_eq!(chunk.name(), "HTBL");
    assert_eq!(chunk.length as usize, chunk.data.len());
    assert_eq!(chunk.crc, crc::crc32::checksum_ieee(&chunk.data));
    let back = HashLookupTable::try_from(chunk).unwrap();
    assert_eq!(back.entries.len(), 3);
    assert_eq!(back.ids(), vec![0, 1, 7]);
    let (id, entry) = back.get_entry(&"sha256".to_string()).unwrap();
    assert_eq!(*id, 7);
    assert_eq!(
        entry.serialize(),
        vec![0, 0, 0, 7, 0, 0, 0, 32, 0, 0, 0, 6, b's', b'h', b'a', b'2', b'5', b'6']
    );
    assert!(back.get_entry(&"sha512".to_string()).is_none());
}

#[test]
fn a_name_resolves_to_its_first_id() {
    let lookup = table(&[(5, "dup", 1), (3, "dup", 2), (9, "dup", 3), (1, "other", 4)]);
    let (id, _) = lookup.get_entry(&"dup".to_string()).unwrap();
    assert_eq!(*id, 3);
}

#[test]
fn lookup_table_parsing_passes_over_a_short_tail_and_names_its_errors() {
    let mut payload = HashEntry::new("md5".to_string(), 16).serialize();
    payload.extend_from_slice(&[1, 2, 3, 4, 5, 6, 7, 8, 9, 10, 11]);
    let chunk = GenericChunk::new(0, "HTBL".to_string(), payload, 0);
    assert_eq!(HashLookupTable::try_from(chunk).unwrap().entries.len(), 1);

    // an entry without a name is an entry
    let nameless = vec![0, 0, 0, 4, 0, 0, 0, 1, 0, 0, 0, 0];
    let chunk = GenericChunk::new(0, "HTBL".to_string(), nameless, 0);
    assert_eq!(HashLookupTable::try_from(chunk).unwrap().ids(), vec![4]);

    // the later of two records with one id stands
    let twice = table(&[(1, "old", 1), (1, "new", 2)]);
    assert!(twice.get_entry(&"old".to_string()).is_none());
    assert!(twice.get_entry(&"new".to_string()).is_some());

    let cut = vec![0, 0, 0, 0, 0, 0, 0, 1, 0, 0, 0, 5, b'a', b'b'];
    let chunk = GenericChunk::new(0, "HTBL".to_string(), cut, 0);
    assert_eq!(HashLookupTable::try_from(chunk).err(), Some(BdfError::Truncation));

    let garbled = vec![0, 0, 0, 0, 0, 0, 0, 1, 0, 0, 0, 2, 0xC3, 0x28];
    let chunk = GenericChunk::new(0, "HTBL".to_string(), garbled, 0);
    assert_eq!(HashLookupTable::try_from(chunk).err(), Some(BdfError::InvalidUtf8));

    let stranger = GenericChunk::new(0, "META".to_string(), Vec::new(), 0);
    assert_eq!(HashLookupTable::try_from(stranger).err(), Some(BdfError::InvalidChunkName));
}

#[test]
fn data_entry_keeps_one_digest_per_name() {
    let mut entry = DataEntry::new("secret".to_string());
    assert_eq!(entry.get_hash_value("md5".to_string()), None);
    entry.add_hash_value("md5".to_string(), vec![1, 2]);
    entry.add_hash_value("sha1".to_string(), vec![3]);
    entry.add_hash_value("md5".to_string(), vec![9, 9]);
    assert_eq!(entry.get_hash_value("md5".to_string()), Some(&vec![9, 9]));
    assert_eq!(entry.get_hash_value("sha1".to_string()), Some(&vec![3]));
    let lookup = table(&[(0, "md5", 2), (1, "sha1", 1)]);
    assert_eq!(
        entry.serialize(&lookup),
        vec![
            0, 0, 0, 21, 0, 0, 0, 6, b's', b'e', b'c', b'r', b'e', b't', 0, 0, 0, 0, 9, 9, 0, 0,
            0, 1, 3
        ]
    );
}

#[test]
fn a_digest_of_an_unknown_name_is_left_out() {
    let mut entry = DataEntry::new("pw".to_string());
    entry.add_hash_value("whirlpool".to_string(), vec![1, 2, 3]);
    entry.add_hash_value("md5".to_string(), vec![7]);
    let lookup = table(&[(4, "md5", 1)]);
    assert_eq!(
        entry.serialize(&lookup),
        vec![0, 0, 0, 11, 0, 0, 0, 2, b'p', b'w', 0, 0, 0, 4, 7]
    );
}

#[test]
fn data_chunk_survives_its_bytes() {
    let lookup = table(&[(0, "md5", 2), (1, "sha1", 3)]);
    let mut first = DataEntry::new("".to_string());
    first.add_hash_value("sha1".to_string(), vec![1, 2, 3]);
    let second = DataEntry::new("nothing".to_string());
    let mut third = DataEntry::new("pässwörd".to_string());
    third.add_hash_value("md5".to_string(), vec![0xAA, 0xBB]);
    third.add_hash_value("sha1".to_string(), vec![4, 5, 6]);
    let last = DataEntry::new("".to_string());
    let entries = vec![first, second, third, last];
    let mut chunk = GenericChunk::from_data_entries(&entries, &lookup);
    assert_eq!(chunk.name(), "DTBL");
    assert_eq!(chunk.length as usize, chunk.data.len());
    assert_eq!(chunk.crc, crc::crc32::checksum_ieee(&chunk.data));
    let expected_crc = chunk.crc;
    let expected_data = chunk.data.clone();

    let bytes = chunk.serialize();
    assert!(chunk.data.is_empty());
    assert_eq!(bytes.len(), 12 + expected_data.len());
    let (mut back, end) = GenericChunk::parse(&bytes, 0).unwrap();
    assert_eq!(end, bytes.len());
    assert_eq!(back.length as usize, expected_data.len());
    assert_eq!(back.name(), "DTBL");
    assert_eq!(back.data, expected_data);
    assert_eq!(back.crc, expected_crc);

    let decoded = back.data_entries(&lookup).unwrap();
    assert_eq!(decoded.len(), 4);
    assert_eq!(decoded[0].plain, "");
    assert_eq!(decoded[0].get_hash_value("sha1".to_string()), Some(&vec![1, 2, 3]));
    assert_eq!(decoded[0].get_hash_value("md5".to_string()), None);
    assert_eq!(decoded[1].plain, "nothing");
    assert_eq!(decoded[1].get_hash_value("md5".to_string()), None);
    assert_eq!(decoded[2].plain, "pässwörd");
    assert_eq!(decoded[2].get_hash_value("md5".to_string()), Some(&vec![0xAA, 0xBB]));
    assert_eq!(decoded[2].get_hash_value("sha1".to_string()), Some(&vec![4, 5, 6]));
    assert_eq!(decoded[3].plain, "");
}

#[test]
fn chunk_bytes_are_length_name_payload_checksum() {
    let mut chunk = GenericChunk::new(3, "DTBL".to_string(), vec![7, 8, 9], 0xCAFEBABE);
    assert_eq!(
        chunk.serialize(),
        vec![0, 0, 0, 3, b'D', b'T', b'B', b'L', 7, 8, 9, 0xCA, 0xFE, 0xBA, 0xBE]
    );
    let bytes = vec![0xFF, 1, 2, 0, 0, 0, 1, b'M', b'E', b'T', b'A', 0x55, 0x12, 0x34, 0x56, 0x78];
    let (chunk, end) = GenericChunk::parse(&bytes, 3).unwrap();
    assert_eq!(end, 16);
    assert_eq!(chunk.length, 1);
    assert_eq!(chunk.name(), "META");
    assert_eq!(chunk.data, vec![0x55]);
    assert_eq!(chunk.crc, 0x12345678);
}

#[test]
fn chunk_parsing_names_its_errors() {
    let bytes = vec![0, 0, 0, 2, b'D', b'T', b'B', b'L', 7, 8, 1, 2, 3, 4];
    for cut in 0..bytes.len() {
        assert_eq!(GenericChunk::parse(&bytes[..cut], 0).err(), Some(BdfError::Truncation));
    }
    assert!(GenericChunk::parse(&bytes, 0).is_ok());
    assert_eq!(GenericChunk::parse(&bytes, 1).err(), Some(BdfError::Truncation));
    assert_eq!(GenericChunk::parse(&bytes, 15).err(), Some(BdfError::Truncation));
    let garbled = vec![0, 0, 0, 0, 0xFF, 0xFF, b'B', b'L', 1, 2, 3, 4];
    assert_eq!(GenericChunk::parse(&garbled, 0).err(), Some(BdfError::InvalidUtf8));
}

#[test]
fn data_entries_names_its_errors() {
    let lookup = table(&[(0, "md5", 2)]);
    let mut htbl = GenericChunk::new(0, "HTBL".to_string(), Vec::new(), 0);
    assert_eq!(htbl.data_entries(&lookup).err(), Some(BdfError::InvalidChunkName));

    // the plaintext runs past the payload
    let mut cut = GenericChunk::new(0, "DTBL".to_string(), vec![0, 0, 0, 9, 0, 0, 0, 5, b'a'], 0);
    assert_eq!(cut.data_entries(&lookup).err(), Some(BdfError::Truncation));

    // a digest record names id 3, which the table does not hold
    let unknown = vec![0, 0, 0, 11, 0, 0, 0, 1, b'a', 0, 0, 0, 3, 1, 2];
    let mut chunk = GenericChunk::new(0, "DTBL".to_string(), unknown, 0);
    assert_eq!(chunk.data_entries(&lookup).err(), Some(BdfError::UnknownHashId));

    // the digest is shorter than the table says
    let short = vec![0, 0, 0, 10, 0, 0, 0, 1, b'a', 0, 0, 0, 0, 1];
    let mut chunk = GenericChunk::new(0, "DTBL".to_string(), short, 0);
    assert_eq!(chunk.data_entries(&lookup).err(), Some(BdfError::Truncation));

    // the id of a digest record is cut
    let no_id = vec![0, 0, 0, 8, 0, 0, 0, 1, b'a', 0, 0, 0];
    let mut chunk = GenericChunk::new(0, "DTBL".to_string(), no_id, 0);
    assert_eq!(chunk.data_entries(&lookup).err(), Some(BdfError::Truncation));

    let garbled = vec![0, 0, 0, 6, 0, 0, 0, 2, 0xC3, 0x28];
    let mut chunk = GenericChunk::new(0, "DTBL".to_string(), garbled, 0);
    assert_eq!(chunk.data_entries(&lookup).err(), Some(BdfError::InvalidUtf8));

    // fewer than eight bytes at the end are passed over
    let slack = vec![0, 0, 0, 5, 0, 0, 0, 1, b'a', 1, 2, 3, 4, 5, 6, 7];
    let mut chunk = GenericChunk::new(0, "DTBL".to_string(), slack, 0);
    let decoded = chunk.data_entries(&lookup).unwrap();
    assert_eq!(decoded.len(), 1);
    assert_eq!(decoded[0].plain, "a");
}

#[test]
fn compression_round_trips_and_keeps_the_checksum() {
    let payload: Vec<u8> = (0..2000u32).map(|i| (i % 7) as u8).collect();
    let crc = crc::crc32::checksum_ieee(&payload);
    for level in [0, 1, 6, 9] {
        let mut chunk = GenericChunk::new(2000, "DTBL".to_string(), payload.clone(), crc);
        chunk.compress(level).unwrap();
        assert_ne!(chunk.data, payload);
        assert_eq!(chunk.length as usize, chunk.data.len());
        assert!(chunk.data.len() < payload.len());
        assert_eq!(chunk.crc, crc);
        assert_eq!(&chunk.data[..6], &[0xFD, b'7', b'z', b'X', b'Z', 0x00]);
        chunk.decompress().unwrap();
        assert_eq!(chunk.data, payload);
        assert_eq!(chunk.length, 2000);
        assert_eq!(chunk.crc, crc);
    }
}

#[test]
fn decompression_checks_the_checksum() {
    let payload = b"the quick brown fox".to_vec();
    let crc = crc::crc32::checksum_ieee(&payload);
    let mut chunk = GenericChunk::new(19, "DTBL".to_string(), payload, crc ^ 1);
    chunk.compress(1).unwrap();
    let packed = chunk.data.clone();
    assert_eq!(chunk.decompress(), Err(BdfError::CrcMismatch));
    assert_eq!(chunk.data, packed);

    let mut garbage = GenericChunk::new(4, "DTBL".to_string(), vec![1, 2, 3, 4], 0);
    assert_eq!(garbage.decompress(), Err(BdfError::IoError));
    assert_eq!(garbage.data, vec![1, 2, 3, 4]);
}

#[test]
fn checksum_is_the_crc32_of_zlib() {
    let intact = GenericChunk::new(9, "DTBL".to_string(), b"123456789".to_vec(), 0xCBF4_3926);
    assert!(intact.has_declared_crc());
    let wrong = GenericChunk::new(9, "DTBL".to_string(), b"123456789".to_vec(), 0xCBF4_3927);
    assert!(!wrong.has_declared_crc());
    let mut chunk = GenericChunk::new(0, "DTBL".to_string(), Vec::new(), 0);
    assert_eq!(chunk.set_intact_payload(b"123456789".to_vec()), Err(BdfError::CrcMismatch));
    chunk.crc = 0xCBF4_3926;
    assert_eq!(chunk.set_intact_payload(b"123456789".to_vec()), Ok(()));
    assert_eq!(chunk.length, 9);
}

#[test]
fn a_worker_encodes_a_chunk_as_the_container_asks() {
    let payload = vec![5u8; 300];
    let crc = crc::crc32::checksum_ieee(&payload);
    let chunk = GenericChunk::new(300, "DTBL".to_string(), payload.clone(), crc);
    let plain = encode_chunk(chunk.clone(), false, 1).unwrap();
    assert_eq!(plain.len(), 312);
    assert_eq!(&plain[8..308], &payload[..]);
    let packed = encode_chunk(chunk, true, 1).unwrap();
    let (back, end) = GenericChunk::parse(&packed, 0).unwrap();
    assert_eq!(end, packed.len());
    let back = back.admitted(true).unwrap();
    assert_eq!(back.data, payload);
    assert_eq!(back.crc, crc);
}

#[test]
fn the_preset_counts_only_where_a_chunk_is_compressed() {
    let chunk = GenericChunk::new(2, "DTBL".to_string(), vec![1, 2], 0);
    assert_eq!(
        encode_chunk(chunk, false, 4_000_000_000),
        Ok(vec![0, 0, 0, 2, b'D', b'T', b'B', b'L', 1, 2, 0, 0, 0, 0])
    );
}

#[test]
fn compression_always_gives_a_stream_that_unpacks() {
    for payload in [Vec::new(), vec![0u8], vec![0xAB; 70_000]] {
        let crc = crc::crc32::checksum_ieee(&payload);
        for level in 0..=9 {
            let mut chunk =
                GenericChunk::new(payload.len() as u32, "DTBL".to_string(), payload.clone(), crc);
            assert_eq!(chunk.compress(level), Ok(()));
            assert_eq!(chunk.decompress(), Ok(()));
            assert_eq!(chunk.data, payload);
            assert_eq!(chunk.length as usize, payload.len());
            assert_eq!(chunk.crc, crc);
            assert_eq!(chunk.name(), "DTBL");
        }
    }
}

#[test]
fn the_checksum_of_no_bytes_is_zero() {
    let empty: Vec<DataEntry> = Vec::new();
    let chunk = GenericChunk::from_data_entries(&empty, &HashLookupTable::new(HashMap::new()));
    assert_eq!(chunk.crc, 0);
    assert_eq!(chunk.length, 0);
    assert!(chunk.has_declared_crc());
}

#[test]
fn a_rejected_stream_and_a_wrong_checksum_are_told_apart() {
    let payload = b"told apart".to_vec();
    let crc = crc::crc32::checksum_ieee(&payload);
    let mut good = GenericChunk::new(10, "DTBL".to_string(), payload.clone(), crc);
    good.compress(2).unwrap();
    let stream = good.data.clone();

    // the decoder accepts the stream and the checksum differs
    let wrong = GenericChunk::new(stream.len() as u32, "DTBL".to_string(), stream.clone(), !crc);
    assert_eq!(wrong.admitted(true).err(), Some(BdfError::CrcMismatch));

    // the decoder rejects a stream that is cut short
    let cut = stream[..stream.len() - 5].to_vec();
    let short = GenericChunk::new(cut.len() as u32, "DTBL".to_string(), cut, crc);
    assert_eq!(short.admitted(true).err(), Some(BdfError::IoError));

    // the decoder accepts and the checksum agrees
    let whole = GenericChunk::new(stream.len() as u32, "DTBL".to_string(), stream, crc);
    let back = whole.admitted(true).unwrap();
    assert_eq!(back.data, payload);
    assert_eq!(back.length, 10);
}
