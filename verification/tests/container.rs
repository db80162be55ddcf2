use bdflib::chunks::{DataEntry, GenericChunk, HashEntry};
use bdflib::error::BdfError;
use bdflib::io::{BDFReader, BDFWriter};

const FOO: &str = "foo";
const BAR: &str = "bar";

fn entry(plain: &str, digests: &[(&str, Vec<u8>)]) -> DataEntry {
    let mut entry = DataEntry::new(plain.to_string());
    for (name, value) in digests {
        entry.add_hash_value(name.to_string(), value.clone());
    }
    entry
}

fn create_simple_file(compressed: bool) -> Vec<u8> {
    let mut writer = BDFWriter::new(1, compressed);
    writer.add_lookup_entry(HashEntry::new(FOO.to_string(), 4)).unwrap();
    let mut file = writer.add_data_entry(entry("lol", &[(FOO, vec![2, 4, 0, 2])])).unwrap();
    file.extend(writer.finish().unwrap());
    file
}

fn two_entry_file(compressed: bool, level: u32) -> Vec<u8> {
    let mut writer = BDFWriter::new(2, compressed);
    writer.set_entries_per_chunk(24).unwrap();
    writer.set_compression_level(level);
    assert_eq!(writer.add_lookup_entry(HashEntry::new(BAR.to_string(), 5)).unwrap(), 0);
    assert_eq!(writer.add_lookup_entry(HashEntry::new(FOO.to_string(), 4)).unwrap(), 1);
    let mut file = Vec::new();
    file.extend(
        writer
            .add_data_entry(entry(
                "lol",
                &[(FOO, vec![0, 1, 0, 2]), (BAR, vec![0, 2, 3, 4, 5])],
            ))
            .unwrap(),
    );
    file.extend(
        writer
            .add_data_entry(entry(
                "lel",
                &[(BAR, vec![0, 3, 2, 1, 5]), (FOO, vec![4, 5, 2, 3])],
            ))
            .unwrap(),
    );
    file.extend(writer.finish().unwrap());
    file
}

fn read_all(file: Vec<u8>) -> Vec<Vec<DataEntry>> {
    let mut reader = BDFReader::new(file);
    reader.read_start().unwrap();
    let table = reader.lookup_table.clone().unwrap();
    let mut chunks = Vec::new();
    while !reader.at_end() {
        let mut chunk = reader.next_chunk().unwrap();
        chunks.push(chunk.data_entries(&table).unwrap());
    }
    assert_eq!(reader.next_chunk().err(), Some(BdfError::Truncation));
    chunks
}

#[test]
fn it_writes_uncompressed() {
    let mut writer = BDFWriter::new(2, false);
    writer.set_entries_per_chunk(24).unwrap();

    writer.add_lookup_entry(HashEntry::new(BAR.to_string(), 5)).unwrap();
    writer.add_lookup_entry(HashEntry::new(FOO.to_string(), 4)).unwrap();

    let mut entry_1 = DataEntry::new("lol".to_string());
    entry_1.add_hash_value(FOO.to_string(), vec![0, 1, 0, 2]);
    entry_1.add_hash_value(BAR.to_string(), vec![0, 2, 3, 4, 5]);
    let first = writer.add_data_entry(entry_1).unwrap();
    assert!(first.is_empty());

    let mut entry_2 = DataEntry::new("lel".to_string());
    entry_2.add_hash_value(BAR.to_string(), vec![0, 3, 2, 1, 5]);
    entry_2.add_hash_value(FOO.to_string(), vec![4, 5, 2, 3]);
    let second = writer.add_data_entry(entry_2).unwrap();
    assert!(second.is_empty());

    let file = writer.finish().unwrap();
    assert_eq!(&file[..11], b"BDF\x01RAINBOW");
}

#[test]
fn it_writes_compressed() {
    let mut writer = BDFWriter::new(2, true);
    writer.set_compression_level(3);

    writer.add_lookup_entry(HashEntry::new(FOO.to_string(), 4)).unwrap();
    writer.add_lookup_entry(HashEntry::new(BAR.to_string(), 5)).unwrap();

    let mut entry_1 = DataEntry::new("lol".to_string());
    entry_1.add_hash_value(FOO.to_string(), vec![2, 4, 0, 2]);
    entry_1.add_hash_value(BAR.to_string(), vec![5, 2, 1, 4, 5]);
    writer.add_data_entry(entry_1).unwrap();

    let mut entry_2 = DataEntry::new("lel".to_string());
    entry_2.add_hash_value(BAR.to_string(), vec![0, 3, 2, 1, 5]);
    entry_2.add_hash_value(FOO.to_string(), vec![4, 5, 2, 3]);
    writer.add_data_entry(entry_2).unwrap();

    let file = writer.finish().unwrap();
    assert_eq!(&file[..11], b"BDF\x01RAINBOW");
}

#[test]
fn it_reads() {
    let file = create_simple_file(false);
    let mut reader = BDFReader::new(file);
    reader.read_start().unwrap();
    let lookup_table = &reader.lookup_table.clone().unwrap();
    let mut next_chunk = reader.next_chunk().unwrap();
    let data_entries = next_chunk.data_entries(lookup_table).unwrap();
    assert_eq!(data_entries[0].plain, "lol".to_string());
}

#[test]
fn it_reads_compressed() {
    let file = create_simple_file(true);
    let mut reader = BDFReader::new(file);
    reader.read_metadata().unwrap();
    let lookup_table = &reader.read_lookup_table().unwrap().clone();
    let mut next_chunk = reader.next_chunk().unwrap();
    let data_entries = next_chunk.data_entries(lookup_table).unwrap();
    assert_eq!(data_entries[0].plain, "lol".to_string());
}

#[test]
fn uncompressed_round_trip_gives_the_entries_back() {
    let chunks = read_all(two_entry_file(false, 1));
    assert_eq!(chunks.len(), 1);
    let entries = &chunks[0];
    assert_eq!(entries.len(), 2);
    assert_eq!(entries[0].plain, "lol");
    assert_eq!(entries[0].get_hash_value(FOO.to_string()), Some(&vec![0, 1, 0, 2]));
    assert_eq!(entries[0].get_hash_value(BAR.to_string()), Some(&vec![0, 2, 3, 4, 5]));
    assert_eq!(entries[1].plain, "lel");
    assert_eq!(entries[1].get_hash_value(BAR.to_string()), Some(&vec![0, 3, 2, 1, 5]));
    assert_eq!(entries[1].get_hash_value(FOO.to_string()), Some(&vec![4, 5, 2, 3]));
    assert_eq!(entries[1].get_hash_value("baz".to_string()), None);
}

#[test]
fn compressed_round_trip_gives_the_entries_back() {
    let chunks = read_all(two_entry_file(true, 3));
    assert_eq!(chunks.len(), 1);
    let entries = &chunks[0];
    assert_eq!(entries.len(), 2);
    assert_eq!(entries[0].plain, "lol");
    assert_eq!(entries[0].get_hash_value(FOO.to_string()), Some(&vec![0, 1, 0, 2]));
    assert_eq!(entries[0].get_hash_value(BAR.to_string()), Some(&vec![0, 2, 3, 4, 5]));
    assert_eq!(entries[1].plain, "lel");
    assert_eq!(entries[1].get_hash_value(BAR.to_string()), Some(&vec![0, 3, 2, 1, 5]));
    assert_eq!(entries[1].get_hash_value(FOO.to_string()), Some(&vec![4, 5, 2, 3]));
}

#[test]
fn compression_changes_the_payload_and_keeps_the_checksum() {
    let plain = two_entry_file(false, 1);
    let packed = two_entry_file(true, 3);
    let head = 11 + 32 + (12 + (12 + 3) * 2);
    let (plain_chunk, plain_end) = GenericChunk::parse(&plain, head).unwrap();
    let (packed_chunk, packed_end) = GenericChunk::parse(&packed, head).unwrap();
    assert_eq!(plain_end, plain.len());
    assert_eq!(packed_end, packed.len());
    assert_eq!(plain_chunk.name(), "DTBL");
    assert_eq!(packed_chunk.name(), "DTBL");
    assert_ne!(plain_chunk.data.len(), packed_chunk.data.len());
    assert_ne!(plain_chunk.data, packed_chunk.data);
    assert_eq!(plain_chunk.crc, packed_chunk.crc);
    assert_eq!(plain_chunk.crc, crc::crc32::checksum_ieee(&plain_chunk.data));
}

#[test]
fn entries_come_back_in_the_order_of_submission() {
    let mut writer = BDFWriter::new(7, true);
    writer.set_entries_per_chunk(3).unwrap();
    writer.add_lookup_entry(HashEntry::new(FOO.to_string(), 2)).unwrap();
    let mut file = Vec::new();
    for i in 0..7u8 {
        let plain = format!("plain-{}", i);
        file.extend(writer.add_data_entry(entry(&plain, &[(FOO, vec![i, i + 1])])).unwrap());
    }
    file.extend(writer.finish().unwrap());
    let chunks = read_all(file);
    assert_eq!(chunks.iter().map(|c| c.len()).collect::<Vec<usize>>(), vec![3, 3, 1]);
    let all: Vec<&DataEntry> = chunks.iter().flatten().collect();
    for i in 0..7u8 {
        assert_eq!(all[i as usize].plain, format!("plain-{}", i));
        assert_eq!(all[i as usize].get_hash_value(FOO.to_string()), Some(&vec![i, i + 1]));
    }
}

#[test]
fn a_full_buffer_is_emitted_with_the_head_first() {
    let mut writer = BDFWriter::new(2, false);
    writer.set_entries_per_chunk(1).unwrap();
    writer.add_lookup_entry(HashEntry::new(FOO.to_string(), 1)).unwrap();
    let first = writer.add_data_entry(entry("a", &[(FOO, vec![7])])).unwrap();
    assert_eq!(&first[..11], b"BDF\x01RAINBOW");
    let second = writer.add_data_entry(entry("b", &[(FOO, vec![8])])).unwrap();
    // length, name, one entry of 4 + 4 + 1 + 4 + 1 bytes, checksum
    assert_eq!(second.len(), 4 + 4 + 14 + 4);
    assert_eq!(&second[4..8], b"DTBL");
    let last = writer.finish().unwrap();
    // the buffer is empty: a data chunk without payload
    assert_eq!(last, vec![0, 0, 0, 0, b'D', b'T', b'B', b'L', 0, 0, 0, 0]);
}

#[test]
fn magic_of_another_version_is_refused() {
    let mut file = create_simple_file(false);
    file[3] = 0;
    let mut reader = BDFReader::new(file);
    assert_eq!(reader.read_metadata().err(), Some(BdfError::InvalidHeader));
    assert!(reader.metadata.is_none());
}

#[test]
fn a_short_source_has_no_header() {
    let mut reader = BDFReader::new(b"BDF\x01RAINBO".to_vec());
    assert_eq!(reader.read_start().err(), Some(BdfError::InvalidHeader));
}

#[test]
fn a_flipped_payload_byte_is_a_crc_mismatch() {
    let mut file = two_entry_file(false, 1);
    let head = 11 + 32 + (12 + (12 + 3) * 2);
    file[head + 8 + 9] ^= 0x01;
    let mut reader = BDFReader::new(file);
    reader.read_start().unwrap();
    assert_eq!(reader.next_chunk().err(), Some(BdfError::CrcMismatch));
}

#[test]
fn a_flipped_byte_in_a_compressed_payload_is_never_handed_out() {
    let file = two_entry_file(true, 3);
    let head = 11 + 32 + (12 + (12 + 3) * 2);
    let payload = file.len() - head - 12;
    for offset in 0..payload {
        let mut tampered = file.clone();
        tampered[head + 8 + offset] ^= 0x40;
        let mut reader = BDFReader::new(tampered);
        reader.read_start().unwrap();
        match reader.next_chunk() {
            Ok(chunk) => {
                assert_eq!(crc::crc32::checksum_ieee(&chunk.data), chunk.crc);
            }
            Err(e) => assert!(e == BdfError::IoError || e == BdfError::CrcMismatch),
        }
    }
}

#[test]
fn the_table_is_closed_once_the_head_is_out() {
    let mut writer = BDFWriter::new(1, false);
    writer.set_entries_per_chunk(1).unwrap();
    writer.add_lookup_entry(HashEntry::new(FOO.to_string(), 4)).unwrap();
    let emitted = writer.add_data_entry(entry("lol", &[(FOO, vec![2, 4, 0, 2])])).unwrap();
    assert!(!emitted.is_empty());
    assert_eq!(
        writer.add_lookup_entry(HashEntry::new(BAR.to_string(), 5)),
        Err(BdfError::StateViolation)
    );
    assert_eq!(writer.set_entries_per_chunk(5), Err(BdfError::StateViolation));
}

#[test]
fn a_finished_writer_refuses() {
    let mut writer = BDFWriter::new(0, false);
    writer.finish().unwrap();
    assert_eq!(writer.finish(), Err(BdfError::StateViolation));
    assert_eq!(writer.flush(), Err(BdfError::StateViolation));
    assert_eq!(
        writer.add_data_entry(DataEntry::new("x".to_string())).err(),
        Some(BdfError::StateViolation)
    );
    assert_eq!(writer.pack().err(), Some(BdfError::StateViolation));
}

#[test]
fn an_unknown_compression_method_is_refused() {
    let mut payload = Vec::new();
    payload.extend_from_slice(&[0, 0, 0, 1]);
    payload.extend_from_slice(&[0, 0, 0, 1]);
    payload.extend_from_slice(&[0, 0, 0, 0, 0, 0, 0, 1]);
    payload.extend_from_slice(b"zstd");
    let crc = crc::crc32::checksum_ieee(&payload);
    let mut chunk = GenericChunk::new(20, "META".to_string(), payload, crc);
    let mut file = b"BDF\x01RAINBOW".to_vec();
    file.extend(chunk.serialize());
    let mut reader = BDFReader::new(file);
    assert_eq!(reader.read_metadata().err(), Some(BdfError::UnsupportedCompression));
}

#[test]
fn the_reader_keeps_to_its_order() {
    let file = create_simple_file(false);
    let mut reader = BDFReader::new(file);
    assert_eq!(reader.next_chunk().err(), Some(BdfError::StateViolation));
    reader.read_metadata().unwrap();
    assert_eq!(reader.read_metadata().err(), Some(BdfError::StateViolation));
    assert_eq!(reader.next_chunk().err(), Some(BdfError::StateViolation));
    assert_eq!(reader.read_lookup_table().unwrap().entries.len(), 1);
    assert_eq!(reader.read_lookup_table().err(), Some(BdfError::StateViolation));
    assert_eq!(reader.read_start().err(), Some(BdfError::StateViolation));
    assert!(reader.next_chunk().is_ok());
}

#[test]
fn reading_the_table_first_reads_the_description_too() {
    let file = create_simple_file(true);
    let mut reader = BDFReader::new(file);
    reader.read_lookup_table().unwrap();
    let meta = reader.metadata.clone().unwrap();
    assert_eq!(meta.entry_count, 1);
    assert_eq!(meta.chunk_count, 1);
    assert_eq!(meta.compression_method, Some("lzma".to_string()));
}

#[test]
fn a_truncated_container_is_reported() {
    let file = create_simple_file(false);
    for cut in 11..file.len() {
        let mut reader = BDFReader::new(file[..cut].to_vec());
        let outcome = reader.read_start().and_then(|_| reader.next_chunk().map(|_| ()));
        assert_eq!(outcome, Err(BdfError::Truncation), "cut at {}", cut);
    }
}

#[test]
fn a_chunk_of_an_unknown_name_is_refused() {
    let mut file = create_simple_file(false);
    let data = b"whatever".to_vec();
    let crc = crc::crc32::checksum_ieee(&data);
    let mut chunk = GenericChunk::new(8, "XTBL".to_string(), data, crc);
    // drop the data chunks of the file and put the stranger in their place
    file.truncate(11 + 32 + 12 + 12 + 3);
    file.extend(chunk.serialize());
    let mut reader = BDFReader::new(file);
    reader.read_start().unwrap();
    assert_eq!(reader.next_chunk().err(), Some(BdfError::InvalidChunkName));
}

#[test]
fn a_data_chunk_where_the_description_belongs_is_refused() {
    let mut chunk = GenericChunk::new(0, "DTBL".to_string(), Vec::new(), 0);
    let mut file = b"BDF\x01RAINBOW".to_vec();
    file.extend(chunk.serialize());
    let mut reader = BDFReader::new(file);
    assert_eq!(reader.read_metadata().err(), Some(BdfError::InvalidChunkName));
}

#[test]
fn the_buffer_says_when_a_chunk_is_due() {
    let mut writer = BDFWriter::new(3, false);
    writer.set_entries_per_chunk(2).unwrap();
    assert_eq!(writer.buffer(DataEntry::new("a".to_string())), Ok(false));
    assert_eq!(writer.buffer(DataEntry::new("b".to_string())), Ok(true));
    let (head, chunk) = writer.pack().unwrap();
    assert_eq!(&head[..11], b"BDF\x01RAINBOW");
    assert_eq!(chunk.name(), "DTBL");
    assert_eq!(chunk.data, vec![0, 0, 0, 5, 0, 0, 0, 1, b'a', 0, 0, 0, 5, 0, 0, 0, 1, b'b']);
    assert_eq!(writer.buffer(DataEntry::new("c".to_string())), Ok(false));
    let (head, chunk) = writer.pack().unwrap();
    assert!(head.is_empty());
    assert_eq!(chunk.data, vec![0, 0, 0, 5, 0, 0, 0, 1, b'c']);
    assert_eq!(writer.encoding(), (false, 1));
    assert_eq!(writer.close(), Ok(()));
    assert_eq!(writer.close(), Err(BdfError::StateViolation));
    assert_eq!(writer.buffer(DataEntry::new("d".to_string())), Err(BdfError::StateViolation));
}

#[test]
fn without_room_in_a_chunk_every_entry_is_a_chunk() {
    let mut writer = BDFWriter::new(1, false);
    writer.set_entries_per_chunk(0).unwrap();
    let emitted = writer.add_data_entry(DataEntry::new("a".to_string())).unwrap();
    assert_eq!(&emitted[11 + 8..11 + 12], &[0xFF, 0xFF, 0xFF, 0xFF]);
    assert_eq!(&emitted[emitted.len() - 17..emitted.len() - 13], b"DTBL");
}

fn feed(reader: &mut BDFReader, file: &[u8], fed: usize, step: usize) -> usize {
    let mut fed = fed;
    loop {
        let wanted = reader.wanted() as usize;
        if wanted == 0 || fed == file.len() {
            return fed;
        }
        let upto = (fed + wanted.min(step)).min(file.len());
        reader.supply(&file[fed..upto]);
        fed = upto;
    }
}

#[test]
fn a_reader_can_be_fed_as_it_goes() {
    let file = two_entry_file(true, 2);
    for step in [1usize, 3, 7, 1000] {
        let mut reader = BDFReader::new(Vec::new());
        assert_eq!(reader.wanted(), 19);
        let fed = feed(&mut reader, &file, 0, step);
        assert_eq!(fed, 11 + 32);
        reader.read_metadata().unwrap();
        reader.compact();
        assert!(reader.at_end());
        assert_eq!(reader.wanted(), 8);
        let fed = feed(&mut reader, &file, fed, step);
        reader.read_lookup_table().unwrap();
        reader.compact();
        let fed = feed(&mut reader, &file, fed, step);
        let table = reader.lookup_table().unwrap().clone();
        let mut chunk = reader.next_chunk().unwrap();
        reader.compact();
        assert_eq!(fed, file.len());
        let entries = chunk.data_entries(&table).unwrap();
        assert_eq!(entries.len(), 2);
        assert_eq!(entries[0].plain(), "lol");
        assert_eq!(entries[1].plain(), "lel");
        assert_eq!(feed(&mut reader, &file, fed, step), file.len());
        assert!(reader.at_end());
        assert_eq!(reader.next_chunk().err(), Some(BdfError::Truncation));
    }
}

#[test]
fn the_reader_says_what_it_lacks() {
    let mut reader = BDFReader::new(b"BDF\x01RAINBOW".to_vec());
    assert_eq!(reader.wanted(), 8);
    reader.supply(&[0, 0, 0, 20]);
    assert_eq!(reader.wanted(), 4);
    reader.supply(b"META");
    assert_eq!(reader.wanted(), 24);
    reader.supply(&[0; 23]);
    assert_eq!(reader.wanted(), 1);
    assert_eq!(reader.read_metadata().err(), Some(BdfError::Truncation));
    reader.supply(&[0]);
    assert_eq!(reader.wanted(), 0);
    assert!(!reader.at_end());
}

#[test]
fn getters_read_what_the_fields_hold() {
    let file = create_simple_file(true);
    let mut reader = BDFReader::new(file);
    assert!(reader.metadata().is_none());
    assert!(reader.lookup_table().is_none());
    reader.read_start().unwrap();
    let meta = reader.metadata().unwrap();
    assert_eq!(meta.chunk_count(), 1);
    assert_eq!(meta.entry_count(), 1);
    assert_eq!(meta.entries_per_chunk(), 100_000);
    assert_eq!(meta.compression_method(), Some(&"lzma".to_string()));
    let table = reader.lookup_table().unwrap();
    let (id, entry) = table.get_entry(&FOO.to_string()).unwrap();
    assert_eq!((*id, entry.id(), entry.output_length(), entry.name().as_str()), (0, 0, 4, FOO));
    let chunk = reader.next_chunk().unwrap();
    assert_eq!(chunk.length() as usize, chunk.data().len());
    assert_eq!(chunk.crc(), crc::crc32::checksum_ieee(chunk.data()));
}

#[test]
fn a_writer_that_does_not_compress_makes_no_use_of_the_preset() {
    let mut writer = BDFWriter::new(1, false);
    writer.set_compression_level(77);
    assert_eq!(writer.encoding(), (false, 77));
    let mut file = writer.add_data_entry(DataEntry::new("a".to_string())).unwrap();
    file.extend(writer.finish().unwrap());
    let mut reader = BDFReader::new(file);
    reader.read_start().unwrap();
    assert!(reader.next_chunk().is_ok());
}
