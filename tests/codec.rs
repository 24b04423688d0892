use rsdiff::codec::{read_offset, write_offset, Command, CommandReader, CommandWriter, Header, PatchError};

fn assert_identity_encoding(tests: &[i64]) {
    for test in tests {
        let mut buf = [0u8; 8];
        write_offset(&mut buf, *test);
        let result = read_offset(&buf);
        assert_eq!(*test, result);
    }
}

const OFFSET_CASES: [i64; 34] = [
    0, 1, -1, 2, -2, 3, -3,
    127, -127, 128, -128, 129, -129,
    255, -255, 256, -256, 257, -257,
    16383, -16383, 16384, -16384, 16385, -16385,
    65535, -65535, 65536, -65536, 65537, -65537,
    0x7ffffffffffffffe,
    0x7fffffffffffffff,
    -0x7fffffffffffffff,
];

fn sample_commands() -> Vec<Command> {
    vec![
        Command { bytewise_add_size: 1, extra_append_size: 2, oldfile_seek_offset: 3 },
        Command { bytewise_add_size: 4, extra_append_size: 5, oldfile_seek_offset: 6 },
        Command { bytewise_add_size: 7, extra_append_size: 8, oldfile_seek_offset: 9 },
    ]
}

fn read_all(encoded: Vec<u8>) -> Vec<Command> {
    let mut reader = CommandReader::new(encoded);
    let mut result = Vec::new();
    while let Some(c) = reader.next() {
        result.push(c.unwrap());
    }
    result
}

#[test]
fn core_test_read_write_offset_roundtrip() {
    assert_identity_encoding(&OFFSET_CASES);
}

#[test]
fn bsdiff_test_read_write_offset_roundtrip() {
    assert_identity_encoding(&OFFSET_CASES);
}

#[test]
fn core_test_command_roundtrip() {
    let cmds = sample_commands();
    let mut writer = CommandWriter::new(Vec::new());
    for c in &cmds {
        writer.write(c);
    }
    let encoded = writer.into_inner();
    assert_eq!(cmds, read_all(encoded));
}

#[test]
fn bsdiff_test_command_roundtrip() {
    let cmds = sample_commands();
    let mut encoded = Vec::new();
    for c in &cmds {
        c.write_to(&mut encoded);
    }
    assert_eq!(cmds, read_all(encoded));
}

#[test]
fn offset_layout_is_sign_magnitude_little_endian() {
    let mut buf = [0u8; 8];
    write_offset(&mut buf, 0x0102);
    assert_eq!(buf, [0x02, 0x01, 0, 0, 0, 0, 0, 0]);
    write_offset(&mut buf, -0x0102);
    assert_eq!(buf, [0x02, 0x01, 0, 0, 0, 0, 0, 0x80]);
}

#[test]
fn negative_zero_reads_as_zero() {
    assert_eq!(read_offset(&[0, 0, 0, 0, 0, 0, 0, 0x80]), 0);
}

#[test]
fn header_round_trip() {
    let h = Header { compressed_commands_size: 40, compressed_delta_size: 300, new_file_size: 70000 };
    let mut out = Vec::new();
    h.write_to(&mut out);
    assert_eq!(out.len(), 32);
    assert_eq!(&out[0..8], b"BSDIFF40");
    assert_eq!(Header::read(&out), Ok(h));
}

#[test]
fn header_rejects_bad_magic() {
    let h = Header { compressed_commands_size: 1, compressed_delta_size: 2, new_file_size: 3 };
    let mut out = Vec::new();
    h.write_to(&mut out);
    out[7] = b'1';
    assert_eq!(Header::read(&out), Err(PatchError::InvalidHeader));
}

#[test]
fn header_rejects_negative_size() {
    let mut out = b"BSDIFF40".to_vec();
    let mut field = [0u8; 8];
    write_offset(&mut field, -5);
    out.extend_from_slice(&field);
    write_offset(&mut field, 1);
    out.extend_from_slice(&field);
    out.extend_from_slice(&field);
    assert_eq!(Header::read(&out), Err(PatchError::InvalidHeader));
}

#[test]
fn header_short_input_is_truncated() {
    assert_eq!(Header::read(b"BSDIFF40"), Err(PatchError::Truncated));
}

#[test]
fn command_reader_reports_partial_record() {
    let mut encoded = Vec::new();
    sample_commands()[0].write_to(&mut encoded);
    encoded.extend_from_slice(&[1, 2, 3]);
    let mut reader = CommandReader::new(encoded);
    assert_eq!(reader.next(), Some(Ok(sample_commands()[0])));
    assert_eq!(reader.next(), Some(Err(PatchError::Truncated)));
    assert_eq!(reader.next(), None);
}

#[test]
fn extra_region_size() {
    let h = Header { compressed_commands_size: 10, compressed_delta_size: 20, new_file_size: 0 };
    assert_eq!(h.compressed_extra_size(100), Some(38));
    assert_eq!(h.compressed_extra_size(62), Some(0));
    assert_eq!(h.compressed_extra_size(61), None);
    assert_eq!(h.compressed_extra_size(5), None);
}

#[test]
fn read_all_returns_written_commands() {
    let cmds = sample_commands();
    let mut writer = CommandWriter::new(Vec::new());
    for c in &cmds {
        writer.write(c);
    }
    let mut reader = CommandReader::new(writer.into_inner());
    assert_eq!(reader.read_all(), Ok(cmds));
    assert_eq!(reader.next(), None);
}

#[test]
fn read_all_reports_partial_record() {
    let mut encoded = Vec::new();
    sample_commands()[1].write_to(&mut encoded);
    encoded.pop();
    assert_eq!(CommandReader::new(encoded).read_all(), Err(PatchError::Truncated));
}
