use std::io::Write;

use rsdiff::codec::{Command, Header, PatchError};
use rsdiff::diff::{generate_full_patch, generate_idempotent_patch, generate_identity_patch};
use rsdiff::index::Index;
use rsdiff::patch::{apply_patch, Patcher};

fn round_trip(old: &[u8], new: &[u8]) -> Vec<u8> {
    let index = Index::compute(old.to_vec());
    let patch = generate_full_patch(&index, new);
    apply_patch(&patch, old).unwrap()
}

#[test]
fn lib_test_identity_patch() {
    let buf = b"this is a test";
    let patch = generate_identity_patch(buf.len() as u64);
    let new = apply_patch(&patch, buf).unwrap();
    assert_eq!(&buf[..], &new[..]);
}

#[test]
fn bsdiff_test_identity_patch() {
    let buf = b"this is a test";
    let patch = generate_identity_patch(buf.len() as u64);
    let new = apply_patch(&patch, buf).unwrap();
    assert_eq!(&buf[..], &new[..]);
}

#[test]
fn lib_test_idempotent_patch() {
    let buf = b"this is a test";
    let patch = generate_idempotent_patch(buf);
    let examples = ["", "this is a test", "1234", "\0"];
    for example in examples.iter() {
        let new = apply_patch(&patch, example.as_bytes()).unwrap();
        assert_eq!(&buf[..], &new[..]);
    }
}

#[test]
fn bsdiff_test_idempotent_patch() {
    let buf = b"this is a test";
    let patch = generate_idempotent_patch(buf);
    let examples = ["", "this is a test", "1234", "\0"];
    for example in examples.iter() {
        let new = apply_patch(&patch, example.as_bytes()).unwrap();
        assert_eq!(&buf[..], &new[..]);
    }
}

#[test]
fn lib_test_simple_patch() {
    let buf = b"this is a test";
    let buf2 = b"this is really a cool test";
    assert_eq!(&buf2[..], &round_trip(buf, buf2)[..]);
}

#[test]
fn bsdiff_test_simple_patch() {
    let buf = b"this is a test";
    let buf2 = b"this is really a cool test";
    assert_eq!(&buf2[..], &round_trip(buf, buf2)[..]);
}

#[test]
fn lib_test_full_patch() {
    let buf = b"this is a test 12345678 test";
    let buf2 = b"this is really a cool uftu 12345678 uftu";
    let new = round_trip(buf, buf2);
    assert_eq!(std::str::from_utf8(buf2).unwrap(), std::str::from_utf8(&new).unwrap());
}

#[test]
fn bsdiff_test_full_patch() {
    let buf = b"this is a test 12345678 test";
    let buf2 = b"this is really a cool uftu 12345678 uftu";
    let new = round_trip(buf, buf2);
    assert_eq!(std::str::from_utf8(buf2).unwrap(), std::str::from_utf8(&new).unwrap());
}

#[test]
fn identical_inputs_round_trip() {
    let a = b"this is a test";
    assert_eq!(&a[..], &round_trip(a, a)[..]);
}

#[test]
fn identity_patch_on_empty_input() {
    let patch = generate_identity_patch(0);
    assert_eq!(apply_patch(&patch, b"").unwrap(), Vec::<u8>::new());
}

#[test]
fn identity_patch_wrong_old_length_fails() {
    let patch = generate_identity_patch(14);
    assert_eq!(apply_patch(&patch, b"1234"), Err(PatchError::Truncated));
}

#[test]
fn corrupted_magic_is_invalid_header() {
    let a = b"this is a test";
    let index = Index::compute(a.to_vec());
    let mut patch = generate_full_patch(&index, b"this is really a cool test");
    patch[7] = b'1';
    assert_eq!(&patch[0..8], b"BSDIFF41");
    assert_eq!(apply_patch(&patch, a), Err(PatchError::InvalidHeader));
}

#[test]
fn truncated_command_stream_fails() {
    let a = b"this is a test";
    let index = Index::compute(a.to_vec());
    let patch = generate_full_patch(&index, b"this is really a cool test");
    let h = Header::read(&patch).unwrap();
    let c = h.compressed_commands_size as usize;
    let mut cut = patch[..32 + c - 12].to_vec();
    cut.extend_from_slice(&patch[32 + c..]);
    let mut header = Vec::new();
    Header { compressed_commands_size: (c - 12) as u64, ..h }.write_to(&mut header);
    cut[..32].copy_from_slice(&header);
    let r = apply_patch(&cut, a);
    assert!(r == Err(PatchError::Truncated) || r == Err(PatchError::DecompressionFailure));
}

#[test]
fn short_patch_is_truncated() {
    assert_eq!(apply_patch(b"BSDIFF40", b""), Err(PatchError::Truncated));
}

#[test]
fn sizes_past_the_end_are_truncated() {
    let h = Header { compressed_commands_size: 100, compressed_delta_size: 0, new_file_size: 0 };
    let mut patch = Vec::new();
    h.write_to(&mut patch);
    assert_eq!(apply_patch(&patch, b""), Err(PatchError::Truncated));
}

#[test]
fn garbage_region_is_decompression_failure() {
    let h = Header { compressed_commands_size: 4, compressed_delta_size: 0, new_file_size: 0 };
    let mut patch = Vec::new();
    h.write_to(&mut patch);
    patch.extend_from_slice(b"junk");
    assert_eq!(apply_patch(&patch, b""), Err(PatchError::DecompressionFailure));
}

#[test]
fn wrong_new_size_is_size_mismatch() {
    let patch = generate_idempotent_patch(b"abc");
    let mut h = Header::read(&patch).unwrap();
    h.new_file_size = 4;
    let mut fixed = Vec::new();
    h.write_to(&mut fixed);
    fixed.extend_from_slice(&patch[32..]);
    assert_eq!(apply_patch(&fixed, b""), Err(PatchError::SizeMismatch));
}

#[test]
fn new_that_starts_unmatched_round_trips() {
    let old = b"abcdefghijklmnopqrstuvwxyz";
    let new = b"0123abcdefghijklmnopqrst!!";
    assert_eq!(&new[..], &round_trip(old, new)[..]);
}

#[test]
fn empty_new_round_trips() {
    assert_eq!(round_trip(b"some old bytes", b""), Vec::<u8>::new());
}

fn bz(data: &[u8]) -> Vec<u8> {
    let mut e = bzip2::write::BzEncoder::new(Vec::new(), bzip2::Compression::best());
    e.write_all(data).unwrap();
    e.finish().unwrap()
}

fn assemble(cmds: &[Command], delta: &[u8], extra: &[u8], new_size: u64) -> Vec<u8> {
    let mut cmd_bytes = Vec::new();
    for c in cmds {
        c.write_to(&mut cmd_bytes);
    }
    let (c, d, e) = (bz(&cmd_bytes), bz(delta), bz(extra));
    let mut patch = Vec::new();
    Header { compressed_commands_size: c.len() as u64, compressed_delta_size: d.len() as u64, new_file_size: new_size }
        .write_to(&mut patch);
    patch.extend_from_slice(&c);
    patch.extend_from_slice(&d);
    patch.extend_from_slice(&e);
    patch
}

#[test]
fn seek_before_start_is_invalid_seek() {
    let patch = assemble(&[Command { bytewise_add_size: 0, extra_append_size: 0, oldfile_seek_offset: -5 }], b"", b"", 0);
    assert_eq!(apply_patch(&patch, b"old"), Err(PatchError::InvalidSeek));
}

#[test]
fn hand_built_patch_adds_appends_and_seeks() {
    let cmds = [
        Command { bytewise_add_size: 2, extra_append_size: 1, oldfile_seek_offset: 2 },
        Command { bytewise_add_size: 2, extra_append_size: 0, oldfile_seek_offset: -6 },
        Command { bytewise_add_size: 1, extra_append_size: 0, oldfile_seek_offset: 0 },
    ];
    let patch = assemble(&cmds, &[1, 255, 0, 0, 0], b"!", 6);
    assert_eq!(apply_patch(&patch, b"abcdefgh").unwrap(), b"ba!efa".to_vec());
}

#[test]
fn patcher_steps() {
    let old = b"abcdef";
    let mut p = Patcher::new(vec![1, 1, 0], b"XY".to_vec(), old);
    assert_eq!(p.append_delta(2), Ok(()));
    assert_eq!(p.append_extra(1), Ok(()));
    assert_eq!(p.seek_old(2), Ok(()));
    assert_eq!(p.apply(&Command { bytewise_add_size: 1, extra_append_size: 1, oldfile_seek_offset: 0 }), Ok(()));
    assert_eq!(p.check_written_size(5), Ok(()));
    assert_eq!(p.check_written_size(4), Err(PatchError::SizeMismatch));
    assert_eq!(p.append_delta(1), Err(PatchError::Truncated));
    assert_eq!(p.seek_old(-100), Err(PatchError::InvalidSeek));
    assert_eq!(p.into_new(), b"bcXeY".to_vec());
}

#[test]
fn larger_edit_round_trips() {
    let mut state: u32 = 12345;
    let old: Vec<u8> = (0..30000)
        .map(|_| {
            state = state.wrapping_mul(1103515245).wrapping_add(12345);
            (state >> 16) as u8
        })
        .collect();
    let mut new = old.clone();
    new.splice(100..110, b"inserted text here".iter().cloned());
    for i in (500..25000).step_by(97) {
        new[i] = new[i].wrapping_add(1);
    }
    new.truncate(28000);
    assert_eq!(round_trip(&old, &new), new);
}

#[test]
fn first_window_away_from_start_round_trips() {
    let old = b"xxxxxxxxthis is a test";
    let new = b"this is a test";
    assert_eq!(&new[..], &round_trip(old, new)[..]);
    let old = b"0123456789abcdefghij";
    let new = b"abcdefghij";
    assert_eq!(&new[..], &round_trip(old, new)[..]);
}
