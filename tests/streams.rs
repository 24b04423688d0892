use rsdiff::matching::DiffStat;
use rsdiff::index::Index;
use rsdiff::paired::{PairedError, PairedReader};

/// Drives a paired read over two byte sources that return at most `chunk0`
/// and `chunk1` bytes per read.
fn paired(size: u64, a: &[u8], b: &[u8], chunk0: usize, chunk1: usize) -> Result<Vec<(Vec<u8>, Vec<u8>)>, PairedError> {
    let mut reader = PairedReader::new(size);
    let (mut pa, mut pb) = (0usize, 0usize);
    let mut out = Vec::new();
    while !reader.is_done() {
        let want = reader.wants0().min(chunk0).min(a.len() - pa);
        if reader.wants0() > 0 {
            reader.feed0(&a[pa..pa + want])?;
            pa += want;
        }
        let want = reader.wants1().min(chunk1).min(b.len() - pb);
        if reader.wants1() > 0 {
            reader.feed1(&b[pb..pb + want])?;
            pb += want;
        }
        out.push(reader.take());
    }
    Ok(out)
}

#[test]
fn paired_windows_concatenate_to_prefixes() {
    let a: Vec<u8> = (0..3000u32).map(|i| i as u8).collect();
    let b: Vec<u8> = (0..3000u32).map(|i| (i * 7) as u8).collect();
    let windows = paired(2500, &a, &b, 300, 1024).unwrap();
    let mut ca = Vec::new();
    let mut cb = Vec::new();
    for (x, y) in &windows {
        assert_eq!(x.len(), y.len());
        ca.extend_from_slice(x);
        cb.extend_from_slice(y);
    }
    assert_eq!(&ca[..], &a[..2500]);
    assert_eq!(&cb[..], &b[..2500]);
}

#[test]
fn paired_read_of_zero_bytes_is_done() {
    let reader = PairedReader::new(0);
    assert!(reader.is_done());
}

#[test]
fn paired_read_stops_on_short_reader() {
    assert_eq!(paired(10, b"12345", b"abcdefghij", 4, 4), Err(PairedError::UnexpectedEof));
}

#[test]
fn diff_stat_counts_records() {
    let index = Index::compute(b"this is a test 12345678 test".to_vec());
    let stat = DiffStat::from(&index, b"this is really a cool uftu 12345678 uftu");
    assert_eq!(stat, DiffStat {
        match_count: 2,
        match_length_sum: 18,
        partial_match_count: 2,
        partial_match_length_sum: 3,
    });
}

#[test]
fn diff_stat_of_identical_input() {
    let index = Index::compute(b"this is a test".to_vec());
    let stat = DiffStat::from(&index, b"this is a test");
    assert_eq!(stat, DiffStat {
        match_count: 1,
        match_length_sum: 14,
        partial_match_count: 0,
        partial_match_length_sum: 0,
    });
}
