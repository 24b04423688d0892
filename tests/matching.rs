use rsdiff::matching::{find_matches, Delta, Match, MatchIter};
use rsdiff::index::{longest_prefix, partial_match_length, reverse_partial_match_length, Index};

fn collect(index: &Index, new: &[u8]) -> Vec<Match> {
    let mut it = MatchIter::from(index, new);
    let mut out = Vec::new();
    while let Some(m) = it.next() {
        out.push(m);
    }
    out
}

#[test]
fn test_index_simple_match() {
    let index = Index::compute(Vec::from(&b"this is a test"[..]));
    let matches = collect(&index, b"this is a test");
    assert_eq!(matches, vec![Match {
        matched: Delta { old_offset: 0, lower_delta_len: 0, mid_exact_len: 14, upper_delta_len: 0 },
        unmatched_suffix: 0,
    }]);
}

#[test]
fn test_index_slightly_less_simple_match() {
    let index = Index::compute(Vec::from(&b"this is a test 12345678 test"[..]));
    let matches = collect(&index, b"this is really a cool uftu 12345678 uftu");
    assert_eq!(matches, vec![
        Match {
            matched: Delta { old_offset: 0, lower_delta_len: 0, mid_exact_len: 8, upper_delta_len: 1 },
            unmatched_suffix: 16,
        },
        Match {
            matched: Delta { old_offset: 13, lower_delta_len: 1, mid_exact_len: 10, upper_delta_len: 1 },
            unmatched_suffix: 3,
        },
    ]);
}

#[test]
fn suffix_array_is_sorted_permutation() {
    let data = b"banana bandana".to_vec();
    let index = Index::compute(data.clone());
    let offs = index.offsets().clone();
    let mut sorted = offs.clone();
    sorted.sort();
    assert_eq!(sorted, (0..data.len()).collect::<Vec<_>>());
    for w in offs.windows(2) {
        assert!(data[w[0]..] <= data[w[1]..]);
    }
}

#[test]
fn banana_suffix_array() {
    let index = Index::compute(b"banana".to_vec());
    assert_eq!(index.offsets(), &vec![5, 3, 1, 0, 4, 2]);
}

#[test]
fn longest_match_finds_exact_run() {
    let index = Index::compute(b"xxabcdefxx".to_vec());
    assert_eq!(index.longest_match(b"abcdz"), 2..6);
    assert_eq!(index.longest_match(b"").len(), 0);
}

#[test]
fn longest_match_in_empty_index() {
    let index = Index::compute(Vec::new());
    assert_eq!(index.longest_match(b"abc"), 0..0);
}

#[test]
fn longest_prefix_counts_common_bytes() {
    assert_eq!(longest_prefix(b"abcdef", b"abcxyz"), 3);
    assert_eq!(longest_prefix(b"ab", b"abc"), 2);
    assert_eq!(longest_prefix(b"", b"abc"), 0);
}

#[test]
fn partial_match_tolerates_sparse_mismatches() {
    assert_eq!(partial_match_length(b"abcdefgh", b"abcdefgh"), 7);
    assert_eq!(partial_match_length(b"aXcXeXgX", b"abcdefgh"), 7);
    assert_eq!(partial_match_length(b"XXXXXXXXXXXX", b"abcdefghijkl"), 1);
    assert_eq!(partial_match_length(b"", b"abc"), 0);
}

#[test]
fn reverse_partial_match_scans_backward() {
    assert_eq!(reverse_partial_match_length(b"abcd", b"abcd"), 3);
    assert_eq!(reverse_partial_match_length(b"XXXXXXXXXd", b"YYYYYYYYYd"), 3);
    assert_eq!(reverse_partial_match_length(b"abcx", b"abc"), 1);
    assert_eq!(reverse_partial_match_length(b"zzabc", b"abc"), 2);
}

#[test]
fn matches_cover_new_bytes() {
    let old = b"the quick brown fox jumps over the lazy dog".to_vec();
    let new = b"a quick brown cat jumps over the lazy dogs!";
    let index = Index::compute(old.clone());
    let ms = find_matches(&index, new);
    let total: usize = ms.iter().map(|m| m.matched.len() + m.unmatched_suffix).sum();
    assert_eq!(total, new.len());
    for m in &ms {
        assert!(m.matched.old_offset + m.matched.len() <= old.len());
    }
}

#[test]
fn delta_ranges() {
    let d = Delta { old_offset: 10, lower_delta_len: 2, mid_exact_len: 5, upper_delta_len: 3 };
    assert_eq!(d.len(), 10);
    assert_eq!(d.lower_delta_range(), 10..12);
    assert_eq!(d.upper_delta_range(), 17..20);
}
