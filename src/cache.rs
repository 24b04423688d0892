//! Persisted indices: a 20-byte digest of the indexed bytes followed by the
//! suffix offsets, each a little-endian `u64`.
use byteorder::ByteOrder;
use vstd::prelude::*;
use crate::index::{Index, is_suffix_array, is_offset_permutation, sorted_upto, ordered_at, suffix, lemma_lex_trans, suffix_le};

verus! {

/// Marks the layout of persisted indices; changing it invalidates every one
/// persisted before.
pub const VERSION: u8 = 5;

/// Length of a digest in bytes.
pub const DIGEST_LEN: usize = 20;

/// Length of one persisted offset in bytes.
pub const OFFSET_LEN: usize = 8;

/// The SHA-1 digest of `data`.
pub uninterp spec fn sha1_digest(data: Seq<u8>) -> Seq<u8>;

/// Relies on `sha1::Sha1` (the `sha1_smol` implementation): the 20-byte SHA-1
/// digest of `version` followed by `data`, from `digest().bytes()`.
#[verifier::external_body]
fn digest_of(version: u8, data: &[u8]) -> (r: Vec<u8>)
    ensures
        r@ == sha1_digest(seq![version] + data@),
        r@.len() == DIGEST_LEN,
{
    let mut hasher = sha1::Sha1::new();
    hasher.update(&[version]);
    hasher.update(data);
    hasher.digest().bytes().to_vec()
}

/// The value of 8 bytes read little-endian.
pub open spec fn le_u64(b: Seq<u8>) -> int {
    b[0] as int + b[1] as int * 0x100 + b[2] as int * 0x10000 + b[3] as int * 0x1000000
        + b[4] as int * 0x100000000 + b[5] as int * 0x10000000000
        + b[6] as int * 0x1000000000000 + b[7] as int * 0x100000000000000
}

/// Relies on `byteorder::LittleEndian::read_u64`, which is
/// `u64::from_le_bytes` of the first 8 bytes.
#[verifier::external_body]
fn read_u64_le(buf: &[u8]) -> (r: u64)
    requires
        buf@.len() == OFFSET_LEN,
    ensures
        r as int == le_u64(buf@),
{
    byteorder::LittleEndian::read_u64(buf)
}

/// Relies on `byteorder::LittleEndian::write_u64`, which copies
/// `n.to_le_bytes()` into the first 8 bytes.
#[verifier::external_body]
fn write_u64_le(buf: &mut [u8], n: u64)
    requires
        old(buf)@.len() == OFFSET_LEN,
    ensures
        final(buf)@.len() == OFFSET_LEN,
        le_u64(final(buf)@) == n as int,
{
    byteorder::LittleEndian::write_u64(buf, n)
}

/// The `i`-th offset stored in a persisted entry.
pub open spec fn stored_value(entry: Seq<u8>, i: int) -> int {
    le_u64(entry.subrange(DIGEST_LEN + OFFSET_LEN * i, DIGEST_LEN + OFFSET_LEN * i + OFFSET_LEN))
}

/// The first `n` offsets stored in a persisted entry.
pub open spec fn stored_offsets(entry: Seq<u8>, n: int) -> Seq<usize> {
    Seq::new(n as nat, |i: int| stored_value(entry, i) as usize)
}

/// `entry` persists `offs` under `digest`.
pub open spec fn is_entry_for(entry: Seq<u8>, digest: Seq<u8>, offs: Seq<usize>) -> bool {
    &&& entry.len() == DIGEST_LEN + OFFSET_LEN * offs.len()
    &&& entry.subrange(0, DIGEST_LEN as int) == digest
    &&& forall|i: int| 0 <= i < offs.len() ==> #[trigger] stored_value(entry, i) == offs[i] as int
}

/// A persisted entry is adopted for `d`: it starts with `digest`, holds an
/// offset for each byte, and those offsets are the suffix array of `d`.
pub open spec fn entry_accepted(d: Seq<u8>, digest: Seq<u8>, entry: Seq<u8>) -> bool {
    &&& entry.len() >= DIGEST_LEN + OFFSET_LEN * d.len()
    &&& entry.subrange(0, DIGEST_LEN as int) == digest
    &&& forall|i: int| 0 <= i < d.len() ==> #[trigger] stored_value(entry, i) < d.len()
    &&& is_suffix_array(d, stored_offsets(entry, d.len() as int))
}

/// Corrupting a byte of the digest in a persisted entry makes the entry
/// rejected, so the index is rebuilt and the entry written anew.
pub proof fn lemma_corrupt_digest_rejected(d: Seq<u8>, digest: Seq<u8>, entry: Seq<u8>, k: int, b: u8)
    requires
        entry_accepted(d, digest, entry),
        0 <= k < DIGEST_LEN,
        b != entry[k],
    ensures
        !entry_accepted(d, digest, entry.update(k, b)),
{
    assert(entry.update(k, b).subrange(0, DIGEST_LEN as int)[k] != entry.subrange(0, DIGEST_LEN as int)[k]);
}

/// An entry written for the suffix array of `d` is adopted again, with the
/// same offsets.
pub proof fn lemma_entry_round_trip(d: Seq<u8>, digest: Seq<u8>, offs: Seq<usize>, entry: Seq<u8>)
    requires
        is_suffix_array(d, offs),
        is_entry_for(entry, digest, offs),
    ensures
        entry_accepted(d, digest, entry),
        stored_offsets(entry, d.len() as int) == offs,
{
    assert forall|i: int| 0 <= i < d.len() implies #[trigger] stored_value(entry, i) < d.len() by {
        assert(stored_value(entry, i) == offs[i] as int);
    }
    assert(stored_offsets(entry, d.len() as int) =~= offs);
}

/// Whether `offs` is the suffix array of `d`.
fn check_suffix_array(d: &Vec<u8>, offs: &Vec<usize>) -> (r: bool)
    requires
        offs@.len() == d@.len(),
        forall|i: int| 0 <= i < offs@.len() ==> #[trigger] offs@[i] < d@.len(),
    ensures
        r == is_suffix_array(d@, offs@),
{
    let n = offs.len();
    let mut seen: Vec<bool> = vec![false; n];
    let mut i: usize = 0;
    while i < n
        invariant
            n == offs@.len(),
            n == d@.len(),
            seen@.len() == n,
            i <= n,
            forall|k: int| 0 <= k < offs@.len() ==> #[trigger] offs@[k] < d@.len(),
            forall|v: int| 0 <= v < n ==> (#[trigger] seen@[v] <==> exists|j: int| 0 <= j < i && offs@[j] == v),
            forall|a: int, b: int| 0 <= a < i && 0 <= b < i && a != b ==> #[trigger] offs@[a] != #[trigger] offs@[b],
        decreases n - i,
    {
        let v = offs[i];
        if seen[v] {
            proof {
                let j = choose|j: int| 0 <= j < i && offs@[j] == v;
                assert(offs@[j] == offs@[i as int]);
            }
            return false;
        }
        seen.set(v, true);
        proof {
            assert forall|w: int| 0 <= w < n implies (#[trigger] seen@[w] <==> exists|j: int| 0 <= j < i + 1 && offs@[j] == w) by {
                if w == v {
                    assert(offs@[i as int] == w);
                } else if seen@[w] {
                    let j = choose|j: int| 0 <= j < i && offs@[j] == w;
                    assert(0 <= j < i + 1 && offs@[j] == w);
                } else {
                    if exists|j: int| 0 <= j < i + 1 && offs@[j] == w {
                        let j = choose|j: int| 0 <= j < i + 1 && offs@[j] == w;
                        assert(j != i);
                    }
                }
            }
        }
        i += 1;
    }
    assert(is_offset_permutation(d@, offs@));
    if n == 0 {
        return true;
    }
    let mut i: usize = 1;
    while i < n
        invariant
            n == offs@.len(),
            n == d@.len(),
            1 <= i <= n,
            forall|k: int| 0 <= k < offs@.len() ==> #[trigger] offs@[k] < d@.len(),
            sorted_upto(d@, offs@, i as int),
        decreases n - i,
    {
        if !suffix_le(d, offs[i - 1], offs[i]) {
            assert(!ordered_at(d@, offs@, i - 1, i as int));
            return false;
        }
        proof {
            assert forall|a: int, b: int| 0 <= a < b < i + 1 implies #[trigger] ordered_at(d@, offs@, a, b) by {
                if b == i && a < i - 1 {
                    assert(ordered_at(d@, offs@, a, i - 1));
                    lemma_lex_trans(suffix(d@, offs@[a] as int), suffix(d@, offs@[i - 1] as int), suffix(d@, offs@[b] as int));
                }
            }
        }
        i += 1;
    }
    true
}

/// What went wrong in a cache.
#[derive(Debug)]
pub struct CacheError {
    pub message: String,
}

/// Content-addressed storage for persisted indices, keyed by digest.
pub trait Cache {
    /// The entry stored under `digest`, or `None` where there is none.
    fn get(&self, digest: &[u8]) -> Result<Option<Vec<u8>>, CacheError>;

    /// Stores `entry` under `digest`.
    fn put(&self, digest: &[u8], entry: &[u8]) -> Result<(), CacheError>;
}

/// Reads the offsets of `entry` if it is adopted for `d`.
fn decode_entry(d: &Vec<u8>, digest: &[u8], entry: &[u8]) -> (r: Option<Vec<usize>>)
    requires
        digest@.len() == DIGEST_LEN,
    ensures
        r is Some <==> entry_accepted(d@, digest@, entry@),
        r is Some ==> r->Some_0@ == stored_offsets(entry@, d@.len() as int),
{
    let n = d.len();
    if entry.len() < DIGEST_LEN {
        return None;
    }
    let mut k: usize = 0;
    while k < DIGEST_LEN
        invariant
            k <= DIGEST_LEN,
            digest@.len() == DIGEST_LEN,
            entry@.len() >= DIGEST_LEN,
            forall|j: int| 0 <= j < k ==> entry@[j] == digest@[j],
        decreases DIGEST_LEN - k,
    {
        if entry[k] != digest[k] {
            assert(entry@.subrange(0, DIGEST_LEN as int)[k as int] != digest@[k as int]);
            return None;
        }
        k += 1;
    }
    assert(entry@.subrange(0, DIGEST_LEN as int) =~= digest@);
    let mut offs: Vec<usize> = Vec::new();
    let mut i: usize = 0;
    let mut at: usize = DIGEST_LEN;
    while i < n
        invariant
            n == d@.len(),
            i <= n,
            at == DIGEST_LEN + OFFSET_LEN * i,
            at <= entry@.len(),
            entry@.subrange(0, DIGEST_LEN as int) == digest@,
            offs@.len() == i,
            forall|j: int| 0 <= j < i ==> #[trigger] stored_value(entry@, j) < n,
            forall|j: int| 0 <= j < i ==> #[trigger] offs@[j] == stored_value(entry@, j),
        decreases n - i,
    {
        if entry.len() - at < OFFSET_LEN {
            return None;
        }
        let v = read_u64_le(&entry[at..at + OFFSET_LEN]);
        assert(stored_value(entry@, i as int) == v as int);
        if v >= n as u64 {
            return None;
        }
        offs.push(v as usize);
        i += 1;
        at = at + OFFSET_LEN;
    }
    proof {
        assert(offs@ =~= stored_offsets(entry@, n as int));
    }
    if !check_suffix_array(d, &offs) {
        return None;
    }
    Some(offs)
}

impl Index {
    /// The persisted form of the index under `digest`.
    pub fn serialize(&self, digest: &[u8]) -> (r: Vec<u8>)
        requires
            digest@.len() == DIGEST_LEN,
        ensures
            is_entry_for(r@, digest@, self.spec_offsets()),
    {
        let mut out: Vec<u8> = Vec::new();
        let mut k: usize = 0;
        while k < DIGEST_LEN
            invariant
                k <= DIGEST_LEN,
                digest@.len() == DIGEST_LEN,
                out@ == digest@.subrange(0, k as int),
            decreases DIGEST_LEN - k,
        {
            out.push(digest[k]);
            k += 1;
            assert(out@ =~= digest@.subrange(0, k as int));
        }
        let offsets = self.offsets();
        let n = offsets.len();
        let mut i: usize = 0;
        while i < n
            invariant
                n == self.spec_offsets().len(),
                offsets@ == self.spec_offsets(),
                i <= n,
                out@.len() == DIGEST_LEN + OFFSET_LEN * i,
                out@.subrange(0, DIGEST_LEN as int) == digest@,
                forall|j: int| 0 <= j < i ==> #[trigger] stored_value(out@, j) == offsets@[j] as int,
            decreases n - i,
        {
            let ghost before = out@;
            let mut buf: Vec<u8> = vec![0u8; OFFSET_LEN];
            write_u64_le(buf.as_mut_slice(), offsets[i] as u64);
            let ghost b8 = buf@;
            out.append(&mut buf);
            proof {
                assert(out@ == before + b8);
                assert(out@.subrange(0, DIGEST_LEN as int) =~= before.subrange(0, DIGEST_LEN as int));
                assert forall|j: int| 0 <= j < i + 1 implies #[trigger] stored_value(out@, j) == offsets@[j] as int by {
                    let at = DIGEST_LEN + OFFSET_LEN * j;
                    if j < i {
                        assert(out@.subrange(at, at + OFFSET_LEN) =~= before.subrange(at, at + OFFSET_LEN));
                        assert(stored_value(before, j) == offsets@[j] as int);
                    } else {
                        assert(out@.subrange(at, at + OFFSET_LEN) =~= b8);
                    }
                }
            }
            i += 1;
        }
        out
    }

    /// Adopts the offsets of `entry` when it is accepted for `data` under
    /// `digest`; otherwise builds the index and returns the entry to store.
    pub fn load_or_build(data: Vec<u8>, digest: &[u8], entry: Option<Vec<u8>>) -> (r: (Index, Option<Vec<u8>>))
        requires
            digest@.len() == DIGEST_LEN,
        ensures
            r.0.wf(),
            r.0.spec_data() == data@,
            match entry {
                Some(e) => entry_accepted(data@, digest@, e@),
                None => false,
            } ==> r.1 is None && r.0.spec_offsets() == stored_offsets(entry->Some_0@, data@.len() as int),
            !match entry {
                Some(e) => entry_accepted(data@, digest@, e@),
                None => false,
            } ==> r.1 is Some && is_entry_for(r.1->Some_0@, digest@, r.0.spec_offsets()),
    {
        if let Some(e) = entry {
            if let Some(offs) = decode_entry(&data, digest, e.as_slice()) {
                return (Index::from_parts(data, offs), None);
            }
        }
        let index = Index::compute(data);
        let stored = index.serialize(digest);
        (index, Some(stored))
    }

    /// Loads the index of `data` from `cache`, or builds it and stores it
    /// there. Whatever the cache holds, the index returned is the suffix
    /// array of `data`.
    pub fn from_cache_or_compute<C: Cache>(cache: &C, data: Vec<u8>) -> (r: Result<Index, CacheError>)
        ensures
            r is Ok ==> r->Ok_0.wf() && r->Ok_0.spec_data() == data@,
    {
        let digest = digest_of(VERSION, data.as_slice());
        let entry = match cache.get(digest.as_slice()) {
            Ok(e) => e,
            Err(e) => return Err(e),
        };
        let (index, stored) = Index::load_or_build(data, digest.as_slice(), entry);
        if let Some(bytes) = stored {
            match cache.put(digest.as_slice(), bytes.as_slice()) {
                Ok(()) => {},
                Err(e) => return Err(e),
            }
        }
        Ok(index)
    }
}

} // verus!
