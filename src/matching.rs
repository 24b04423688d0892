//! The match scan: it walks the new bytes, finds the longest exact match
//! of the old bytes at each point, widens it into a window with roughly
//! matching flanks, and emits one record per window.
use vstd::prelude::*;
use crate::index::{Index, match_start, match_len, partial_len, reverse_partial_len, suffix, partial_match_length, reverse_partial_match_length};

verus! {

/// An aligned window of old bytes: `lower_delta_len` bytes that roughly
/// match, `mid_exact_len` bytes that match exactly, `upper_delta_len` bytes
/// that roughly match.
#[derive(Debug, Clone, Copy, PartialEq, Eq, Structural)]
pub struct Delta {
    pub old_offset: usize,
    pub lower_delta_len: usize,
    pub mid_exact_len: usize,
    pub upper_delta_len: usize,
}

/// One record of the patch: a delta window, then `unmatched_suffix` new
/// bytes copied literally.
#[derive(Debug, Clone, Copy, PartialEq, Eq, Structural)]
pub struct Match {
    pub matched: Delta,
    pub unmatched_suffix: usize,
}

/// The length of a delta window.
pub open spec fn delta_len(d: Delta) -> int {
    d.lower_delta_len + d.mid_exact_len + d.upper_delta_len
}

/// How many new bytes a record covers.
pub open spec fn span(m: Match) -> int {
    delta_len(m.matched) + m.unmatched_suffix
}

/// The window of length zero at offset zero.
pub open spec fn empty_delta() -> Delta {
    Delta { old_offset: 0, lower_delta_len: 0, mid_exact_len: 0, upper_delta_len: 0 }
}

/// The window `d`, laid against the new bytes from `pos`, lies inside both
/// inputs and its middle matches exactly.
pub open spec fn delta_fits(old: Seq<u8>, new: Seq<u8>, pos: int, d: Delta) -> bool {
    let exact_old = d.old_offset + d.lower_delta_len;
    let exact_new = pos + d.lower_delta_len;
    &&& 0 <= pos
    &&& d.old_offset + delta_len(d) <= old.len()
    &&& pos + delta_len(d) <= new.len()
    &&& old.subrange(exact_old, exact_old + d.mid_exact_len) == new.subrange(exact_new, exact_new + d.mid_exact_len)
}

/// The record `m`, starting at `pos` of the new bytes, fits both inputs.
pub open spec fn match_fits(old: Seq<u8>, new: Seq<u8>, pos: int, m: Match) -> bool {
    &&& delta_fits(old, new, pos, m.matched)
    &&& pos + span(m) <= new.len()
}

/// Where record `k` starts in the new bytes: the spans before it, summed.
pub open spec fn start_of(ms: Seq<Match>, k: int) -> int
    decreases k,
{
    if k <= 0 {
        0
    } else {
        start_of(ms, k - 1) + span(ms[k - 1])
    }
}

/// The records, laid one after another, cover the new bytes exactly, and each fits.
pub open spec fn covers(old: Seq<u8>, new: Seq<u8>, ms: Seq<Match>) -> bool {
    &&& forall|k: int| 0 <= k < ms.len() ==> #[trigger] match_fits(old, new, start_of(ms, k), ms[k])
    &&& start_of(ms, ms.len() as int) == new.len()
}

/// The state of the match scan: cursor, end of the last exact match, pending window.
pub type ScanState = (int, int, Delta);

/// Exact matches shorter than this are skipped.
pub const MIN_MATCH: usize = 8;

/// The scan from `st` up to the next record it emits, with the state after it.
///
/// At cursor `i` the longest exact match of `new[i..]` is looked up. When it
/// is shorter than `MIN_MATCH` the cursor moves past it, by one byte at
/// least. Otherwise it is widened by a partial match forward, past its end,
/// and one backward, down to the end of the last exact match, into the next
/// pending window; cursor and end of last match move to the end of that
/// window, and the previous pending window is emitted together with the new
/// bytes between the two windows, unless both are empty. Once the cursor
/// reaches the end, a pending window or unmatched tail is emitted once more.
pub open spec fn scan_from(d: Seq<u8>, offs: Seq<usize>, new: Seq<u8>, st: ScanState) -> (ScanState, Option<Match>)
    decreases if st.0 < new.len() { new.len() - st.0 } else { 0 },
{
    let (i, last_end, last) = st;
    if 0 <= i < new.len() {
        let buf = new.subrange(i, new.len() as int);
        let start = match_start(d, offs, buf);
        let len = match_len(d, offs, buf) as int;
        if len >= MIN_MATCH {
            let pml = partial_len(suffix(d, start + len), new.subrange(i + len, new.len() as int));
            let rpml = reverse_partial_len(d.subrange(0, start), new.subrange(last_end, i));
            let next = Delta {
                old_offset: (start - rpml) as usize,
                lower_delta_len: rpml as usize,
                mid_exact_len: len as usize,
                upper_delta_len: pml as usize,
            };
            let gap = (i - rpml) - last_end;
            let step = if len + pml > 1 { len + pml } else { 1 };
            let after = (i + step, i + len + pml, next);
            if gap > 0 || delta_len(last) > 0 {
                (after, Some(Match { matched: last, unmatched_suffix: gap as usize }))
            } else {
                scan_from(d, offs, new, after)
            }
        } else {
            scan_from(d, offs, new, (i + if len > 1 { len } else { 1 }, last_end, last))
        }
    } else if new.len() > last_end || delta_len(last) > 0 {
        ((new.len() as int, new.len() as int, empty_delta()), Some(Match { matched: last, unmatched_suffix: (new.len() - last_end) as usize }))
    } else {
        ((new.len() as int, last_end, last), None)
    }
}

impl Delta {
    /// The old bytes of the lower, roughly matching part.
    pub fn lower_delta_range(&self) -> (r: std::ops::Range<usize>)
        requires
            self.old_offset + self.lower_delta_len <= usize::MAX,
        ensures
            r.start == self.old_offset,
            r.end == self.old_offset + self.lower_delta_len,
    {
        self.old_offset..self.old_offset + self.lower_delta_len
    }

    /// The old bytes of the upper, roughly matching part.
    pub fn upper_delta_range(&self) -> (r: std::ops::Range<usize>)
        requires
            self.old_offset + delta_len(*self) <= usize::MAX,
        ensures
            r.start == self.old_offset + self.lower_delta_len + self.mid_exact_len,
            r.end == self.old_offset + delta_len(*self),
    {
        self.old_offset + self.lower_delta_len + self.mid_exact_len..self.old_offset + self.len()
    }

    /// The length of the whole window.
    pub fn len(&self) -> (r: usize)
        requires
            delta_len(*self) <= usize::MAX,
        ensures
            r == delta_len(*self),
    {
        self.lower_delta_len + self.mid_exact_len + self.upper_delta_len
    }
}

/// Walks the new bytes and emits the records of a patch against the index.
pub struct MatchIter<'a> {
    old: &'a Index,
    new: &'a [u8],
    i: usize,
    last_delta: Delta,
    last_end: usize,
}

impl<'a> MatchIter<'a> {
    /// Cursor, end of the last exact match, and pending window.
    pub closed spec fn state(&self) -> ScanState {
        (self.i as int, self.last_end as int, self.last_delta)
    }

    /// The index of the old bytes.
    pub closed spec fn index(&self) -> &'a Index {
        self.old
    }

    /// The new bytes being walked.
    pub closed spec fn new_bytes(&self) -> Seq<u8> {
        self.new@
    }

    /// Where the pending window starts in the new bytes.
    pub open spec fn pending_pos(&self) -> int {
        self.state().1 - delta_len(self.state().2)
    }

    /// The cursor stays within the new bytes, and the pending window fits both inputs.
    pub open spec fn wf(&self) -> bool {
        let (i, last_end, last) = self.state();
        &&& self.index().wf()
        &&& 0 <= last_end <= i <= self.new_bytes().len()
        &&& delta_len(last) <= last_end
        &&& delta_fits(self.index().spec_data(), self.new_bytes(), self.pending_pos(), last)
    }

    /// A scan of `new` from its start, with an empty pending window.
    pub fn from(old: &'a Index, new: &'a [u8]) -> (r: MatchIter<'a>)
        requires
            old.wf(),
        ensures
            r.wf(),
            r.index() == old,
            r.new_bytes() == new@,
            r.state() == (0int, 0int, empty_delta()),
    {
        let r = MatchIter {
            old,
            new,
            i: 0,
            last_delta: Delta { old_offset: 0, lower_delta_len: 0, mid_exact_len: 0, upper_delta_len: 0 },
            last_end: 0,
        };
        assert(old.spec_data().subrange(0, 0) =~= new@.subrange(0, 0));
        r
    }

    /// The next record, or `None` once the new bytes are covered.
    pub fn next(&mut self) -> (r: Option<Match>)
        requires
            old(self).wf(),
        ensures
            final(self).wf(),
            final(self).index() == old(self).index(),
            final(self).new_bytes() == old(self).new_bytes(),
            (final(self).state(), r) == scan_from(
                old(self).index().spec_data(),
                old(self).index().spec_offsets(),
                old(self).new_bytes(),
                old(self).state(),
            ),
            r is Some ==> match_fits(old(self).index().spec_data(), old(self).new_bytes(), old(self).pending_pos(), r->Some_0),
            r is Some ==> final(self).pending_pos() == old(self).pending_pos() + span(r->Some_0),
            r is Some ==> span(r->Some_0) > 0,
            r is None ==> old(self).pending_pos() == old(self).new_bytes().len() && final(self).state() == old(self).state(),
    {
        let ghost d = self.old.spec_data();
        let ghost offs = self.old.spec_offsets();
        let ghost nb = self.new@;
        let n = self.new.len();
        let dn = self.old.data().len();
        while self.i < n
            invariant
                self.wf(),
                self.index() == old(self).index(),
                self.new_bytes() == old(self).new_bytes(),
                d == self.index().spec_data(),
                offs == self.index().spec_offsets(),
                nb == self.new_bytes(),
                n == nb.len(),
                dn == d.len(),
                self.pending_pos() == old(self).pending_pos(),
                scan_from(d, offs, nb, old(self).state()) == scan_from(d, offs, nb, self.state()),
            decreases n - self.i,
        {
            let i = self.i;
            let m = self.old.longest_match(&self.new[i..n]);
            let len = m.end - m.start;
            if len >= MIN_MATCH {
                let pml = partial_match_length(&self.old.data().as_slice()[m.end..dn], &self.new[i + len..n]);
                let rpml = reverse_partial_match_length(&self.old.data().as_slice()[0..m.start], &self.new[self.last_end..i]);
                let last_end = self.last_end;
                let prev = self.last_delta;
                let gap = (i - rpml) - last_end;
                let ghost st0 = self.state();
                self.last_end = i + len + pml;
                self.i = i + (len + pml);
                self.last_delta = Delta {
                    old_offset: m.start - rpml,
                    lower_delta_len: rpml,
                    mid_exact_len: len,
                    upper_delta_len: pml,
                };
                proof {
                    let buf = nb.subrange(i as int, n as int);
                    assert(d.subrange(m.start as int, m.end as int) =~= nb.subrange(i as int, i + len));
                }
                if gap > 0 || prev.len() > 0 {
                    return Some(Match { matched: prev, unmatched_suffix: gap });
                }
            } else {
                self.i = i + if len > 1 { len } else { 1 };
            }
        }
        let ghost st = self.state();
        if n > self.last_end || self.last_delta.len() > 0 {
            let suffix_len = n - self.last_end;
            let prev = self.last_delta;
            self.i = n;
            self.last_end = n;
            self.last_delta = Delta { old_offset: 0, lower_delta_len: 0, mid_exact_len: 0, upper_delta_len: 0 };
            assert(d.subrange(0, 0) =~= nb.subrange(n as int, n as int));
            return Some(Match { matched: prev, unmatched_suffix: suffix_len });
        }
        None
    }
}

/// The records the scan emits from `st` on, at most `fuel` of them.
pub open spec fn scan_all(d: Seq<u8>, offs: Seq<usize>, new: Seq<u8>, st: ScanState, fuel: nat) -> Seq<Match>
    decreases fuel,
{
    if fuel == 0 {
        Seq::empty()
    } else {
        match scan_from(d, offs, new, st) {
            (next, Some(m)) => seq![m] + scan_all(d, offs, new, next, (fuel - 1) as nat),
            (_, None) => Seq::empty(),
        }
    }
}

/// Every record the scan of `new` against the suffix array `offs` of `d`
/// emits, in order. Each record covers at least one new byte, so the scan
/// emits at most `new.len()` records.
pub open spec fn match_list(d: Seq<u8>, offs: Seq<usize>, new: Seq<u8>) -> Seq<Match> {
    scan_all(d, offs, new, (0int, 0int, empty_delta()), (new.len() + 1) as nat)
}

/// Counts over the records of a patch.
#[derive(Debug, Clone, Copy, PartialEq, Eq, Structural)]
pub struct DiffStat {
    /// How many records there are.
    pub match_count: usize,
    /// The exactly matching bytes, summed.
    pub match_length_sum: u64,
    /// How many records have roughly matching parts.
    pub partial_match_count: usize,
    /// The roughly matching bytes, summed.
    pub partial_match_length_sum: u64,
}

/// The counts of a `DiffStat` over the first `k` records.
pub open spec fn stats_upto(ms: Seq<Match>, k: int) -> (int, int, int, int)
    decreases k,
{
    if k <= 0 {
        (0, 0, 0, 0)
    } else {
        let (count, exact, partial_count, partial) = stats_upto(ms, k - 1);
        let d = ms[k - 1].matched;
        let rough = d.lower_delta_len + d.upper_delta_len;
        (count + 1, exact + d.mid_exact_len, partial_count + if rough > 0 { 1int } else { 0int }, partial + rough)
    }
}

proof fn lemma_start_of_monotone(ms: Seq<Match>, j: int, k: int)
    requires
        0 <= j <= k <= ms.len(),
    ensures
        start_of(ms, j) <= start_of(ms, k),
    decreases k,
{
    if j < k {
        lemma_start_of_monotone(ms, j, k - 1);
    }
}

impl DiffStat {
    /// The counts over the records of the patch from `old` to `new`.
    pub fn from(old: &Index, new: &[u8]) -> (r: DiffStat)
        requires
            old.wf(),
        ensures
            (r.match_count as int, r.match_length_sum as int, r.partial_match_count as int, r.partial_match_length_sum as int)
                == ({
                let ms = match_list(old.spec_data(), old.spec_offsets(), new@);
                stats_upto(ms, ms.len() as int)
            }),
    {
        let ms = find_matches(old, new);
        let n = ms.len();
        let nl = new.len();
        let mut stat = DiffStat { match_count: 0, match_length_sum: 0, partial_match_count: 0, partial_match_length_sum: 0 };
        let mut k: usize = 0;
        while k < n
            invariant
                n == ms@.len(),
                k <= n,
                covers(old.spec_data(), new@, ms@),
                (stat.match_count as int, stat.match_length_sum as int, stat.partial_match_count as int, stat.partial_match_length_sum as int)
                    == stats_upto(ms@, k as int),
                stat.match_length_sum + stat.partial_match_length_sum <= start_of(ms@, k as int),
                stat.match_count == k,
                stat.partial_match_count <= k,
                nl == new@.len(),
            decreases n - k,
        {
            proof {
                lemma_start_of_monotone(ms@, k + 1, n as int);
                assert(match_fits(old.spec_data(), new@, start_of(ms@, k as int), ms@[k as int]));
                assert(start_of(ms@, k + 1) == start_of(ms@, k as int) + span(ms@[k as int]));
                assert(start_of(ms@, n as int) == nl);
            }
            let d = ms[k].matched;
            let rough = d.lower_delta_len + d.upper_delta_len;
            stat.match_count = stat.match_count + 1;
            stat.match_length_sum = stat.match_length_sum + d.mid_exact_len as u64;
            if rough > 0 {
                stat.partial_match_count = stat.partial_match_count + 1;
            }
            stat.partial_match_length_sum = stat.partial_match_length_sum + rough as u64;
            k += 1;
        }
        stat
    }
}

/// Runs the match scan to its end and collects the records; together they
/// cover the new bytes exactly, and every window lies inside the old bytes.
pub fn find_matches(old: &Index, new: &[u8]) -> (r: Vec<Match>)
    requires
        old.wf(),
    ensures
        r@ == match_list(old.spec_data(), old.spec_offsets(), new@),
        covers(old.spec_data(), new@, r@),
{
    let ghost d = old.spec_data();
    let ghost offs = old.spec_offsets();
    let mut it = MatchIter::from(old, new);
    let mut ms: Vec<Match> = Vec::new();
    proof {
        assert(ms@ + match_list(d, offs, new@) =~= match_list(d, offs, new@));
    }
    loop
        invariant
            it.wf(),
            it.index() == old,
            it.new_bytes() == new@,
            d == old.spec_data(),
            offs == old.spec_offsets(),
            ms@.len() <= it.pending_pos(),
            match_list(d, offs, new@) == ms@ + scan_all(d, offs, new@, it.state(), (new@.len() + 1 - ms@.len()) as nat),
            forall|k: int| 0 <= k < ms@.len() ==> #[trigger] match_fits(old.spec_data(), new@, start_of(ms@, k), ms@[k]),
            start_of(ms@, ms@.len() as int) == it.pending_pos(),
        ensures
            covers(old.spec_data(), new@, ms@),
            ms@ == match_list(d, offs, new@),
        decreases new@.len() - it.pending_pos(),
    {
        let ghost before = ms@;
        let ghost st = it.state();
        let ghost fuel = (new@.len() + 1 - ms@.len()) as nat;
        match it.next() {
            None => {
                proof {
                    assert(ms@ + Seq::<Match>::empty() =~= ms@);
                }
                break;
            },
            Some(m) => {
                ms.push(m);
                proof {
                    assert(scan_all(d, offs, new@, st, fuel) == seq![m] + scan_all(d, offs, new@, it.state(), (fuel - 1) as nat));
                    assert(before + (seq![m] + scan_all(d, offs, new@, it.state(), (fuel - 1) as nat))
                        =~= ms@ + scan_all(d, offs, new@, it.state(), (fuel - 1) as nat));
                    assert forall|k: int| 0 <= k < ms@.len() implies #[trigger] start_of(ms@, k) == start_of(before, k) by {
                        lemma_start_of_prefix(before, ms@, k);
                    }
                    assert(start_of(ms@, ms@.len() as int) == start_of(ms@, before.len() as int) + span(m));
                    assert forall|k: int| 0 <= k < ms@.len() implies #[trigger] match_fits(old.spec_data(), new@, start_of(ms@, k), ms@[k]) by {
                        if k < before.len() {
                            assert(ms@[k] == before[k]);
                        }
                    }
                }
            },
        }
    }
    ms
}

proof fn lemma_start_of_prefix(a: Seq<Match>, b: Seq<Match>, k: int)
    requires
        0 <= k <= a.len() <= b.len(),
        forall|j: int| 0 <= j < a.len() ==> a[j] == b[j],
    ensures
        start_of(a, k) == start_of(b, k),
    decreases k,
{
    if k > 0 {
        lemma_start_of_prefix(a, b, k - 1);
    }
}

} // verus!
