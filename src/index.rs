//! The suffix-sorted index over the old bytes and the searches on it.
use vstd::prelude::*;

verus! {

/// The suffix of `d` that starts at `o`.
pub open spec fn suffix(d: Seq<u8>, o: int) -> Seq<u8> {
    d.subrange(o, d.len() as int)
}

/// Lexicographic order on byte strings, a proper prefix coming first.
pub open spec fn lex_le(a: Seq<u8>, b: Seq<u8>) -> bool
    decreases a.len(),
{
    if a.len() == 0 {
        true
    } else if b.len() == 0 {
        false
    } else if a[0] != b[0] {
        a[0] < b[0]
    } else {
        lex_le(a.drop_first(), b.drop_first())
    }
}

/// The length of the longest common prefix of `a` and `b`.
pub open spec fn lcp(a: Seq<u8>, b: Seq<u8>) -> nat
    decreases a.len(),
{
    if a.len() == 0 || b.len() == 0 || a[0] != b[0] {
        0
    } else {
        1 + lcp(a.drop_first(), b.drop_first())
    }
}

/// Any two byte strings are ordered one way or the other.
pub proof fn lemma_lex_total(a: Seq<u8>, b: Seq<u8>)
    ensures
        lex_le(a, b) || lex_le(b, a),
    decreases a.len(),
{
    if a.len() > 0 && b.len() > 0 && a[0] == b[0] {
        lemma_lex_total(a.drop_first(), b.drop_first());
    }
}

/// The lexicographic order is transitive.
pub proof fn lemma_lex_trans(a: Seq<u8>, b: Seq<u8>, c: Seq<u8>)
    requires
        lex_le(a, b),
        lex_le(b, c),
    ensures
        lex_le(a, c),
    decreases a.len(),
{
    if a.len() > 0 && b.len() > 0 && c.len() > 0 && a[0] == b[0] && b[0] == c[0] {
        lemma_lex_trans(a.drop_first(), b.drop_first(), c.drop_first());
    }
}

/// What the common prefix length says of the two strings.
pub proof fn lemma_lcp_facts(a: Seq<u8>, b: Seq<u8>)
    ensures
        lcp(a, b) <= a.len(),
        lcp(a, b) <= b.len(),
        forall|j: int| 0 <= j < lcp(a, b) ==> a[j] == b[j],
        lcp(a, b) < a.len() && lcp(a, b) < b.len() ==> a[lcp(a, b) as int] != b[lcp(a, b) as int],
        lex_le(a, b) == (lcp(a, b) == a.len() || (lcp(a, b) < b.len() && a[lcp(a, b) as int] < b[lcp(a, b) as int])),
    decreases a.len(),
{
    if a.len() > 0 && b.len() > 0 && a[0] == b[0] {
        let (ta, tb) = (a.drop_first(), b.drop_first());
        lemma_lcp_facts(ta, tb);
        assert forall|j: int| 0 <= j < lcp(a, b) implies a[j] == b[j] by {
            if j > 0 {
                assert(a[j] == ta[j - 1] && b[j] == tb[j - 1]);
            }
        }
    }
}

/// A prefix length on which the strings agree, and where they then differ or end, is the common prefix length.
pub proof fn lemma_lcp_is(a: Seq<u8>, b: Seq<u8>, k: int)
    requires
        0 <= k <= a.len(),
        k <= b.len(),
        forall|j: int| 0 <= j < k ==> a[j] == b[j],
        k == a.len() || k == b.len() || a[k] != b[k],
    ensures
        lcp(a, b) == k,
    decreases k,
{
    if k > 0 {
        let (ta, tb) = (a.drop_first(), b.drop_first());
        assert forall|j: int| 0 <= j < k - 1 implies ta[j] == tb[j] by {
            assert(a[j + 1] == b[j + 1]);
        }
        lemma_lcp_is(ta, tb, k - 1);
    }
}

/// The length of the longest common prefix of `a` and `b`.
pub fn longest_prefix(a: &[u8], b: &[u8]) -> (r: usize)
    ensures
        r == lcp(a@, b@),
{
    let l = if a.len() < b.len() { a.len() } else { b.len() };
    let mut i: usize = 0;
    while i < l && a[i] == b[i]
        invariant
            i <= l,
            l <= a@.len(),
            l <= b@.len(),
            l == a@.len() || l == b@.len(),
            forall|j: int| 0 <= j < i ==> a@[j] == b@[j],
        decreases l - i,
    {
        i += 1;
    }
    proof {
        lemma_lcp_is(a@, b@, i as int);
    }
    i
}

/// Whether `a` comes before or equals `b` in lexicographic order.
fn bytes_le(a: &[u8], b: &[u8]) -> (r: bool)
    ensures
        r == lex_le(a@, b@),
{
    let k = longest_prefix(a, b);
    proof {
        lemma_lcp_facts(a@, b@);
    }
    k == a.len() || (k < b.len() && a[k] < b[k])
}

/// Whether the suffix at position `a` of `offs` comes no later than the one at position `b`.
pub open spec fn ordered_at(d: Seq<u8>, offs: Seq<usize>, a: int, b: int) -> bool {
    lex_le(suffix(d, offs[a] as int), suffix(d, offs[b] as int))
}

/// Every offset is a position of `d`, and no position occurs twice.
pub open spec fn is_offset_permutation(d: Seq<u8>, offs: Seq<usize>) -> bool {
    &&& offs.len() == d.len()
    &&& forall|i: int| 0 <= i < offs.len() ==> #[trigger] offs[i] < d.len()
    &&& forall|i: int, j: int|
        0 <= i < offs.len() && 0 <= j < offs.len() && i != j ==> #[trigger] offs[i] != #[trigger] offs[j]
}

/// The first `m` offsets are in suffix order.
pub open spec fn sorted_upto(d: Seq<u8>, offs: Seq<usize>, m: int) -> bool {
    forall|a: int, b: int| 0 <= a < b < m ==> #[trigger] ordered_at(d, offs, a, b)
}

/// `offs` is the suffix array of `d`: a permutation of its positions, in the
/// lexicographic order of the suffixes that start there.
pub open spec fn is_suffix_array(d: Seq<u8>, offs: Seq<usize>) -> bool {
    &&& is_offset_permutation(d, offs)
    &&& sorted_upto(d, offs, offs.len() as int)
}

/// Some offset equals `v`.
pub open spec fn holds_position(offs: Seq<usize>, v: int) -> bool {
    exists|i: int| 0 <= i < offs.len() && offs[i] == v
}

/// The offsets of a suffix array are the positions of the bytes, each once:
/// sorted, they are `0, 1, ..., n - 1`.
pub proof fn lemma_offsets_are_all_positions(d: Seq<u8>, offs: Seq<usize>)
    requires
        is_offset_permutation(d, offs),
    ensures
        forall|v: int| 0 <= v < d.len() ==> #[trigger] holds_position(offs, v),
{
    broadcast use vstd::seq_lib::seq_to_set_is_finite;
    let n = d.len() as int;
    let ints = Seq::new(n as nat, |i: int| offs[i] as int);
    assert(ints.no_duplicates()) by {
        assert forall|i: int, j: int| 0 <= i < ints.len() && 0 <= j < ints.len() && i != j implies ints[i] != ints[j] by {
            assert(offs[i] != offs[j]);
        }
    }
    ints.unique_seq_to_set();
    let range = vstd::set_lib::set_int_range(0, n);
    vstd::set_lib::lemma_int_range(0, n);
    assert(ints.to_set().subset_of(range)) by {
        assert forall|v: int| ints.to_set().contains(v) implies range.contains(v) by {
            assert(ints.contains(v));
            let i = choose|i: int| 0 <= i < ints.len() && ints[i] == v;
            assert(offs[i] < d.len());
        }
    }
    vstd::set_lib::lemma_subset_equality(ints.to_set(), range);
    assert forall|v: int| 0 <= v < d.len() implies #[trigger] holds_position(offs, v) by {
        assert(range.contains(v));
        assert(ints.to_set().contains(v));
        assert(ints.contains(v));
        let i = choose|i: int| 0 <= i < ints.len() && ints[i] == v;
        assert(offs[i] == v);
    }
}

/// The suffix array of a byte string, together with the bytes.
pub struct Index {
    data: Vec<u8>,
    offsets: Vec<usize>,
}

impl Index {
    /// The indexed bytes.
    pub closed spec fn spec_data(&self) -> Seq<u8> {
        self.data@
    }

    /// The suffix offsets, in order.
    pub closed spec fn spec_offsets(&self) -> Seq<usize> {
        self.offsets@
    }

    /// The offsets are the suffix array of the bytes.
    pub open spec fn wf(&self) -> bool {
        is_suffix_array(self.spec_data(), self.spec_offsets())
    }

    /// The indexed bytes.
    pub fn data(&self) -> (r: &Vec<u8>)
        ensures
            r@ == self.spec_data(),
    {
        &self.data
    }

    /// The suffix offsets, in order.
    pub fn offsets(&self) -> (r: &Vec<usize>)
        ensures
            r@ == self.spec_offsets(),
    {
        &self.offsets
    }

    /// An index from bytes and their suffix array.
    pub(crate) fn from_parts(data: Vec<u8>, offsets: Vec<usize>) -> (r: Index)
        requires
            is_suffix_array(data@, offsets@),
        ensures
            r.spec_data() == data@,
            r.spec_offsets() == offsets@,
            r.wf(),
    {
        Index { data, offsets }
    }

    /// Builds the suffix array of `data` by sorting its positions.
    pub fn compute(data: Vec<u8>) -> (r: Index)
        ensures
            r.spec_data() == data@,
            r.wf(),
    {
        let n = data.len();
        let mut offsets: Vec<usize> = Vec::new();
        let mut i: usize = 0;
        while i < n
            invariant
                i <= n,
                n == data@.len(),
                offsets@.len() == i,
                forall|k: int| 0 <= k < i ==> #[trigger] offsets@[k] == k,
            decreases n - i,
        {
            offsets.push(i);
            i += 1;
        }
        proof {
            assert(offsets@.no_duplicates());
            offsets@.lemma_multiset_has_no_duplicates();
        }
        let sorted = merge_sort(&data, offsets);
        proof {
            lemma_sorted_permutation(data@, offsets@, sorted@);
        }
        Index { data, offsets: sorted }
    }
}

proof fn lemma_lcp_symmetric(a: Seq<u8>, b: Seq<u8>)
    ensures
        lcp(a, b) == lcp(b, a),
    decreases a.len(),
{
    if a.len() > 0 && b.len() > 0 && a[0] == b[0] {
        lemma_lcp_symmetric(a.drop_first(), b.drop_first());
    }
}

/// Of three strings in order, the outer two share no longer a prefix than
/// either shares with the middle one.
proof fn lemma_lcp_between(x: Seq<u8>, y: Seq<u8>, z: Seq<u8>)
    requires
        lex_le(x, y),
        lex_le(y, z),
    ensures
        lcp(x, z) <= lcp(y, z),
        lcp(x, z) <= lcp(x, y),
    decreases x.len(),
{
    if x.len() > 0 && y.len() > 0 && z.len() > 0 && x[0] == y[0] && y[0] == z[0] {
        lemma_lcp_between(x.drop_first(), y.drop_first(), z.drop_first());
    }
}

/// `p` splits the sorted suffixes into those before `buf` and those from `buf` on.
pub open spec fn is_insertion_point(d: Seq<u8>, offs: Seq<usize>, buf: Seq<u8>, p: int) -> bool {
    &&& 0 <= p <= offs.len()
    &&& forall|j: int| 0 <= j < p ==> !lex_le(buf, #[trigger] suffix(d, offs[j] as int))
    &&& forall|j: int| p <= j < offs.len() ==> lex_le(buf, #[trigger] suffix(d, offs[j] as int))
}

/// Where `buf` would be inserted among the sorted suffixes.
pub open spec fn insertion_point(d: Seq<u8>, offs: Seq<usize>, buf: Seq<u8>) -> int {
    choose|p: int| is_insertion_point(d, offs, buf, p)
}

/// The start of the suffix at sorted position `k`, or the end of `d` where there is none.
pub open spec fn candidate(d: Seq<u8>, offs: Seq<usize>, k: int) -> int {
    if 0 <= k < offs.len() {
        offs[k] as int
    } else {
        d.len() as int
    }
}

/// Where the longest match of `buf` starts: of the two suffixes beside the
/// insertion point, the one sharing the longer prefix with `buf`, the
/// earlier one on a tie.
pub open spec fn match_start(d: Seq<u8>, offs: Seq<usize>, buf: Seq<u8>) -> int {
    let p = insertion_point(d, offs, buf);
    let lower = candidate(d, offs, p - 1);
    let upper = candidate(d, offs, p);
    if lcp(suffix(d, upper), buf) > lcp(suffix(d, lower), buf) {
        upper
    } else {
        lower
    }
}

/// How many bytes of `buf` the match found at `match_start` covers.
pub open spec fn match_len(d: Seq<u8>, offs: Seq<usize>, buf: Seq<u8>) -> nat {
    lcp(suffix(d, match_start(d, offs, buf)), buf)
}

proof fn lemma_insertion_point_unique(d: Seq<u8>, offs: Seq<usize>, buf: Seq<u8>, p: int, q: int)
    requires
        is_insertion_point(d, offs, buf, p),
        is_insertion_point(d, offs, buf, q),
    ensures
        p == q,
{
    if p < q {
        assert(lex_le(buf, suffix(d, offs[p] as int)));
    } else if q < p {
        assert(lex_le(buf, suffix(d, offs[q] as int)));
    }
}

impl Index {
    /// The longest run of old bytes that the start of `buf` matches, found by
    /// binary search over the sorted suffixes.
    pub fn longest_match(&self, buf: &[u8]) -> (r: std::ops::Range<usize>)
        requires
            self.wf(),
        ensures
            r.start == match_start(self.spec_data(), self.spec_offsets(), buf@),
            r.end - r.start == match_len(self.spec_data(), self.spec_offsets(), buf@),
            r.start <= r.end <= self.spec_data().len(),
            r.end - r.start <= buf@.len(),
            self.spec_data().subrange(r.start as int, r.end as int) == buf@.subrange(0, r.end - r.start),
            forall|o: int| 0 <= o <= self.spec_data().len() ==> #[trigger] lcp(suffix(self.spec_data(), o), buf@) <= r.end - r.start,
    {
        let ghost d = self.data@;
        let ghost offs = self.offsets@;
        let n = self.offsets.len();
        let mut lo: usize = 0;
        let mut hi: usize = n;
        while lo < hi
            invariant
                self.wf(),
                d == self.data@,
                offs == self.offsets@,
                n == offs.len(),
                0 <= lo <= hi <= n,
                forall|j: int| 0 <= j < lo ==> !lex_le(buf@, #[trigger] suffix(d, offs[j] as int)),
                forall|j: int| hi <= j < n ==> lex_le(buf@, #[trigger] suffix(d, offs[j] as int)),
            decreases hi - lo,
        {
            let mid = lo + (hi - lo) / 2;
            let o = self.offsets[mid];
            let dl = self.data.len();
            if bytes_le(buf, &self.data.as_slice()[o..dl]) {
                proof {
                    assert forall|j: int| mid <= j < n implies lex_le(buf@, #[trigger] suffix(d, offs[j] as int)) by {
                        if j < hi && j > mid {
                            assert(ordered_at(d, offs, mid as int, j));
                            lemma_lex_trans(buf@, suffix(d, offs[mid as int] as int), suffix(d, offs[j] as int));
                        }
                    }
                }
                hi = mid;
            } else {
                proof {
                    assert forall|j: int| 0 <= j < mid + 1 implies !lex_le(buf@, #[trigger] suffix(d, offs[j] as int)) by {
                        if j >= lo && j < mid {
                            assert(ordered_at(d, offs, j, mid as int));
                            if lex_le(buf@, suffix(d, offs[j] as int)) {
                                lemma_lex_trans(buf@, suffix(d, offs[j] as int), suffix(d, offs[mid as int] as int));
                            }
                        }
                    }
                }
                lo = mid + 1;
            }
        }
        let p = lo;
        proof {
            assert(is_insertion_point(d, offs, buf@, p as int));
            lemma_insertion_point_unique(d, offs, buf@, p as int, insertion_point(d, offs, buf@));
        }
        let dl = self.data.len();
        let lower: usize = if p > 0 { self.offsets[p - 1] } else { dl };
        let upper: usize = if p < n { self.offsets[p] } else { dl };
        let lower_len = longest_prefix(&self.data.as_slice()[lower..dl], buf);
        let upper_len = longest_prefix(&self.data.as_slice()[upper..dl], buf);
        let (start, len) = if upper_len > lower_len { (upper, upper_len) } else { (lower, lower_len) };
        proof {
            lemma_match_is_longest(d, offs, buf@, p as int, len as int);
            lemma_lcp_facts(suffix(d, start as int), buf@);
            assert(d.subrange(start as int, start + len) =~= buf@.subrange(0, len as int)) by {
                assert forall|k: int| 0 <= k < len implies d.subrange(start as int, start + len)[k] == buf@.subrange(0, len as int)[k] by {
                    assert(suffix(d, start as int)[k] == d[start + k]);
                }
            }
        }
        start..start + len
    }
}

/// How many of the first `k` positions `a` and `b` agree on.
pub open spec fn agree_count(a: Seq<u8>, b: Seq<u8>, k: int) -> int
    decreases k,
{
    if k <= 0 {
        0
    } else {
        agree_count(a, b, k - 1) + if a[k - 1] == b[k - 1] {
            1int
        } else {
            0int
        }
    }
}

/// The shorter of two lengths.
pub open spec fn min_len(a: Seq<u8>, b: Seq<u8>) -> int {
    if a.len() < b.len() {
        a.len() as int
    } else {
        b.len() as int
    }
}

/// Disagreements tolerated before a partial match stops growing.
pub const MISMATCH_BUDGET: usize = 8;

/// A partial match can reach length `k`: `k` is before the end of the shorter
/// input, fewer than eight positions before it disagree, and at least half of
/// them (rounded down) agree.
pub open spec fn extends_to(a: Seq<u8>, b: Seq<u8>, k: int) -> bool {
    &&& 0 <= k < min_len(a, b)
    &&& k - agree_count(a, b, k) < MISMATCH_BUDGET
    &&& agree_count(a, b, k) >= k / 2
}

/// `r` is the largest length a partial match reaches, or 0 where it reaches none.
pub open spec fn is_partial_len(a: Seq<u8>, b: Seq<u8>, r: int) -> bool {
    &&& r == 0 || extends_to(a, b, r)
    &&& forall|k: int| r < k ==> !#[trigger] extends_to(a, b, k)
}

/// The length of the partial match of `a` against `b`, scanned forward.
pub open spec fn partial_len(a: Seq<u8>, b: Seq<u8>) -> int {
    choose|r: int| is_partial_len(a, b, r)
}

/// The last `len` bytes of `a`, last one first.
pub open spec fn reversed_tail(a: Seq<u8>, len: int) -> Seq<u8> {
    Seq::new(len as nat, |j: int| a[a.len() - 1 - j])
}

/// The length of the partial match scanned backward from the end of each
/// input: the inputs are aligned at their ends.
pub open spec fn reverse_partial_len(a: Seq<u8>, b: Seq<u8>) -> int {
    partial_len(reversed_tail(a, min_len(a, b)), reversed_tail(b, min_len(a, b)))
}

proof fn lemma_agree_bounds(a: Seq<u8>, b: Seq<u8>, i: int, k: int)
    requires
        0 <= i <= k,
    ensures
        0 <= agree_count(a, b, i) <= i,
        i - agree_count(a, b, i) <= k - agree_count(a, b, k),
    decreases k,
{
    if k > i {
        lemma_agree_bounds(a, b, i, k - 1);
    } else if i > 0 {
        lemma_agree_bounds(a, b, i - 1, i - 1);
    }
}

proof fn lemma_partial_len_unique(a: Seq<u8>, b: Seq<u8>, r: int)
    requires
        is_partial_len(a, b, r),
    ensures
        partial_len(a, b) == r,
{
    let q = partial_len(a, b);
    assert(is_partial_len(a, b, q));
    if q < r {
        assert(!extends_to(a, b, r));
    } else if r < q {
        assert(!extends_to(a, b, q));
    }
}

/// The largest length over which `a` and `b` still mostly agree, scanning
/// forward until eight positions have disagreed.
pub fn partial_match_length(a: &[u8], b: &[u8]) -> (r: usize)
    ensures
        r == partial_len(a@, b@),
        r <= min_len(a@, b@),
{
    let len = if a.len() < b.len() { a.len() } else { b.len() };
    let mut cur: usize = 0;
    let mut last: usize = 0;
    let mut i: usize = 0;
    while i - cur < MISMATCH_BUDGET && i < len
        invariant
            len == min_len(a@, b@),
            i <= len,
            cur == agree_count(a@, b@, i as int),
            cur <= i,
            last <= i,
            last == 0 || extends_to(a@, b@, last as int),
            forall|k: int| last < k < i ==> !#[trigger] extends_to(a@, b@, k),
        decreases len - i,
    {
        if cur >= i / 2 {
            last = i;
        }
        if a[i] == b[i] {
            cur += 1;
        }
        i += 1;
    }
    proof {
        assert forall|k: int| last < k implies !#[trigger] extends_to(a@, b@, k) by {
            if k >= i && k < len {
                lemma_agree_bounds(a@, b@, i as int, k);
            }
        }
        lemma_partial_len_unique(a@, b@, last as int);
    }
    last
}

/// The same scan as `partial_match_length`, backward from the last byte of
/// each input, so that the inputs are aligned at their ends.
pub fn reverse_partial_match_length(a: &[u8], b: &[u8]) -> (r: usize)
    ensures
        r == reverse_partial_len(a@, b@),
        r <= min_len(a@, b@),
{
    let len = if a.len() < b.len() { a.len() } else { b.len() };
    let ghost ra = reversed_tail(a@, len as int);
    let ghost rb = reversed_tail(b@, len as int);
    let mut cur: usize = 0;
    let mut last: usize = 0;
    let mut i: usize = 0;
    while i - cur < MISMATCH_BUDGET && i < len
        invariant
            len == min_len(a@, b@),
            len == min_len(ra, rb),
            ra == reversed_tail(a@, len as int),
            rb == reversed_tail(b@, len as int),
            i <= len,
            cur == agree_count(ra, rb, i as int),
            cur <= i,
            last <= i,
            last == 0 || extends_to(ra, rb, last as int),
            forall|k: int| last < k < i ==> !#[trigger] extends_to(ra, rb, k),
        decreases len - i,
    {
        if cur >= i / 2 {
            last = i;
        }
        if a[a.len() - 1 - i] == b[b.len() - 1 - i] {
            cur += 1;
        }
        i += 1;
    }
    proof {
        assert forall|k: int| last < k implies !#[trigger] extends_to(ra, rb, k) by {
            if k >= i && k < len {
                lemma_agree_bounds(ra, rb, i as int, k);
            }
        }
        lemma_partial_len_unique(ra, rb, last as int);
    }
    last
}

/// No suffix shares a longer prefix with `buf` than the longer of the two
/// beside the insertion point.
proof fn lemma_match_is_longest(d: Seq<u8>, offs: Seq<usize>, buf: Seq<u8>, p: int, len: int)
    requires
        is_suffix_array(d, offs),
        is_insertion_point(d, offs, buf, p),
        len >= lcp(suffix(d, candidate(d, offs, p - 1)), buf),
        len >= lcp(suffix(d, candidate(d, offs, p)), buf),
    ensures
        forall|o: int| 0 <= o <= d.len() ==> #[trigger] lcp(suffix(d, o), buf) <= len,
{
    lemma_offsets_are_all_positions(d, offs);
    assert forall|o: int| 0 <= o <= d.len() implies #[trigger] lcp(suffix(d, o), buf) <= len by {
        if o == d.len() {
            assert(suffix(d, o).len() == 0);
        } else {
            assert(holds_position(offs, o));
            let j = choose|j: int| 0 <= j < offs.len() && offs[j] == o;
            let sj = suffix(d, o);
            if j < p - 1 {
                let sp = suffix(d, offs[p - 1] as int);
                assert(ordered_at(d, offs, j, p - 1));
                assert(!lex_le(buf, sp));
                lemma_lex_total(buf, sp);
                lemma_lcp_between(sj, sp, buf);
            } else if j > p {
                let sp = suffix(d, offs[p] as int);
                assert(ordered_at(d, offs, p, j));
                assert(lex_le(buf, sp));
                lemma_lcp_between(buf, sp, sj);
                lemma_lcp_symmetric(buf, sj);
                lemma_lcp_symmetric(buf, sp);
            }
        }
    }
}

/// Every element of `s` is below `n`.
pub open spec fn all_below(s: Seq<usize>, n: int) -> bool {
    forall|k: int| 0 <= k < s.len() ==> #[trigger] s[k] < n
}

proof fn lemma_below_by_multiset(s: Seq<usize>, r: Seq<usize>, n: int)
    requires
        all_below(s, n),
        r.to_multiset() == s.to_multiset(),
    ensures
        all_below(r, n),
{
    broadcast use vstd::seq_lib::to_multiset_contains;
    assert forall|k: int| 0 <= k < r.len() implies #[trigger] r[k] < n by {
        assert(r.contains(r[k]));
        assert(r.to_multiset().count(r[k]) > 0);
        assert(s.contains(r[k]));
    }
}

/// A sorted rearrangement of the positions `0, ..., n - 1` is the suffix array.
proof fn lemma_sorted_permutation(d: Seq<u8>, s: Seq<usize>, r: Seq<usize>)
    requires
        s.len() == d.len(),
        forall|k: int| 0 <= k < s.len() ==> #[trigger] s[k] == k,
        s.no_duplicates(),
        r.to_multiset() == s.to_multiset(),
        sorted_upto(d, r, r.len() as int),
    ensures
        is_suffix_array(d, r),
{
    broadcast use vstd::seq_lib::to_multiset_len;
    broadcast use vstd::multiset::group_multiset_axioms;
    assert(r.to_multiset().len() == r.len());
    assert(s.to_multiset().len() == s.len());
    assert(r.len() == s.len());
    assert(all_below(s, d.len() as int));
    lemma_below_by_multiset(s, r, d.len() as int);
    s.lemma_multiset_has_no_duplicates();
    r.lemma_multiset_has_no_duplicates_conv();
}

/// Merges two runs sorted by suffix order.
fn merge(d: &Vec<u8>, a: Vec<usize>, b: Vec<usize>) -> (r: Vec<usize>)
    requires
        all_below(a@, d@.len() as int),
        all_below(b@, d@.len() as int),
        sorted_upto(d@, a@, a@.len() as int),
        sorted_upto(d@, b@, b@.len() as int),
    ensures
        r@.to_multiset() == a@.to_multiset().add(b@.to_multiset()),
        sorted_upto(d@, r@, r@.len() as int),
{
    broadcast use vstd::seq_lib::group_to_multiset_ensures;
    broadcast use vstd::multiset::group_multiset_axioms;
    let mut r: Vec<usize> = Vec::new();
    let mut i: usize = 0;
    let mut j: usize = 0;
    let ghost dd = d@;
    proof {
        assert(a@.subrange(0, 0) =~= Seq::<usize>::empty());
        assert(b@.subrange(0, 0) =~= Seq::<usize>::empty());
        assert(r@ =~= Seq::<usize>::empty());
        assert(Seq::<usize>::empty().to_multiset().len() == 0);
        assert(Seq::<usize>::empty().to_multiset() =~= vstd::multiset::Multiset::<usize>::empty());
        assert(r@.to_multiset() =~= a@.subrange(0, 0).to_multiset().add(b@.subrange(0, 0).to_multiset()));
    }
    while i < a.len() || j < b.len()
        invariant
            dd == d@,
            all_below(a@, dd.len() as int),
            all_below(b@, dd.len() as int),
            sorted_upto(dd, a@, a@.len() as int),
            sorted_upto(dd, b@, b@.len() as int),
            i <= a@.len(),
            j <= b@.len(),
            r@.len() == i + j,
            r@.to_multiset() == a@.subrange(0, i as int).to_multiset().add(b@.subrange(0, j as int).to_multiset()),
            sorted_upto(dd, r@, r@.len() as int),
            r@.len() > 0 && i < a@.len() ==> lex_le(suffix(dd, r@.last() as int), suffix(dd, a@[i as int] as int)),
            r@.len() > 0 && j < b@.len() ==> lex_le(suffix(dd, r@.last() as int), suffix(dd, b@[j as int] as int)),
        decreases a@.len() + b@.len() - i - j,
    {
        let take_a = if i < a.len() && j < b.len() {
            suffix_le(d, a[i], b[j])
        } else {
            i < a.len()
        };
        let ghost before = r@;
        let x = if take_a { a[i] } else { b[j] };
        proof {
            if !take_a && i < a.len() {
                lemma_lex_total(suffix(dd, a@[i as int] as int), suffix(dd, b@[j as int] as int));
            }
        }
        r.push(x);
        proof {
            assert forall|p: int, q: int| 0 <= p < q < r@.len() implies #[trigger] ordered_at(dd, r@, p, q) by {
                if q == r@.len() - 1 && p < q - 1 {
                    assert(ordered_at(dd, before, p, q - 1));
                    lemma_lex_trans(suffix(dd, before[p] as int), suffix(dd, before.last() as int), suffix(dd, x as int));
                } else if q < r@.len() - 1 {
                    assert(ordered_at(dd, before, p, q));
                }
            }
        }
        let ghost ma = a@.subrange(0, i as int).to_multiset();
        let ghost mb = b@.subrange(0, j as int).to_multiset();
        proof {
            vstd::seq_lib::to_multiset_build(before, x);
            assert(r@ == before.push(x));
            assert(r@.to_multiset() =~= ma.add(mb).insert(x));
        }
        if take_a {
            proof {
                assert(a@.subrange(0, i + 1) =~= a@.subrange(0, i as int).push(a@[i as int]));
                vstd::seq_lib::to_multiset_build(a@.subrange(0, i as int), a@[i as int]);
                assert(r@.to_multiset() =~= ma.insert(x).add(mb));
                if i + 1 < a@.len() {
                    assert(ordered_at(dd, a@, i as int, i + 1));
                }
            }
            i += 1;
        } else {
            proof {
                assert(b@.subrange(0, j + 1) =~= b@.subrange(0, j as int).push(b@[j as int]));
                vstd::seq_lib::to_multiset_build(b@.subrange(0, j as int), b@[j as int]);
                assert(r@.to_multiset() =~= ma.add(mb.insert(x)));
                if j + 1 < b@.len() {
                    assert(ordered_at(dd, b@, j as int, j + 1));
                }
            }
            j += 1;
        }
    }
    proof {
        assert(a@.subrange(0, i as int) =~= a@);
        assert(b@.subrange(0, j as int) =~= b@);
    }
    r
}

/// Sorts positions of `d` by the order of the suffixes that start there.
fn merge_sort(d: &Vec<u8>, s: Vec<usize>) -> (r: Vec<usize>)
    requires
        all_below(s@, d@.len() as int),
    ensures
        r@.to_multiset() == s@.to_multiset(),
        sorted_upto(d@, r@, r@.len() as int),
    decreases s@.len(),
{
    broadcast use vstd::seq_lib::lemma_multiset_commutative;
    if s.len() <= 1 {
        return s;
    }
    let mut left = s;
    let mid = left.len() / 2;
    let right = left.split_off(mid);
    let ghost (l0, r0) = (left@, right@);
    proof {
        assert(s@ =~= l0 + r0);
    }
    let sorted_left = merge_sort(d, left);
    let sorted_right = merge_sort(d, right);
    proof {
        lemma_below_by_multiset(l0, sorted_left@, d@.len() as int);
        lemma_below_by_multiset(r0, sorted_right@, d@.len() as int);
    }
    merge(d, sorted_left, sorted_right)
}

/// Whether the suffix of `d` at `x` comes no later than the one at `y`.
pub(crate) fn suffix_le(d: &Vec<u8>, x: usize, y: usize) -> (r: bool)
    requires
        x < d@.len(),
        y < d@.len(),
    ensures
        r == lex_le(suffix(d@, x as int), suffix(d@, y as int)),
{
    let n = d.len();
    bytes_le(&d.as_slice()[x..n], &d.as_slice()[y..n])
}

} // verus!
