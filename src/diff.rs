//! Patch generation: the three streams (commands, delta bytes, extra bytes)
//! written from the match records, compressed, behind the header.
use vstd::prelude::*;
use crate::codec::{Command, Header, command_bytes, commands_of, lemma_header_round_trip, lemma_commands_round_trip, commands_bytes};
use crate::compress::{bz_compressed, compress};
use crate::index::Index;
use crate::matching::{Match, delta_len, start_of, covers, match_fits, match_list, find_matches};
use crate::patch::{patch_result, streams_result, run_commands, command_step, start_state, add_byte};

verus! {

/// `new - old`, wrapping at 256.
pub open spec fn sub_byte(new: u8, old: u8) -> u8 {
    ((new - old + 256) % 256) as u8
}

/// `count` zero bytes.
pub open spec fn zeros(count: int) -> Seq<u8> {
    Seq::new(count as nat, |j: int| 0u8)
}

/// The byte-wise differences `new[j] - old[j]`.
pub open spec fn byte_diffs(old: Seq<u8>, new: Seq<u8>) -> Seq<u8> {
    Seq::new(old.len(), |j: int| sub_byte(new[j], old[j]))
}

/// The header of a patch whose three streams compress as given.
pub open spec fn patch_header(cmds: Seq<u8>, delta: Seq<u8>, new_file_size: int) -> Header {
    Header {
        compressed_commands_size: bz_compressed(cmds).len() as u64,
        compressed_delta_size: bz_compressed(delta).len() as u64,
        new_file_size: new_file_size as u64,
    }
}

/// The bytes of a patch with these three uncompressed streams: the header,
/// then each stream compressed.
pub open spec fn patch_bytes(cmds: Seq<u8>, delta: Seq<u8>, extra: Seq<u8>, new_file_size: int) -> Seq<u8> {
    crate::codec::header_bytes(patch_header(cmds, delta, new_file_size)) + bz_compressed(cmds) + bz_compressed(delta)
        + bz_compressed(extra)
}

/// Appends `count` zero bytes to `out`.
pub fn write_zeros(out: &mut Vec<u8>, count: u64)
    ensures
        final(out)@ == old(out)@ + zeros(count as int),
{
    let mut k: u64 = 0;
    while k < count
        invariant
            k <= count,
            out@ == old(out)@ + zeros(k as int),
        decreases count - k,
    {
        out.push(0);
        k += 1;
        assert(out@ =~= old(out)@ + zeros(k as int));
    }
}

/// Appends the byte-wise differences `dst[j] - src[j]`, wrapping at 256.
pub fn write_delta(out: &mut Vec<u8>, src: &[u8], dst: &[u8])
    requires
        src@.len() == dst@.len(),
    ensures
        final(out)@ == old(out)@ + byte_diffs(src@, dst@),
{
    let n = src.len();
    let mut k: usize = 0;
    while k < n
        invariant
            k <= n,
            n == src@.len(),
            n == dst@.len(),
            out@ == old(out)@ + byte_diffs(src@.subrange(0, k as int), dst@.subrange(0, k as int)),
        decreases n - k,
    {
        let d = ((dst[k] as u16 + 256 - src[k] as u16) % 256) as u8;
        out.push(d);
        k += 1;
        assert(out@ =~= old(out)@ + byte_diffs(src@.subrange(0, k as int), dst@.subrange(0, k as int)));
    }
    assert(src@.subrange(0, n as int) =~= src@);
    assert(dst@.subrange(0, n as int) =~= dst@);
}

/// Appends `src` to `out`.
fn append_bytes(out: &mut Vec<u8>, src: &[u8])
    ensures
        final(out)@ == old(out)@ + src@,
{
    let n = src.len();
    let mut k: usize = 0;
    while k < n
        invariant
            k <= n,
            n == src@.len(),
            out@ == old(out)@ + src@.subrange(0, k as int),
        decreases n - k,
    {
        out.push(src[k]);
        k += 1;
        assert(out@ =~= old(out)@ + src@.subrange(0, k as int));
    }
    assert(src@.subrange(0, n as int) =~= src@);
}

/// Collects the three uncompressed streams of a patch.
struct PatchWriter {
    new_file_size: u64,
    cmds: Vec<u8>,
    delta: Vec<u8>,
    extra: Vec<u8>,
}

impl PatchWriter {
    fn new(new_file_size: u64) -> (r: PatchWriter)
        ensures
            r.new_file_size == new_file_size,
            r.cmds@ == Seq::<u8>::empty(),
            r.delta@ == Seq::<u8>::empty(),
            r.extra@ == Seq::<u8>::empty(),
    {
        PatchWriter { new_file_size, cmds: Vec::new(), delta: Vec::new(), extra: Vec::new() }
    }

    /// Compresses the three streams and puts the header before them.
    #[verifier::rlimit(40)]
    fn finish(self) -> (r: Vec<u8>)
        requires
            self.new_file_size <= i64::MAX,
        ensures
            r@ == patch_bytes(self.cmds@, self.delta@, self.extra@, self.new_file_size as int),
            forall|old: Seq<u8>| #[trigger] patch_result(r@, old) == streams_result(
                patch_header(self.cmds@, self.delta@, self.new_file_size as int),
                self.cmds@,
                self.delta@,
                self.extra@,
                old,
            ),
    {
        let c = compress(self.cmds.as_slice());
        let d = compress(self.delta.as_slice());
        let e = compress(self.extra.as_slice());
        let h = Header {
            compressed_commands_size: c.len() as u64,
            compressed_delta_size: d.len() as u64,
            new_file_size: self.new_file_size,
        };
        let mut patch: Vec<u8> = Vec::new();
        h.write_to(&mut patch);
        let ghost hb = patch@;
        let mut c2 = c;
        let mut d2 = d;
        let mut e2 = e;
        patch.append(&mut c2);
        patch.append(&mut d2);
        patch.append(&mut e2);
        proof {
            let (cs, ds, es) = (bz_compressed(self.cmds@), bz_compressed(self.delta@), bz_compressed(self.extra@));
            assert(h == patch_header(self.cmds@, self.delta@, self.new_file_size as int));
            lemma_header_round_trip(h, cs + ds + es);
            assert(patch@ =~= crate::codec::header_bytes(h) + (cs + ds + es));
            let c_end = 32 + cs.len();
            let d_end = c_end + ds.len();
            assert(patch@.subrange(32, c_end as int) =~= cs);
            assert(patch@.subrange(c_end as int, d_end as int) =~= ds);
            assert(patch@.subrange(d_end as int, patch@.len() as int) =~= es);
            assert(patch@ =~= patch_bytes(self.cmds@, self.delta@, self.extra@, self.new_file_size as int));
        }
        patch
    }
}

/// A patch that turns every input of `size` bytes into itself: one command
/// adding `size` zero deltas.
pub fn generate_identity_patch(size: u64) -> (r: Vec<u8>)
    requires
        size <= i64::MAX,
    ensures
        r@ == patch_bytes(
            command_bytes(Command { bytewise_add_size: size, extra_append_size: 0, oldfile_seek_offset: 0 }),
            zeros(size as int),
            Seq::empty(),
            size as int,
        ),
        forall|old: Seq<u8>| old.len() == size ==> #[trigger] patch_result(r@, old) == Ok::<Seq<u8>, crate::codec::PatchError>(old),
{
    let mut w = PatchWriter::new(size);
    write_zeros(&mut w.delta, size);
    let c = Command { bytewise_add_size: size, extra_append_size: 0, oldfile_seek_offset: 0 };
    c.write_to(&mut w.cmds);
    let ghost cmds = w.cmds@;
    let ghost delta = w.delta@;
    let ghost extra = w.extra@;
    let r = w.finish();
    proof {
        lemma_single_command(c);
        assert(delta == zeros(size as int));
        assert(extra == Seq::<u8>::empty());
        assert forall|old: Seq<u8>| old.len() == size implies #[trigger] patch_result(r@, old) == Ok::<Seq<u8>, crate::codec::PatchError>(old) by {
            lemma_identity_streams(c, size as int, old);
        }
    }
    r
}

/// A patch that turns every input into `desired_output`: one command
/// appending it from the extra stream.
pub fn generate_idempotent_patch(desired_output: &[u8]) -> (r: Vec<u8>)
    requires
        desired_output@.len() <= isize::MAX,
    ensures
        r@ == patch_bytes(
            command_bytes(
                Command { bytewise_add_size: 0, extra_append_size: desired_output@.len() as u64, oldfile_seek_offset: 0 },
            ),
            Seq::empty(),
            desired_output@,
            desired_output@.len() as int,
        ),
        forall|old: Seq<u8>| #[trigger] patch_result(r@, old) == Ok::<Seq<u8>, crate::codec::PatchError>(desired_output@),
{
    let n = desired_output.len() as u64;
    let mut w = PatchWriter::new(n);
    append_bytes(&mut w.extra, desired_output);
    let c = Command { bytewise_add_size: 0, extra_append_size: n, oldfile_seek_offset: 0 };
    c.write_to(&mut w.cmds);
    let ghost cmds = w.cmds@;
    let ghost delta = w.delta@;
    let ghost extra = w.extra@;
    let r = w.finish();
    proof {
        lemma_single_command(c);
        assert(delta == Seq::<u8>::empty());
        assert(extra == desired_output@);
        assert forall|old: Seq<u8>| #[trigger] patch_result(r@, old) == Ok::<Seq<u8>, crate::codec::PatchError>(desired_output@) by {
            lemma_idempotent_streams(c, desired_output@, old);
        }
    }
    r
}

proof fn lemma_identity_streams(c: Command, size: int, old: Seq<u8>)
    requires
        c == (Command { bytewise_add_size: size as u64, extra_append_size: 0, oldfile_seek_offset: 0 }),
        0 <= size <= i64::MAX,
        old.len() == size,
    ensures
        streams_result(patch_header(command_bytes(c), zeros(size), size), command_bytes(c), zeros(size), Seq::empty(), old)
            == Ok::<Seq<u8>, crate::codec::PatchError>(old),
{
    lemma_single_command(c);
    let (d, e) = (zeros(size), Seq::<u8>::empty());
    reveal(command_step);
    let added = Seq::new(size as nat, |k: int| add_byte(old[0 + k], d[0 + k]));
    assert(added =~= old);
    assert(Seq::<u8>::empty() + added + e.subrange(0, 0) =~= old);
    assert(run_commands(old, d, e, seq![c]) == Ok::<crate::patch::PatchState, crate::codec::PatchError>((size, size, 0, old)));
}

proof fn lemma_idempotent_streams(c: Command, out: Seq<u8>, old: Seq<u8>)
    requires
        c == (Command { bytewise_add_size: 0, extra_append_size: out.len() as u64, oldfile_seek_offset: 0 }),
        out.len() <= i64::MAX,
    ensures
        streams_result(patch_header(command_bytes(c), Seq::empty(), out.len() as int), command_bytes(c), Seq::empty(), out, old)
            == Ok::<Seq<u8>, crate::codec::PatchError>(out),
{
    lemma_single_command(c);
    let d = Seq::<u8>::empty();
    reveal(command_step);
    let added = Seq::new(0, |k: int| add_byte(old[0 + k], d[0 + k]));
    assert(Seq::<u8>::empty() + added + out.subrange(0, out.len() as int) =~= out);
    assert(run_commands(old, d, out, seq![c]) == Ok::<crate::patch::PatchState, crate::codec::PatchError>((0, 0, out.len() as int, out)));
}

/// A stream that holds one command decodes to that command alone.
proof fn lemma_single_command(c: Command)
    requires
        crate::codec::command_fits(c),
    ensures
        commands_of(command_bytes(c)) == seq![c],
        command_bytes(c).len() == 24,
        forall|old: Seq<u8>, delta: Seq<u8>, extra: Seq<u8>| #[trigger] run_commands(old, delta, extra, seq![c])
            == command_step(old, delta, extra, start_state(), c),
{
    let cs = seq![c];
    assert(cs.drop_last() =~= Seq::<Command>::empty());
    assert(cs.last() == c);
    assert(commands_bytes(Seq::<Command>::empty()) == Seq::<u8>::empty());
    assert(commands_bytes(cs) == commands_bytes(cs.drop_last()) + command_bytes(c));
    assert(commands_bytes(cs) =~= command_bytes(c));
    assert forall|i: int| 0 <= i < cs.len() implies crate::codec::command_fits(#[trigger] cs[i]) by {}
    lemma_commands_round_trip(cs);
    crate::codec::lemma_command_round_trip(c);
    assert forall|old: Seq<u8>, delta: Seq<u8>, extra: Seq<u8>| #[trigger] run_commands(old, delta, extra, seq![c])
        == command_step(old, delta, extra, start_state(), c) by {
        assert(run_commands(old, delta, extra, Seq::<Command>::empty()) == Ok::<crate::patch::PatchState, crate::codec::PatchError>(start_state()));
        assert(seq![c].drop_last() =~= Seq::<Command>::empty());
    }
}

/// The command for record `k`: add its window, append its unmatched bytes,
/// then seek to where the next record's window starts (nowhere after the last).
pub open spec fn command_for(ms: Seq<Match>, k: int) -> Command {
    let d = ms[k].matched;
    let end = d.old_offset + delta_len(d);
    let next = if k + 1 < ms.len() {
        ms[k + 1].matched.old_offset as int
    } else {
        end
    };
    Command {
        bytewise_add_size: delta_len(d) as u64,
        extra_append_size: ms[k].unmatched_suffix as u64,
        oldfile_seek_offset: (next - end) as i64,
    }
}

/// The commands of the first `k` records.
pub open spec fn commands_upto(ms: Seq<Match>, k: int) -> Seq<Command> {
    Seq::new(k as nat, |j: int| command_for(ms, j))
}

/// A seek-only command that moves the old position to the first record's
/// window, where that window does not start at offset 0 (the applier's old
/// position starts there).
pub open spec fn lead_commands(ms: Seq<Match>) -> Seq<Command> {
    if first_window_at_start(ms) {
        Seq::empty()
    } else {
        seq![Command { bytewise_add_size: 0, extra_append_size: 0, oldfile_seek_offset: ms[0].matched.old_offset as i64 }]
    }
}

/// The command stream for the first `k` records: the leading seek, if any,
/// then one command per record.
pub open spec fn patch_commands(ms: Seq<Match>, k: int) -> Seq<Command> {
    lead_commands(ms) + commands_upto(ms, k)
}

/// The delta bytes of record `k`: new minus old over its window.
pub open spec fn delta_part(old: Seq<u8>, new: Seq<u8>, ms: Seq<Match>, k: int) -> Seq<u8> {
    let d = ms[k].matched;
    let pos = start_of(ms, k);
    byte_diffs(
        old.subrange(d.old_offset as int, d.old_offset + delta_len(d)),
        new.subrange(pos, pos + delta_len(d)),
    )
}

/// The delta stream of the first `k` records.
pub open spec fn delta_upto(old: Seq<u8>, new: Seq<u8>, ms: Seq<Match>, k: int) -> Seq<u8>
    decreases k,
{
    if k <= 0 {
        Seq::empty()
    } else {
        delta_upto(old, new, ms, k - 1) + delta_part(old, new, ms, k - 1)
    }
}

/// The extra bytes of record `k`: the new bytes after its window.
pub open spec fn extra_part(new: Seq<u8>, ms: Seq<Match>, k: int) -> Seq<u8> {
    let pos = start_of(ms, k) + delta_len(ms[k].matched);
    new.subrange(pos, pos + ms[k].unmatched_suffix)
}

/// The extra stream of the first `k` records.
pub open spec fn extra_upto(new: Seq<u8>, ms: Seq<Match>, k: int) -> Seq<u8>
    decreases k,
{
    if k <= 0 {
        Seq::empty()
    } else {
        extra_upto(new, ms, k - 1) + extra_part(new, ms, k - 1)
    }
}

/// `patch` holds the streams of the records `ms`, under a header for `new`;
/// applying it runs those streams.
pub open spec fn encodes(patch: Seq<u8>, old: Seq<u8>, new: Seq<u8>, ms: Seq<Match>) -> bool {
    let n = ms.len() as int;
    let c = commands_bytes(patch_commands(ms, n));
    let d = delta_upto(old, new, ms, n);
    let e = extra_upto(new, ms, n);
    &&& patch == patch_bytes(c, d, e, new.len() as int)
    &&& forall|o: Seq<u8>| #[trigger] patch_result(patch, o) == streams_result(patch_header(c, d, new.len() as int), c, d, e, o)
}

/// Writes the command, delta bytes and extra bytes of record `k`, which starts at `i`.
fn write_record(w: &mut PatchWriter, data: &[u8], new: &[u8], ms: &Vec<Match>, k: usize, i: usize)
    requires
        covers(data@, new@, ms@),
        data@.len() <= isize::MAX,
        new@.len() <= isize::MAX,
        k < ms@.len(),
        i == start_of(ms@, k as int),
    ensures
        final(w).new_file_size == old(w).new_file_size,
        final(w).cmds@ == old(w).cmds@ + command_bytes(command_for(ms@, k as int)),
        final(w).delta@ == old(w).delta@ + delta_part(data@, new@, ms@, k as int),
        final(w).extra@ == old(w).extra@ + extra_part(new@, ms@, k as int),
{
    let n = ms.len();
    let ghost od = data@;
    let ghost nb = new@;
    let m = ms[k];
    let mm = m.matched;
    proof {
        assert(match_fits(od, nb, start_of(ms@, k as int), ms@[k as int]));
    }
    let len = mm.len();
    let end = mm.old_offset + len;
    let next_off: usize = if k + 1 < n {
        proof {
            assert(match_fits(od, nb, start_of(ms@, k + 1), ms@[k + 1]));
        }
        ms[k + 1].matched.old_offset
    } else {
        end
    };
    let c = Command {
        bytewise_add_size: len as u64,
        extra_append_size: m.unmatched_suffix as u64,
        oldfile_seek_offset: next_off as i64 - end as i64,
    };
    assert(c == command_for(ms@, k as int));
    c.write_to(&mut w.cmds);
    let ghost delta0 = w.delta@;
    let lo = mm.lower_delta_range();
    let up = mm.upper_delta_range();
    let lower = mm.lower_delta_len;
    let mid = mm.mid_exact_len;
    write_delta(&mut w.delta, &data[lo.start..lo.end], &new[i..i + lower]);
    write_zeros(&mut w.delta, mid as u64);
    write_delta(&mut w.delta, &data[up.start..up.end], &new[i + lower + mid..i + len]);
    proof {
        lemma_delta_part_split(od, nb, ms@, k as int);
    }
    append_bytes(&mut w.extra, &new[i + len..i + len + m.unmatched_suffix]);
}

proof fn lemma_delta_part_split(od: Seq<u8>, nb: Seq<u8>, ms: Seq<Match>, k: int)
    requires
        0 <= k < ms.len(),
        match_fits(od, nb, start_of(ms, k), ms[k]),
    ensures
        ({
            let d = ms[k].matched;
            let (off, i) = (d.old_offset as int, start_of(ms, k));
            let (lower, mid, len) = (d.lower_delta_len as int, d.mid_exact_len as int, delta_len(d));
            delta_part(od, nb, ms, k) == byte_diffs(od.subrange(off, off + lower), nb.subrange(i, i + lower))
                + zeros(mid) + byte_diffs(od.subrange(off + lower + mid, off + len), nb.subrange(i + lower + mid, i + len))
        }),
{
    let d = ms[k].matched;
    let (off, i) = (d.old_offset as int, start_of(ms, k));
    let (lower, mid, len) = (d.lower_delta_len as int, d.mid_exact_len as int, delta_len(d));
    let whole = delta_part(od, nb, ms, k);
    let parts = byte_diffs(od.subrange(off, off + lower), nb.subrange(i, i + lower))
        + zeros(mid) + byte_diffs(od.subrange(off + lower + mid, off + len), nb.subrange(i + lower + mid, i + len));
    assert forall|j: int| lower <= j < lower + mid implies #[trigger] od[off + j] == nb[i + j] by {
        assert(od.subrange(off + lower, off + lower + mid)[j - lower] == nb.subrange(i + lower, i + lower + mid)[j - lower]);
    }
    assert(whole.len() == parts.len());
    assert forall|j: int| 0 <= j < whole.len() implies whole[j] == parts[j] by {
        if lower <= j < lower + mid {
            assert(od[off + j] == nb[i + j]);
        }
    }
    assert(whole =~= parts);
}

/// Writes the patch for the records `ms`, which cover `new` against the
/// indexed old bytes.
pub fn write_patch(old: &Index, new: &[u8], ms: &Vec<Match>) -> (r: Vec<u8>)
    requires
        covers(old.spec_data(), new@, ms@),
        old.spec_data().len() <= isize::MAX,
        new@.len() <= isize::MAX,
    ensures
        encodes(r@, old.spec_data(), new@, ms@),
{
    let ghost od = old.spec_data();
    let ghost nb = new@;
    let data = old.data().as_slice();
    let mut w = PatchWriter::new(new.len() as u64);
    let n = ms.len();
    if n > 0 && ms[0].matched.old_offset != 0 {
        proof {
            assert(match_fits(od, nb, start_of(ms@, 0), ms@[0]));
        }
        let lead = Command { bytewise_add_size: 0, extra_append_size: 0, oldfile_seek_offset: ms[0].matched.old_offset as i64 };
        lead.write_to(&mut w.cmds);
        proof {
            assert(seq![lead].drop_last() =~= Seq::<Command>::empty());
            assert(commands_bytes(Seq::<Command>::empty()) =~= Seq::<u8>::empty());
        }
    }
    proof {
        assert(patch_commands(ms@, 0) =~= lead_commands(ms@));
    }
    let mut i: usize = 0;
    let mut k: usize = 0;
    while k < n
        invariant
            covers(od, nb, ms@),
            od.len() <= isize::MAX,
            nb.len() <= isize::MAX,
            data@ == od,
            nb == new@,
            n == ms@.len(),
            k <= n,
            i == start_of(ms@, k as int),
            w.new_file_size == nb.len(),
            w.cmds@ == commands_bytes(patch_commands(ms@, k as int)),
            w.delta@ == delta_upto(od, nb, ms@, k as int),
            w.extra@ == extra_upto(nb, ms@, k as int),
        decreases n - k,
    {
        proof {
            assert(match_fits(od, nb, start_of(ms@, k as int), ms@[k as int]));
        }
        write_record(&mut w, data, new, ms, k, i);
        proof {
            assert(patch_commands(ms@, k + 1).drop_last() =~= patch_commands(ms@, k as int));
        }
        i = i + ms[k].matched.len() + ms[k].unmatched_suffix;
        k += 1;
    }
    proof {
        assert(start_of(ms@, n as int) == nb.len());
    }
    w.finish()
}

/// Builds the patch that turns the indexed old bytes into `new`: the match
/// scan's records, written as commands, delta bytes and extra bytes.
pub fn generate_full_patch(old: &Index, new: &[u8]) -> (r: Vec<u8>)
    requires
        old.wf(),
        old.spec_data().len() <= isize::MAX,
        new@.len() <= isize::MAX,
    ensures
        encodes(r@, old.spec_data(), new@, match_list(old.spec_data(), old.spec_offsets(), new@)),
        patch_result(r@, old.spec_data()) == Ok::<Seq<u8>, crate::codec::PatchError>(new@),
{
    let ms = find_matches(old, new);
    let r = write_patch(old, new, &ms);
    proof {
        lemma_full_patch_round_trip(old.spec_data(), new@, ms@);
    }
    r
}

/// The first record, if any, starts at the beginning of the old bytes, where
/// the applier's old position starts.
pub open spec fn first_window_at_start(ms: Seq<Match>) -> bool {
    ms.len() == 0 || ms[0].matched.old_offset == 0
}

/// Where the applier's old position stands after the first `k` records.
pub open spec fn old_pos_after(ms: Seq<Match>, k: int) -> int {
    if k < ms.len() {
        ms[k].matched.old_offset as int
    } else if ms.len() > 0 {
        ms.last().matched.old_offset + delta_len(ms.last().matched)
    } else {
        0
    }
}

/// The applier's state after the first `k` records of `ms`.
pub open spec fn state_after(old: Seq<u8>, new: Seq<u8>, ms: Seq<Match>, k: int) -> crate::patch::PatchState {
    (
        old_pos_after(ms, k),
        delta_upto(old, new, ms, k).len() as int,
        extra_upto(new, ms, k).len() as int,
        new.subrange(0, start_of(ms, k)),
    )
}

proof fn lemma_upto_prefix(old: Seq<u8>, new: Seq<u8>, ms: Seq<Match>, k: int, m: int)
    requires
        0 <= k <= m,
    ensures
        delta_upto(old, new, ms, m).subrange(0, delta_upto(old, new, ms, k).len() as int) == delta_upto(old, new, ms, k),
        extra_upto(new, ms, m).subrange(0, extra_upto(new, ms, k).len() as int) == extra_upto(new, ms, k),
        delta_upto(old, new, ms, k).len() <= delta_upto(old, new, ms, m).len(),
        extra_upto(new, ms, k).len() <= extra_upto(new, ms, m).len(),
    decreases m,
{
    if m > k {
        lemma_upto_prefix(old, new, ms, k, m - 1);
        let (d0, e0) = (delta_upto(old, new, ms, m - 1), extra_upto(new, ms, m - 1));
        let (dk, ek) = (delta_upto(old, new, ms, k), extra_upto(new, ms, k));
        assert((d0 + delta_part(old, new, ms, m - 1)).subrange(0, dk.len() as int) =~= d0.subrange(0, dk.len() as int));
        assert((e0 + extra_part(new, ms, m - 1)).subrange(0, ek.len() as int) =~= e0.subrange(0, ek.len() as int));
    } else {
        assert(delta_upto(old, new, ms, m).subrange(0, delta_upto(old, new, ms, m).len() as int) =~= delta_upto(old, new, ms, m));
        assert(extra_upto(new, ms, m).subrange(0, extra_upto(new, ms, m).len() as int) =~= extra_upto(new, ms, m));
    }
}

#[verifier::rlimit(40)]
proof fn lemma_record_step(old: Seq<u8>, new: Seq<u8>, ms: Seq<Match>, k: int)
    requires
        covers(old, new, ms),
        old.len() <= i64::MAX,
        0 <= k < ms.len(),
    ensures
        command_step(
            old,
            delta_upto(old, new, ms, ms.len() as int),
            extra_upto(new, ms, ms.len() as int),
            state_after(old, new, ms, k),
            command_for(ms, k),
        ) == Ok::<crate::patch::PatchState, crate::codec::PatchError>(state_after(old, new, ms, k + 1)),
{
    let n = ms.len() as int;
    let (dd, ee) = (delta_upto(old, new, ms, n), extra_upto(new, ms, n));
    let d = ms[k].matched;
    let (off, pos, len, sfx) = (d.old_offset as int, start_of(ms, k), delta_len(d), ms[k].unmatched_suffix as int);
    assert(match_fits(old, new, pos, ms[k]));
    if k + 1 < n {
        assert(match_fits(old, new, start_of(ms, k + 1), ms[k + 1]));
    }
    lemma_upto_prefix(old, new, ms, k + 1, n);
    let (dk, ek) = (delta_upto(old, new, ms, k), extra_upto(new, ms, k));
    let (dl, el) = (dk.len() as int, ek.len() as int);
    let dpart = delta_part(old, new, ms, k);
    let epart = extra_part(new, ms, k);
    assert(dd.subrange(0, dl + len) == dk + dpart);
    assert(ee.subrange(0, el + sfx) == ek + epart);
    assert forall|j: int| 0 <= j < len implies #[trigger] dd[dl + j] == dpart[j] by {
        assert(dd.subrange(0, dl + len)[dl + j] == (dk + dpart)[dl + j]);
    }
    reveal(command_step);
    let st = state_after(old, new, ms, k);
    assert(st.0 == off);
    let added = Seq::new(len as nat, |j: int| add_byte(old[st.0 + j], dd[st.1 + j]));
    assert(added =~= new.subrange(pos, pos + len)) by {
        assert forall|j: int| 0 <= j < len implies added[j] == new[pos + j] by {
            assert(dd[dl + j] == dpart[j]);
        }
    }
    assert(ee.subrange(el, el + sfx) =~= epart) by {
        assert forall|j: int| 0 <= j < sfx implies ee.subrange(el, el + sfx)[j] == epart[j] by {
            assert(ee.subrange(0, el + sfx)[el + j] == (ek + epart)[el + j]);
        }
    }
    assert(new.subrange(0, pos) + added + epart =~= new.subrange(0, start_of(ms, k + 1)));
}

/// A patch turns the old bytes into the new ones: applying the streams that
/// `write_patch` writes for records covering `new` gives `new` back.
pub proof fn lemma_full_patch_round_trip(old: Seq<u8>, new: Seq<u8>, ms: Seq<Match>)
    requires
        covers(old, new, ms),
        old.len() <= i64::MAX,
        new.len() <= i64::MAX,
    ensures
        ({
            let n = ms.len() as int;
            let c = commands_bytes(patch_commands(ms, n));
            let d = delta_upto(old, new, ms, n);
            streams_result(patch_header(c, d, new.len() as int), c, d, extra_upto(new, ms, n), old)
                == Ok::<Seq<u8>, crate::codec::PatchError>(new)
        }),
{
    let n = ms.len() as int;
    let cs = patch_commands(ms, n);
    let lead = lead_commands(ms);
    let (dd, ee) = (delta_upto(old, new, ms, n), extra_upto(new, ms, n));
    if n > 0 {
        assert(match_fits(old, new, start_of(ms, 0), ms[0]));
    }
    assert forall|k: int| 0 <= k < cs.len() implies crate::codec::command_fits(#[trigger] cs[k]) by {
        if k >= lead.len() {
            let j = k - lead.len();
            assert(cs[k] == command_for(ms, j));
            assert(match_fits(old, new, start_of(ms, j), ms[j]));
            if j + 1 < n {
                assert(match_fits(old, new, start_of(ms, j + 1), ms[j + 1]));
            }
        }
    }
    lemma_commands_round_trip(cs);
    crate::codec::lemma_commands_bytes_len(cs);
    vstd::arithmetic::div_mod::lemma_mod_multiples_basic(n, 24);
    assert(24 * n == n * 24);
    lemma_run_records(old, new, ms, n);
    assert(new.subrange(0, start_of(ms, n)) =~= new);
}

proof fn lemma_run_records(old: Seq<u8>, new: Seq<u8>, ms: Seq<Match>, k: int)
    requires
        covers(old, new, ms),
        old.len() <= i64::MAX,
        0 <= k <= ms.len(),
    ensures
        run_commands(old, delta_upto(old, new, ms, ms.len() as int), extra_upto(new, ms, ms.len() as int), patch_commands(ms, k))
            == Ok::<crate::patch::PatchState, crate::codec::PatchError>(state_after(old, new, ms, k)),
    decreases k,
{
    let n = ms.len() as int;
    let (dd, ee) = (delta_upto(old, new, ms, n), extra_upto(new, ms, n));
    if k == 0 {
        assert(new.subrange(0, 0) =~= Seq::<u8>::empty());
        assert(patch_commands(ms, 0) =~= lead_commands(ms));
        if first_window_at_start(ms) {
            assert(state_after(old, new, ms, 0) == start_state());
        } else {
            let c = lead_commands(ms)[0];
            assert(match_fits(old, new, start_of(ms, 0), ms[0]));
            assert(lead_commands(ms).len() == 1);
            assert(lead_commands(ms).drop_last() =~= Seq::<Command>::empty());
            assert(lead_commands(ms).last() == c);
            assert(run_commands(old, dd, ee, Seq::<Command>::empty()) == Ok::<crate::patch::PatchState, crate::codec::PatchError>(start_state()));
            assert(run_commands(old, dd, ee, lead_commands(ms)) == command_step(old, dd, ee, start_state(), c));
            reveal(command_step);
            assert(Seq::<u8>::empty() + Seq::new(0, |j: int| add_byte(old[0 + j], dd[0 + j])) + ee.subrange(0, 0)
                =~= Seq::<u8>::empty());
        }
    } else {
        lemma_run_records(old, new, ms, k - 1);
        assert(patch_commands(ms, k).drop_last() =~= patch_commands(ms, k - 1));
        lemma_record_step(old, new, ms, k - 1);
    }
}

} // verus!
