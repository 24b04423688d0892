//! The patch applier: header, the three compressed regions, and the command loop.
use vstd::prelude::*;
use crate::codec::{
    Command, CommandReader, Header, PatchError, HEADER_LEN, COMMAND_LEN, parse_header, commands_of,
    lemma_commands_of_step, lemma_commands_of_short,
};
use crate::compress::{bz_decompressed, decompress};
use crate::paired::{PairedReader, lemma_paired_reader_facts};

verus! {

/// Where the applier stands: old position, delta position, extra position,
/// and the new bytes produced so far.
pub type PatchState = (int, int, int, Seq<u8>);

/// The state before the first command.
pub open spec fn start_state() -> PatchState {
    (0, 0, 0, Seq::empty())
}

/// `a + b`, wrapping at 256.
pub open spec fn add_byte(a: u8, b: u8) -> u8 {
    ((a + b) % 256) as u8
}

/// Adds `size` old bytes to as many delta bytes and appends the sums.
pub open spec fn delta_step(old: Seq<u8>, delta: Seq<u8>, st: PatchState, size: int) -> Result<PatchState, PatchError> {
    if st.0 + size > old.len() || st.1 + size > delta.len() {
        Err(PatchError::Truncated)
    } else {
        Ok((st.0 + size, st.1 + size, st.2, st.3 + Seq::new(size as nat, |k: int| add_byte(old[st.0 + k], delta[st.1 + k]))))
    }
}

/// Appends the next `size` extra bytes.
pub open spec fn extra_step(extra: Seq<u8>, st: PatchState, size: int) -> Result<PatchState, PatchError> {
    if st.2 + size > extra.len() {
        Err(PatchError::Truncated)
    } else {
        Ok((st.0, st.1, st.2 + size, st.3 + extra.subrange(st.2, st.2 + size)))
    }
}

/// Moves the old position by `offset`.
pub open spec fn seek_step(st: PatchState, offset: int) -> Result<PatchState, PatchError> {
    let p = st.0 + offset;
    if p < 0 || p > u64::MAX {
        Err(PatchError::InvalidSeek)
    } else {
        Ok((p, st.1, st.2, st.3))
    }
}

/// One command: add, append, seek.
#[verifier::opaque]
pub open spec fn command_step(old: Seq<u8>, delta: Seq<u8>, extra: Seq<u8>, st: PatchState, c: Command) -> Result<PatchState, PatchError> {
    match delta_step(old, delta, st, c.bytewise_add_size as int) {
        Err(e) => Err(e),
        Ok(s1) => match extra_step(extra, s1, c.extra_append_size as int) {
            Err(e) => Err(e),
            Ok(s2) => seek_step(s2, c.oldfile_seek_offset as int),
        },
    }
}

/// The commands run in order from the start state; the first error stops them.
pub open spec fn run_commands(old: Seq<u8>, delta: Seq<u8>, extra: Seq<u8>, cs: Seq<Command>) -> Result<PatchState, PatchError>
    decreases cs.len(),
{
    if cs.len() == 0 {
        Ok(start_state())
    } else {
        match run_commands(old, delta, extra, cs.drop_last()) {
            Err(e) => Err(e),
            Ok(st) => command_step(old, delta, extra, st, cs.last()),
        }
    }
}

/// What applying the decompressed streams to `old` gives.
pub open spec fn streams_result(h: Header, cmds: Seq<u8>, delta: Seq<u8>, extra: Seq<u8>, old: Seq<u8>) -> Result<Seq<u8>, PatchError> {
    match run_commands(old, delta, extra, commands_of(cmds)) {
        Err(e) => Err(e),
        Ok(st) => if cmds.len() as int % (COMMAND_LEN as int) != 0 {
            Err(PatchError::Truncated)
        } else if st.3.len() != h.new_file_size {
            Err(PatchError::SizeMismatch)
        } else {
            Ok(st.3)
        },
    }
}

/// What applying `patch` to `old` gives.
pub open spec fn patch_result(patch: Seq<u8>, old: Seq<u8>) -> Result<Seq<u8>, PatchError> {
    match parse_header(patch) {
        Err(e) => Err(e),
        Ok(h) => {
            let c_end = HEADER_LEN + h.compressed_commands_size;
            let d_end = c_end + h.compressed_delta_size;
            if d_end > patch.len() {
                Err(PatchError::Truncated)
            } else {
                match (
                    bz_decompressed(patch.subrange(HEADER_LEN as int, c_end)),
                    bz_decompressed(patch.subrange(c_end, d_end)),
                    bz_decompressed(patch.subrange(d_end, patch.len() as int)),
                ) {
                    (Some(c), Some(d), Some(e)) => streams_result(h, c, d, e, old),
                    _ => Err(PatchError::DecompressionFailure),
                }
            }
        },
    }
}

/// The outcome of a step that either succeeds with the state `after` or fails.
pub open spec fn step_outcome(r: Result<(), PatchError>, s: Result<PatchState, PatchError>, after: PatchState) -> bool {
    match s {
        Ok(st) => r is Ok && after == st,
        Err(e) => r == Err::<(), PatchError>(e),
    }
}

proof fn lemma_run_error_sticks(old: Seq<u8>, delta: Seq<u8>, extra: Seq<u8>, cs: Seq<Command>, more: Seq<Command>, e: PatchError)
    requires
        run_commands(old, delta, extra, cs) == Err::<PatchState, PatchError>(e),
    ensures
        run_commands(old, delta, extra, cs + more) == Err::<PatchState, PatchError>(e),
    decreases more.len(),
{
    if more.len() > 0 {
        lemma_run_error_sticks(old, delta, extra, cs, more.drop_last(), e);
        assert((cs + more).drop_last() =~= cs + more.drop_last());
    } else {
        assert(cs + more =~= cs);
    }
}

/// Applies commands to the old bytes with the decompressed delta and extra streams.
pub struct Patcher<'a> {
    delta: Vec<u8>,
    delta_pos: usize,
    extra: Vec<u8>,
    extra_pos: usize,
    old: &'a [u8],
    old_pos: u64,
    new: Vec<u8>,
}

impl<'a> Patcher<'a> {
    /// Old position, delta position, extra position and new bytes so far.
    pub closed spec fn state(&self) -> PatchState {
        (self.old_pos as int, self.delta_pos as int, self.extra_pos as int, self.new@)
    }

    /// The old bytes.
    pub closed spec fn old_bytes(&self) -> Seq<u8> {
        self.old@
    }

    /// The decompressed delta stream.
    pub closed spec fn delta_bytes(&self) -> Seq<u8> {
        self.delta@
    }

    /// The decompressed extra stream.
    pub closed spec fn extra_bytes(&self) -> Seq<u8> {
        self.extra@
    }

    /// The stream positions lie within their streams.
    pub closed spec fn wf(&self) -> bool {
        self.delta_pos <= self.delta@.len() && self.extra_pos <= self.extra@.len()
    }

    /// The sources are what the patcher reads; they never change.
    pub open spec fn same_sources(&self, other: &Patcher<'a>) -> bool {
        &&& self.old_bytes() == other.old_bytes()
        &&& self.delta_bytes() == other.delta_bytes()
        &&& self.extra_bytes() == other.extra_bytes()
    }

    /// A patcher at the start of all three sources, with nothing written.
    pub fn new(delta: Vec<u8>, extra: Vec<u8>, old: &'a [u8]) -> (r: Patcher<'a>)
        ensures
            r.wf(),
            r.state() == start_state(),
            r.old_bytes() == old@,
            r.delta_bytes() == delta@,
            r.extra_bytes() == extra@,
    {
        let r = Patcher { delta, delta_pos: 0, extra, extra_pos: 0, old, old_pos: 0, new: Vec::new() };
        assert(r.state() =~= start_state());
        r
    }

    /// The new bytes produced.
    pub fn into_new(self) -> (r: Vec<u8>)
        ensures
            r@ == self.state().3,
    {
        self.new
    }

    /// Runs one command: add, append, seek.
    pub fn apply(&mut self, c: &Command) -> (r: Result<(), PatchError>)
        requires
            old(self).wf(),
        ensures
            final(self).wf(),
            final(self).same_sources(old(self)),
            step_outcome(r, command_step(old(self).old_bytes(), old(self).delta_bytes(), old(self).extra_bytes(), old(self).state(), *c), final(self).state()),
    {
        proof {
            reveal(command_step);
        }
        match self.append_delta(c.bytewise_add_size) {
            Err(e) => return Err(e),
            Ok(()) => {},
        }
        match self.append_extra(c.extra_append_size) {
            Err(e) => return Err(e),
            Ok(()) => {},
        }
        self.seek_old(c.oldfile_seek_offset)
    }

    /// Adds the next `size` old bytes to the next `size` delta bytes, wrapping
    /// at 256, and appends the sums; both sides are read together, window by
    /// window, through a paired reader.
    pub fn append_delta(&mut self, size: u64) -> (r: Result<(), PatchError>)
        requires
            old(self).wf(),
        ensures
            final(self).wf(),
            final(self).same_sources(old(self)),
            step_outcome(r, delta_step(old(self).old_bytes(), old(self).delta_bytes(), old(self).state(), size as int), final(self).state()),
    {
        let old_len = self.old.len() as u64;
        let delta_len = self.delta.len() as u64;
        if self.old_pos > old_len || size > old_len - self.old_pos || size > delta_len - self.delta_pos as u64 {
            return Err(PatchError::Truncated);
        }
        let op = self.old_pos as usize;
        let dp = self.delta_pos;
        let ghost start = self.new@;
        let ghost ob = self.old@;
        let ghost db = self.delta@;
        let olen = self.old.len();
        let dlen = self.delta.len();
        let mut reader = PairedReader::new(size);
        let mut old_at: usize = op;
        let mut delta_at: usize = dp;
        while !reader.is_done()
            invariant
                olen == ob.len(),
                dlen == db.len(),
                reader.wf(),
                reader.spec_size() == size,
                op + size <= ob.len(),
                dp + size <= db.len(),
                ob == self.old@,
                db == self.delta@,
                old_at == op + reader.fed0().len(),
                delta_at == dp + reader.fed1().len(),
                reader.fed0() == ob.subrange(op as int, old_at as int),
                reader.fed1() == db.subrange(dp as int, delta_at as int),
                self.new@ == start + Seq::new(reader.taken0().len(), |j: int| add_byte(ob[op + j], db[dp + j])),
                self.delta == old(self).delta,
                self.old == old(self).old,
                self.extra == old(self).extra,
                self.delta_pos == old(self).delta_pos,
                self.extra_pos == old(self).extra_pos,
                self.old_pos == old(self).old_pos,
            decreases reader.spec_remaining(),
        {
            proof {
                lemma_paired_reader_facts(reader);
            }
            let w0 = reader.wants0();
            if reader.feed0(&self.old[old_at..old_at + w0]).is_err() {
                return Err(PatchError::Truncated);
            }
            old_at = old_at + w0;
            proof {
                lemma_paired_reader_facts(reader);
            }
            let w1 = reader.wants1();
            if reader.feed1(&self.delta.as_slice()[delta_at..delta_at + w1]).is_err() {
                return Err(PatchError::Truncated);
            }
            delta_at = delta_at + w1;
            let ghost t = reader.taken0().len();
            let ghost before = self.new@;
            let (a, b) = reader.take();
            proof {
                lemma_paired_reader_facts(reader);
                assert forall|j: int| 0 <= j < a@.len() implies a@[j] == ob[op + t + j] && b@[j] == db[dp + t + j] by {
                    assert(reader.fed0().subrange(0, reader.taken0().len() as int)[t + j] == reader.taken0()[t + j]);
                    assert(reader.fed1().subrange(0, reader.taken1().len() as int)[t + j] == reader.taken1()[t + j]);
                }
            }
            let mut k: usize = 0;
            while k < a.len()
                invariant
                    k <= a@.len(),
                    a@.len() == b@.len(),
                    forall|j: int| 0 <= j < a@.len() ==> a@[j] == ob[op + t + j] && b@[j] == db[dp + t + j],
                    self.new@ == before + Seq::new(k as nat, |j: int| add_byte(ob[op + t + j], db[dp + t + j])),
                    self.delta == old(self).delta,
                    self.old == old(self).old,
                    self.extra == old(self).extra,
                    self.delta_pos == old(self).delta_pos,
                    self.extra_pos == old(self).extra_pos,
                    self.old_pos == old(self).old_pos,
                decreases a@.len() - k,
            {
                let sum = ((a[k] as u16 + b[k] as u16) % 256) as u8;
                self.new.push(sum);
                k += 1;
                assert(self.new@ =~= before + Seq::new(k as nat, |j: int| add_byte(ob[op + t + j], db[dp + t + j])));
            }
            assert(self.new@ =~= start + Seq::new(reader.taken0().len(), |j: int| add_byte(ob[op + j], db[dp + j])));
        }
        proof {
            lemma_paired_reader_facts(reader);
        }
        self.old_pos = self.old_pos + size;
        self.delta_pos = self.delta_pos + size as usize;
        Ok(())
    }

    /// Appends the next `size` extra bytes.
    pub fn append_extra(&mut self, size: u64) -> (r: Result<(), PatchError>)
        requires
            old(self).wf(),
        ensures
            final(self).wf(),
            final(self).same_sources(old(self)),
            step_outcome(r, extra_step(old(self).extra_bytes(), old(self).state(), size as int), final(self).state()),
    {
        let extra_len = self.extra.len() as u64;
        if size > extra_len - self.extra_pos as u64 {
            return Err(PatchError::Truncated);
        }
        let ep = self.extra_pos;
        let n = size as usize;
        let ghost start = self.new@;
        let elen = self.extra.len();
        let mut k: usize = 0;
        while k < n
            invariant
                k <= n,
                elen == self.extra@.len(),
                ep + n <= self.extra@.len(),
                self.new@ == start + self.extra@.subrange(ep as int, ep + k),
                self.delta == old(self).delta,
                self.old == old(self).old,
                self.extra == old(self).extra,
                self.delta_pos == old(self).delta_pos,
                self.extra_pos == old(self).extra_pos,
                self.old_pos == old(self).old_pos,
            decreases n - k,
        {
            let b = self.extra[ep + k];
            self.new.push(b);
            k += 1;
            assert(self.new@ =~= start + self.extra@.subrange(ep as int, ep + k));
        }
        self.extra_pos = ep + n;
        Ok(())
    }

    /// Moves the old position by `offset`, which may be negative.
    pub fn seek_old(&mut self, offset: i64) -> (r: Result<(), PatchError>)
        requires
            old(self).wf(),
        ensures
            final(self).wf(),
            final(self).same_sources(old(self)),
            step_outcome(r, seek_step(old(self).state(), offset as int), final(self).state()),
    {
        let p: i128 = self.old_pos as i128 + offset as i128;
        if p < 0 || p > u64::MAX as i128 {
            return Err(PatchError::InvalidSeek);
        }
        self.old_pos = p as u64;
        Ok(())
    }

    /// Fails with `SizeMismatch` unless exactly `expected` new bytes were produced.
    pub fn check_written_size(&self, expected: u64) -> (r: Result<(), PatchError>)
        ensures
            r is Ok <==> self.state().3.len() == expected,
            r is Err ==> r == Err::<(), PatchError>(PatchError::SizeMismatch),
    {
        if self.new.len() as u64 == expected {
            Ok(())
        } else {
            Err(PatchError::SizeMismatch)
        }
    }
}

/// `r` is the outcome that `expected` describes.
pub open spec fn outcome_is(r: Result<Vec<u8>, PatchError>, expected: Result<Seq<u8>, PatchError>) -> bool {
    match r {
        Ok(v) => expected == Ok::<Seq<u8>, PatchError>(v@),
        Err(e) => expected == Err::<Seq<u8>, PatchError>(e),
    }
}

/// What running every command of a decompressed command stream gives: the
/// first error, `Truncated` where the stream ends inside a record, else the
/// final state.
pub open spec fn stream_outcome(r: Result<(), PatchError>, old: Seq<u8>, delta: Seq<u8>, extra: Seq<u8>, cmds: Seq<u8>, after: PatchState) -> bool {
    match run_commands(old, delta, extra, commands_of(cmds)) {
        Err(e) => r == Err::<(), PatchError>(e),
        Ok(st) => if cmds.len() as int % (COMMAND_LEN as int) != 0 {
            r == Err::<(), PatchError>(PatchError::Truncated)
        } else {
            r is Ok && after == st
        },
    }
}

proof fn lemma_run_push(old: Seq<u8>, delta: Seq<u8>, extra: Seq<u8>, done: Seq<Command>, c: Command)
    ensures
        run_commands(old, delta, extra, done.push(c)) == match run_commands(old, delta, extra, done) {
            Err(e) => Err(e),
            Ok(st) => command_step(old, delta, extra, st, c),
        },
{
    assert(done.push(c).drop_last() =~= done);
}

/// Reads the commands of `cmds` one by one and runs each on `patcher`.
fn run_command_stream(cmds: Vec<u8>, patcher: &mut Patcher) -> (r: Result<(), PatchError>)
    requires
        old(patcher).wf(),
        old(patcher).state() == start_state(),
    ensures
        final(patcher).wf(),
        final(patcher).same_sources(old(patcher)),
        stream_outcome(r, old(patcher).old_bytes(), old(patcher).delta_bytes(), old(patcher).extra_bytes(), cmds@, final(patcher).state()),
{
    let ghost cb = cmds@;
    let ghost ob = patcher.old_bytes();
    let ghost db = patcher.delta_bytes();
    let ghost eb = patcher.extra_bytes();
    let mut reader = CommandReader::new(cmds);
    let ghost mut done: Seq<Command> = Seq::empty();
    assert(done + commands_of(cb) =~= commands_of(cb));
    loop
        invariant
            reader.wf(),
            patcher.wf(),
            patcher.old_bytes() == ob,
            patcher.delta_bytes() == db,
            patcher.extra_bytes() == eb,
            old(patcher).old_bytes() == ob,
            old(patcher).delta_bytes() == db,
            old(patcher).extra_bytes() == eb,
            cmds@ == cb,
            commands_of(cb) == done + commands_of(reader.rest()),
            run_commands(ob, db, eb, done) == Ok::<PatchState, PatchError>(patcher.state()),
            reader.rest().len() as int % (COMMAND_LEN as int) == cb.len() as int % (COMMAND_LEN as int),
        ensures
            reader.rest().len() == 0,
        decreases reader.rest().len(),
    {
        let ghost rest = reader.rest();
        match reader.next() {
            None => break,
            Some(Err(e)) => {
                proof {
                    lemma_commands_of_short(rest);
                    assert(done + Seq::<Command>::empty() =~= done);
                    assert(rest.len() as int % (COMMAND_LEN as int) == rest.len() as int);
                }
                return Err(e);
            },
            Some(Ok(c)) => {
                let ghost before = patcher.state();
                let ghost tail = rest.subrange(COMMAND_LEN as int, rest.len() as int);
                proof {
                    lemma_commands_of_step(rest);
                    assert(done + commands_of(rest) =~= done.push(c) + commands_of(tail));
                    lemma_run_push(ob, db, eb, done, c);
                }
                let res = patcher.apply(&c);
                if let Err(e) = res {
                    proof {
                        lemma_run_error_sticks(ob, db, eb, done.push(c), commands_of(tail), e);
                    }
                    return Err(e);
                }
                proof {
                    done = done.push(c);
                }
            },
        }
    }
    proof {
        lemma_commands_of_short(reader.rest());
        assert(done + Seq::<Command>::empty() =~= done);
    }
    Ok(())
}

/// Applies `patch` to `old` and returns the new bytes.
pub fn apply_patch(patch: &[u8], old: &[u8]) -> (r: Result<Vec<u8>, PatchError>)
    ensures
        outcome_is(r, patch_result(patch@, old@)),
{
    let h = match Header::read(patch) {
        Ok(h) => h,
        Err(e) => return Err(e),
    };
    let body_len = (patch.len() - HEADER_LEN) as u64;
    if h.compressed_commands_size > body_len || h.compressed_delta_size > body_len - h.compressed_commands_size {
        return Err(PatchError::Truncated);
    }
    let c_end = HEADER_LEN + h.compressed_commands_size as usize;
    let d_end = c_end + h.compressed_delta_size as usize;
    let plen = patch.len();
    let cmds = decompress(&patch[HEADER_LEN..c_end]);
    let delta = decompress(&patch[c_end..d_end]);
    let extra = decompress(&patch[d_end..plen]);
    let (cmds, delta, extra) = match (cmds, delta, extra) {
        (Some(c), Some(d), Some(e)) => (c, d, e),
        _ => return Err(PatchError::DecompressionFailure),
    };
    let mut patcher = Patcher::new(delta, extra, old);
    let ghost cb = cmds@;
    match run_command_stream(cmds, &mut patcher) {
        Ok(()) => {},
        Err(e) => return Err(e),
    }
    match patcher.check_written_size(h.new_file_size) {
        Ok(()) => {},
        Err(e) => return Err(e),
    }
    Ok(patcher.into_new())
}

} // verus!
