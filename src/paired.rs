//! The paired-stream reader: consumes the same number of bytes from two
//! readers in matching windows. The readers stay with the caller, which asks
//! how many bytes to read from each, feeds back what it read, and takes the
//! matching windows.
use vstd::prelude::*;

verus! {

/// The largest window kept for each reader.
pub const WINDOW: usize = 1024;

/// Why a paired read stopped early.
#[derive(Debug, Clone, Copy, PartialEq, Eq, Structural)]
pub enum PairedError {
    /// A reader ended before the requested size was reached.
    UnexpectedEof,
}

/// Buffers one window from each of two readers and hands out their common
/// prefix.
pub struct PairedReader {
    size: u64,
    remaining: u64,
    buf0: Vec<u8>,
    buf1: Vec<u8>,
    fed0: Ghost<Seq<u8>>,
    fed1: Ghost<Seq<u8>>,
    taken0: Ghost<Seq<u8>>,
    taken1: Ghost<Seq<u8>>,
}

impl PairedReader {
    /// The total number of bytes to consume from each reader.
    pub closed spec fn spec_size(&self) -> nat {
        self.size as nat
    }

    /// The bytes not yet handed out.
    pub closed spec fn spec_remaining(&self) -> nat {
        self.remaining as nat
    }

    /// Everything read from the first reader so far.
    pub closed spec fn fed0(&self) -> Seq<u8> {
        self.fed0@
    }

    /// Everything read from the second reader so far.
    pub closed spec fn fed1(&self) -> Seq<u8> {
        self.fed1@
    }

    /// The windows of the first reader handed out so far, concatenated.
    pub closed spec fn taken0(&self) -> Seq<u8> {
        self.taken0@
    }

    /// The windows of the second reader handed out so far, concatenated.
    pub closed spec fn taken1(&self) -> Seq<u8> {
        self.taken1@
    }

    /// How many bytes the next read of each reader may ask for.
    pub closed spec fn window(&self) -> nat {
        if self.remaining < WINDOW as u64 {
            self.remaining as nat
        } else {
            WINDOW as nat
        }
    }

    /// Handed-out windows and buffers make up what was read, equally much on
    /// both sides, and no buffer exceeds the window.
    pub closed spec fn wf(&self) -> bool {
        &&& self.taken0@ + self.buf0@ == self.fed0@
        &&& self.taken1@ + self.buf1@ == self.fed1@
        &&& self.taken0@.len() == self.taken1@.len()
        &&& self.taken0@.len() + self.remaining == self.size
        &&& self.buf0@.len() <= self.window()
        &&& self.buf1@.len() <= self.window()
    }

    /// A reader that will consume `size` bytes from each side.
    pub fn new(size: u64) -> (r: PairedReader)
        ensures
            r.wf(),
            r.spec_size() == size,
            r.spec_remaining() == size,
            r.fed0() == Seq::<u8>::empty(),
            r.fed1() == Seq::<u8>::empty(),
            r.taken0() == Seq::<u8>::empty(),
            r.taken1() == Seq::<u8>::empty(),
    {
        let r = PairedReader {
            size,
            remaining: size,
            buf0: Vec::new(),
            buf1: Vec::new(),
            fed0: Ghost(Seq::empty()),
            fed1: Ghost(Seq::empty()),
            taken0: Ghost(Seq::empty()),
            taken1: Ghost(Seq::empty()),
        };
        assert(r.taken0@ + r.buf0@ =~= r.fed0@);
        assert(r.taken1@ + r.buf1@ =~= r.fed1@);
        r
    }

    /// Whether every byte has been handed out.
    pub fn is_done(&self) -> (r: bool)
        ensures
            r == (self.spec_remaining() == 0),
    {
        self.remaining == 0
    }

    fn room(&self, buffered: usize) -> (r: usize)
        requires
            buffered <= self.window(),
        ensures
            r == self.window() - buffered,
    {
        let w: usize = if self.remaining < WINDOW as u64 { self.remaining as usize } else { WINDOW };
        w - buffered
    }

    /// How many bytes to read from the first reader now.
    pub fn wants0(&self) -> (r: usize)
        requires
            self.wf(),
        ensures
            r == self.window() - (self.fed0().len() - self.taken0().len()),
    {
        self.room(self.buf0.len())
    }

    /// How many bytes to read from the second reader now.
    pub fn wants1(&self) -> (r: usize)
        requires
            self.wf(),
        ensures
            r == self.window() - (self.fed1().len() - self.taken1().len()),
    {
        self.room(self.buf1.len())
    }

    /// Hands over what a read of the first reader returned. An empty read
    /// while bytes are wanted is the end of that reader: `UnexpectedEof`.
    pub fn feed0(&mut self, bytes: &[u8]) -> (r: Result<(), PairedError>)
        requires
            old(self).wf(),
            bytes@.len() <= old(self).window() - (old(self).fed0().len() - old(self).taken0().len()),
        ensures
            final(self).wf(),
            r is Err <==> (bytes@.len() == 0 && old(self).window() > old(self).fed0().len() - old(self).taken0().len()),
            r is Ok ==> final(self).fed0() == old(self).fed0() + bytes@,
            final(self).fed1() == old(self).fed1(),
            final(self).taken0() == old(self).taken0(),
            final(self).taken1() == old(self).taken1(),
            final(self).spec_size() == old(self).spec_size(),
            final(self).spec_remaining() == old(self).spec_remaining(),
    {
        let wanted = self.room(self.buf0.len());
        if bytes.len() == 0 && wanted > 0 {
            return Err(PairedError::UnexpectedEof);
        }
        let mut k: usize = 0;
        let ghost b0 = self.buf0@;
        while k < bytes.len()
            invariant
                k <= bytes@.len(),
                self.buf0@ == b0 + bytes@.subrange(0, k as int),
                b0 == old(self).buf0@,
                self.buf1 == old(self).buf1,
                self.fed0 == old(self).fed0,
                self.fed1 == old(self).fed1,
                self.taken0 == old(self).taken0,
                self.taken1 == old(self).taken1,
                self.size == old(self).size,
                self.remaining == old(self).remaining,
            decreases bytes@.len() - k,
        {
            self.buf0.push(bytes[k]);
            k += 1;
            assert(self.buf0@ =~= b0 + bytes@.subrange(0, k as int));
        }
        assert(bytes@.subrange(0, bytes@.len() as int) =~= bytes@);
        self.fed0 = Ghost(self.fed0@ + bytes@);
        assert(self.taken0@ + self.buf0@ =~= self.fed0@);
        Ok(())
    }

    /// Hands over what a read of the second reader returned. An empty read
    /// while bytes are wanted is the end of that reader: `UnexpectedEof`.
    pub fn feed1(&mut self, bytes: &[u8]) -> (r: Result<(), PairedError>)
        requires
            old(self).wf(),
            bytes@.len() <= old(self).window() - (old(self).fed1().len() - old(self).taken1().len()),
        ensures
            final(self).wf(),
            r is Err <==> (bytes@.len() == 0 && old(self).window() > old(self).fed1().len() - old(self).taken1().len()),
            r is Ok ==> final(self).fed1() == old(self).fed1() + bytes@,
            final(self).fed0() == old(self).fed0(),
            final(self).taken0() == old(self).taken0(),
            final(self).taken1() == old(self).taken1(),
            final(self).spec_size() == old(self).spec_size(),
            final(self).spec_remaining() == old(self).spec_remaining(),
    {
        let wanted = self.room(self.buf1.len());
        if bytes.len() == 0 && wanted > 0 {
            return Err(PairedError::UnexpectedEof);
        }
        let mut k: usize = 0;
        let ghost b1 = self.buf1@;
        while k < bytes.len()
            invariant
                k <= bytes@.len(),
                self.buf1@ == b1 + bytes@.subrange(0, k as int),
                b1 == old(self).buf1@,
                self.buf0 == old(self).buf0,
                self.fed0 == old(self).fed0,
                self.fed1 == old(self).fed1,
                self.taken0 == old(self).taken0,
                self.taken1 == old(self).taken1,
                self.size == old(self).size,
                self.remaining == old(self).remaining,
            decreases bytes@.len() - k,
        {
            self.buf1.push(bytes[k]);
            k += 1;
            assert(self.buf1@ =~= b1 + bytes@.subrange(0, k as int));
        }
        assert(bytes@.subrange(0, bytes@.len() as int) =~= bytes@);
        self.fed1 = Ghost(self.fed1@ + bytes@);
        assert(self.taken1@ + self.buf1@ =~= self.fed1@);
        Ok(())
    }

    /// Hands out the longest windows of equal length that both readers have
    /// supplied, and keeps the rest.
    pub fn take(&mut self) -> (r: (Vec<u8>, Vec<u8>))
        requires
            old(self).wf(),
        ensures
            final(self).wf(),
            r.0@.len() == r.1@.len(),
            final(self).taken0() == old(self).taken0() + r.0@,
            final(self).taken1() == old(self).taken1() + r.1@,
            final(self).fed0() == old(self).fed0(),
            final(self).fed1() == old(self).fed1(),
            final(self).spec_size() == old(self).spec_size(),
            final(self).spec_remaining() == old(self).spec_remaining() - r.0@.len(),
            r.0@.len() == if old(self).fed0().len() < old(self).fed1().len() {
                old(self).fed0().len() - old(self).taken0().len()
            } else {
                old(self).fed1().len() - old(self).taken1().len()
            },
    {
        let filled0 = self.buf0.len();
        let filled1 = self.buf1.len();
        let pmin = if filled0 < filled1 { filled0 } else { filled1 };
        let rest0 = self.buf0.split_off(pmin);
        let rest1 = self.buf1.split_off(pmin);
        let a = self.buf0.split_off(0);
        let b = self.buf1.split_off(0);
        self.buf0 = rest0;
        self.buf1 = rest1;
        self.remaining = self.remaining - pmin as u64;
        self.taken0 = Ghost(self.taken0@ + a@);
        self.taken1 = Ghost(self.taken1@ + b@);
        assert(self.taken0@ + self.buf0@ =~= self.fed0@);
        assert(self.taken1@ + self.buf1@ =~= self.fed1@);
        (a, b)
    }
}

/// What a well-formed paired reader keeps: the windows handed out are a
/// prefix of what each reader supplied, equally long on both sides, and at
/// most one window is buffered.
pub proof fn lemma_paired_reader_facts(p: PairedReader)
    requires
        p.wf(),
    ensures
        p.taken0().len() == p.taken1().len(),
        p.taken0().len() + p.spec_remaining() == p.spec_size(),
        p.taken0().len() <= p.fed0().len(),
        p.taken1().len() <= p.fed1().len(),
        p.fed0().subrange(0, p.taken0().len() as int) == p.taken0(),
        p.fed1().subrange(0, p.taken1().len() as int) == p.taken1(),
        p.fed0().len() - p.taken0().len() <= p.window(),
        p.fed1().len() - p.taken1().len() <= p.window(),
        p.window() == if p.spec_remaining() < WINDOW {
            p.spec_remaining()
        } else {
            WINDOW as nat
        },
{
    assert(p.fed0().subrange(0, p.taken0().len() as int) =~= p.taken0());
    assert(p.fed1().subrange(0, p.taken1().len() as int) =~= p.taken1());
}

/// Once a paired read is done, the windows handed out from each reader are
/// exactly the bytes read from it, `size` of them, and both sides were cut
/// into windows of equal length.
pub proof fn lemma_paired_read_complete(p: PairedReader)
    requires
        p.wf(),
        p.spec_remaining() == 0,
    ensures
        p.taken0() == p.fed0(),
        p.taken1() == p.fed1(),
        p.taken0().len() == p.spec_size(),
        p.taken1().len() == p.spec_size(),
{
    assert(p.taken0() + Seq::<u8>::empty() =~= p.taken0());
    assert(p.taken1() + Seq::<u8>::empty() =~= p.taken1());
}

} // verus!
