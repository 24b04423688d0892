//! The wire format: the sign-magnitude offset codec, the 32-byte header and
//! the 24-byte command records.
use vstd::prelude::*;

verus! {

/// 2 to the power 56: the weight of the last byte of an offset.
pub const TOP_WEIGHT: u64 = 0x100000000000000;

/// 2 to the power 63: one more than the largest magnitude an offset holds.
pub const MAGNITUDE_LIMIT: u64 = 0x8000000000000000;

/// The magnitude stored in an 8-byte offset field: the low 63 bits, little-endian.
pub open spec fn offset_magnitude(b: Seq<u8>) -> int {
    b[0] as int + b[1] as int * 0x100 + b[2] as int * 0x10000 + b[3] as int * 0x1000000
        + b[4] as int * 0x100000000 + b[5] as int * 0x10000000000
        + b[6] as int * 0x1000000000000 + (b[7] % 128) as int * 0x100000000000000
}

/// The signed value of an 8-byte offset field: the high bit of the last byte is the sign.
pub open spec fn offset_value(b: Seq<u8>) -> int {
    if b[7] >= 128 {
        -offset_magnitude(b)
    } else {
        offset_magnitude(b)
    }
}

/// The magnitude that `x` is written with: `|x|`, reduced to 63 bits.
pub open spec fn written_magnitude(x: i64) -> int {
    if x < 0 {
        (-x) % (MAGNITUDE_LIMIT as int)
    } else {
        x as int
    }
}

/// The 8 bytes that encode `x`: the magnitude little-endian, the sign in the top bit.
#[verifier::opaque]
pub open spec fn offset_bytes(x: i64) -> Seq<u8> {
    let m = written_magnitude(x);
    seq![
        (m % 256) as u8,
        ((m / 0x100) % 256) as u8,
        ((m / 0x10000) % 256) as u8,
        ((m / 0x1000000) % 256) as u8,
        ((m / 0x100000000) % 256) as u8,
        ((m / 0x10000000000) % 256) as u8,
        ((m / 0x1000000000000) % 256) as u8,
        ((m / 0x100000000000000) + if x < 0 { 128int } else { 0int }) as u8,
    ]
}

/// Decodes an 8-byte sign-magnitude offset field.
pub fn read_offset(buf: &[u8]) -> (r: i64)
    requires
        buf@.len() == 8,
    ensures
        r as int == offset_value(buf@),
{
    let top: u8 = buf[7] % 128;
    let m: u64 = buf[0] as u64 + buf[1] as u64 * 0x100 + buf[2] as u64 * 0x10000
        + buf[3] as u64 * 0x1000000 + buf[4] as u64 * 0x100000000
        + buf[5] as u64 * 0x10000000000 + buf[6] as u64 * 0x1000000000000
        + top as u64 * TOP_WEIGHT;
    if buf[7] >= 128 {
        -(m as i64)
    } else {
        m as i64
    }
}

/// Encodes `x` into an 8-byte sign-magnitude offset field.
pub fn write_offset(buf: &mut [u8], x: i64)
    requires
        old(buf)@.len() == 8,
    ensures
        final(buf)@ == offset_bytes(x),
{
    let m: u64 = if x == i64::MIN {
        0
    } else if x < 0 {
        (-x) as u64
    } else {
        x as u64
    };
    assert(m as int == written_magnitude(x));
    buf[0] = (m % 256) as u8;
    buf[1] = ((m / 0x100) % 256) as u8;
    buf[2] = ((m / 0x10000) % 256) as u8;
    buf[3] = ((m / 0x1000000) % 256) as u8;
    buf[4] = ((m / 0x100000000) % 256) as u8;
    buf[5] = ((m / 0x10000000000) % 256) as u8;
    buf[6] = ((m / 0x1000000000000) % 256) as u8;
    let top: u64 = m / TOP_WEIGHT;
    buf[7] = if x < 0 { (top + 128) as u8 } else { top as u8 };
    reveal(offset_bytes);
    assert(buf@ =~= offset_bytes(x));
}

/// Every offset field is 8 bytes long.
pub proof fn lemma_offset_bytes_len(x: i64)
    ensures
        offset_bytes(x).len() == 8,
{
    reveal(offset_bytes);
}

/// Decoding what `write_offset` wrote gives the value back, for every value
/// but the one whose magnitude needs 64 bits.
pub proof fn lemma_offset_round_trip(x: i64)
    requires
        x != i64::MIN,
    ensures
        offset_value(offset_bytes(x)) == x as int,
{
    reveal(offset_bytes);
    let m = written_magnitude(x);
    let b = offset_bytes(x);
    lemma_next_digit(m, 1);
    lemma_next_digit(m, 0x100);
    lemma_next_digit(m, 0x10000);
    lemma_next_digit(m, 0x1000000);
    lemma_next_digit(m, 0x100000000);
    lemma_next_digit(m, 0x10000000000);
    lemma_next_digit(m, 0x1000000000000);
    vstd::arithmetic::div_mod::lemma_div_by_multiple_is_strongly_ordered(
        m,
        MAGNITUDE_LIMIT as int,
        128,
        TOP_WEIGHT as int,
    );
    assert(offset_magnitude(b) == m);
}

proof fn lemma_next_digit(m: int, c: int)
    requires
        0 <= m,
        0 < c,
    ensures
        m / c == (m / c) % 256 + 256 * (m / (c * 256)),
{
    vstd::arithmetic::div_mod::lemma_fundamental_div_mod(m / c, 256);
    vstd::arithmetic::div_mod::lemma_div_denominator(m, c, 256);
}

/// What can go wrong while a patch is read or applied.
#[derive(Debug, Clone, Copy, PartialEq, Eq, Structural)]
pub enum PatchError {
    /// The magic is not `BSDIFF40`, or a size field of the header is negative.
    InvalidHeader,
    /// A record, a region or a stream ends before the bytes it announces.
    Truncated,
    /// A compressed region does not decompress.
    DecompressionFailure,
    /// The bytes produced differ in number from the header's new file size.
    SizeMismatch,
    /// A seek would move the old position before its start.
    InvalidSeek,
}

/// The fixed header that opens every patch.
#[derive(Debug, Clone, Copy, PartialEq, Eq, Structural)]
pub struct Header {
    pub compressed_commands_size: u64,
    pub compressed_delta_size: u64,
    pub new_file_size: u64,
}

/// One command of the applier: add, append, then seek.
#[derive(Debug, Clone, Copy, PartialEq, Eq, Structural)]
pub struct Command {
    pub bytewise_add_size: u64,
    pub extra_append_size: u64,
    pub oldfile_seek_offset: i64,
}

/// Length of the header in bytes.
pub const HEADER_LEN: usize = 32;

/// Length of one encoded command in bytes.
pub const COMMAND_LEN: usize = 24;

/// The magic `BSDIFF40`.
pub open spec fn magic() -> Seq<u8> {
    seq![66u8, 83u8, 68u8, 73u8, 70u8, 70u8, 52u8, 48u8]
}

/// The 32 bytes that encode a header.
pub open spec fn header_bytes(h: Header) -> Seq<u8> {
    magic() + offset_bytes(h.compressed_commands_size as i64) + offset_bytes(
        h.compressed_delta_size as i64,
    ) + offset_bytes(h.new_file_size as i64)
}

/// What reading a header from the start of `b` gives.
pub open spec fn parse_header(b: Seq<u8>) -> Result<Header, PatchError> {
    if b.len() < HEADER_LEN {
        Err(PatchError::Truncated)
    } else if b.subrange(0, 8) != magic() {
        Err(PatchError::InvalidHeader)
    } else {
        let c = offset_value(b.subrange(8, 16));
        let d = offset_value(b.subrange(16, 24));
        let n = offset_value(b.subrange(24, 32));
        if c < 0 || d < 0 || n < 0 {
            Err(PatchError::InvalidHeader)
        } else {
            Ok(Header {
                compressed_commands_size: c as u64,
                compressed_delta_size: d as u64,
                new_file_size: n as u64,
            })
        }
    }
}

/// A header whose sizes the offset codec carries unchanged.
pub open spec fn header_fits(h: Header) -> bool {
    &&& h.compressed_commands_size <= i64::MAX
    &&& h.compressed_delta_size <= i64::MAX
    &&& h.new_file_size <= i64::MAX
}

/// The 24 bytes that encode a command.
pub open spec fn command_bytes(c: Command) -> Seq<u8> {
    offset_bytes(c.bytewise_add_size as i64) + offset_bytes(c.extra_append_size as i64)
        + offset_bytes(c.oldfile_seek_offset)
}

/// The command that 24 bytes encode.
pub open spec fn command_of(b: Seq<u8>) -> Command {
    Command {
        bytewise_add_size: (offset_value(b.subrange(0, 8)) as i64) as u64,
        extra_append_size: (offset_value(b.subrange(8, 16)) as i64) as u64,
        oldfile_seek_offset: offset_value(b.subrange(16, 24)) as i64,
    }
}

/// A command whose fields the offset codec carries unchanged.
pub open spec fn command_fits(c: Command) -> bool {
    &&& c.bytewise_add_size <= i64::MAX
    &&& c.extra_append_size <= i64::MAX
    &&& c.oldfile_seek_offset != i64::MIN
}

/// The encoding of a list of commands, one record after another.
pub open spec fn commands_bytes(cs: Seq<Command>) -> Seq<u8>
    decreases cs.len(),
{
    if cs.len() == 0 {
        Seq::empty()
    } else {
        commands_bytes(cs.drop_last()) + command_bytes(cs.last())
    }
}

/// The complete records at the start of a command stream, in order.
pub open spec fn commands_of(b: Seq<u8>) -> Seq<Command>
    decreases b.len(),
{
    if b.len() < COMMAND_LEN {
        Seq::empty()
    } else {
        seq![command_of(b.subrange(0, COMMAND_LEN as int))] + commands_of(
            b.subrange(COMMAND_LEN as int, b.len() as int),
        )
    }
}

/// Appends the 8-byte encoding of `x` to `out`.
fn push_offset(out: &mut Vec<u8>, x: i64)
    ensures
        final(out)@ == old(out)@ + offset_bytes(x),
{
    let mut buf: Vec<u8> = vec![0u8; 8];
    write_offset(buf.as_mut_slice(), x);
    out.append(&mut buf);
}

impl Header {
    /// Reads the header at the start of `buf`.
    pub fn read(buf: &[u8]) -> (r: Result<Header, PatchError>)
        ensures
            r == parse_header(buf@),
    {
        if buf.len() < HEADER_LEN {
            return Err(PatchError::Truncated);
        }
        let magic_ok = buf[0] == 66 && buf[1] == 83 && buf[2] == 68 && buf[3] == 73 && buf[4]
            == 70 && buf[5] == 70 && buf[6] == 52 && buf[7] == 48;
        if !magic_ok {
            proof {
                assert(buf@.subrange(0, 8) != magic()) by {
                    if buf@.subrange(0, 8) == magic() {
                        assert(buf@.subrange(0, 8)[0] == buf@[0]);
                        assert(buf@.subrange(0, 8)[1] == buf@[1]);
                        assert(buf@.subrange(0, 8)[2] == buf@[2]);
                        assert(buf@.subrange(0, 8)[3] == buf@[3]);
                        assert(buf@.subrange(0, 8)[4] == buf@[4]);
                        assert(buf@.subrange(0, 8)[5] == buf@[5]);
                        assert(buf@.subrange(0, 8)[6] == buf@[6]);
                        assert(buf@.subrange(0, 8)[7] == buf@[7]);
                    }
                }
            }
            return Err(PatchError::InvalidHeader);
        }
        assert(buf@.subrange(0, 8) =~= magic());
        let c = read_offset(&buf[8..16]);
        let d = read_offset(&buf[16..24]);
        let n = read_offset(&buf[24..32]);
        if c < 0 || d < 0 || n < 0 {
            return Err(PatchError::InvalidHeader);
        }
        Ok(Header { compressed_commands_size: c as u64, compressed_delta_size: d as u64, new_file_size: n as u64 })
    }

    /// The length of the extra region of a patch of `patch_len` bytes: what
    /// follows the header and the two sized regions. `None` where the sized
    /// regions do not fit.
    pub fn compressed_extra_size(&self, patch_len: usize) -> (r: Option<u64>)
        ensures
            patch_len >= HEADER_LEN + self.compressed_commands_size + self.compressed_delta_size
                ==> r == Some((patch_len - HEADER_LEN - self.compressed_commands_size - self.compressed_delta_size) as u64),
            patch_len < HEADER_LEN + self.compressed_commands_size + self.compressed_delta_size ==> r is None,
    {
        if patch_len < HEADER_LEN {
            return None;
        }
        let body = (patch_len - HEADER_LEN) as u64;
        if self.compressed_commands_size > body || self.compressed_delta_size > body - self.compressed_commands_size {
            return None;
        }
        Some(body - self.compressed_commands_size - self.compressed_delta_size)
    }

    /// Appends the 32-byte encoding of the header to `out`.
    pub fn write_to(&self, out: &mut Vec<u8>)
        ensures
            final(out)@ == old(out)@ + header_bytes(*self),
    {
        out.push(66);
        out.push(83);
        out.push(68);
        out.push(73);
        out.push(70);
        out.push(70);
        out.push(52);
        out.push(48);
        assert(out@ =~= old(out)@ + magic());
        push_offset(out, #[verifier::truncate] (self.compressed_commands_size as i64));
        push_offset(out, #[verifier::truncate] (self.compressed_delta_size as i64));
        push_offset(out, #[verifier::truncate] (self.new_file_size as i64));
        assert(out@ =~= old(out)@ + header_bytes(*self));
    }
}

impl Command {
    /// Appends the 24-byte encoding of the command to `out`.
    pub fn write_to(&self, out: &mut Vec<u8>)
        ensures
            final(out)@ == old(out)@ + command_bytes(*self),
    {
        push_offset(out, #[verifier::truncate] (self.bytewise_add_size as i64));
        push_offset(out, #[verifier::truncate] (self.extra_append_size as i64));
        push_offset(out, self.oldfile_seek_offset);
        assert(out@ =~= old(out)@ + command_bytes(*self));
    }
}

/// Reading back a header that `Header::write_to` wrote gives the header again,
/// whatever follows it.
pub proof fn lemma_header_round_trip(h: Header, rest: Seq<u8>)
    requires
        header_fits(h),
    ensures
        header_bytes(h).len() == HEADER_LEN,
        parse_header(header_bytes(h) + rest) == Ok::<Header, PatchError>(h),
{
    let x1 = offset_bytes(h.compressed_commands_size as i64);
    let x2 = offset_bytes(h.compressed_delta_size as i64);
    let x3 = offset_bytes(h.new_file_size as i64);
    lemma_offset_bytes_len(h.compressed_commands_size as i64);
    lemma_offset_bytes_len(h.compressed_delta_size as i64);
    lemma_offset_bytes_len(h.new_file_size as i64);
    let b = magic() + x1 + x2 + x3 + rest;
    assert(header_bytes(h) + rest == b);
    assert(b.subrange(0, 8) =~= magic());
    assert(b.subrange(8, 16) =~= x1);
    assert(b.subrange(16, 24) =~= x2);
    assert(b.subrange(24, 32) =~= x3);
    lemma_offset_round_trip(h.compressed_commands_size as i64);
    lemma_offset_round_trip(h.compressed_delta_size as i64);
    lemma_offset_round_trip(h.new_file_size as i64);
}

/// Decoding what `Command::write_to` wrote gives the command back.
pub proof fn lemma_command_round_trip(c: Command)
    requires
        command_fits(c),
    ensures
        command_bytes(c).len() == COMMAND_LEN,
        command_of(command_bytes(c)) == c,
{
    let b = command_bytes(c);
    lemma_offset_bytes_len(c.bytewise_add_size as i64);
    lemma_offset_bytes_len(c.extra_append_size as i64);
    lemma_offset_bytes_len(c.oldfile_seek_offset);
    lemma_offset_round_trip(c.bytewise_add_size as i64);
    lemma_offset_round_trip(c.extra_append_size as i64);
    lemma_offset_round_trip(c.oldfile_seek_offset);
    assert(b.subrange(0, 8) =~= offset_bytes(c.bytewise_add_size as i64));
    assert(b.subrange(8, 16) =~= offset_bytes(c.extra_append_size as i64));
    assert(b.subrange(16, 24) =~= offset_bytes(c.oldfile_seek_offset));
}

/// The encoding of a list of commands is 24 bytes per command.
pub proof fn lemma_commands_bytes_len(cs: Seq<Command>)
    ensures
        commands_bytes(cs).len() == COMMAND_LEN * cs.len(),
    decreases cs.len(),
{
    if cs.len() > 0 {
        lemma_commands_bytes_len(cs.drop_last());
        let c = cs.last();
        lemma_offset_bytes_len(c.bytewise_add_size as i64);
        lemma_offset_bytes_len(c.extra_append_size as i64);
        lemma_offset_bytes_len(c.oldfile_seek_offset);
    }
}

proof fn lemma_commands_of_push(b: Seq<u8>, c: Command)
    requires
        b.len() as int % (COMMAND_LEN as int) == 0,
        command_fits(c),
    ensures
        commands_of(b + command_bytes(c)) == commands_of(b).push(c),
    decreases b.len(),
{
    lemma_command_round_trip(c);
    let x = b + command_bytes(c);
    if b.len() == 0 {
        assert(x =~= command_bytes(c));
        assert(x.subrange(COMMAND_LEN as int, x.len() as int) =~= Seq::<u8>::empty());
        assert(commands_of(Seq::<u8>::empty()) =~= Seq::<Command>::empty());
        assert(commands_of(x) =~= commands_of(b).push(c));
    } else {
        let tail = b.subrange(COMMAND_LEN as int, b.len() as int);
        assert(x.subrange(0, COMMAND_LEN as int) =~= b.subrange(0, COMMAND_LEN as int));
        assert(x.subrange(COMMAND_LEN as int, x.len() as int) =~= tail + command_bytes(c));
        lemma_commands_of_push(tail, c);
        assert(commands_of(x) =~= commands_of(b).push(c));
    }
}

/// Writing a list of commands one after another and reading the records back
/// gives the list again.
pub proof fn lemma_commands_round_trip(cs: Seq<Command>)
    requires
        forall|i: int| 0 <= i < cs.len() ==> command_fits(#[trigger] cs[i]),
    ensures
        commands_of(commands_bytes(cs)) == cs,
    decreases cs.len(),
{
    if cs.len() == 0 {
        assert(commands_of(Seq::<u8>::empty()) =~= cs);
    } else {
        let init = cs.drop_last();
        assert forall|i: int| 0 <= i < init.len() implies command_fits(#[trigger] init[i]) by {
            assert(init[i] == cs[i]);
        }
        lemma_commands_round_trip(init);
        lemma_commands_bytes_len(init);
        vstd::arithmetic::div_mod::lemma_mod_multiples_basic(init.len() as int, COMMAND_LEN as int);
        assert(COMMAND_LEN * init.len() == init.len() * COMMAND_LEN);
        lemma_commands_of_push(commands_bytes(init), cs.last());
        assert(init.push(cs.last()) =~= cs);
    }
}

/// A stream of at least one record starts with that record.
pub proof fn lemma_commands_of_step(b: Seq<u8>)
    requires
        b.len() >= COMMAND_LEN,
    ensures
        commands_of(b) == seq![command_of(b.subrange(0, COMMAND_LEN as int))]
            + commands_of(b.subrange(COMMAND_LEN as int, b.len() as int)),
{
}

/// A stream shorter than one record holds no complete record.
pub proof fn lemma_commands_of_short(b: Seq<u8>)
    requires
        b.len() < COMMAND_LEN,
    ensures
        commands_of(b) == Seq::<Command>::empty(),
{
}

/// Reads command records from a decompressed command stream.
pub struct CommandReader {
    inner: Vec<u8>,
    pos: usize,
}

impl CommandReader {
    /// The bytes not read yet.
    pub closed spec fn rest(&self) -> Seq<u8> {
        self.inner@.subrange(self.pos as int, self.inner@.len() as int)
    }

    /// The read position lies within the stream.
    pub closed spec fn wf(&self) -> bool {
        self.pos <= self.inner@.len()
    }

    /// A reader at the start of `inner`.
    pub fn new(inner: Vec<u8>) -> (r: CommandReader)
        ensures
            r.wf(),
            r.rest() == inner@,
    {
        let r = CommandReader { inner, pos: 0 };
        assert(r.rest() =~= r.inner@);
        r
    }

    /// The next command; `None` at a clean end of the stream, `Truncated`
    /// where the stream ends inside a record.
    pub fn next(&mut self) -> (r: Option<Result<Command, PatchError>>)
        requires
            old(self).wf(),
        ensures
            final(self).wf(),
            old(self).rest().len() == 0 ==> r is None && final(self).rest() == old(self).rest(),
            0 < old(self).rest().len() < COMMAND_LEN ==> r == Some(
                Err::<Command, PatchError>(PatchError::Truncated),
            ) && final(self).rest().len() == 0,
            old(self).rest().len() >= COMMAND_LEN ==> r == Some(
                Ok::<Command, PatchError>(command_of(old(self).rest().subrange(0, COMMAND_LEN as int))),
            ) && final(self).rest() == old(self).rest().subrange(
                COMMAND_LEN as int,
                old(self).rest().len() as int,
            ),
    {
        let len = self.inner.len();
        if self.pos == len {
            return None;
        }
        if len - self.pos < COMMAND_LEN {
            self.pos = len;
            assert(self.rest() =~= Seq::<u8>::empty());
            return Some(Err(PatchError::Truncated));
        }
        let p = self.pos;
        let add = read_offset(&self.inner.as_slice()[p..p + 8]);
        let extra = read_offset(&self.inner.as_slice()[p + 8..p + 16]);
        let seek = read_offset(&self.inner.as_slice()[p + 16..p + 24]);
        let ghost rec = old(self).rest().subrange(0, COMMAND_LEN as int);
        assert(rec.subrange(0, 8) =~= self.inner@.subrange(p as int, p + 8));
        assert(rec.subrange(8, 16) =~= self.inner@.subrange(p + 8, p + 16));
        assert(rec.subrange(16, 24) =~= self.inner@.subrange(p + 16, p + 24));
        self.pos = p + COMMAND_LEN;
        assert(self.rest() =~= old(self).rest().subrange(
            COMMAND_LEN as int,
            old(self).rest().len() as int,
        ));
        Some(Ok(Command { bytewise_add_size: add as u64, extra_append_size: extra as u64, oldfile_seek_offset: seek }))
    }
}

impl CommandReader {
    /// Reads every remaining command: the complete records in order, or
    /// `Truncated` where the stream ends inside a record.
    pub fn read_all(&mut self) -> (r: Result<Vec<Command>, PatchError>)
        requires
            old(self).wf(),
        ensures
            final(self).wf(),
            final(self).rest().len() == 0,
            old(self).rest().len() as int % (COMMAND_LEN as int) == 0 ==> r is Ok && r->Ok_0@ == commands_of(old(self).rest()),
            old(self).rest().len() as int % (COMMAND_LEN as int) != 0 ==> r == Err::<Vec<Command>, PatchError>(PatchError::Truncated),
    {
        let ghost orig = self.rest();
        let mut out: Vec<Command> = Vec::new();
        assert(out@ + commands_of(orig) =~= commands_of(orig));
        loop
            invariant
                self.wf(),
                orig == old(self).rest(),
                commands_of(orig) == out@ + commands_of(self.rest()),
                self.rest().len() as int % (COMMAND_LEN as int) == orig.len() as int % (COMMAND_LEN as int),
            ensures
                self.rest().len() == 0,
                commands_of(orig) == out@,
                orig.len() as int % (COMMAND_LEN as int) == 0,
            decreases self.rest().len(),
        {
            let ghost rest = self.rest();
            match self.next() {
                None => {
                    proof {
                        lemma_commands_of_short(rest);
                        assert(out@ + Seq::<Command>::empty() =~= out@);
                    }
                    break;
                },
                Some(Err(e)) => {
                    proof {
                        assert(rest.len() as int % (COMMAND_LEN as int) == rest.len() as int);
                    }
                    return Err(e);
                },
                Some(Ok(c)) => {
                    proof {
                        lemma_commands_of_step(rest);
                        assert(out@ + commands_of(rest) =~= out@.push(c) + commands_of(self.rest()));
                    }
                    out.push(c);
                },
            }
        }
        Ok(out)
    }
}

/// Reading back, with `read_all`, the bytes that `CommandWriter::write` wrote
/// for a list of commands gives that list.
pub proof fn lemma_written_commands_read_back(cs: Seq<Command>)
    requires
        forall|i: int| 0 <= i < cs.len() ==> command_fits(#[trigger] cs[i]),
    ensures
        commands_bytes(cs).len() as int % (COMMAND_LEN as int) == 0,
        commands_of(commands_bytes(cs)) == cs,
{
    lemma_commands_round_trip(cs);
    lemma_commands_bytes_len(cs);
    vstd::arithmetic::div_mod::lemma_mod_multiples_basic(cs.len() as int, COMMAND_LEN as int);
    assert(COMMAND_LEN * cs.len() == cs.len() * COMMAND_LEN);
}

/// Writes command records into a byte buffer.
pub struct CommandWriter {
    inner: Vec<u8>,
}

impl View for CommandWriter {
    type V = Seq<u8>;

    closed spec fn view(&self) -> Seq<u8> {
        self.inner@
    }
}

impl CommandWriter {
    /// A writer that appends after the bytes of `inner`.
    pub fn new(inner: Vec<u8>) -> (r: CommandWriter)
        ensures
            r@ == inner@,
    {
        CommandWriter { inner }
    }

    /// Appends the encoding of `c`.
    pub fn write(&mut self, c: &Command)
        ensures
            final(self)@ == old(self)@ + command_bytes(*c),
    {
        c.write_to(&mut self.inner);
    }

    /// The bytes written, after those the writer started with.
    pub fn into_inner(self) -> (r: Vec<u8>)
        ensures
            r@ == self@,
    {
        self.inner
    }
}

} // verus!
