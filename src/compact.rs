use vstd::prelude::*;

use byteorder::{ByteOrder, LittleEndian};

use crate::stream::PatchError;

verus! {

/// Size of an encoded command, in bytes.
pub const COMMAND_LEN: usize = 24;

/// Size of the header, in bytes.
pub const HEADER_LEN: usize = 32;

/// Format tag in the first eight bytes of the header.
pub const MAGIC: u64 = 0x3130_4154_4c45_4453;

/// The value of bytes read least significant first.
pub open spec fn le_value(b: Seq<u8>) -> int
    decreases b.len(),
{
    if b.len() == 0 {
        0
    } else {
        b[0] as int + 256 * le_value(b.drop_first())
    }
}

/// The unsigned 64-bit pattern of a signed value (two's complement).
pub open spec fn twos(n: i64) -> int {
    if n < 0 {
        n + 0x1_0000_0000_0000_0000
    } else {
        n as int
    }
}

/// Relies on byteorder's `LittleEndian::read_u64`: the first eight bytes, least
/// significant first.
#[verifier::external_body]
fn read_u64_le(b: &[u8]) -> (r: u64)
    requires
        b@.len() >= 8,
    ensures
        r as int == le_value(b@.subrange(0, 8)),
{
    LittleEndian::read_u64(b)
}

/// Relies on byteorder's `LittleEndian::write_u64`: eight bytes, least significant first.
#[verifier::external_body]
fn write_u64_le(buf: &mut Vec<u8>, n: u64)
    requires
        old(buf)@.len() >= 8,
    ensures
        final(buf)@.len() == old(buf)@.len(),
        le_value(final(buf)@.subrange(0, 8)) == n as int,
        final(buf)@.subrange(8, final(buf)@.len() as int) == old(buf)@.subrange(8, old(buf)@.len() as int),
{
    LittleEndian::write_u64(buf, n)
}

/// Relies on byteorder's `LittleEndian::read_i64`: the first eight bytes as a
/// two's-complement value, least significant first.
#[verifier::external_body]
fn read_i64_le(b: &[u8]) -> (r: i64)
    requires
        b@.len() >= 8,
    ensures
        twos(r) == le_value(b@.subrange(0, 8)),
{
    LittleEndian::read_i64(b)
}

/// Relies on byteorder's `LittleEndian::write_i64`: eight bytes of two's
/// complement, least significant first.
#[verifier::external_body]
fn write_i64_le(buf: &mut Vec<u8>, n: i64)
    requires
        old(buf)@.len() >= 8,
    ensures
        final(buf)@.len() == old(buf)@.len(),
        le_value(final(buf)@.subrange(0, 8)) == twos(n),
        final(buf)@.subrange(8, final(buf)@.len() as int) == old(buf)@.subrange(8, old(buf)@.len() as int),
{
    LittleEndian::write_i64(buf, n)
}

proof fn lemma_twos_injective(a: i64, b: i64)
    requires
        twos(a) == twos(b),
    ensures
        a == b,
{
}

/// Eight zero bytes.
fn zeros8() -> (r: Vec<u8>)
    ensures
        r@.len() == 8,
{
    let mut r: Vec<u8> = Vec::new();
    let mut i: usize = 0;
    while i < 8
        invariant
            i <= 8,
            r@.len() == i,
        decreases 8 - i,
    {
        r.push(0);
        i = i + 1;
    }
    r
}

/// Eight bytes holding `n`, least significant first.
pub fn u64_bytes(n: u64) -> (r: Vec<u8>)
    ensures
        r@.len() == 8,
        le_value(r@) == n as int,
{
    let mut r = zeros8();
    write_u64_le(&mut r, n);
    proof {
        assert(r@.subrange(0, 8) =~= r@);
    }
    r
}

/// Eight bytes holding the two's complement of `n`, least significant first.
pub fn i64_bytes(n: i64) -> (r: Vec<u8>)
    ensures
        r@.len() == 8,
        le_value(r@) == twos(n),
{
    let mut r = zeros8();
    write_i64_le(&mut r, n);
    proof {
        assert(r@.subrange(0, 8) =~= r@);
    }
    r
}

/// The bytes `b[at..at + 8]` as an unsigned value.
pub fn u64_at(b: &[u8], at: usize) -> (r: u64)
    requires
        at + 8 <= b@.len(),
    ensures
        r as int == le_value(b@.subrange(at as int, at + 8)),
{
    let len: usize = b.len();
    let end: usize = if at < len - 8 { at + 8 } else { len };
    let s = vstd::slice::slice_subrange(b, at, end);
    let r = read_u64_le(s);
    proof {
        assert(s@.subrange(0, 8) =~= b@.subrange(at as int, at + 8));
    }
    r
}

/// The bytes `b[at..at + 8]` as a two's-complement value.
pub fn i64_at(b: &[u8], at: usize) -> (r: i64)
    requires
        at + 8 <= b@.len(),
    ensures
        twos(r) == le_value(b@.subrange(at as int, at + 8)),
{
    let len: usize = b.len();
    let end: usize = if at < len - 8 { at + 8 } else { len };
    let s = vstd::slice::slice_subrange(b, at, end);
    let r = read_i64_le(s);
    proof {
        assert(s@.subrange(0, 8) =~= b@.subrange(at as int, at + 8));
    }
    r
}

/// One instruction of the compact format: combine `bytewise_add_size` bytes of
/// old data with delta bytes, copy `extra_append_size` literal bytes, then move
/// the old-data cursor by `oldfile_seek_offset`.
#[derive(Clone, Copy, Debug, PartialEq, Eq, Structural)]
pub struct Command {
    pub bytewise_add_size: u64,
    pub extra_append_size: u64,
    pub oldfile_seek_offset: i64,
}

/// The fields of the header.
#[derive(Clone, Copy, Debug, PartialEq, Eq, Structural)]
pub struct Header {
    pub compressed_commands_size: u64,
    pub compressed_delta_size: u64,
    pub new_file_size: u64,
}

/// Whether `b` is the 24-byte encoding of `c`.
pub open spec fn encodes_command(b: Seq<u8>, c: Command) -> bool {
    &&& b.len() == 24
    &&& le_value(b.subrange(0, 8)) == c.bytewise_add_size as int
    &&& le_value(b.subrange(8, 16)) == c.extra_append_size as int
    &&& le_value(b.subrange(16, 24)) == twos(c.oldfile_seek_offset)
}

/// Whether `b` is the 32-byte encoding of `h`.
pub open spec fn encodes_header(b: Seq<u8>, h: Header) -> bool {
    &&& b.len() == 32
    &&& le_value(b.subrange(0, 8)) == MAGIC as int
    &&& le_value(b.subrange(8, 16)) == h.compressed_commands_size as int
    &&& le_value(b.subrange(16, 24)) == h.compressed_delta_size as int
    &&& le_value(b.subrange(24, 32)) == h.new_file_size as int
}

/// Whether `b` is the concatenation of the encodings of `cs`, in order.
pub open spec fn encodes_commands(b: Seq<u8>, cs: Seq<Command>) -> bool {
    &&& b.len() == 24 * cs.len()
    &&& forall|k: int| 0 <= k < cs.len() ==> encodes_command(#[trigger] b.subrange(24 * k, 24 * k + 24), cs[k])
}

impl Command {
    /// Appends the 24-byte encoding of the command to `out`.
    pub fn write_to(&self, out: &mut Vec<u8>)
        ensures
            final(out)@.len() == old(out)@.len() + 24,
            final(out)@.subrange(0, old(out)@.len() as int) == old(out)@,
            encodes_command(final(out)@.subrange(old(out)@.len() as int, old(out)@.len() + 24int), *self),
    {
        let mut a = u64_bytes(self.bytewise_add_size);
        let mut e = u64_bytes(self.extra_append_size);
        let mut s = i64_bytes(self.oldfile_seek_offset);
        let ghost (av, ev, sv) = (a@, e@, s@);
        let ghost o = out@;
        out.append(&mut a);
        out.append(&mut e);
        out.append(&mut s);
        proof {
            let n = o.len() as int;
            let w = out@.subrange(n, n + 24);
            assert(w.subrange(0, 8) =~= av);
            assert(w.subrange(8, 16) =~= ev);
            assert(w.subrange(16, 24) =~= sv);
            assert(out@.subrange(0, n) =~= o);
        }
    }

    /// Decodes the command at `b[at..at + 24]`.
    pub fn read_at(b: &[u8], at: usize) -> (r: Command)
        requires
            at + 24 <= b@.len(),
        ensures
            encodes_command(b@.subrange(at as int, at + 24), r),
    {
        let len: usize = b.len();
        let mid: usize = if at < len { at + 8 } else { len };
        let r = Command {
            bytewise_add_size: u64_at(b, at),
            extra_append_size: u64_at(b, mid),
            oldfile_seek_offset: i64_at(b, mid + 8),
        };
        proof {
            let w = b@.subrange(at as int, at + 24);
            assert(w.subrange(0, 8) =~= b@.subrange(at as int, at + 8));
            assert(w.subrange(8, 16) =~= b@.subrange(at + 8, at + 16));
            assert(w.subrange(16, 24) =~= b@.subrange(at + 16, at + 24));
        }
        r
    }
}

impl Header {
    /// The 32-byte encoding of the header.
    pub fn to_bytes(&self) -> (r: Vec<u8>)
        ensures
            encodes_header(r@, *self),
    {
        let mut r = u64_bytes(MAGIC);
        let mut c = u64_bytes(self.compressed_commands_size);
        let mut d = u64_bytes(self.compressed_delta_size);
        let mut n = u64_bytes(self.new_file_size);
        let ghost (mv, cv, dv, nv) = (r@, c@, d@, n@);
        r.append(&mut c);
        r.append(&mut d);
        r.append(&mut n);
        proof {
            assert(r@.subrange(0, 8) =~= mv);
            assert(r@.subrange(8, 16) =~= cv);
            assert(r@.subrange(16, 24) =~= dv);
            assert(r@.subrange(24, 32) =~= nv);
        }
        r
    }

    /// Decodes the header at the start of `b`. Fails with `BadHeader` when `b` is
    /// shorter than the header or does not start with the format tag.
    pub fn read(b: &[u8]) -> (r: Result<Header, PatchError>)
        ensures
            r is Ok <==> (b@.len() >= 32 && le_value(b@.subrange(0, 8)) == MAGIC as int),
            r is Ok ==> encodes_header(b@.subrange(0, 32), r->Ok_0),
            r is Err ==> r == Err::<Header, PatchError>(PatchError::BadHeader),
    {
        if b.len() < HEADER_LEN {
            return Err(PatchError::BadHeader);
        }
        let m = u64_at(b, 0);
        if m != MAGIC {
            return Err(PatchError::BadHeader);
        }
        let h = Header {
            compressed_commands_size: u64_at(b, 8),
            compressed_delta_size: u64_at(b, 16),
            new_file_size: u64_at(b, 24),
        };
        proof {
            let w = b@.subrange(0, 32);
            assert(w.subrange(0, 8) =~= b@.subrange(0, 8));
            assert(w.subrange(8, 16) =~= b@.subrange(8, 16));
            assert(w.subrange(16, 24) =~= b@.subrange(16, 24));
            assert(w.subrange(24, 32) =~= b@.subrange(24, 32));
        }
        Ok(h)
    }
}

/// Two encodings of one command hold the same command.
pub proof fn lemma_command_unique(b: Seq<u8>, c: Command, d: Command)
    requires
        encodes_command(b, c),
        encodes_command(b, d),
    ensures
        c == d,
{
    lemma_twos_injective(c.oldfile_seek_offset, d.oldfile_seek_offset);
}

/// Two encodings of one header hold the same header.
pub proof fn lemma_header_unique(b: Seq<u8>, h: Header, g: Header)
    requires
        encodes_header(b, h),
        encodes_header(b, g),
    ensures
        h == g,
{
}

/// The concatenated encodings of `cs`.
pub fn encode_commands(cs: &Vec<Command>) -> (r: Vec<u8>)
    ensures
        encodes_commands(r@, cs@),
{
    let mut r: Vec<u8> = Vec::new();
    let mut i: usize = 0;
    while i < cs.len()
        invariant
            i <= cs@.len(),
            encodes_commands(r@, cs@.subrange(0, i as int)),
        decreases cs@.len() - i,
    {
        let ghost before = r@;
        cs[i].write_to(&mut r);
        proof {
            assert forall|k: int| 0 <= k < i + 1 implies encodes_command(
                #[trigger] r@.subrange(24 * k, 24 * k + 24),
                cs@.subrange(0, i + 1)[k],
            ) by {
                if k < i {
                    assert(r@.subrange(24 * k, 24 * k + 24) =~= before.subrange(24 * k, 24 * k + 24));
                    assert(encodes_command(before.subrange(24 * k, 24 * k + 24), cs@.subrange(0, i as int)[k]));
                }
            }
        }
        i = i + 1;
    }
    proof {
        assert(cs@.subrange(0, cs@.len() as int) =~= cs@);
    }
    r
}

/// Decodes a command segment. Ending at a command boundary ends the segment;
/// a record that stops part way is `TruncatedCommand`.
pub fn decode_commands(b: &[u8]) -> (r: Result<Vec<Command>, PatchError>)
    ensures
        r is Ok <==> b@.len() % 24 == 0,
        r is Ok ==> encodes_commands(b@, r->Ok_0@),
        r is Err ==> r == Err::<Vec<Command>, PatchError>(PatchError::TruncatedCommand),
{
    let mut cs: Vec<Command> = Vec::new();
    let mut at: usize = 0;
    while at < b.len()
        invariant
            at <= b@.len(),
            at == 24 * cs@.len(),
            forall|k: int| 0 <= k < cs@.len() ==> encodes_command(#[trigger] b@.subrange(24 * k, 24 * k + 24), cs@[k]),
        decreases b@.len() - at,
    {
        if b.len() - at < COMMAND_LEN {
            return Err(PatchError::TruncatedCommand);
        }
        let c = Command::read_at(b, at);
        cs.push(c);
        at = at + COMMAND_LEN;
    }
    Ok(cs)
}

/// Decoding the encoding of a command list gives that list back.
pub proof fn lemma_commands_round_trip(b: Seq<u8>, cs: Seq<Command>, ds: Seq<Command>)
    requires
        encodes_commands(b, cs),
        encodes_commands(b, ds),
    ensures
        cs == ds,
{
    assert forall|k: int| 0 <= k < cs.len() implies cs[k] == ds[k] by {
        lemma_command_unique(b.subrange(24 * k, 24 * k + 24), cs[k], ds[k]);
    }
    assert(cs =~= ds);
}

} // verus!
