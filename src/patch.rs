use vstd::prelude::*;

use std::io::{Read, Write};

use crate::compact::{
    decode_commands, encode_commands, encodes_commands, encodes_header, le_value, lemma_commands_round_trip, Command, Header, HEADER_LEN, MAGIC,
};
use crate::stream::{add8, add_byte, add_bytes, PatchError, Stream, BUF_LEN};

verus! {

/// The bytes that a reader at `pos` can still read from `data`.
pub open spec fn avail(data: Seq<u8>, pos: int) -> Seq<u8> {
    if 0 <= pos < data.len() {
        data.subrange(pos, data.len() as int)
    } else {
        Seq::empty()
    }
}

/// Where the applier stands: old-data cursor, delta cursor, literal cursor, output.
pub type Cursors = (int, int, int, Seq<u8>);

/// One command applied to the cursors over old data, delta bytes and literal
/// bytes: `None` when a stream ends early or the seek leaves the addressable range.
pub open spec fn step(c: Command, old: Seq<u8>, delta: Seq<u8>, extra: Seq<u8>, s: Cursors) -> Option<Cursors> {
    let (op, dp, ep, out) = s;
    let a = c.bytewise_add_size as int;
    let e = c.extra_append_size as int;
    let to = op + a + c.oldfile_seek_offset;
    if a <= avail(old, op).len() && a <= avail(delta, dp).len() && e <= avail(extra, ep).len()
        && 0 <= to <= usize::MAX {
        Some((
            to,
            dp + a,
            ep + e,
            out + add_bytes(avail(old, op).subrange(0, a), avail(delta, dp).subrange(0, a))
                + avail(extra, ep).subrange(0, e),
        ))
    } else {
        None
    }
}

/// The commands applied in order, from `s`.
pub open spec fn run(cs: Seq<Command>, old: Seq<u8>, delta: Seq<u8>, extra: Seq<u8>, s: Cursors) -> Option<Cursors>
    decreases cs.len(),
{
    if cs.len() == 0 {
        Some(s)
    } else {
        match step(cs[0], old, delta, extra, s) {
            Some(t) => run(cs.drop_first(), old, delta, extra, t),
            None => None,
        }
    }
}

/// What the decompressor makes of a segment; `None` where it rejects it.
pub uninterp spec fn bz_unpacked(s: Seq<u8>) -> Option<Seq<u8>>;

/// What the compressor makes of a segment.
pub uninterp spec fn bz_packed(s: Seq<u8>) -> Seq<u8>;

/// Relies on `bzip2::read::BzDecoder`: decompresses a whole segment; the outcome
/// depends on the segment's bytes alone.
#[verifier::external_body]
fn bz_unpack(data: &[u8]) -> (r: Option<Vec<u8>>)
    ensures
        r is Some <==> bz_unpacked(data@) is Some,
        r is Some ==> r->Some_0@ == bz_unpacked(data@)->Some_0,
{
    let mut v = Vec::new();
    match bzip2::read::BzDecoder::new(data).read_to_end(&mut v) {
        Ok(_) => Some(v),
        Err(_) => None,
    }
}

/// Relies on `bzip2::write::BzEncoder` at the best level: compresses a whole
/// segment; the result depends on the segment's bytes alone, and
/// `bzip2::read::BzDecoder` gives the segment back from it. Writing into a
/// `Vec` never fails, so neither does the encoder.
#[verifier::external_body]
pub(crate) fn bz_pack(data: &[u8]) -> (r: Vec<u8>)
    ensures
        r@ == bz_packed(data@),
        bz_unpacked(r@) == Some(data@),
{
    let mut e = bzip2::write::BzEncoder::new(Vec::new(), bzip2::Compression::best());
    e.write_all(data).expect("writing into a Vec cannot fail");
    e.finish().expect("writing into a Vec cannot fail")
}

/// `v` without its first `n` elements.
fn drop_front(v: &Vec<u8>, n: usize) -> (r: Vec<u8>)
    requires
        n <= v@.len(),
    ensures
        r@ == v@.subrange(n as int, v@.len() as int),
{
    let mut r: Vec<u8> = Vec::new();
    let mut i: usize = n;
    while i < v.len()
        invariant
            n <= i <= v@.len(),
            r@ == v@.subrange(n as int, i as int),
        decreases v@.len() - i,
    {
        r.push(v[i]);
        i = i + 1;
    }
    r
}

/// Reads `size` bytes from each of `r0` and `r1` through two bounded buffers,
/// whatever sizes their reads come in, and appends to `out` the byte-wise sum
/// of the two runs, in order. Fails when either stream ends first.
#[verifier::rlimit(60)]
pub fn read_paired_bufs(size: u64, r0: &mut Stream, r1: &mut Stream, out: &mut Vec<u8>) -> (r: Result<(), PatchError>)
    requires
        old(r0).wf(),
        old(r1).wf(),
    ensures
        final(r0).wf(),
        final(r1).wf(),
        final(r0).data() == old(r0).data(),
        final(r1).data() == old(r1).data(),
        r is Ok <==> (size <= old(r0).rest().len() && size <= old(r1).rest().len()),
        r is Err ==> r == Err::<(), PatchError>(PatchError::UnexpectedEnd),
        final(r0).pos() <= old(r0).pos() + size,
        final(r1).pos() <= old(r1).pos() + size,
        old(r0).pos() <= final(r0).pos(),
        old(r1).pos() <= final(r1).pos(),
        final(out)@.len() >= old(out)@.len(),
        final(out)@.subrange(0, old(out)@.len() as int) == old(out)@,
        r is Ok ==> {
            &&& final(r0).pos() == old(r0).pos() + size
            &&& final(r1).pos() == old(r1).pos() + size
            &&& final(out)@ == old(out)@ + add_bytes(
                old(r0).rest().subrange(0, size as int),
                old(r1).rest().subrange(0, size as int),
            )
        },
{
    let ghost rest0 = r0.rest();
    let ghost rest1 = r1.rest();
    let ghost pos0 = r0.pos();
    let ghost pos1 = r1.pos();
    let ghost out0 = out@;
    let mut buf0: Vec<u8> = Vec::new();
    let mut buf1: Vec<u8> = Vec::new();
    let mut left: u64 = size;
    while left > 0
        invariant
            r0.wf(),
            r1.wf(),
            rest0 == old(r0).rest(),
            rest1 == old(r1).rest(),
            pos0 == old(r0).pos(),
            pos1 == old(r1).pos(),
            out0 == old(out)@,
            r0.data() == old(r0).data(),
            r1.data() == old(r1).data(),
            left <= size,
            buf0@.len() <= left,
            buf1@.len() <= left,
            buf0@.len() <= BUF_LEN,
            buf1@.len() <= BUF_LEN,
            (size - left) + buf0@.len() <= rest0.len(),
            (size - left) + buf1@.len() <= rest1.len(),
            buf0@ == rest0.subrange(size - left, (size - left) + buf0@.len()),
            buf1@ == rest1.subrange(size - left, (size - left) + buf1@.len()),
            r0.pos() == pos0 + (size - left) + buf0@.len(),
            r1.pos() == pos1 + (size - left) + buf1@.len(),
            r0.rest() == rest0.subrange((size - left) + buf0@.len(), rest0.len() as int),
            r1.rest() == rest1.subrange((size - left) + buf1@.len(), rest1.len() as int),
            out@ == out0 + add_bytes(
                rest0.subrange(0, size - left),
                rest1.subrange(0, size - left),
            ),
        decreases left,
    {
        let avail: usize = if left < BUF_LEN as u64 { left as usize } else { BUF_LEN };
        if buf0.len() < avail {
            let mut got = r0.read(avail - buf0.len());
            if got.len() == 0 {
                assert(rest0.len() < size);
                return Err(PatchError::UnexpectedEnd);
            }
            buf0.append(&mut got);
        }
        if buf1.len() < avail {
            let mut got = r1.read(avail - buf1.len());
            if got.len() == 0 {
                assert(rest1.len() < size);
                return Err(PatchError::UnexpectedEnd);
            }
            buf1.append(&mut got);
        }
        let pmin: usize = if buf0.len() < buf1.len() { buf0.len() } else { buf1.len() };
        let ghost done = (size - left) as int;
        let ghost out1 = out@;
        let mut k: usize = 0;
        while k < pmin
            invariant
                k <= pmin,
                pmin <= buf0@.len(),
                pmin <= buf1@.len(),
                out@ == out1 + add_bytes(buf0@.subrange(0, k as int), buf1@.subrange(0, k as int)),
            decreases pmin - k,
        {
            out.push(add_byte(buf0[k], buf1[k]));
            k = k + 1;
            proof {
                assert(add_bytes(buf0@.subrange(0, k as int), buf1@.subrange(0, k as int))
                    =~= add_bytes(buf0@.subrange(0, k - 1), buf1@.subrange(0, k - 1)).push(
                    add8(buf0@[k - 1], buf1@[k - 1]),
                ));
            }
        }
        proof {
            assert(add_bytes(rest0.subrange(0, done + pmin), rest1.subrange(0, done + pmin))
                =~= add_bytes(rest0.subrange(0, done), rest1.subrange(0, done)) + add_bytes(
                buf0@.subrange(0, pmin as int),
                buf1@.subrange(0, pmin as int),
            ));
        }
        buf0 = drop_front(&buf0, pmin);
        buf1 = drop_front(&buf1, pmin);
        left = left - pmin as u64;
        proof {
            assert(buf0@ =~= rest0.subrange(size - left, (size - left) + buf0@.len()));
            assert(buf1@ =~= rest1.subrange(size - left, (size - left) + buf1@.len()));
        }
    }
    Ok(())
}

/// Reads `size` bytes from `r` through a bounded buffer and appends them to `out`.
/// Fails when the stream ends first.
pub fn read_size_from(size: u64, r: &mut Stream, out: &mut Vec<u8>) -> (res: Result<(), PatchError>)
    requires
        old(r).wf(),
    ensures
        final(r).wf(),
        final(r).data() == old(r).data(),
        res is Ok <==> size <= old(r).rest().len(),
        res is Err ==> res == Err::<(), PatchError>(PatchError::UnexpectedEnd),
        old(r).pos() <= final(r).pos() <= old(r).pos() + size,
        final(out)@.len() >= old(out)@.len(),
        final(out)@.subrange(0, old(out)@.len() as int) == old(out)@,
        res is Ok ==> {
            &&& final(r).pos() == old(r).pos() + size
            &&& final(out)@ == old(out)@ + old(r).rest().subrange(0, size as int)
        },
{
    let ghost rest = r.rest();
    let ghost pos = r.pos();
    let ghost out0 = out@;
    let mut left: u64 = size;
    while left > 0
        invariant
            r.wf(),
            rest == old(r).rest(),
            pos == old(r).pos(),
            out0 == old(out)@,
            r.data() == old(r).data(),
            left <= size,
            size - left <= rest.len(),
            r.pos() == pos + (size - left),
            r.rest() == rest.subrange(size - left, rest.len() as int),
            out@ == out0 + rest.subrange(0, size - left),
        decreases left,
    {
        let avail: usize = if left < BUF_LEN as u64 { left as usize } else { BUF_LEN };
        let mut got = r.read(avail);
        if got.len() == 0 {
            assert(rest.len() < size);
            return Err(PatchError::UnexpectedEnd);
        }
        let ghost done = (size - left) as int;
        proof {
            assert(rest.subrange(0, done + got@.len()) =~= rest.subrange(0, done) + got@);
        }
        left = left - got.len() as u64;
        out.append(&mut got);
    }
    Ok(())
}

/// Replays commands of the compact format: old data, delta and literal
/// streams in, reconstructed bytes out.
pub struct Patcher {
    pub delta: Stream,
    pub extra: Stream,
    pub old: Stream,
    pub new: Vec<u8>,
}

impl Patcher {
    pub open spec fn wf(&self) -> bool {
        self.delta.wf() && self.extra.wf() && self.old.wf()
    }

    /// The cursors of the three streams and the output so far.
    pub open spec fn cursors(&self) -> Cursors {
        (self.old.pos() as int, self.delta.pos() as int, self.extra.pos() as int, self.new@)
    }

    /// The three streams hold the same bytes in `self` and `o`.
    pub open spec fn same_data(&self, o: &Patcher) -> bool {
        &&& self.old.data() == o.old.data()
        &&& self.delta.data() == o.delta.data()
        &&& self.extra.data() == o.extra.data()
    }

    /// Appends `size` bytes, each the sum of an old byte and a delta byte.
    pub fn append_delta(&mut self, size: u64) -> (r: Result<(), PatchError>)
        requires
            old(self).wf(),
        ensures
            final(self).wf(),
            final(self).same_data(old(self)),
            final(self).new@.len() >= old(self).new@.len(),
            final(self).new@.subrange(0, old(self).new@.len() as int) == old(self).new@,
            old(self).old.pos() <= final(self).old.pos() <= old(self).old.pos() + size,
            old(self).delta.pos() <= final(self).delta.pos() <= old(self).delta.pos() + size,
            final(self).extra == old(self).extra,
            r is Ok <==> (size <= old(self).old.rest().len() && size <= old(self).delta.rest().len()),
            r is Ok ==> {
                &&& final(self).old.pos() == old(self).old.pos() + size
                &&& final(self).delta.pos() == old(self).delta.pos() + size
                &&& final(self).new@ == old(self).new@ + add_bytes(
                    old(self).old.rest().subrange(0, size as int),
                    old(self).delta.rest().subrange(0, size as int),
                )
            },
    {
        read_paired_bufs(size, &mut self.old, &mut self.delta, &mut self.new)
    }

    /// Appends `size` literal bytes.
    pub fn append_extra(&mut self, size: u64) -> (r: Result<(), PatchError>)
        requires
            old(self).wf(),
        ensures
            final(self).wf(),
            final(self).same_data(old(self)),
            final(self).new@.len() >= old(self).new@.len(),
            final(self).new@.subrange(0, old(self).new@.len() as int) == old(self).new@,
            old(self).extra.pos() <= final(self).extra.pos() <= old(self).extra.pos() + size,
            final(self).old == old(self).old,
            final(self).delta == old(self).delta,
            r is Ok <==> size <= old(self).extra.rest().len(),
            r is Ok ==> {
                &&& final(self).extra.pos() == old(self).extra.pos() + size
                &&& final(self).new@ == old(self).new@ + old(self).extra.rest().subrange(0, size as int)
            },
    {
        read_size_from(size, &mut self.extra, &mut self.new)
    }

    /// Moves the old-data cursor by `offset`.
    pub fn seek_old(&mut self, offset: i64) -> (r: Result<(), PatchError>)
        requires
            old(self).wf(),
        ensures
            final(self).wf(),
            final(self).same_data(old(self)),
            final(self).delta == old(self).delta,
            final(self).extra == old(self).extra,
            final(self).new == old(self).new,
            r is Ok <==> 0 <= old(self).old.pos() + offset <= usize::MAX,
            r is Ok ==> final(self).old.pos() == old(self).old.pos() + offset,
            r is Err ==> final(self).old.pos() == old(self).old.pos(),
    {
        self.old.seek_by(offset)
    }

    /// Applies one command: its delta run, its literal run, then its seek.
    pub fn apply(&mut self, c: &Command) -> (r: Result<(), PatchError>)
        requires
            old(self).wf(),
        ensures
            final(self).wf(),
            final(self).same_data(old(self)),
            r is Err ==> old(self).old.pos() <= final(self).old.pos() <= old(self).old.pos() + c.bytewise_add_size,
            final(self).delta.pos() <= old(self).delta.pos() + c.bytewise_add_size,
            final(self).extra.pos() <= old(self).extra.pos() + c.extra_append_size,
            old(self).delta.pos() <= final(self).delta.pos(),
            old(self).extra.pos() <= final(self).extra.pos(),
            final(self).new@.len() >= old(self).new@.len(),
            final(self).new@.subrange(0, old(self).new@.len() as int) == old(self).new@,
            r is Ok <==> step(*c, old(self).old.data(), old(self).delta.data(), old(self).extra.data(), old(self).cursors()) is Some,
            r is Ok ==> step(*c, old(self).old.data(), old(self).delta.data(), old(self).extra.data(), old(self).cursors())
                == Some(final(self).cursors()),
    {
        proof {
            assert(self.old.rest() == avail(self.old.data(), self.old.pos() as int));
            assert(self.delta.rest() == avail(self.delta.data(), self.delta.pos() as int));
            assert(self.extra.rest() == avail(self.extra.data(), self.extra.pos() as int));
        }
        self.append_delta(c.bytewise_add_size)?;
        self.append_extra(c.extra_append_size)?;
        self.seek_old(c.oldfile_seek_offset)?;
        Ok(())
    }

    /// Fails with `WrongSize` unless exactly `size` bytes have been produced.
    pub fn check_written_size(&self, size: u64) -> (r: Result<(), PatchError>)
        ensures
            r is Ok <==> self.new@.len() == size,
            r is Err ==> r == Err::<(), PatchError>(PatchError::WrongSize),
    {
        if self.new.len() as u64 == size {
            Ok(())
        } else {
            Err(PatchError::WrongSize)
        }
    }
}

/// The commands that a command segment holds, where it holds whole records.
pub open spec fn commands_of(b: Seq<u8>) -> Seq<Command> {
    choose|cs: Seq<Command>| encodes_commands(b, cs)
}

/// The output of a completed run, where it has length `n`.
pub open spec fn sized(o: Option<Cursors>, n: int) -> Option<Seq<u8>> {
    match o {
        Some(t) => if t.3.len() == n {
            Some(t.3)
        } else {
            None
        },
        None => None,
    }
}

/// What applying the compact patch `patch` to `old`, read from `start`, produces:
/// `None` for a patch that is rejected.
pub open spec fn apply_spec(patch: Seq<u8>, old: Seq<u8>, start: int) -> Option<Seq<u8>> {
    if patch.len() < 32 || le_value(patch.subrange(0, 8)) != MAGIC as int {
        None
    } else {
        let c = le_value(patch.subrange(8, 16));
        let d = le_value(patch.subrange(16, 24));
        let n = le_value(patch.subrange(24, 32));
        let body = patch.subrange(32, patch.len() as int);
        if c + d > body.len() {
            None
        } else {
            match (
                bz_unpacked(body.subrange(0, c)),
                bz_unpacked(body.subrange(c, c + d)),
                bz_unpacked(body.subrange(c + d, body.len() as int)),
            ) {
                (Some(cb), Some(db), Some(eb)) => {
                    if cb.len() % 24 != 0 {
                        None
                    } else {
                        sized(run(commands_of(cb), old, db, eb, (start, 0, 0, Seq::empty())), n)
                    }
                },
                _ => None,
            }
        }
    }
}

/// Reconstructs new data from `old` and the compact patch `patch`, appending it
/// to `new`. On error what was appended is to be discarded.
pub fn apply(patch: &[u8], old_data: Stream, new: &mut Vec<u8>) -> (r: Result<(), PatchError>)
    requires
        old_data.wf(),
    ensures
        r is Ok <==> apply_spec(patch@, old_data.data(), old_data.pos() as int) is Some,
        r is Ok ==> final(new)@ == old(new)@ + apply_spec(patch@, old_data.data(), old_data.pos() as int)->Some_0,
{
    let header = Header::read(patch)?;
    proof {
        assert(patch@.subrange(0, 32).subrange(0, 8) =~= patch@.subrange(0, 8));
        assert(patch@.subrange(0, 32).subrange(8, 16) =~= patch@.subrange(8, 16));
        assert(patch@.subrange(0, 32).subrange(16, 24) =~= patch@.subrange(16, 24));
        assert(patch@.subrange(0, 32).subrange(24, 32) =~= patch@.subrange(24, 32));
    }
    let body = vstd::slice::slice_subrange(patch, HEADER_LEN, patch.len());
    let blen: u64 = body.len() as u64;
    if header.compressed_commands_size > blen || header.compressed_delta_size > blen - header.compressed_commands_size {
        return Err(PatchError::BadHeader);
    }
    let c: usize = header.compressed_commands_size as usize;
    let d: usize = header.compressed_delta_size as usize;
    let command_data = match bz_unpack(vstd::slice::slice_subrange(body, 0, c)) {
        Some(v) => v,
        None => return Err(PatchError::BadSegment),
    };
    let delta_data = match bz_unpack(vstd::slice::slice_subrange(body, c, c + d)) {
        Some(v) => v,
        None => return Err(PatchError::BadSegment),
    };
    let extra_data = match bz_unpack(vstd::slice::slice_subrange(body, c + d, body.len())) {
        Some(v) => v,
        None => return Err(PatchError::BadSegment),
    };
    let commands = decode_commands(command_data.as_slice())?;
    let ghost cs = commands@;
    proof {
        lemma_commands_round_trip(command_data@, cs, commands_of(command_data@));
    }
    let ghost (od, dd, ed) = (old_data.data(), delta_data@, extra_data@);
    let ghost start = (old_data.pos() as int, 0int, 0int, Seq::<u8>::empty());
    let ghost whole = apply_spec(patch@, old_data.data(), old_data.pos() as int);
    proof {
        assert(body@ =~= patch@.subrange(32, patch@.len() as int));
        assert(whole == sized(run(cs, od, dd, ed, start), header.new_file_size as int));
    }
    let mut patcher = Patcher {
        delta: Stream::new(delta_data),
        extra: Stream::new(extra_data),
        old: old_data,
        new: Vec::new(),
    };
    let mut i: usize = 0;
    proof {
        assert(cs.skip(0) =~= cs);
        assert(patcher.cursors() == start);
    }
    while i < commands.len()
        invariant
            patcher.wf(),
            i <= cs.len(),
            cs == commands@,
            patcher.old.data() == od,
            patcher.delta.data() == dd,
            patcher.extra.data() == ed,
            run(cs, od, dd, ed, start) == run(cs.skip(i as int), od, dd, ed, patcher.cursors()),
            whole == sized(run(cs, od, dd, ed, start), header.new_file_size as int),
            whole == apply_spec(patch@, old_data.data(), old_data.pos() as int),
        decreases cs.len() - i,
    {
        proof {
            assert(cs.skip(i as int)[0] == cs[i as int]);
            assert(cs.skip(i as int).drop_first() =~= cs.skip(i + 1));
        }
        let ghost before = patcher.cursors();
        let res = patcher.apply(&commands[i]);
        if res.is_err() {
            proof {
                assert(run(cs.skip(i as int), od, dd, ed, before) is None);
            }
            return res;
        }
        i = i + 1;
    }
    proof {
        assert(cs.skip(i as int) =~= Seq::<Command>::empty());
    }
    patcher.check_written_size(header.new_file_size)?;
    new.append(&mut patcher.new);
    Ok(())
}

/// Running one more command runs the others, then that one.
pub proof fn lemma_run_push(cs: Seq<Command>, c: Command, old: Seq<u8>, delta: Seq<u8>, extra: Seq<u8>, s: Cursors)
    ensures
        run(cs.push(c), old, delta, extra, s) == match run(cs, old, delta, extra, s) {
            Some(t) => step(c, old, delta, extra, t),
            None => None,
        },
    decreases cs.len(),
{
    if cs.len() > 0 {
        assert(cs.push(c).drop_first() =~= cs.drop_first().push(c));
        assert(cs.push(c)[0] == cs[0]);
        match step(cs[0], old, delta, extra, s) {
            Some(t) => lemma_run_push(cs.drop_first(), c, old, delta, extra, t),
            None => {},
        }
    } else {
        assert(cs.push(c).drop_first() =~= cs);
        assert(cs.push(c)[0] == c);
        match step(c, old, delta, extra, s) {
            Some(t) => assert(run(cs, old, delta, extra, t) == Some(t)),
            None => {},
        }
    }
}

/// Bytes appended to the delta and literal streams do not change a run that
/// succeeded without them.
pub proof fn lemma_run_extend(
    cs: Seq<Command>,
    old: Seq<u8>,
    delta: Seq<u8>,
    extra: Seq<u8>,
    d2: Seq<u8>,
    e2: Seq<u8>,
    s: Cursors,
)
    requires
        run(cs, old, delta, extra, s) is Some,
    ensures
        run(cs, old, delta + d2, extra + e2, s) == run(cs, old, delta, extra, s),
    decreases cs.len(),
{
    if cs.len() > 0 {
        let c = cs[0];
        let (op, dp, ep, out) = s;
        let a = c.bytewise_add_size as int;
        let e = c.extra_append_size as int;
        assert(avail(delta + d2, dp).subrange(0, a) =~= avail(delta, dp).subrange(0, a));
        assert(avail(extra + e2, ep).subrange(0, e) =~= avail(extra, ep).subrange(0, e));
        let t = step(c, old, delta, extra, s)->Some_0;
        lemma_run_extend(cs.drop_first(), old, delta, extra, d2, e2, t);
    }
}

/// A compact patch: a header, then the three compressed segments.
pub open spec fn laid_out(p: Seq<u8>, cb: Seq<u8>, db: Seq<u8>, eb: Seq<u8>, n: u64) -> bool {
    let pc = bz_packed(cb);
    let pd = bz_packed(db);
    let pe = bz_packed(eb);
    let c = pc.len() as int;
    let d = pd.len() as int;
    &&& p.len() == 32 + c + d + pe.len()
    &&& pc.len() <= u64::MAX
    &&& pd.len() <= u64::MAX
    &&& encodes_header(
        p.subrange(0, 32),
        Header { compressed_commands_size: pc.len() as u64, compressed_delta_size: pd.len() as u64, new_file_size: n },
    )
    &&& p.subrange(32, 32 + c) == pc
    &&& p.subrange(32 + c, 32 + c + d) == pd
    &&& p.subrange(32 + c + d, p.len() as int) == pe
}

/// What a laid-out patch does, where each segment decompresses to itself.
pub proof fn lemma_apply_laid_out(
    p: Seq<u8>,
    cb: Seq<u8>,
    db: Seq<u8>,
    eb: Seq<u8>,
    cs: Seq<Command>,
    n: u64,
    old: Seq<u8>,
    start: int,
)
    requires
        laid_out(p, cb, db, eb, n),
        encodes_commands(cb, cs),
        bz_unpacked(bz_packed(cb)) == Some(cb),
        bz_unpacked(bz_packed(db)) == Some(db),
        bz_unpacked(bz_packed(eb)) == Some(eb),
    ensures
        apply_spec(p, old, start) == sized(run(cs, old, db, eb, (start, 0, 0, Seq::empty())), n as int),
{
    let pc = bz_packed(cb);
    let pd = bz_packed(db);
    let pe = bz_packed(eb);
    let h = p.subrange(0, 32);
    assert(h.subrange(0, 8) =~= p.subrange(0, 8));
    assert(h.subrange(8, 16) =~= p.subrange(8, 16));
    assert(h.subrange(16, 24) =~= p.subrange(16, 24));
    assert(h.subrange(24, 32) =~= p.subrange(24, 32));
    let body = p.subrange(32, p.len() as int);
    let c = pc.len() as int;
    let d = pd.len() as int;
    assert(body.subrange(0, c) =~= pc);
    assert(body.subrange(c, c + d) =~= pd);
    assert(body.subrange(c + d, body.len() as int) =~= pe);
    assert(bz_unpacked(pc) == Some(cb));
    assert(bz_unpacked(pd) == Some(db));
    assert(bz_unpacked(pe) == Some(eb));
    assert(cb.len() % 24 == 0) by (nonlinear_arith)
        requires cb.len() == 24 * cs.len();
    lemma_commands_round_trip(cb, cs, commands_of(cb));
}

/// Concatenates `a` and `b`.
fn concat(a: &mut Vec<u8>, b: &Vec<u8>)
    ensures
        final(a)@ == old(a)@ + b@,
{
    let mut i: usize = 0;
    let ghost a0 = a@;
    while i < b.len()
        invariant
            i <= b@.len(),
            a@ == a0 + b@.subrange(0, i as int),
        decreases b@.len() - i,
    {
        a.push(b[i]);
        i = i + 1;
        proof {
            assert(b@.subrange(0, i as int) =~= b@.subrange(0, i - 1).push(b@[i - 1]));
        }
    }
    proof {
        assert(b@.subrange(0, i as int) =~= b@);
    }
}

/// Compresses the three segments and lays them out behind a header that
/// declares an output of `new_size` bytes.
pub fn assemble(cs: &Vec<Command>, delta: &Vec<u8>, extra: &Vec<u8>, new_size: u64) -> (r: Vec<u8>)
    ensures
        forall|old: Seq<u8>, start: int| #[trigger] apply_spec(r@, old, start)
            == sized(run(cs@, old, delta@, extra@, (start, 0, 0, Seq::empty())), new_size as int),
{
    let cb = encode_commands(cs);
    let pc = bz_pack(cb.as_slice());
    let pd = bz_pack(delta.as_slice());
    let pe = bz_pack(extra.as_slice());
    let header = Header {
        compressed_commands_size: pc.len() as u64,
        compressed_delta_size: pd.len() as u64,
        new_file_size: new_size,
    };
    let mut p = header.to_bytes();
    let ghost hb = p@;
    concat(&mut p, &pc);
    concat(&mut p, &pd);
    concat(&mut p, &pe);
    proof {
        let (c, d) = (pc@.len() as int, pd@.len() as int);
        assert(p@.subrange(0, 32) =~= hb);
        assert(p@.subrange(32, 32 + c) =~= pc@);
        assert(p@.subrange(32 + c, 32 + c + d) =~= pd@);
        assert(p@.subrange(32 + c + d, p@.len() as int) =~= pe@);
        assert(laid_out(p@, cb@, delta@, extra@, new_size));
        assert forall|old: Seq<u8>, start: int| #[trigger] apply_spec(p@, old, start)
            == sized(run(cs@, old, delta@, extra@, (start, 0, 0, Seq::empty())), new_size as int) by {
            lemma_apply_laid_out(p@, cb@, delta@, extra@, cs@, new_size, old, start);
        }
    }
    p
}

} // verus!
