use vstd::prelude::*;

verus! {

/// Capacity of each of the merger's bounded buffers.
pub const BUF_LEN: usize = 1024;

/// Why reading or applying a patch failed.
#[derive(Debug, PartialEq, Eq, Structural)]
pub enum PatchError {
    /// A stream ended before the bytes that a command asked for.
    UnexpectedEnd,
    /// A command record stopped part way.
    TruncatedCommand,
    /// The header is shorter than its fixed size or its segment sizes exceed the body.
    BadHeader,
    /// A segment did not decompress.
    BadSegment,
    /// A seek of the old data left the addressable range.
    BadSeek,
    /// The output does not have the length that the header declares.
    WrongSize,
}

/// `(a + b) mod 256`.
pub open spec fn add8(a: u8, b: u8) -> u8 {
    ((a as int + b as int) % 256) as u8
}

/// `(n - o) mod 256`: the inverse of `add8` in its second argument.
pub open spec fn sub8(n: u8, o: u8) -> u8 {
    ((n as int - o as int + 256) % 256) as u8
}

/// The byte-wise sum of two sequences of equal length.
pub open spec fn add_bytes(a: Seq<u8>, b: Seq<u8>) -> Seq<u8>
    recommends
        a.len() == b.len(),
{
    Seq::new(a.len(), |k: int| add8(a[k], b[k]))
}

/// The byte-wise difference `n - o` of two sequences of equal length.
pub open spec fn sub_bytes(n: Seq<u8>, o: Seq<u8>) -> Seq<u8>
    recommends
        n.len() == o.len(),
{
    Seq::new(n.len(), |k: int| sub8(n[k], o[k]))
}

pub proof fn lemma_add_sub8(o: u8, n: u8)
    ensures
        add8(o, sub8(n, o)) == n,
{
}

pub fn add_byte(a: u8, b: u8) -> (r: u8)
    ensures
        r == add8(a, b),
{
    ((a as u16 + b as u16) % 256) as u8
}

pub fn sub_byte(n: u8, o: u8) -> (r: u8)
    ensures
        r == sub8(n, o),
{
    ((n as u16 + 256 - o as u16) % 256) as u8
}

/// A copy of `s`.
pub fn copy_bytes(s: &[u8]) -> (r: Vec<u8>)
    ensures
        r@ == s@,
{
    let mut r: Vec<u8> = Vec::new();
    let mut i: usize = 0;
    while i < s.len()
        invariant
            i <= s@.len(),
            r@ == s@.subrange(0, i as int),
        decreases s@.len() - i,
    {
        r.push(s[i]);
        i = i + 1;
    }
    proof {
        assert(s@.subrange(0, s@.len() as int) =~= s@);
    }
    r
}

/// A readable, seekable byte source over data held in memory, whose reads may
/// return fewer bytes than asked for: the `k`-th read returns at most
/// `chunks[k mod chunks.len()]` bytes (at least one while data remains), or is
/// bounded only by the request when `chunks` is empty.
pub struct Stream {
    data: Vec<u8>,
    pos: usize,
    chunks: Vec<usize>,
    turn: usize,
}

impl Stream {
    /// The bytes of the source.
    pub closed spec fn data(&self) -> Seq<u8> {
        self.data@
    }

    /// The read position.
    pub closed spec fn pos(&self) -> nat {
        self.pos as nat
    }

    pub closed spec fn wf(&self) -> bool {
        self.chunks@.len() == 0 || self.turn < self.chunks@.len()
    }

    /// The bytes that a read can still return.
    pub open spec fn rest(&self) -> Seq<u8> {
        if self.pos() < self.data().len() {
            self.data().subrange(self.pos() as int, self.data().len() as int)
        } else {
            Seq::empty()
        }
    }

    /// A source that fills every read as far as the request and the data allow.
    pub fn new(data: Vec<u8>) -> (r: Stream)
        ensures
            r.wf(),
            r.data() == data@,
            r.pos() == 0,
    {
        Stream { data, pos: 0, chunks: Vec::new(), turn: 0 }
    }

    /// A source whose successive reads are cut to the sizes in `chunks`, in turn.
    pub fn with_chunks(data: Vec<u8>, chunks: Vec<usize>) -> (r: Stream)
        ensures
            r.wf(),
            r.data() == data@,
            r.pos() == 0,
    {
        Stream { data, pos: 0, chunks, turn: 0 }
    }

    pub fn position(&self) -> (r: usize)
        ensures
            r == self.pos(),
    {
        self.pos
    }

    pub fn len(&self) -> (r: usize)
        ensures
            r == self.data().len(),
    {
        self.data.len()
    }

    /// Reads at most `max` bytes from the read position and advances past them.
    /// The result is empty only when `max` is 0 or no byte remains.
    pub fn read(&mut self, max: usize) -> (r: Vec<u8>)
        requires
            old(self).wf(),
        ensures
            final(self).wf(),
            final(self).data() == old(self).data(),
            r@.len() <= max,
            r@.len() <= old(self).rest().len(),
            (max > 0 && old(self).rest().len() > 0) ==> r@.len() > 0,
            final(self).pos() == (if r@.len() > 0 { old(self).pos() + r@.len() } else { old(self).pos() }),
            r@ == old(self).rest().subrange(0, r@.len() as int),
            final(self).rest() == old(self).rest().subrange(r@.len() as int, old(self).rest().len() as int),
    {
        let avail: usize = if self.pos < self.data.len() { self.data.len() - self.pos } else { 0 };
        let mut n: usize = if max < avail { max } else { avail };
        if self.chunks.len() > 0 {
            let limit: usize = if self.chunks[self.turn] == 0 { 1 } else { self.chunks[self.turn] };
            if limit < n {
                n = limit;
            }
            self.turn = if self.turn + 1 < self.chunks.len() { self.turn + 1 } else { 0 };
        }
        let mut r: Vec<u8> = Vec::new();
        let start: usize = self.pos;
        let mut i: usize = 0;
        while i < n
            invariant
                i <= n,
                n <= avail,
                self.data@.len() <= usize::MAX,
                avail > 0 ==> start + avail == self.data@.len(),
                n > 0 ==> avail > 0,
                start == self.pos,
                n > 0 ==> r@ == self.data@.subrange(start as int, start + i),
                r@.len() == i,
            decreases n - i,
        {
            r.push(self.data[start + i]);
            i = i + 1;
        }
        if n > 0 {
            self.pos = start + n;
        }
        proof {
            assert(self.rest() =~= old(self).rest().subrange(r@.len() as int, old(self).rest().len() as int));
        }
        r
    }

    /// Moves the read position to `to`. Positions beyond the end are allowed:
    /// reads there return nothing.
    pub fn seek_to(&mut self, to: u64) -> (r: Result<(), PatchError>)
        requires
            old(self).wf(),
        ensures
            final(self).wf(),
            final(self).data() == old(self).data(),
            r is Ok <==> to <= usize::MAX,
            r is Ok ==> final(self).pos() == to,
            r is Err ==> r == Err::<(), PatchError>(PatchError::BadSeek) && final(self).pos() == old(self).pos(),
    {
        if to > usize::MAX as u64 {
            return Err(PatchError::BadSeek);
        }
        self.pos = to as usize;
        Ok(())
    }

    /// Moves the read position by `delta` from where it stands.
    pub fn seek_by(&mut self, delta: i64) -> (r: Result<(), PatchError>)
        requires
            old(self).wf(),
        ensures
            final(self).wf(),
            final(self).data() == old(self).data(),
            r is Ok <==> 0 <= old(self).pos() + delta <= usize::MAX,
            r is Ok ==> final(self).pos() == old(self).pos() + delta,
            r is Err ==> r == Err::<(), PatchError>(PatchError::BadSeek) && final(self).pos() == old(self).pos(),
    {
        let target: i128 = self.pos as i128 + delta as i128;
        if target < 0 || target > usize::MAX as i128 {
            return Err(PatchError::BadSeek);
        }
        self.pos = target as usize;
        Ok(())
    }
}

} // verus!
