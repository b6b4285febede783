use vstd::prelude::*;

use crate::compact::{le_value, u64_at, u64_bytes};
use crate::diff::{agrees, greedy_at, lemma_start_of_prefix, scan, span, start_of, tiles_at, Index, Match, MatchPair};
use crate::patch::{avail, read_paired_bufs, read_size_from};
use crate::stream::{add_bytes, copy_bytes, lemma_add_sub8, sub8, sub_byte, sub_bytes, PatchError, Stream};

verus! {

/// One record of the linear format: seek the old data to `old_offset`, add
/// `bytewise_add_size` delta bytes to old bytes, append `extra_append_size`
/// literal bytes.
#[derive(Clone, Copy, Debug, PartialEq, Eq, Structural)]
pub struct Command {
    pub old_offset: u64,
    pub bytewise_add_size: u64,
    pub extra_append_size: u64,
}

/// Whether `b` is the 24-byte encoding of `c`.
pub open spec fn encodes(b: Seq<u8>, c: Command) -> bool {
    &&& b.len() == 24
    &&& le_value(b.subrange(0, 8)) == c.old_offset as int
    &&& le_value(b.subrange(8, 16)) == c.bytewise_add_size as int
    &&& le_value(b.subrange(16, 24)) == c.extra_append_size as int
}

/// `y` behind `x`, where there is a `y`.
pub open spec fn prefixed(x: Seq<u8>, o: Option<Seq<u8>>) -> Option<Seq<u8>> {
    match o {
        Some(y) => Some(x + y),
        None => None,
    }
}

/// What the linear patch `p` produces from `old`: records one after another,
/// each a 24-byte command, its delta bytes and its literal bytes. `None` where
/// a record is cut short or reaches outside the old data.
pub open spec fn linear_spec(p: Seq<u8>, old: Seq<u8>) -> Option<Seq<u8>>
    decreases p.len(),
{
    if p.len() == 0 {
        Some(Seq::empty())
    } else if p.len() < 24 {
        None
    } else {
        let off = le_value(p.subrange(0, 8));
        let a = le_value(p.subrange(8, 16));
        let e = le_value(p.subrange(16, 24));
        if 0 <= a && 0 <= e && 24 + a + e <= p.len() && 0 <= off <= usize::MAX && a <= avail(old, off).len() {
            prefixed(
                add_bytes(avail(old, off).subrange(0, a), p.subrange(24, 24 + a)) + p.subrange(24 + a, 24 + a + e),
                linear_spec(p.subrange(24 + a + e, p.len() as int), old),
            )
        } else {
            None
        }
    }
}

proof fn lemma_le_value_nonneg(b: Seq<u8>)
    ensures
        le_value(b) >= 0,
    decreases b.len(),
{
    if b.len() > 0 {
        lemma_le_value_nonneg(b.drop_first());
    }
}

impl Command {
    /// Appends the 24-byte encoding of the command to `out`.
    pub fn write_to(&self, out: &mut Vec<u8>)
        ensures
            final(out)@.len() == old(out)@.len() + 24,
            final(out)@.subrange(0, old(out)@.len() as int) == old(out)@,
            encodes(final(out)@.subrange(old(out)@.len() as int, old(out)@.len() + 24int), *self),
    {
        let mut a = u64_bytes(self.old_offset);
        let mut b = u64_bytes(self.bytewise_add_size);
        let mut c = u64_bytes(self.extra_append_size);
        let ghost (av, bv, cv) = (a@, b@, c@);
        let ghost o = out@;
        out.append(&mut a);
        out.append(&mut b);
        out.append(&mut c);
        proof {
            let n = o.len() as int;
            let w = out@.subrange(n, n + 24);
            assert(w.subrange(0, 8) =~= av);
            assert(w.subrange(8, 16) =~= bv);
            assert(w.subrange(16, 24) =~= cv);
            assert(out@.subrange(0, n) =~= o);
        }
    }

    /// Reads one record's command. The stream ending before any of its bytes
    /// is the end of the patch (`None`); ending inside it is `TruncatedCommand`.
    pub fn read_from(reader: &mut Stream) -> (r: Result<Option<Command>, PatchError>)
        requires
            old(reader).wf(),
        ensures
            final(reader).wf(),
            final(reader).data() == old(reader).data(),
            r == Ok::<Option<Command>, PatchError>(None) <==> old(reader).rest().len() == 0,
            r is Err <==> 0 < old(reader).rest().len() < 24,
            r is Err ==> r == Err::<Option<Command>, PatchError>(PatchError::TruncatedCommand),
            r matches Ok(Some(c)) ==> {
                &&& old(reader).rest().len() >= 24
                &&& encodes(old(reader).rest().subrange(0, 24), c)
                &&& final(reader).rest() == old(reader).rest().subrange(24, old(reader).rest().len() as int)
                &&& final(reader).pos() == old(reader).pos() + 24
            },
    {
        let ghost rest = reader.rest();
        let mut buf: Vec<u8> = Vec::new();
        while buf.len() < 24
            invariant
                reader.wf(),
                reader.data() == old(reader).data(),
                rest == old(reader).rest(),
                buf@.len() <= 24,
                buf@.len() <= rest.len(),
                buf@ == rest.subrange(0, buf@.len() as int),
                reader.rest() == rest.subrange(buf@.len() as int, rest.len() as int),
                reader.pos() == old(reader).pos() + buf@.len(),
            decreases 24 - buf@.len(),
        {
            let mut got = reader.read(24 - buf.len());
            if got.len() == 0 {
                if buf.len() == 0 {
                    return Ok(None);
                }
                return Err(PatchError::TruncatedCommand);
            }
            buf.append(&mut got);
        }
        let c = Command { old_offset: u64_at(&buf, 0), bytewise_add_size: u64_at(&buf, 8), extra_append_size: u64_at(&buf, 16) };
        proof {
            assert(buf@.subrange(0, 24) =~= buf@);
        }
        Ok(Some(c))
    }
}

/// Appending records to a patch appends their output.
pub proof fn lemma_linear_append(p: Seq<u8>, q: Seq<u8>, old: Seq<u8>)
    requires
        linear_spec(p, old) is Some,
    ensures
        linear_spec(p + q, old) == prefixed(linear_spec(p, old)->Some_0, linear_spec(q, old)),
    decreases p.len(),
{
    if p.len() == 0 {
        assert(p + q =~= q);
        match linear_spec(q, old) {
            Some(y) => assert(Seq::<u8>::empty() + y =~= y),
            None => {},
        }
    } else {
        let pq = p + q;
        let a = le_value(p.subrange(8, 16));
        let e = le_value(p.subrange(16, 24));
        assert(p.len() >= 24);
        assert(0 <= a && 0 <= e && 24 + a + e <= p.len());
        assert(pq.subrange(0, 8) =~= p.subrange(0, 8));
        assert(pq.subrange(8, 16) =~= p.subrange(8, 16));
        assert(pq.subrange(16, 24) =~= p.subrange(16, 24));
        assert(pq.subrange(24, 24 + a) =~= p.subrange(24, 24 + a));
        assert(pq.subrange(24 + a, 24 + a + e) =~= p.subrange(24 + a, 24 + a + e));
        let tail = p.subrange(24 + a + e, p.len() as int);
        assert(pq.subrange(24 + a + e, pq.len() as int) =~= tail + q);
        lemma_linear_append(tail, q, old);
        let x = linear_spec(p, old)->Some_0;
        match linear_spec(q, old) {
            Some(y) => {
                assert(x + y =~= (x.subrange(0, x.len() - linear_spec(tail, old)->Some_0.len()))
                    + (linear_spec(tail, old)->Some_0 + y));
            },
            None => {},
        }
    }
}

/// Whether `r` is the record of step `m` of a scan, at `i` in `new`: the
/// command (match offset, match length, literal run), the differences of the
/// matched new bytes from the old bytes, then the literal bytes.
pub open spec fn record_of(r: Seq<u8>, m: MatchPair, old: Seq<u8>, new: Seq<u8>, i: int) -> bool {
    let off = m.matched.old_offset as int;
    let a = m.matched.length as int;
    let e = m.unmatched_suffix as int;
    &&& r.len() == 24 + a + e
    &&& encodes(
        r.subrange(0, 24),
        Command { old_offset: off as u64, bytewise_add_size: a as u64, extra_append_size: e as u64 },
    )
    &&& r.subrange(24, 24 + a) == sub_bytes(new.subrange(i, i + a), old.subrange(off, off + a))
    &&& r.subrange(24 + a, 24 + a + e) == new.subrange(i + a, i + a + e)
}

/// Whether `p` is the records of the steps `ps`, in order.
pub open spec fn records_of(p: Seq<u8>, ps: Seq<MatchPair>, old: Seq<u8>, new: Seq<u8>) -> bool
    decreases ps.len(),
{
    if ps.len() == 0 {
        p.len() == 0
    } else {
        let l = 24 + span(ps.last());
        &&& p.len() >= l
        &&& records_of(p.subrange(0, p.len() - l), ps.drop_last(), old, new)
        &&& record_of(p.subrange(p.len() - l, p.len() as int), ps.last(), old, new, start_of(ps, ps.len() - 1))
    }
}

/// Writes a linear patch that turns the index's old data into `new`: one
/// record per step of the scan, in order.
#[verifier::rlimit(100)]
pub fn generate_full_patch(index: &Index, new: &[u8], patch: &mut Vec<u8>)
    requires
        index.wf(),
    ensures
        final(patch)@.subrange(0, old(patch)@.len() as int) == old(patch)@,
        linear_spec(final(patch)@.subrange(old(patch)@.len() as int, final(patch)@.len() as int), index.old_bytes()) == Some(new@),
        exists|ps: Seq<MatchPair>|
            tiles_at(ps, index.old_bytes(), new@)
            && (forall|k: int| 0 <= k < ps.len() ==> #[trigger] greedy_at(ps, *index, new@, k))
            && records_of(final(patch)@.subrange(old(patch)@.len() as int, final(patch)@.len() as int), ps, index.old_bytes(), new@),
        new@.len() == 0 ==> final(patch)@ == old(patch)@,
        index.old_bytes().len() == 0 && new@.len() > 0 ==> records_of(
            final(patch)@.subrange(old(patch)@.len() as int, final(patch)@.len() as int),
            seq![MatchPair { matched: Match { old_offset: 0, length: 0 }, unmatched_suffix: new@.len() as usize }],
            index.old_bytes(),
            new@,
        ),
{
    let ps = scan(index, new);
    let data = index.data();
    let ghost od = data@;
    let ghost prior = patch@;
    let olen: usize = data.len();
    let n: usize = new.len();
    let mut k: usize = 0;
    let mut i: usize = 0;
    proof {
        assert(new@.subrange(0, 0) =~= Seq::<u8>::empty());
        assert(patch@.subrange(prior.len() as int, patch@.len() as int) =~= Seq::<u8>::empty());
    }
    while k < ps.len()
        invariant
            index.wf(),
            data@ == od,
            od == index.old_bytes(),
            olen == od.len(),
            n == new@.len(),
            tiles_at(ps@, od, new@),
            k <= ps@.len(),
            i == start_of(ps@, k as int),
            patch@.len() >= prior.len(),
            patch@.subrange(0, prior.len() as int) == prior,
            linear_spec(patch@.subrange(prior.len() as int, patch@.len() as int), od) == Some(new@.subrange(0, i as int)),
            records_of(patch@.subrange(prior.len() as int, patch@.len() as int), ps@.subrange(0, k as int), od, new@),
        decreases ps@.len() - k,
    {
        let m = ps[k].matched;
        let lit = ps[k].unmatched_suffix;
        proof {
            assert(start_of(ps@, k as int) + span(ps@[k as int]) <= n);
            assert(agrees(ps@[k as int].matched, od, new@.subrange(start_of(ps@, k as int), n as int)));
        }
        let ghost before = patch@;
        let c = Command { old_offset: m.old_offset as u64, bytewise_add_size: m.length as u64, extra_append_size: lit as u64 };
        let mut rec: Vec<u8> = Vec::new();
        c.write_to(&mut rec);
        let ghost cb = rec@;
        let mut t: usize = 0;
        while t < m.length
            invariant
                t <= m.length,
                m.old_offset + m.length <= od.len(),
                olen == od.len(),
                i + m.length <= n,
                data@ == od,
                n == new@.len(),
                rec@ == cb + sub_bytes(new@.subrange(i as int, i + t), od.subrange(m.old_offset as int, m.old_offset + t)),
            decreases m.length - t,
        {
            rec.push(sub_byte(new[i + t], data[m.old_offset + t]));
            t = t + 1;
            proof {
                assert(sub_bytes(new@.subrange(i as int, i + t), od.subrange(m.old_offset as int, m.old_offset + t))
                    =~= sub_bytes(new@.subrange(i as int, i + t - 1), od.subrange(m.old_offset as int, m.old_offset + t - 1)).push(
                    sub8(new@[i + t - 1], od[m.old_offset + t - 1]),
                ));
            }
        }
        let ghost cd = rec@;
        let mut t: usize = 0;
        while t < lit
            invariant
                t <= lit,
                i + m.length + lit <= n,
                n == new@.len(),
                rec@ == cd + new@.subrange(i + m.length, i + m.length + t),
            decreases lit - t,
        {
            rec.push(new[i + m.length + t]);
            t = t + 1;
            proof {
                assert(new@.subrange(i + m.length, i + m.length + t) =~= new@.subrange(i + m.length, i + m.length + t - 1).push(
                    new@[i + m.length + t - 1],
                ));
            }
        }
        proof {
            let a = m.length as int;
            let dd = sub_bytes(new@.subrange(i as int, i + a), od.subrange(m.old_offset as int, m.old_offset + a));
            let ee = new@.subrange(i + a, i + a + lit);
            let r = rec@;
            assert(r.subrange(0, 24) =~= cb.subrange(0, 24));
            assert(cb.subrange(0, 24) =~= cb);
            assert(r.subrange(0, 8) =~= cb.subrange(0, 8));
            assert(r.subrange(8, 16) =~= cb.subrange(8, 16));
            assert(r.subrange(16, 24) =~= cb.subrange(16, 24));
            assert(r.subrange(24, 24 + a) =~= dd);
            assert(r.subrange(24 + a, 24 + a + lit) =~= ee);
            assert(r.subrange(24 + a + lit, r.len() as int) =~= Seq::<u8>::empty());
            assert(avail(od, m.old_offset as int).subrange(0, a) =~= od.subrange(m.old_offset as int, m.old_offset + a));
            assert forall|j: int| 0 <= j < a implies #[trigger] add_bytes(od.subrange(m.old_offset as int, m.old_offset + a), dd)[j]
                == new@.subrange(i as int, i + a)[j] by {
                lemma_add_sub8(od[m.old_offset + j], new@[i + j]);
            }
            assert(add_bytes(od.subrange(m.old_offset as int, m.old_offset + a), dd) + ee =~= new@.subrange(i as int, i + a + lit));
            assert(linear_spec(Seq::<u8>::empty(), od) == Some(Seq::<u8>::empty()));
            assert(new@.subrange(i as int, i + a + lit) + Seq::<u8>::empty() =~= new@.subrange(i as int, i + a + lit));
            assert(linear_spec(r, od) == Some(new@.subrange(i as int, i + a + lit)));
            lemma_linear_append(before.subrange(prior.len() as int, before.len() as int), r, od);
            assert(new@.subrange(0, i as int) + new@.subrange(i as int, i + a + lit) =~= new@.subrange(0, i + a + lit));
            assert(start_of(ps@, k + 1) == i + a + lit);
        }
        let ghost rv = rec@;
        patch.append(&mut rec);
        proof {
            assert(patch@.subrange(prior.len() as int, patch@.len() as int) =~= before.subrange(prior.len() as int, before.len() as int) + rv);
            assert(patch@.subrange(0, prior.len() as int) =~= prior);
            let seg = patch@.subrange(prior.len() as int, patch@.len() as int);
            let bseg = before.subrange(prior.len() as int, before.len() as int);
            let q = ps@.subrange(0, k + 1);
            assert(q.drop_last() =~= ps@.subrange(0, k as int));
            assert(q.last() == ps@[k as int]);
            lemma_start_of_prefix(ps@, k + 1, k as int);
            assert(seg.subrange(0, seg.len() - (24 + span(q.last()))) =~= bseg);
            assert(seg.subrange(seg.len() - (24 + span(q.last())), seg.len() as int) =~= rv);
            assert(rv.subrange(0, 24) =~= cb);
            assert(rv.subrange(24, 24 + m.length) =~= cd.subrange(24, 24 + m.length));
        }
        i = i + m.length + lit;
        k = k + 1;
    }
    proof {
        assert(new@.subrange(0, i as int) =~= new@);
        assert(ps@.subrange(0, k as int) =~= ps@);
        if new@.len() == 0 {
            assert(patch@ =~= prior);
        }
    }
}

/// Replays a linear patch read from `patch` against `old`, appending the
/// output to `new`. On error what was appended is to be discarded.
#[verifier::rlimit(100)]
pub fn apply_patch(patch: &mut Stream, source: &mut Stream, new: &mut Vec<u8>) -> (r: Result<(), PatchError>)
    requires
        old(patch).wf(),
        old(source).wf(),
    ensures
        r is Ok <==> linear_spec(old(patch).rest(), old(source).data()) is Some,
        r is Ok ==> final(new)@ == old(new)@ + linear_spec(old(patch).rest(), old(source).data())->Some_0,
{
    let ghost od = source.data();
    let ghost whole = linear_spec(patch.rest(), od);
    let ghost n0 = new@;
    let mut acc: Ghost<Seq<u8>> = Ghost(Seq::empty());
    proof {
        assert(prefixed(Seq::empty(), linear_spec(patch.rest(), od)) == whole) by {
            match whole {
                Some(y) => assert(Seq::<u8>::empty() + y =~= y),
                None => {},
            }
        }
    }
    loop
        invariant
            patch.wf(),
            source.wf(),
            source.data() == od,
            new@ == n0 + acc@,
            whole == prefixed(acc@, linear_spec(patch.rest(), od)),
            whole == linear_spec(old(patch).rest(), old(source).data()),
            n0 == old(new)@,
        decreases patch.rest().len(),
    {
        let ghost rest = patch.rest();
        let cmd = match Command::read_from(patch) {
            Ok(Some(c)) => c,
            Ok(None) => {
                proof {
                    assert(rest =~= Seq::<u8>::empty());
                    assert(acc@ + Seq::<u8>::empty() =~= acc@);
                }
                return Ok(());
            },
            Err(e) => {
                return Err(e);
            },
        };
        let ghost a = cmd.bytewise_add_size as int;
        let ghost e = cmd.extra_append_size as int;
        proof {
            lemma_le_value_nonneg(rest.subrange(0, 8));
            assert(rest.subrange(0, 24).subrange(0, 8) =~= rest.subrange(0, 8));
            assert(rest.subrange(0, 24).subrange(8, 16) =~= rest.subrange(8, 16));
            assert(rest.subrange(0, 24).subrange(16, 24) =~= rest.subrange(16, 24));
        }
        let sk = source.seek_to(cmd.old_offset);
        if sk.is_err() {
            return sk;
        }
        proof {
            assert(source.rest() == avail(od, cmd.old_offset as int));
        }
        let ghost prest = patch.rest();
        let ghost orest = source.rest();
        let ghost nb = new@;
        let d = read_paired_bufs(cmd.bytewise_add_size, source, patch, new);
        if d.is_err() {
            proof {
                assert(24 + a + e > rest.len() || a > avail(od, cmd.old_offset as int).len());
            }
            return d;
        }
        let ghost prest2 = patch.rest();
        let x = read_size_from(cmd.extra_append_size, patch, new);
        if x.is_err() {
            return x;
        }
        proof {
            assert(prest.subrange(0, a) =~= rest.subrange(24, 24 + a));
            assert(prest2 =~= rest.subrange(24 + a, rest.len() as int));
            assert(prest2.subrange(0, e) =~= rest.subrange(24 + a, 24 + a + e));
            assert(patch.rest() =~= rest.subrange(24 + a + e, rest.len() as int));
            let y = add_bytes(orest.subrange(0, a), prest.subrange(0, a)) + prest2.subrange(0, e);
            let ghost_next = linear_spec(patch.rest(), od);
            match ghost_next {
                Some(z) => assert(acc@ + (y + z) =~= (acc@ + y) + z),
                None => {},
            }
            assert(new@ =~= n0 + (acc@ + y));
        }
        proof {
            let y = add_bytes(orest.subrange(0, a), prest.subrange(0, a)) + prest2.subrange(0, e);
            acc@ = acc@ + y;
        }
    }
}

/// Round trip: a linear patch written for `new` against `old` and replayed
/// against `old` gives back `new`, for all `old` and `new`.
pub fn round_trip(old: Vec<u8>, new: &[u8]) -> (r: Result<Vec<u8>, PatchError>)
    ensures
        r is Ok,
        r->Ok_0@ == new@,
{
    let index = Index::compute(old);
    let mut patch: Vec<u8> = Vec::new();
    generate_full_patch(&index, new, &mut patch);
    proof {
        assert(patch@.subrange(0, patch@.len() as int) =~= patch@);
    }
    let mut source = Stream::new(copy_bytes(index.data().as_slice()));
    let mut p = Stream::new(patch);
    let mut out: Vec<u8> = Vec::new();
    proof {
        assert(p.rest() =~= p.data());
    }
    apply_patch(&mut p, &mut source, &mut out)?;
    proof {
        assert(Seq::<u8>::empty() + new@ =~= new@);
    }
    Ok(out)
}

} // verus!
