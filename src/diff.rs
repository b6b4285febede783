use vstd::prelude::*;

use crate::compact::Command;
use crate::patch::{apply, apply_spec, assemble, avail, lemma_run_extend, lemma_run_push, run, sized, step, Cursors};
use crate::stream::{add_bytes, copy_bytes, lemma_add_sub8, sub8, sub_byte, sub_bytes, PatchError, Stream};

verus! {

/// Matches shorter than this are not worth a command of their own.
pub const MIN_MATCH: usize = 8;

/// A region of old data that agrees with a region of new data.
#[derive(Clone, Copy, Debug, PartialEq, Eq, Structural)]
pub struct Match {
    pub old_offset: usize,
    pub length: usize,
}

impl Match {
    pub fn len(&self) -> (r: usize)
        ensures
            r == self.length,
    {
        self.length
    }
}

/// Whether `m` is a true match of `old` against the start of `w`.
pub open spec fn agrees(m: Match, old: Seq<u8>, w: Seq<u8>) -> bool {
    &&& m.old_offset + m.length <= old.len()
    &&& m.length <= w.len()
    &&& old.subrange(m.old_offset as int, m.old_offset + m.length) == w.subrange(0, m.length as int)
}

/// The length of the longest common prefix of `a[ai..]` and `b[bi..]`.
fn lcp(a: &[u8], ai: usize, b: &[u8], bi: usize) -> (r: usize)
    requires
        ai <= a@.len(),
        bi <= b@.len(),
    ensures
        ai + r <= a@.len(),
        bi + r <= b@.len(),
        a@.subrange(ai as int, ai + r) == b@.subrange(bi as int, bi + r),
        (ai + r < a@.len() && bi + r < b@.len()) ==> a@[ai + r] != b@[bi + r],
{
    let alen: usize = a.len();
    let blen: usize = b.len();
    let mut r: usize = 0;
    while ai + r < alen && bi + r < blen && a[ai + r] == b[bi + r]
        invariant
            alen == a@.len(),
            blen == b@.len(),
            ai + r <= a@.len(),
            bi + r <= b@.len(),
            a@.subrange(ai as int, ai + r) == b@.subrange(bi as int, bi + r),
        decreases a@.len() - ai - r,
    {
        proof {
            assert(a@.subrange(ai as int, ai + r + 1) =~= a@.subrange(ai as int, ai + r).push(a@[ai + r]));
            assert(b@.subrange(bi as int, bi + r + 1) =~= b@.subrange(bi as int, bi + r).push(b@[bi + r]));
        }
        r = r + 1;
    }
    r
}

/// Whether `x` sorts strictly before `y` in lexicographic order: after a
/// common prefix of length `k`, `x` ends while `y` goes on, or `x` has the
/// smaller byte.
pub open spec fn lex_lt(x: Seq<u8>, y: Seq<u8>) -> bool {
    exists|k: int|
        #![trigger x.subrange(0, k), y.subrange(0, k)]
        0 <= k <= x.len() && k <= y.len() && x.subrange(0, k) == y.subrange(0, k) && (
        (k == x.len() && k < y.len()) || (k < x.len() && k < y.len() && x[k] < y[k]))
}

/// The suffix of `d` that starts at `i`.
pub open spec fn suffix(d: Seq<u8>, i: int) -> Seq<u8> {
    d.subrange(i, d.len() as int)
}

proof fn lemma_lex_at(x: Seq<u8>, y: Seq<u8>, l: int)
    requires
        0 <= l <= x.len(),
        l <= y.len(),
        x.subrange(0, l) == y.subrange(0, l),
        l < x.len() && l < y.len() ==> x[l] != y[l],
    ensures
        lex_lt(x, y) <==> ((l == x.len() && l < y.len()) || (l < x.len() && l < y.len() && x[l] < y[l])),
{
    if lex_lt(x, y) {
        let k = choose|k: int|
            #![trigger x.subrange(0, k), y.subrange(0, k)]
            0 <= k <= x.len() && k <= y.len() && x.subrange(0, k) == y.subrange(0, k) && (
            (k == x.len() && k < y.len()) || (k < x.len() && k < y.len() && x[k] < y[k]));
        if k < l {
            assert(x[k] == x.subrange(0, l)[k]);
            assert(y[k] == y.subrange(0, l)[k]);
        } else if k > l {
            assert(x[l] == x.subrange(0, k)[l]);
            assert(y[l] == y.subrange(0, k)[l]);
        }
    }
    if (l == x.len() && l < y.len()) || (l < x.len() && l < y.len() && x[l] < y[l]) {
        assert(x.subrange(0, l) == y.subrange(0, l));
    }
}

/// Lexicographic order is asymmetric.
pub proof fn lemma_lex_asym(x: Seq<u8>, y: Seq<u8>)
    requires
        lex_lt(x, y),
    ensures
        !lex_lt(y, x),
{
    let k = choose|k: int|
        #![trigger x.subrange(0, k), y.subrange(0, k)]
        0 <= k <= x.len() && k <= y.len() && x.subrange(0, k) == y.subrange(0, k) && (
        (k == x.len() && k < y.len()) || (k < x.len() && k < y.len() && x[k] < y[k]));
    lemma_lex_at(y, x, k);
}

/// Lexicographic order is transitive.
pub proof fn lemma_lex_trans(x: Seq<u8>, y: Seq<u8>, z: Seq<u8>)
    requires
        lex_lt(x, y),
        lex_lt(y, z),
    ensures
        lex_lt(x, z),
{
    let k1 = choose|k: int|
        #![trigger x.subrange(0, k), y.subrange(0, k)]
        0 <= k <= x.len() && k <= y.len() && x.subrange(0, k) == y.subrange(0, k) && (
        (k == x.len() && k < y.len()) || (k < x.len() && k < y.len() && x[k] < y[k]));
    let k2 = choose|k: int|
        #![trigger y.subrange(0, k), z.subrange(0, k)]
        0 <= k <= y.len() && k <= z.len() && y.subrange(0, k) == z.subrange(0, k) && (
        (k == y.len() && k < z.len()) || (k < y.len() && k < z.len() && y[k] < z[k]));
    let k = if k1 < k2 { k1 } else { k2 };
    assert forall|j: int| 0 <= j < k implies x[j] == z[j] by {
        assert(x[j] == x.subrange(0, k1)[j]);
        assert(y[j] == y.subrange(0, k1)[j]);
        assert(y[j] == y.subrange(0, k2)[j]);
        assert(z[j] == z.subrange(0, k2)[j]);
    }
    if k1 < k2 {
        assert(y[k1] == y.subrange(0, k2)[k1]);
        assert(z[k1] == z.subrange(0, k2)[k1]);
    } else if k2 < k1 {
        assert(x[k2] == x.subrange(0, k1)[k2]);
        assert(y[k2] == y.subrange(0, k1)[k2]);
    }
    assert(x.subrange(0, k) =~= z.subrange(0, k));
}

/// The first position from `i` on where `x` and `y` differ or one of them ends.
pub open spec fn first_diff(x: Seq<u8>, y: Seq<u8>, i: int) -> int
    decreases x.len() - i,
{
    if i < 0 || i >= x.len() || i >= y.len() || x[i] != y[i] {
        i
    } else {
        first_diff(x, y, i + 1)
    }
}

proof fn lemma_first_diff(x: Seq<u8>, y: Seq<u8>, i: int)
    requires
        0 <= i <= x.len(),
        i <= y.len(),
        x.subrange(0, i) == y.subrange(0, i),
    ensures
        i <= first_diff(x, y, i) <= x.len(),
        first_diff(x, y, i) <= y.len(),
        x.subrange(0, first_diff(x, y, i)) == y.subrange(0, first_diff(x, y, i)),
        first_diff(x, y, i) < x.len() && first_diff(x, y, i) < y.len() ==> x[first_diff(x, y, i)] != y[first_diff(x, y, i)],
    decreases x.len() - i,
{
    if i < x.len() && i < y.len() && x[i] == y[i] {
        assert(x.subrange(0, i + 1) =~= x.subrange(0, i).push(x[i]));
        assert(y.subrange(0, i + 1) =~= y.subrange(0, i).push(y[i]));
        lemma_first_diff(x, y, i + 1);
    }
}

/// Lexicographic order is total.
pub proof fn lemma_lex_total(x: Seq<u8>, y: Seq<u8>)
    ensures
        x == y || lex_lt(x, y) || lex_lt(y, x),
{
    assert(x.subrange(0, 0) =~= y.subrange(0, 0));
    lemma_first_diff(x, y, 0);
    let l = first_diff(x, y, 0);
    lemma_lex_at(x, y, l);
    lemma_lex_at(y, x, l);
    if l == x.len() && l == y.len() {
        assert(x =~= x.subrange(0, l));
        assert(y =~= y.subrange(0, l));
    }
}

/// Not sorting before is transitive.
pub proof fn lemma_lex_le_trans(x: Seq<u8>, y: Seq<u8>, z: Seq<u8>)
    requires
        !lex_lt(y, x),
        !lex_lt(z, y),
    ensures
        !lex_lt(z, x),
{
    lemma_lex_total(x, y);
    lemma_lex_total(y, z);
    if lex_lt(z, x) {
        if lex_lt(x, y) {
            lemma_lex_trans(z, x, y);
        }
    }
}

/// Whether `x` and `y` agree on their first `l` elements.
pub open spec fn agree_on(x: Seq<u8>, y: Seq<u8>, l: int) -> bool {
    0 <= l <= x.len() && l <= y.len() && x.subrange(0, l) == y.subrange(0, l)
}

/// Whether `l` is where `x` and `y` first differ or one of them ends.
pub open spec fn split_at(x: Seq<u8>, y: Seq<u8>, l: int) -> bool {
    agree_on(x, y, l) && (l < x.len() && l < y.len() ==> x[l] != y[l])
}

/// `w <= a <= c`: `c` agrees with `w` no further than `a` does.
proof fn lemma_lcp_above(w: Seq<u8>, a: Seq<u8>, c: Seq<u8>, big: int, l: int)
    requires
        !lex_lt(a, w),
        !lex_lt(c, a),
        split_at(a, w, big),
        agree_on(c, w, l),
    ensures
        l <= big,
{
    if l > big {
        assert(c[big] == c.subrange(0, l)[big]);
        assert(w[big] == w.subrange(0, l)[big]);
        lemma_lex_at(a, w, big);
        assert(c.subrange(0, big) =~= a.subrange(0, big)) by {
            assert forall|j: int| 0 <= j < big implies c[j] == a[j] by {
                assert(c[j] == c.subrange(0, l)[j]);
                assert(w[j] == w.subrange(0, l)[j]);
                assert(a[j] == a.subrange(0, big)[j]);
                assert(w[j] == w.subrange(0, big)[j]);
            }
        }
        lemma_lex_at(c, a, big);
    }
}

/// `c <= b < w`: `c` agrees with `w` no further than `b` does.
proof fn lemma_lcp_below(w: Seq<u8>, b: Seq<u8>, c: Seq<u8>, big: int, l: int)
    requires
        lex_lt(b, w),
        !lex_lt(b, c),
        split_at(b, w, big),
        agree_on(c, w, l),
    ensures
        l <= big,
{
    if l > big {
        assert(c[big] == c.subrange(0, l)[big]);
        assert(w[big] == w.subrange(0, l)[big]);
        lemma_lex_at(b, w, big);
        assert(b.subrange(0, big) =~= c.subrange(0, big)) by {
            assert forall|j: int| 0 <= j < big implies c[j] == b[j] by {
                assert(c[j] == c.subrange(0, l)[j]);
                assert(w[j] == w.subrange(0, l)[j]);
                assert(b[j] == b.subrange(0, big)[j]);
                assert(w[j] == w.subrange(0, big)[j]);
            }
        }
        lemma_lex_at(b, c, big);
    }
}

/// Where `x` and `w` part at `l`, they do not agree on more than `l` elements.
proof fn lemma_no_longer(d: Seq<u8>, o: int, w: Seq<u8>, l: int, t: int)
    requires
        0 <= o <= d.len(),
        0 <= l < t,
        o + l <= d.len(),
        l <= w.len(),
        d.subrange(o, o + l) == w.subrange(0, l),
        o + l < d.len() && l < w.len() ==> d[o + l] != w[l],
    ensures
        !agree_on(suffix(d, o), w, t),
{
    if agree_on(suffix(d, o), w, t) {
        assert(suffix(d, o)[l] == suffix(d, o).subrange(0, t)[l]);
        assert(w[l] == w.subrange(0, t)[l]);
    }
}

/// A sequence that sorts between two that agree with `w` on `l` elements
/// agrees with `w` on them too.
proof fn lemma_between(w: Seq<u8>, x: Seq<u8>, y: Seq<u8>, z: Seq<u8>, l: int)
    requires
        !lex_lt(y, x),
        !lex_lt(z, y),
        agree_on(x, w, l),
        agree_on(z, w, l),
    ensures
        agree_on(y, w, l),
{
    let p = w.subrange(0, l);
    assert(y.subrange(0, 0) =~= p.subrange(0, 0));
    lemma_first_diff(y, p, 0);
    let t = first_diff(y, p, 0);
    if t < l {
        assert(x.subrange(0, t) =~= y.subrange(0, t)) by {
            assert forall|j: int| 0 <= j < t implies x[j] == y[j] by {
                assert(x[j] == x.subrange(0, l)[j]);
                assert(y[j] == y.subrange(0, t)[j]);
                assert(p[j] == p.subrange(0, t)[j]);
            }
        }
        assert(z.subrange(0, t) =~= y.subrange(0, t)) by {
            assert forall|j: int| 0 <= j < t implies z[j] == y[j] by {
                assert(z[j] == z.subrange(0, l)[j]);
                assert(y[j] == y.subrange(0, t)[j]);
                assert(p[j] == p.subrange(0, t)[j]);
            }
        }
        assert(x[t] == x.subrange(0, l)[t]);
        assert(z[t] == z.subrange(0, l)[t]);
        lemma_lex_at(y, x, t);
        lemma_lex_at(z, y, t);
    } else {
        assert(y.subrange(0, l) =~= w.subrange(0, l)) by {
            assert forall|j: int| 0 <= j < l implies y[j] == w[j] by {
                assert(y[j] == y.subrange(0, t)[j]);
                assert(p[j] == p.subrange(0, t)[j]);
            }
        }
    }
}

/// Whether `a[ai..]` sorts strictly before `b[bi..]`.
pub(crate) fn suffix_less(a: &[u8], ai: usize, b: &[u8], bi: usize) -> (r: bool)
    requires
        ai <= a@.len(),
        bi <= b@.len(),
    ensures
        r == lex_lt(suffix(a@, ai as int), suffix(b@, bi as int)),
{
    let alen: usize = a.len();
    let blen: usize = b.len();
    let l = lcp(a, ai, b, bi);
    proof {
        let x = suffix(a@, ai as int);
        let y = suffix(b@, bi as int);
        assert(x.subrange(0, l as int) =~= a@.subrange(ai as int, ai + l));
        assert(y.subrange(0, l as int) =~= b@.subrange(bi as int, bi + l));
        if ai + l < a@.len() && bi + l < b@.len() {
            assert(x[l as int] == a@[ai + l]);
            assert(y[l as int] == b@[bi + l]);
        }
        lemma_lex_at(x, y, l as int);
    }
    if bi + l == b.len() {
        false
    } else if ai + l == a.len() {
        true
    } else {
        a[ai + l] < b[bi + l]
    }
}

/// Whether offset `o` is listed in `sa`.
pub open spec fn placed(sa: Seq<usize>, o: int) -> bool {
    exists|k: int| 0 <= k < sa.len() && #[trigger] sa[k] == o
}

/// Every offset below `n` is listed in `sa`.
pub open spec fn covers(sa: Seq<usize>, n: nat) -> bool {
    forall|o: int| 0 <= o < n ==> #[trigger] placed(sa, o)
}

/// No suffix of `d` listed in `sa` sorts before the one listed ahead of it.
pub open spec fn sorted_order(d: Seq<u8>, sa: Seq<usize>) -> bool {
    forall|k: int| 0 < k < sa.len() ==> !lex_lt(#[trigger] suffix(d, sa[k] as int), suffix(d, sa[k - 1] as int))
}

/// Merges two runs of offsets, each in suffix order, into one in suffix order.
fn merge_runs(d: &[u8], a: &Vec<usize>, b: &Vec<usize>) -> (r: Vec<usize>)
    requires
        forall|k: int| 0 <= k < a@.len() ==> #[trigger] a@[k] < d@.len(),
        forall|k: int| 0 <= k < b@.len() ==> #[trigger] b@[k] < d@.len(),
        sorted_order(d@, a@),
        sorted_order(d@, b@),
    ensures
        r@.len() == a@.len() + b@.len(),
        forall|k: int| 0 <= k < r@.len() ==> #[trigger] r@[k] < d@.len(),
        sorted_order(d@, r@),
        forall|k: int| 0 <= k < a@.len() ==> #[trigger] placed(r@, a@[k] as int),
        forall|k: int| 0 <= k < b@.len() ==> #[trigger] placed(r@, b@[k] as int),
{
    let mut r: Vec<usize> = Vec::new();
    let mut i: usize = 0;
    let mut j: usize = 0;
    while i < a.len() || j < b.len()
        invariant
            i <= a@.len(),
            j <= b@.len(),
            r@.len() == i + j,
            forall|k: int| 0 <= k < a@.len() ==> #[trigger] a@[k] < d@.len(),
            forall|k: int| 0 <= k < b@.len() ==> #[trigger] b@[k] < d@.len(),
            sorted_order(d@, a@),
            sorted_order(d@, b@),
            forall|k: int| 0 <= k < r@.len() ==> #[trigger] r@[k] < d@.len(),
            sorted_order(d@, r@),
            r@.len() > 0 && i < a@.len() ==> !lex_lt(suffix(d@, a@[i as int] as int), suffix(d@, r@.last() as int)),
            r@.len() > 0 && j < b@.len() ==> !lex_lt(suffix(d@, b@[j as int] as int), suffix(d@, r@.last() as int)),
            forall|k: int| 0 <= k < i ==> #[trigger] placed(r@, a@[k] as int),
            forall|k: int| 0 <= k < j ==> #[trigger] placed(r@, b@[k] as int),
        decreases a@.len() + b@.len() - i - j,
    {
        let ghost before = r@;
        let take_a = if i == a.len() {
            false
        } else if j == b.len() {
            true
        } else {
            !suffix_less(d, b[j], d, a[i])
        };
        let x = if take_a { a[i] } else { b[j] };
        proof {
            if !take_a && i < a@.len() {
                lemma_lex_asym(suffix(d@, b@[j as int] as int), suffix(d@, a@[i as int] as int));
            }
        }
        r.push(x);
        proof {
            assert forall|k: int| 0 < k < r@.len() implies !lex_lt(#[trigger] suffix(d@, r@[k] as int), suffix(d@, r@[k - 1] as int)) by {
                if k < before.len() {
                    assert(r@[k] == before[k] && r@[k - 1] == before[k - 1]);
                }
            }
            assert forall|k: int| 0 <= k < i implies #[trigger] placed(r@, a@[k] as int) by {
                assert(placed(before, a@[k] as int));
                let q = choose|q: int| 0 <= q < before.len() && #[trigger] before[q] == a@[k] as int;
                assert(r@[q] == before[q]);
            }
            assert forall|k: int| 0 <= k < j implies #[trigger] placed(r@, b@[k] as int) by {
                assert(placed(before, b@[k] as int));
                let q = choose|q: int| 0 <= q < before.len() && #[trigger] before[q] == b@[k] as int;
                assert(r@[q] == before[q]);
            }
            assert(r@[r@.len() - 1] == x);
            assert(placed(r@, x as int));
        }
        if take_a {
            i = i + 1;
        } else {
            j = j + 1;
        }
    }
    r
}

/// The offsets of `v` in suffix order of `d`.
fn sort_suffixes(d: &[u8], v: &[usize]) -> (r: Vec<usize>)
    requires
        forall|k: int| 0 <= k < v@.len() ==> #[trigger] v@[k] < d@.len(),
    ensures
        r@.len() == v@.len(),
        forall|k: int| 0 <= k < r@.len() ==> #[trigger] r@[k] < d@.len(),
        sorted_order(d@, r@),
        forall|k: int| 0 <= k < v@.len() ==> #[trigger] placed(r@, v@[k] as int),
    decreases v@.len(),
{
    let n = v.len();
    if n <= 1 {
        let mut r: Vec<usize> = Vec::new();
        if n == 1 {
            r.push(v[0]);
            proof {
                assert(placed(r@, v@[0] as int)) by {
                    assert(r@[0] == v@[0]);
                }
            }
        }
        return r;
    }
    let mid = n / 2;
    let left = sort_suffixes(d, vstd::slice::slice_subrange(v, 0, mid));
    let right = sort_suffixes(d, vstd::slice::slice_subrange(v, mid, n));
    let r = merge_runs(d, &left, &right);
    proof {
        let lv = v@.subrange(0, mid as int);
        let rv = v@.subrange(mid as int, n as int);
        assert forall|k: int| 0 <= k < v@.len() implies #[trigger] placed(r@, v@[k] as int) by {
            if k < mid {
                assert(lv[k] == v@[k]);
                assert(placed(left@, lv[k] as int));
                let q = choose|q: int| 0 <= q < left@.len() && #[trigger] left@[q] == lv[k] as int;
                assert(placed(r@, left@[q] as int));
            } else {
                assert(rv[k - mid] == v@[k]);
                assert(placed(right@, rv[k - mid] as int));
                let q = choose|q: int| 0 <= q < right@.len() && #[trigger] right@[q] == rv[k - mid] as int;
                assert(placed(r@, right@[q] as int));
            }
        }
    }
    r
}

/// A queryable index over old data: the data and its suffixes' start offsets
/// in lexicographic order of the suffixes.
pub struct Index {
    data: Vec<u8>,
    sa: Vec<usize>,
}

impl Index {
    /// The old data that the index covers.
    pub closed spec fn old_bytes(&self) -> Seq<u8> {
        self.data@
    }

    /// The old data that the index covers.
    pub fn data(&self) -> (r: &Vec<u8>)
        ensures
            r@ == self.old_bytes(),
    {
        &self.data
    }

    /// The suffix order: start offsets of the suffixes, least suffix first.
    pub closed spec fn suffixes(&self) -> Seq<usize> {
        self.sa@
    }

    /// The suffix order.
    pub fn suffix_array(&self) -> (r: &Vec<usize>)
        ensures
            r@ == self.suffixes(),
    {
        &self.sa
    }

    /// An index from its parts, where every offset lies inside the data and
    /// the offsets are in suffix order.
    pub fn from_parts(data: Vec<u8>, sa: Vec<usize>) -> (r: Index)
        requires
            sa@.len() == data@.len(),
            forall|k: int| 0 <= k < sa@.len() ==> #[trigger] sa@[k] < data@.len(),
            sorted_order(data@, sa@),
            covers(sa@, data@.len()),
        ensures
            r.wf(),
            r.old_bytes() == data@,
            r.suffixes() == sa@,
    {
        Index { data, sa }
    }

    /// No suffix in the order sorts before the one ahead of it.
    pub open spec fn sorted(&self) -> bool {
        sorted_order(self.old_bytes(), self.suffixes())
    }

    /// Every offset into the data has its place in the order.
    pub open spec fn complete(&self) -> bool {
        forall|o: int| 0 <= o < self.old_bytes().len() ==> #[trigger] placed(self.suffixes(), o)
    }

    /// Where the suffixes that agree with `w` on `t` elements run from `left`
    /// to `right` in the order, and none next to that run does, the least
    /// offset in the run is the least offset of all of them.
    proof fn lemma_lowest(&self, w: Seq<u8>, left: int, at: int, right: int, best: int, t: int)
        requires
            self.wf(),
            0 <= left <= at <= right < self.suffixes().len(),
            left > 0 ==> !agree_on(suffix(self.old_bytes(), self.suffixes()[left - 1] as int), w, t),
            right + 1 < self.suffixes().len() ==> !agree_on(suffix(self.old_bytes(), self.suffixes()[right + 1] as int), w, t),
            forall|q: int| left <= q <= right ==> #[trigger] agree_on(suffix(self.old_bytes(), self.suffixes()[q] as int), w, t),
            forall|q: int| left <= q <= right ==> best <= #[trigger] self.suffixes()[q],
        ensures
            forall|o: int| 0 <= o < self.old_bytes().len() && #[trigger] agree_on(suffix(self.old_bytes(), o), w, t) ==> best <= o,
    {
        self.lemma_wf();
        let d = self.old_bytes();
        let sa = self.suffixes();
        assert forall|o: int| 0 <= o < d.len() && #[trigger] agree_on(suffix(d, o), w, t) implies best <= o by {
            assert(placed(sa, o));
            let q = choose|q: int| 0 <= q < sa.len() && #[trigger] sa[q] == o;
            if q < left {
                self.lemma_sorted_all(q, left - 1);
                self.lemma_sorted_all(left - 1, at);
                assert(agree_on(suffix(d, sa[at] as int), w, t));
                lemma_between(w, suffix(d, sa[q] as int), suffix(d, sa[left - 1] as int), suffix(d, sa[at] as int), t);
            } else if q > right {
                self.lemma_sorted_all(at, right + 1);
                self.lemma_sorted_all(right + 1, q);
                assert(agree_on(suffix(d, sa[at] as int), w, t));
                lemma_between(w, suffix(d, sa[at] as int), suffix(d, sa[right + 1] as int), suffix(d, sa[q] as int), t);
            }
        }
    }

    /// Sorted adjacent pairs give a sorted whole: no suffix sorts before one
    /// that comes ahead of it.
    pub proof fn lemma_sorted_all(&self, j: int, k: int)
        requires
            self.sorted(),
            0 <= j <= k < self.suffixes().len(),
        ensures
            !lex_lt(suffix(self.old_bytes(), self.suffixes()[k] as int), suffix(self.old_bytes(), self.suffixes()[j] as int)),
        decreases k - j,
    {
        let d = self.old_bytes();
        let sa = self.suffixes();
        if j == k {
            lemma_lex_total(suffix(d, sa[k] as int), suffix(d, sa[k] as int));
            if lex_lt(suffix(d, sa[k] as int), suffix(d, sa[k] as int)) {
                lemma_lex_asym(suffix(d, sa[k] as int), suffix(d, sa[k] as int));
            }
        } else {
            self.lemma_sorted_all(j, k - 1);
            assert(!lex_lt(suffix(d, sa[k] as int), suffix(d, sa[k - 1] as int)));
            lemma_lex_le_trans(suffix(d, sa[j] as int), suffix(d, sa[k - 1] as int), suffix(d, sa[k] as int));
        }
    }

    /// Every entry of the suffix order is an offset into the data.
    pub closed spec fn wf(&self) -> bool {
        &&& self.sa@.len() == self.data@.len()
        &&& forall|k: int| 0 <= k < self.sa@.len() ==> #[trigger] self.sa@[k] < self.data@.len()
        &&& sorted_order(self.data@, self.sa@)
        &&& covers(self.sa@, self.data@.len())
    }

    pub proof fn lemma_wf(&self)
        ensures
            self.wf() <==> (self.suffixes().len() == self.old_bytes().len() && (forall|k: int|
                0 <= k < self.suffixes().len() ==> #[trigger] self.suffixes()[k] < self.old_bytes().len())
                && sorted_order(self.old_bytes(), self.suffixes()) && covers(self.suffixes(), self.old_bytes().len())),
    {
    }

    /// Builds the index over `data`: its suffixes in lexicographic order, by a
    /// merge sort of the offsets.
    pub fn compute(data: Vec<u8>) -> (r: Index)
        ensures
            r.wf(),
            r.old_bytes() == data@,
            r.sorted(),
            r.complete(),
    {
        let n = data.len();
        let mut sa: Vec<usize> = Vec::new();
        let mut i: usize = 0;
        while i < n
            invariant
                i <= n,
                n == data@.len(),
                sa@.len() == i,
                forall|k: int| 0 <= k < sa@.len() ==> #[trigger] sa@[k] < n,
                forall|k: int| 0 <= k < sa@.len() ==> #[trigger] sa@[k] == k,
            decreases n - i,
        {
            sa.push(i);
            i = i + 1;
        }
        let ghost start = sa@;
        let sa = sort_suffixes(data.as_slice(), sa.as_slice());
        proof {
            assert forall|o: int| 0 <= o < n implies #[trigger] placed(sa@, o) by {
                assert(start[o] == o);
                assert(placed(sa@, start[o] as int));
            }
        }
        Index { data, sa }
    }

    /// The longest match of the start of `w` among the suffixes of the old
    /// data, found by binary search over the sorted suffixes and a comparison
    /// with the two neighbours of the place where `w` would sort; of the
    /// suffixes that match as far, which sit next to each other in the order,
    /// the lowest offset wins. Old data that is empty gives a match of length 0.
    pub fn best_match(&self, w: &[u8]) -> (r: Match)
        requires
            self.wf(),
        ensures
            agrees(r, self.old_bytes(), w@),
            forall|k: int, l: int|
                0 <= k < self.suffixes().len() && #[trigger] agree_on(suffix(self.old_bytes(), self.suffixes()[k] as int), w@, l)
                    ==> l <= r.length,
            forall|o: int| 0 <= o < self.old_bytes().len() && #[trigger] agree_on(suffix(self.old_bytes(), o), w@, r.length as int)
                ==> r.old_offset <= o,
    {
        let ghost d = self.data@;
        let ghost sa = self.sa@;
        let n = self.sa.len();
        let mut lo: usize = 0;
        let mut hi: usize = n;
        while lo < hi
            invariant
                lo <= hi <= n,
                n == self.sa@.len(),
                self.wf(),
                d == self.data@,
                sa == self.sa@,
                forall|k: int| 0 <= k < lo ==> lex_lt(#[trigger] suffix(d, sa[k] as int), w@),
                forall|k: int| hi <= k < n ==> !lex_lt(#[trigger] suffix(d, sa[k] as int), w@),
            decreases hi - lo,
        {
            let mid = lo + (hi - lo) / 2;
            if suffix_less(self.data.as_slice(), self.sa[mid], w, 0) {
                proof {
                    assert(suffix(w@, 0) =~= w@);
                    assert forall|k: int| 0 <= k <= mid implies lex_lt(#[trigger] suffix(d, sa[k] as int), w@) by {
                        self.lemma_sorted_all(k, mid as int);
                        lemma_lex_total(suffix(d, sa[k] as int), suffix(d, sa[mid as int] as int));
                        if suffix(d, sa[k] as int) != suffix(d, sa[mid as int] as int) {
                            lemma_lex_trans(suffix(d, sa[k] as int), suffix(d, sa[mid as int] as int), w@);
                        }
                    }
                }
                lo = mid + 1;
            } else {
                proof {
                    assert(suffix(w@, 0) =~= w@);
                    assert forall|k: int| mid <= k < n implies !lex_lt(#[trigger] suffix(d, sa[k] as int), w@) by {
                        self.lemma_sorted_all(mid as int, k);
                        lemma_lex_le_trans(w@, suffix(d, sa[mid as int] as int), suffix(d, sa[k] as int));
                    }
                }
                hi = mid;
            }
        }
        let mut best = Match { old_offset: 0, length: 0 };
        let mut at: usize = 0;
        proof {
            assert(self.data@.subrange(0, 0) =~= w@.subrange(0, 0));
        }
        if lo < n {
            let o = self.sa[lo];
            let l = lcp(self.data.as_slice(), o, w, 0);
            proof {
                let a = suffix(d, o as int);
                assert(a.subrange(0, l as int) =~= d.subrange(o as int, o + l));
                assert(w@.subrange(0, l as int) =~= w@.subrange(0, 0 + l));
                if (l as int) < a.len() && (l as int) < w@.len() {
                    assert(a[l as int] == d[o + l]);
                }
                assert(split_at(a, w@, l as int));
                assert forall|k: int, m: int|
                    lo <= k < n && #[trigger] agree_on(suffix(d, sa[k] as int), w@, m) implies m <= l by {
                    self.lemma_sorted_all(lo as int, k);
                    lemma_lcp_above(w@, a, suffix(d, sa[k] as int), l as int, m);
                }
            }
            best = Match { old_offset: o, length: l };
            at = lo;
        }
        if lo > 0 {
            let o = self.sa[lo - 1];
            let l = lcp(self.data.as_slice(), o, w, 0);
            proof {
                let b = suffix(d, o as int);
                assert(b.subrange(0, l as int) =~= d.subrange(o as int, o + l));
                assert(w@.subrange(0, l as int) =~= w@.subrange(0, 0 + l));
                if (l as int) < b.len() && (l as int) < w@.len() {
                    assert(b[l as int] == d[o + l]);
                }
                assert(split_at(b, w@, l as int));
                assert forall|k: int, m: int|
                    0 <= k < lo && #[trigger] agree_on(suffix(d, sa[k] as int), w@, m) implies m <= l by {
                    self.lemma_sorted_all(k, lo - 1);
                    lemma_lcp_below(w@, b, suffix(d, sa[k] as int), l as int, m);
                }
            }
            if lo == n || l > best.length {
                best = Match { old_offset: o, length: l };
                at = lo - 1;
            }
        }
        if n == 0 {
            return best;
        }
        let target = best.length;
        proof {
            assert(suffix(d, sa[at as int] as int).subrange(0, target as int) =~= d.subrange(sa[at as int] as int, sa[at as int] + target));
            assert(agree_on(suffix(d, sa[at as int] as int), w@, target as int));
        }
        let mut left: usize = at;
        loop
            invariant
                self.wf(),
                d == self.data@,
                sa == self.sa@,
                n == sa.len(),
                left <= at < n,
                best.length == target,
                agree_on(suffix(d, sa[at as int] as int), w@, target as int),
                forall|q: int| left <= q <= at ==> #[trigger] agree_on(suffix(d, sa[q] as int), w@, target as int),
                forall|q: int| left <= q <= at ==> best.old_offset <= #[trigger] sa[q],
                exists|q: int| left <= q <= at && sa[q] == best.old_offset,
                forall|k: int, m: int| 0 <= k < n && #[trigger] agree_on(suffix(d, sa[k] as int), w@, m) ==> m <= target,
            ensures
                left <= at < n,
                best.length == target,
                left > 0 ==> !agree_on(suffix(d, sa[left - 1] as int), w@, target as int),
                forall|q: int| left <= q <= at ==> #[trigger] agree_on(suffix(d, sa[q] as int), w@, target as int),
                forall|q: int| left <= q <= at ==> best.old_offset <= #[trigger] sa[q],
                exists|q: int| left <= q <= at && sa[q] == best.old_offset,
                forall|k: int, m: int| 0 <= k < n && #[trigger] agree_on(suffix(d, sa[k] as int), w@, m) ==> m <= target,
            decreases left,
        {
            if left == 0 {
                break;
            }
            let o = self.sa[left - 1];
            let l = lcp(self.data.as_slice(), o, w, 0);
            if l < target {
                proof {
                    lemma_no_longer(d, o as int, w@, l as int, target as int);
                }
                break;
            }
            proof {
                assert(suffix(d, o as int).subrange(0, target as int) =~= d.subrange(o as int, o + l).subrange(0, target as int));
                assert(w@.subrange(0, target as int) =~= w@.subrange(0, 0 + l).subrange(0, target as int));
                assert(agree_on(suffix(d, o as int), w@, target as int));
            }
            left = left - 1;
            if o < best.old_offset {
                best = Match { old_offset: o, length: target };
            }
        }
        let mut right: usize = at;
        proof {
            let o0 = best.old_offset as int;
            let q0 = choose|q: int| left <= q <= at && sa[q] == best.old_offset;
            assert(agree_on(suffix(d, sa[q0] as int), w@, target as int));
        }
        loop
            invariant
                self.wf(),
                d == self.data@,
                sa == self.sa@,
                n == sa.len(),
                left <= at <= right < n,
                best.length == target,
                left > 0 ==> !agree_on(suffix(d, sa[left - 1] as int), w@, target as int),
                forall|q: int| left <= q <= right ==> #[trigger] agree_on(suffix(d, sa[q] as int), w@, target as int),
                forall|q: int| left <= q <= right ==> best.old_offset <= #[trigger] sa[q],
                exists|q: int| left <= q <= right && sa[q] == best.old_offset,
                forall|k: int, m: int| 0 <= k < n && #[trigger] agree_on(suffix(d, sa[k] as int), w@, m) ==> m <= target,
            ensures
                left <= at <= right < n,
                best.length == target,
                left > 0 ==> !agree_on(suffix(d, sa[left - 1] as int), w@, target as int),
                right + 1 < n ==> !agree_on(suffix(d, sa[right + 1] as int), w@, target as int),
                forall|q: int| left <= q <= right ==> #[trigger] agree_on(suffix(d, sa[q] as int), w@, target as int),
                forall|q: int| left <= q <= right ==> best.old_offset <= #[trigger] sa[q],
                exists|q: int| left <= q <= right && sa[q] == best.old_offset,
                forall|k: int, m: int| 0 <= k < n && #[trigger] agree_on(suffix(d, sa[k] as int), w@, m) ==> m <= target,
            decreases n - right,
        {
            if right + 1 >= n {
                break;
            }
            let o = self.sa[right + 1];
            let l = lcp(self.data.as_slice(), o, w, 0);
            if l < target {
                proof {
                    lemma_no_longer(d, o as int, w@, l as int, target as int);
                }
                break;
            }
            proof {
                assert(suffix(d, o as int).subrange(0, target as int) =~= d.subrange(o as int, o + l).subrange(0, target as int));
                assert(w@.subrange(0, target as int) =~= w@.subrange(0, 0 + l).subrange(0, target as int));
                assert(agree_on(suffix(d, o as int), w@, target as int));
            }
            right = right + 1;
            if o < best.old_offset {
                best = Match { old_offset: o, length: target };
            }
        }
        proof {
            self.lemma_lowest(w@, left as int, at as int, right as int, best.old_offset as int, target as int);
            let q0 = choose|q: int| left <= q <= right && sa[q] == best.old_offset;
            let o0 = best.old_offset as int;
            assert(agree_on(suffix(d, o0), w@, target as int));
            assert(suffix(d, o0).subrange(0, target as int) =~= d.subrange(o0, o0 + target));
        }
        best
    }
}

/// One step of the scan: a match, then `unmatched_suffix` literal bytes.
#[derive(Clone, Copy, Debug, PartialEq, Eq, Structural)]
pub struct MatchPair {
    pub matched: Match,
    pub unmatched_suffix: usize,
}

/// The bytes of new data that a step covers.
pub open spec fn span(p: MatchPair) -> int {
    p.matched.length + p.unmatched_suffix
}

/// The start in new data of step `k`.
pub open spec fn start_of(ps: Seq<MatchPair>, k: int) -> int
    decreases k,
{
    if k <= 0 {
        0
    } else {
        start_of(ps, k - 1) + span(ps[k - 1])
    }
}

/// `tiles` one step at a time: each step fits, agrees, and they end at the end.
pub open spec fn tiles_at(ps: Seq<MatchPair>, old: Seq<u8>, new: Seq<u8>) -> bool {
    &&& start_of(ps, ps.len() as int) == new.len()
    &&& forall|k: int| 0 <= k < ps.len() ==> {
        &&& start_of(ps, k) + span(#[trigger] ps[k]) <= new.len()
        &&& agrees(ps[k].matched, old, new.subrange(start_of(ps, k), new.len() as int))
    }
}

/// No suffix of the index agrees with `new[p..]` on `MIN_MATCH` bytes.
pub open spec fn no_long_match(index: Index, new: Seq<u8>, p: int) -> bool {
    forall|k: int, l: int|
        0 <= k < index.suffixes().len() && #[trigger] agree_on(
            suffix(index.old_bytes(), index.suffixes()[k] as int),
            new.subrange(p, new.len() as int),
            l,
        ) ==> l < MIN_MATCH
}

/// No suffix of the index agrees with `new[p..]` on more than `len` bytes.
pub open spec fn longest_at(index: Index, new: Seq<u8>, p: int, len: int) -> bool {
    forall|k: int, l: int|
        0 <= k < index.suffixes().len() && #[trigger] agree_on(
            suffix(index.old_bytes(), index.suffixes()[k] as int),
            new.subrange(p, new.len() as int),
            l,
        ) ==> l <= len
}

/// The greedy policy of the scan at step `k`: a match that is empty or at
/// least `MIN_MATCH` long and the longest at its place, then literal bytes at
/// none of which a match of `MIN_MATCH` bytes starts, running to the end or
/// to a place where one does. A step covers at least one byte, and of the
/// equally long matches its match has the lowest offset.
#[verifier::opaque]
pub open spec fn greedy_at(ps: Seq<MatchPair>, index: Index, new: Seq<u8>, k: int) -> bool {
    let st = start_of(ps, k);
    let m = ps[k].matched;
    &&& span(ps[k]) >= 1
    &&& (m.length == 0 || m.length >= MIN_MATCH)
    &&& (m.length > 0 ==> longest_at(index, new, st, m.length as int))
    &&& (forall|o: int|
        0 <= o < index.old_bytes().len() && #[trigger] agree_on(
            suffix(index.old_bytes(), o),
            new.subrange(st, new.len() as int),
            m.length as int,
        ) ==> m.old_offset <= o)
    &&& (forall|p: int| st + m.length <= p < st + span(ps[k]) ==> #[trigger] no_long_match(index, new, p))
    &&& (st + span(ps[k]) == new.len() || long_match_at(index, new, st + span(ps[k])))
}

/// Some suffix of the index agrees with `new[p..]` on `MIN_MATCH` bytes.
pub open spec fn long_match_at(index: Index, new: Seq<u8>, p: int) -> bool {
    exists|o: int|
        0 <= o < index.old_bytes().len() && #[trigger] agree_on(
            suffix(index.old_bytes(), o),
            new.subrange(p, new.len() as int),
            MIN_MATCH as int,
        )
}

/// Where step `k` starts depends only on the steps before it.
pub proof fn lemma_start_of_prefix(ps: Seq<MatchPair>, j: int, k: int)
    requires
        0 <= k <= j <= ps.len(),
    ensures
        start_of(ps.subrange(0, j), k) == start_of(ps, k),
    decreases k,
{
    if k > 0 {
        lemma_start_of_prefix(ps, j, k - 1);
    }
}

proof fn lemma_start_of_push(ps: Seq<MatchPair>, p: MatchPair, k: int)
    requires
        0 <= k <= ps.len(),
    ensures
        start_of(ps.push(p), k) == start_of(ps, k),
    decreases k,
{
    if k > 0 {
        lemma_start_of_push(ps, p, k - 1);
    }
}

/// Walks `new` left to right and splits it into steps: the match that the
/// index finds at the cursor where it is at least `MIN_MATCH` long (else a
/// match of length 0), then the literal bytes up to the next place where such
/// a match starts, or to the end.
pub fn scan(index: &Index, new: &[u8]) -> (r: Vec<MatchPair>)
    requires
        index.wf(),
    ensures
        tiles_at(r@, index.old_bytes(), new@),
        forall|k: int| 0 <= k < r@.len() ==> #[trigger] greedy_at(r@, *index, new@, k),
        new@.len() == 0 ==> r@.len() == 0,
        index.old_bytes().len() == 0 && new@.len() > 0 ==> r@ == seq![
            MatchPair { matched: Match { old_offset: 0, length: 0 }, unmatched_suffix: new@.len() as usize },
        ],
{
    let n: usize = new.len();
    let mut ps: Vec<MatchPair> = Vec::new();
    let mut i: usize = 0;
    while i < n
        invariant
            index.wf(),
            n == new@.len(),
            i <= n,
            start_of(ps@, ps@.len() as int) == i,
            forall|k: int| 0 <= k < ps@.len() ==> {
                &&& start_of(ps@, k) + span(#[trigger] ps@[k]) <= n
                &&& agrees(ps@[k].matched, index.old_bytes(), new@.subrange(start_of(ps@, k), n as int))
            },
            forall|k: int| 0 <= k < ps@.len() ==> #[trigger] greedy_at(ps@, *index, new@, k),
            ps@.len() > 0 ==> i > 0,
            index.old_bytes().len() == 0 ==> (ps@.len() == 0 && i == 0) || (i == n && ps@ == seq![
                MatchPair { matched: Match { old_offset: 0, length: 0 }, unmatched_suffix: n },
            ]),
        decreases n - i,
    {
        let w = vstd::slice::slice_subrange(new, i, n);
        let mut m = index.best_match(w);
        let mut j: usize = i + m.length;
        proof {
            assert(w@ =~= new@.subrange(i as int, n as int));
            reveal(greedy_at);
        }
        if m.length < MIN_MATCH {
            proof {
                assert(no_long_match(*index, new@, i as int));
            }
            m = Match { old_offset: 0, length: 0 };
            proof {
                assert(index.old_bytes().subrange(0, 0) =~= w@.subrange(0, 0));
            }
            j = i + 1;
        }
        let ghost lit_from = if m.length == 0 { i as int } else { i + m.length };
        loop
            invariant
                index.wf(),
                n == new@.len(),
                i < j <= n,
                i + m.length <= j,
                lit_from == (if m.length == 0 { i as int } else { i + m.length }),
                forall|p: int| lit_from <= p < j ==> #[trigger] no_long_match(*index, new@, p),
                index.old_bytes().len() == 0 ==> m.length == 0,
            ensures
                i < j <= n,
                i + m.length <= j,
                forall|p: int| lit_from <= p < j ==> #[trigger] no_long_match(*index, new@, p),
                j == n || long_match_at(*index, new@, j as int),
                index.old_bytes().len() == 0 ==> m.length == 0,
            decreases n - j,
        {
            if j >= n {
                break;
            }
            let tail = vstd::slice::slice_subrange(new, j, n);
            let found = index.best_match(tail);
            if found.length >= MIN_MATCH {
                proof {
                    let o = found.old_offset as int;
                    let od = index.old_bytes();
                    assert(tail@ =~= new@.subrange(j as int, n as int));
                    assert(suffix(od, o).subrange(0, MIN_MATCH as int) =~= od.subrange(o, o + found.length).subrange(0, MIN_MATCH as int));
                    assert(tail@.subrange(0, MIN_MATCH as int) =~= tail@.subrange(0, found.length as int).subrange(0, MIN_MATCH as int));
                    assert(agree_on(suffix(od, o), new@.subrange(j as int, n as int), MIN_MATCH as int));
                }
                break;
            }
            proof {
                assert(tail@ =~= new@.subrange(j as int, n as int));
                assert(no_long_match(*index, new@, j as int));
            }
            j = j + 1;
        }
        let p = MatchPair { matched: m, unmatched_suffix: j - i - m.length };
        let ghost old_ps = ps@;
        ps.push(p);
        proof {
            if index.old_bytes().len() == 0 {
                assert(!long_match_at(*index, new@, j as int));
                assert(j == n);
                assert(m.old_offset == 0);
                assert(ps@ =~= seq![MatchPair { matched: Match { old_offset: 0, length: 0 }, unmatched_suffix: n }]);
            }
            assert(w@ == new@.subrange(i as int, n as int));
            assert forall|k: int| 0 <= k <= old_ps.len() implies start_of(ps@, k) == start_of(old_ps, k) by {
                lemma_start_of_push(old_ps, p, k);
            }
            assert(start_of(ps@, ps@.len() as int) == j);
            reveal(greedy_at);
            assert forall|k: int| 0 <= k < ps@.len() implies #[trigger] greedy_at(ps@, *index, new@, k) by {
                if k < old_ps.len() {
                    assert(greedy_at(old_ps, *index, new@, k));
                    assert(ps@[k] == old_ps[k]);
                }
            }
        }
        i = j;
    }
    ps
}

/// Counts over a completed scan.
#[derive(Clone, Copy, Debug, PartialEq, Eq, Structural)]
pub struct DiffStat {
    pub match_count: usize,
    pub total_matched_bytes: usize,
    pub total_literal_bytes: usize,
}

/// Sum of the match lengths of `ps`.
pub open spec fn matched_total(ps: Seq<MatchPair>) -> int
    decreases ps.len(),
{
    if ps.len() == 0 {
        0
    } else {
        matched_total(ps.drop_last()) + ps.last().matched.length
    }
}

/// Sum of the literal run lengths of `ps`.
pub open spec fn literal_total(ps: Seq<MatchPair>) -> int
    decreases ps.len(),
{
    if ps.len() == 0 {
        0
    } else {
        literal_total(ps.drop_last()) + ps.last().unmatched_suffix
    }
}

proof fn lemma_totals(ps: Seq<MatchPair>)
    ensures
        matched_total(ps) + literal_total(ps) == start_of(ps, ps.len() as int),
        matched_total(ps) >= 0,
        literal_total(ps) >= 0,
    decreases ps.len(),
{
    if ps.len() > 0 {
        lemma_totals(ps.drop_last());
        assert forall|k: int| 0 <= k <= ps.len() - 1 implies start_of(ps, k) == start_of(ps.drop_last(), k) by {
            lemma_start_of_push(ps.drop_last(), ps.last(), k);
            assert(ps.drop_last().push(ps.last()) =~= ps);
        }
        assert(start_of(ps, ps.len() as int) == start_of(ps, ps.len() - 1) + span(ps[ps.len() - 1]));
    }
}

impl DiffStat {
    /// The counts over `ps`.
    pub fn of(ps: &Vec<MatchPair>) -> (r: DiffStat)
        requires
            start_of(ps@, ps@.len() as int) <= usize::MAX,
        ensures
            r.match_count == ps@.len(),
            r.total_matched_bytes == matched_total(ps@),
            r.total_literal_bytes == literal_total(ps@),
    {
        let mut st = DiffStat { match_count: 0, total_matched_bytes: 0, total_literal_bytes: 0 };
        let mut k: usize = 0;
        proof {
            lemma_totals(ps@);
        }
        while k < ps.len()
            invariant
                k <= ps@.len(),
                start_of(ps@, ps@.len() as int) <= usize::MAX,
                matched_total(ps@) + literal_total(ps@) == start_of(ps@, ps@.len() as int),
                st.match_count == k,
                st.total_matched_bytes == matched_total(ps@.subrange(0, k as int)),
                st.total_literal_bytes == literal_total(ps@.subrange(0, k as int)),
            decreases ps@.len() - k,
        {
            proof {
                assert(ps@.subrange(0, k + 1).drop_last() =~= ps@.subrange(0, k as int));
                lemma_totals(ps@.subrange(0, k + 1));
                lemma_prefix_totals(ps@, k + 1);
            }
            st.match_count = st.match_count + 1;
            st.total_matched_bytes = st.total_matched_bytes + ps[k].matched.length;
            st.total_literal_bytes = st.total_literal_bytes + ps[k].unmatched_suffix;
            k = k + 1;
        }
        proof {
            assert(ps@.subrange(0, k as int) =~= ps@);
        }
        st
    }

    /// Scans `new` against `index` and counts the steps of the scan.
    pub fn from(index: &Index, new: &[u8]) -> (r: DiffStat)
        requires
            index.wf(),
        ensures
            r.total_matched_bytes + r.total_literal_bytes == new@.len(),
            exists|ps: Seq<MatchPair>|
                tiles_at(ps, index.old_bytes(), new@) && (forall|k: int| 0 <= k < ps.len() ==> #[trigger] greedy_at(ps, *index, new@, k))
                    && r.match_count == ps.len() && r.total_matched_bytes == matched_total(ps)
                    && r.total_literal_bytes == literal_total(ps),
    {
        let ps = scan(index, new);
        assert(new@.len() == new.len());
        let r = DiffStat::of(&ps);
        proof {
            lemma_totals(ps@);
        }
        r
    }
}

proof fn lemma_prefix_totals(ps: Seq<MatchPair>, j: int)
    requires
        0 <= j <= ps.len(),
    ensures
        matched_total(ps.subrange(0, j)) <= matched_total(ps),
        literal_total(ps.subrange(0, j)) <= literal_total(ps),
    decreases ps.len() - j,
{
    if j < ps.len() {
        lemma_prefix_totals(ps, j + 1);
        assert(ps.subrange(0, j + 1).drop_last() =~= ps.subrange(0, j));
    } else {
        assert(ps.subrange(0, j) =~= ps);
    }
}

/// The cursors before the first command: all at 0, nothing written.
pub open spec fn fresh() -> Cursors {
    (0, 0, 0, Seq::empty())
}

/// A patch that turns any old data of `len` bytes into itself: one command
/// that adds `len` zero bytes.
pub fn generate_identity_patch(len: u64) -> (r: Vec<u8>)
    ensures
        forall|old: Seq<u8>| old.len() == len && len <= usize::MAX ==> #[trigger] apply_spec(r@, old, 0) == Some(old),
{
    let mut cs: Vec<Command> = Vec::new();
    let c = Command { bytewise_add_size: len, extra_append_size: 0, oldfile_seek_offset: 0 };
    cs.push(c);
    let mut delta: Vec<u8> = Vec::new();
    let mut k: u64 = 0;
    while k < len
        invariant
            k <= len,
            delta@.len() == k,
            forall|t: int| 0 <= t < k ==> delta@[t] == 0,
        decreases len - k,
    {
        delta.push(0);
        k = k + 1;
    }
    let extra: Vec<u8> = Vec::new();
    let r = assemble(&cs, &delta, &extra, len);
    proof {
        assert forall|old: Seq<u8>| old.len() == len && len <= usize::MAX implies run(cs@, old, delta@, extra@, fresh())
            == Some((len as int, len as int, 0int, old)) by {
            lemma_run_push(Seq::empty(), c, old, delta@, extra@, fresh());
            assert(cs@ =~= Seq::<Command>::empty().push(c));
            assert(add_bytes(avail(old, 0).subrange(0, len as int), avail(delta@, 0).subrange(0, len as int))
                + avail(extra@, 0).subrange(0, 0) =~= old);
        }
    }
    r
}

/// A patch that produces `target` whatever the old data: one command that
/// copies `target` as literal bytes.
pub fn generate_idempotent_patch(target: &[u8]) -> (r: Vec<u8>)
    ensures
        forall|old: Seq<u8>| #[trigger] apply_spec(r@, old, 0) == Some(target@),
{
    let mut cs: Vec<Command> = Vec::new();
    let c = Command { bytewise_add_size: 0, extra_append_size: target.len() as u64, oldfile_seek_offset: 0 };
    cs.push(c);
    let delta: Vec<u8> = Vec::new();
    let extra: Vec<u8> = copy_bytes(target);
    let r = assemble(&cs, &delta, &extra, target.len() as u64);
    proof {
        assert forall|old: Seq<u8>| run(cs@, old, delta@, extra@, fresh())
            == Some((0int, 0int, target@.len() as int, target@)) by {
            lemma_run_push(Seq::empty(), c, old, delta@, extra@, fresh());
            assert(cs@ =~= Seq::<Command>::empty().push(c));
            assert(Seq::<u8>::empty() + add_bytes(avail(old, 0).subrange(0, 0), avail(delta@, 0).subrange(0, 0))
                + avail(extra@, 0).subrange(0, target@.len() as int) =~= target@);
        }
    }
    r
}

/// One step of the segment generator: a command over old bytes at `off`,
/// with the differences to `new[i..i + a]` as delta bytes and
/// `new[i + a..i + a + e]` as literal bytes, extends the output by exactly
/// those `a + e` bytes of `new`.
proof fn lemma_segment_step(
    cs: Seq<Command>,
    c: Command,
    old: Seq<u8>,
    delta: Seq<u8>,
    extra: Seq<u8>,
    new: Seq<u8>,
    i: int,
    off: int,
    a: int,
    e: int,
    next: int,
)
    requires
        0 <= i,
        0 <= a,
        0 <= e,
        i + a + e <= new.len(),
        0 <= off,
        off + a <= old.len(),
        0 <= next <= usize::MAX,
        c.bytewise_add_size == a,
        c.extra_append_size == e,
        off + a + c.oldfile_seek_offset == next,
        run(cs, old, delta, extra, fresh()) == Some((off, delta.len() as int, extra.len() as int, new.subrange(0, i))),
    ensures
        run(
            cs.push(c),
            old,
            delta + sub_bytes(new.subrange(i, i + a), old.subrange(off, off + a)),
            extra + new.subrange(i + a, i + a + e),
            fresh(),
        ) == Some((
            next,
            delta.len() + a,
            extra.len() + e,
            new.subrange(0, i + a + e),
        )),
{
    let dd = sub_bytes(new.subrange(i, i + a), old.subrange(off, off + a));
    let ee = new.subrange(i + a, i + a + e);
    lemma_run_extend(cs, old, delta, extra, dd, ee, fresh());
    lemma_run_push(cs, c, old, delta + dd, extra + ee, fresh());
    assert(avail(old, off).subrange(0, a) =~= old.subrange(off, off + a));
    assert(avail(delta + dd, delta.len() as int).subrange(0, a) =~= dd);
    assert(avail(extra + ee, extra.len() as int).subrange(0, e) =~= ee);
    assert forall|j: int| 0 <= j < a implies #[trigger] add_bytes(old.subrange(off, off + a), dd)[j] == new.subrange(i, i + a)[j] by {
        lemma_add_sub8(old[off + j], new[i + j]);
    }
    assert(new.subrange(0, i) + add_bytes(old.subrange(off, off + a), dd) + ee =~= new.subrange(0, i + a + e));
}

/// Splits `new` into the three segments of a compact patch against the
/// index's old data: commands, byte-wise differences and literal bytes.
#[verifier::rlimit(100)]
pub fn generate_segments(index: &Index, new: &[u8]) -> (r: (Vec<Command>, Vec<u8>, Vec<u8>))
    requires
        index.wf(),
        index.old_bytes().len() <= i64::MAX,
    ensures
        run(r.0@, index.old_bytes(), r.1@, r.2@, fresh()) is Some,
        run(r.0@, index.old_bytes(), r.1@, r.2@, fresh())->Some_0.3 == new@,
        index.old_bytes().len() == 0 ==> forall|k: int| 0 <= k < r.0@.len() ==> #[trigger] r.0@[k].bytewise_add_size == 0,
{
    let ps = scan(index, new);
    let old = index.data();
    let ghost od = old@;
    let olen: usize = old.len();
    let n: usize = new.len();
    let mut cs: Vec<Command> = Vec::new();
    let mut delta: Vec<u8> = Vec::new();
    let mut extra: Vec<u8> = Vec::new();
    let mut cur: usize = 0;
    if ps.len() > 0 && ps[0].matched.old_offset != 0 {
        let c = Command { bytewise_add_size: 0, extra_append_size: 0, oldfile_seek_offset: ps[0].matched.old_offset as i64 };
        proof {
            lemma_run_push(cs@, c, od, delta@, extra@, fresh());
            assert(step(c, od, delta@, extra@, fresh()) == Some((ps@[0].matched.old_offset as int, 0int, 0int, Seq::<u8>::empty()))) by {
                assert(Seq::<u8>::empty() + add_bytes(avail(od, 0).subrange(0, 0), avail(delta@, 0).subrange(0, 0))
                    + avail(extra@, 0).subrange(0, 0) =~= Seq::<u8>::empty());
            }
        }
        cs.push(c);
        cur = ps[0].matched.old_offset;
    }
    let mut k: usize = 0;
    let mut i: usize = 0;
    proof {
        assert(new@.subrange(0, 0) =~= Seq::<u8>::empty());
        assert(ps@.len() > 0 ==> agrees(ps@[0].matched, od, new@.subrange(start_of(ps@, 0), n as int)));
    }
    while k < ps.len()
        invariant
            index.wf(),
            old@ == od,
            od == index.old_bytes(),
            od.len() <= i64::MAX,
            olen == od.len(),
            n == new@.len(),
            tiles_at(ps@, od, new@),
            k <= ps@.len(),
            i == start_of(ps@, k as int),
            cur <= od.len(),
            k < ps@.len() ==> cur == ps@[k as int].matched.old_offset,
            run(cs@, od, delta@, extra@, fresh()) == Some((cur as int, delta@.len() as int, extra@.len() as int, new@.subrange(0, i as int))),
            od.len() == 0 ==> forall|j: int| 0 <= j < cs@.len() ==> #[trigger] cs@[j].bytewise_add_size == 0,
        decreases ps@.len() - k,
    {
        let m = ps[k].matched;
        let lit = ps[k].unmatched_suffix;
        proof {
            assert(start_of(ps@, k as int) + span(ps@[k as int]) <= n);
            assert(agrees(ps@[k as int].matched, od, new@.subrange(start_of(ps@, k as int), n as int)));
        }
        let ghost (c0, d0, e0) = (cs@, delta@, extra@);
        let ghost s0 = (cur as int, d0.len() as int, e0.len() as int, new@.subrange(0, i as int));
        let mut t: usize = 0;
        while t < m.length
            invariant
                t <= m.length,
                m.old_offset + m.length <= od.len(),
                olen == od.len(),
                i + m.length <= n,
                old@ == od,
                n == new@.len(),
                delta@ == d0 + sub_bytes(new@.subrange(i as int, i + t), od.subrange(m.old_offset as int, m.old_offset + t)),
            decreases m.length - t,
        {
            delta.push(sub_byte(new[i + t], old[m.old_offset + t]));
            t = t + 1;
            proof {
                assert(sub_bytes(new@.subrange(i as int, i + t), od.subrange(m.old_offset as int, m.old_offset + t))
                    =~= sub_bytes(new@.subrange(i as int, i + t - 1), od.subrange(m.old_offset as int, m.old_offset + t - 1)).push(
                    sub8(new@[i + t - 1], od[m.old_offset + t - 1]),
                ));
            }
        }
        let mut t: usize = 0;
        while t < lit
            invariant
                t <= lit,
                i + m.length + lit <= n,
                n == new@.len(),
                extra@ == e0 + new@.subrange(i + m.length, i + m.length + t),
            decreases lit - t,
        {
            extra.push(new[i + m.length + t]);
            t = t + 1;
            proof {
                assert(new@.subrange(i + m.length, i + m.length + t) =~= new@.subrange(i + m.length, i + m.length + t - 1).push(
                    new@[i + m.length + t - 1],
                ));
            }
        }
        let next: usize = if k + 1 < ps.len() { ps[k + 1].matched.old_offset } else { m.old_offset + m.length };
        proof {
            if k + 1 < ps@.len() {
                assert(agrees(ps@[k + 1].matched, od, new@.subrange(start_of(ps@, k + 1), n as int)));
            }
        }
        let seek: i64 = next as i64 - (m.old_offset + m.length) as i64;
        let c = Command { bytewise_add_size: m.length as u64, extra_append_size: lit as u64, oldfile_seek_offset: seek };
        proof {
            let a = m.length as int;
            let dd = sub_bytes(new@.subrange(i as int, i + a), od.subrange(m.old_offset as int, m.old_offset + a));
            let ee = new@.subrange(i + a, i + a + lit);
            assert(delta@ == d0 + dd);
            assert(extra@ == e0 + ee);
            lemma_segment_step(c0, c, od, d0, e0, new@, i as int, m.old_offset as int, a, lit as int, next as int);
            assert(start_of(ps@, k + 1) == i + a + lit);
        }
        cs.push(c);
        cur = next;
        i = i + m.length + lit;
        k = k + 1;
    }
    proof {
        assert(new@.subrange(0, i as int) =~= new@);
    }
    (cs, delta, extra)
}

/// A compact patch that turns the index's old data into `new`.
pub fn generate_simple_patch(index: &Index, new: &[u8]) -> (r: Vec<u8>)
    requires
        index.wf(),
        index.old_bytes().len() <= i64::MAX,
    ensures
        apply_spec(r@, index.old_bytes(), 0) == Some(new@),
{
    let (cs, delta, extra) = generate_segments(index, new);
    let r = assemble(&cs, &delta, &extra, new.len() as u64);
    proof {
        assert(apply_spec(r@, index.old_bytes(), 0)
            == sized(run(cs@, index.old_bytes(), delta@, extra@, (0, 0, 0, Seq::empty())), new@.len() as int));
    }
    r
}

/// Round trip through the compact format: a patch generated for `new`
/// against `old` and applied to `old` gives back `new`.
pub fn compact_round_trip(old: Vec<u8>, new: &[u8]) -> (r: Result<Vec<u8>, PatchError>)
    requires
        old@.len() <= i64::MAX,
    ensures
        r is Ok,
        r->Ok_0@ == new@,
{
    let index = Index::compute(old);
    let patch = generate_simple_patch(&index, new);
    let source = Stream::new(copy_bytes(index.data().as_slice()));
    let mut out: Vec<u8> = Vec::new();
    match apply(patch.as_slice(), source, &mut out) {
        Ok(()) => {
            proof {
                assert(Seq::<u8>::empty() + apply_spec(patch@, index.old_bytes(), 0)->Some_0 =~= apply_spec(patch@, index.old_bytes(), 0)->Some_0);
            }
            Ok(out)
        },
        Err(e) => Err(e),
    }
}

} // verus!
