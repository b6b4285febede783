use vstd::prelude::*;

use sha1::{Digest, Sha1};

use crate::compact::{le_value, u64_at, u64_bytes};
use crate::diff::{covers, lex_lt, placed, sorted_order, suffix, suffix_less, Index};

verus! {

/// The SHA-1 digest of some bytes.
pub uninterp spec fn sha1_of(s: Seq<u8>) -> Seq<u8>;

/// Relies on `sha1::Sha1::digest`: the 20-byte SHA-1 digest of `data`.
#[verifier::external_body]
fn sha1_digest(data: &[u8]) -> (r: Vec<u8>)
    ensures
        r@ == sha1_of(data@),
        r@.len() == 20,
{
    Sha1::digest(data).to_vec()
}

/// The cache key of old data: its 20-byte SHA-1 digest.
pub fn cache_key(old: &[u8]) -> (r: Vec<u8>)
    ensures
        r@ == sha1_of(old@),
        r@.len() == 20,
{
    sha1_digest(old)
}

/// The lower-case hexadecimal digit of a value below 16.
pub open spec fn hex_digit(v: u8) -> u8 {
    if v < 10 {
        (48 + v) as u8
    } else {
        (87 + v) as u8
    }
}

/// Two lower-case hexadecimal digits per byte, high half first.
pub open spec fn hex_spec(b: Seq<u8>) -> Seq<u8>
    decreases b.len(),
{
    if b.len() == 0 {
        Seq::empty()
    } else {
        hex_spec(b.drop_last()) + seq![hex_digit(b.last() / 16), hex_digit(b.last() % 16)]
    }
}

/// The lower-case hexadecimal spelling of `b`, as ASCII bytes: the file name
/// under which a file-backed cache keeps the entry of a digest.
pub fn hex_name(b: &[u8]) -> (r: Vec<u8>)
    ensures
        r@ == hex_spec(b@),
{
    let mut r: Vec<u8> = Vec::new();
    let mut i: usize = 0;
    while i < b.len()
        invariant
            i <= b@.len(),
            r@ == hex_spec(b@.subrange(0, i as int)),
        decreases b@.len() - i,
    {
        let hi = b[i] / 16;
        let lo = b[i] % 16;
        r.push(if hi < 10 { 48 + hi } else { 87 + hi });
        r.push(if lo < 10 { 48 + lo } else { 87 + lo });
        proof {
            assert(b@.subrange(0, i + 1).drop_last() =~= b@.subrange(0, i as int));
            assert(b@.subrange(0, i + 1).last() == b@[i as int]);
        }
        i = i + 1;
    }
    proof {
        assert(b@.subrange(0, b@.len() as int) =~= b@);
    }
    r
}

/// Whether `b` is the stored form of an index over `data` with suffix order
/// `sa`: the length as eight bytes, the data, then each offset as eight bytes.
pub open spec fn encodes_index(b: Seq<u8>, data: Seq<u8>, sa: Seq<usize>) -> bool {
    let n = data.len() as int;
    &&& sa.len() == n
    &&& b.len() == 8 + n + 8 * n
    &&& le_value(b.subrange(0, 8)) == n
    &&& b.subrange(8, 8 + n) == data
    &&& forall|k: int| 0 <= k < n ==> le_value(#[trigger] b.subrange(8 + n + 8 * k, 8 + n + 8 * k + 8)) == sa[k] as int
}

/// Every offset of `sa` lies inside data of length `n`.
pub open spec fn offsets_valid(sa: Seq<usize>, n: nat) -> bool {
    &&& sa.len() == n
    &&& forall|k: int| 0 <= k < sa.len() ==> #[trigger] sa[k] < n
}

/// One stored form holds one index.
pub proof fn lemma_stored_form_unique(b: Seq<u8>, d1: Seq<u8>, s1: Seq<usize>, d2: Seq<u8>, s2: Seq<usize>)
    requires
        encodes_index(b, d1, s1),
        encodes_index(b, d2, s2),
    ensures
        d1 == d2,
        s1 == s2,
{
    let n = d1.len() as int;
    assert(d1 =~= d2);
    assert forall|k: int| 0 <= k < n implies s1[k] == s2[k] by {
        assert(le_value(b.subrange(8 + n + 8 * k, 8 + n + 8 * k + 8)) == s1[k] as int);
        assert(le_value(b.subrange(8 + n + 8 * k, 8 + n + 8 * k + 8)) == s2[k] as int);
    }
    assert(s1 =~= s2);
}

impl Index {
    /// The stored form of the index.
    pub fn to_bytes(&self) -> (r: Vec<u8>)
        requires
            self.wf(),
        ensures
            encodes_index(r@, self.old_bytes(), self.suffixes()),
    {
        let data = self.data();
        let sa = self.suffix_array();
        proof {
            self.lemma_wf();
        }
        let n: usize = data.len();
        let mut r = u64_bytes(n as u64);
        let ghost h = r@;
        let mut i: usize = 0;
        while i < n
            invariant
                i <= n,
                n == data@.len(),
                h.len() == 8,
                r@ == h + data@.subrange(0, i as int),
            decreases n - i,
        {
            r.push(data[i]);
            i = i + 1;
            proof {
                assert(data@.subrange(0, i as int) =~= data@.subrange(0, i - 1).push(data@[i - 1]));
            }
        }
        proof {
            assert(data@.subrange(0, n as int) =~= data@);
        }
        let ghost hd = r@;
        let mut k: usize = 0;
        while k < n
            invariant
                k <= n,
                n == data@.len(),
                sa@.len() == n,
                hd.len() == 8 + n,
                r@.len() == 8 + n + 8 * k,
                r@.subrange(0, 8 + n) == hd,
                forall|j: int| 0 <= j < k ==> le_value(#[trigger] r@.subrange(8 + n + 8 * j, 8 + n + 8 * j + 8)) == sa@[j] as int,
            decreases n - k,
        {
            let ghost before = r@;
            let mut w = u64_bytes(sa[k] as u64);
            let ghost wv = w@;
            r.append(&mut w);
            proof {
                assert(r@.subrange(0, 8 + n) =~= hd);
                assert(r@.subrange(8 + n + 8 * k, 8 + n + 8 * k + 8) =~= wv);
                assert forall|j: int| 0 <= j < k implies le_value(#[trigger] r@.subrange(8 + n + 8 * j, 8 + n + 8 * j + 8))
                    == sa@[j] as int by {
                    assert(r@.subrange(8 + n + 8 * j, 8 + n + 8 * j + 8) =~= before.subrange(8 + n + 8 * j, 8 + n + 8 * j + 8));
                }
            }
            k = k + 1;
        }
        proof {
            assert(r@.subrange(0, 8) =~= h);
            assert(h =~= hd.subrange(0, 8));
            assert(hd.subrange(8, 8 + n) =~= data@);
            assert(r@.subrange(8, 8 + n) =~= hd.subrange(8, 8 + n));
        }
        r
    }

    /// The index that `b` holds in stored form, where `b` is well-formed and
    /// its offsets lie inside its data.
    pub fn from_bytes(b: &[u8]) -> (r: Option<Index>)
        ensures
            r matches Some(i) ==> i.wf() && encodes_index(b@, i.old_bytes(), i.suffixes()),
            (exists|d: Seq<u8>, sa: Seq<usize>| encodes_index(b@, d, sa) && offsets_valid(sa, d.len()) && sorted_order(d, sa) && covers(sa, d.len())) ==> r is Some,
    {
        let len: usize = b.len();
        if len < 8 {
            return None;
        }
        let n64 = u64_at(b, 0);
        if n64 > (len as u64 - 8) / 9 {
            return None;
        }
        let n: usize = n64 as usize;
        if len != 8 + n + 8 * n {
            return None;
        }
        let mut data: Vec<u8> = Vec::new();
        let mut i: usize = 0;
        while i < n
            invariant
                i <= n,
                len == b@.len(),
                8 + n + 8 * n == len,
                data@ == b@.subrange(8, 8 + i),
            decreases n - i,
        {
            data.push(b[8 + i]);
            i = i + 1;
            proof {
                assert(b@.subrange(8, 8 + i) =~= b@.subrange(8, 8 + i - 1).push(b@[8 + i - 1]));
            }
        }
        let mut sa: Vec<usize> = Vec::new();
        let mut k: usize = 0;
        while k < n
            invariant
                k <= n,
                len == b@.len(),
                8 + n + 8 * n == len,
                data@ == b@.subrange(8, 8 + n),
                sa@.len() == k,
                forall|j: int| 0 <= j < k ==> le_value(#[trigger] b@.subrange(8 + n + 8 * j, 8 + n + 8 * j + 8)) == sa@[j] as int,
                forall|j: int| 0 <= j < k ==> #[trigger] sa@[j] < n,
            decreases n - k,
        {
            let v = u64_at(b, 8 + n + 8 * k);
            if v >= n as u64 {
                proof {
                    assert(forall|d: Seq<u8>, s: Seq<usize>| encodes_index(b@, d, s) && offsets_valid(s, d.len()) ==> false) by {
                        assert forall|d: Seq<u8>, s: Seq<usize>| encodes_index(b@, d, s) && offsets_valid(s, d.len()) implies false by {
                            assert(le_value(b@.subrange(8 + n + 8 * k, 8 + n + 8 * k + 8)) == s[k as int] as int);
                        }
                    }
                }
                return None;
            }
            sa.push(v as usize);
            k = k + 1;
        }
        proof {
            assert(encodes_index(b@, data@, sa@));
        }
        let mut k: usize = 1;
        while k < n
            invariant
                1 <= k,
                encodes_index(b@, data@, sa@),
                n == data@.len(),
                sa@.len() == n,
                forall|j: int| 0 <= j < n ==> #[trigger] sa@[j] < n,
                forall|j: int| 0 < j < k && j < n ==> !lex_lt(#[trigger] suffix(data@, sa@[j] as int), suffix(data@, sa@[j - 1] as int)),
            decreases n - k,
        {
            if suffix_less(data.as_slice(), sa[k], data.as_slice(), sa[k - 1]) {
                proof {
                    assert forall|d: Seq<u8>, s: Seq<usize>|
                        encodes_index(b@, d, s) && offsets_valid(s, d.len()) && sorted_order(d, s) implies false by {
                        lemma_stored_form_unique(b@, d, s, data@, sa@);
                        assert(!lex_lt(suffix(d, s[k as int] as int), suffix(d, s[k - 1] as int)));
                    }
                }
                return None;
            }
            k = k + 1;
        }
        let mut inv: Vec<usize> = Vec::new();
        let mut o: usize = 0;
        while o < n
            invariant
                o <= n,
                inv@.len() == o,
                forall|j: int| 0 <= j < o ==> #[trigger] inv@[j] == n,
            decreases n - o,
        {
            inv.push(n);
            o = o + 1;
        }
        let mut k: usize = 0;
        while k < n
            invariant
                k <= n,
                n == data@.len(),
                sa@.len() == n,
                inv@.len() == n,
                forall|j: int| 0 <= j < n ==> #[trigger] sa@[j] < n,
                forall|j: int| 0 <= j < n && #[trigger] inv@[j] < n ==> sa@[inv@[j] as int] == j,
                forall|j: int| 0 <= j < k ==> #[trigger] inv@[sa@[j] as int] < n,
            decreases n - k,
        {
            inv.set(sa[k], k);
            k = k + 1;
        }
        let mut o: usize = 0;
        while o < n
            invariant
                o <= n,
                n == data@.len(),
                sa@.len() == n,
                inv@.len() == n,
                encodes_index(b@, data@, sa@),
                forall|j: int| 0 <= j < n && #[trigger] inv@[j] < n ==> sa@[inv@[j] as int] == j,
                forall|j: int| 0 <= j < n ==> #[trigger] inv@[sa@[j] as int] < n,
                forall|j: int| 0 <= j < o ==> #[trigger] placed(sa@, j),
            decreases n - o,
        {
            if inv[o] >= n {
                proof {
                    assert forall|d: Seq<u8>, s: Seq<usize>|
                        encodes_index(b@, d, s) && offsets_valid(s, d.len()) && sorted_order(d, s) && covers(s, d.len()) implies false by {
                        lemma_stored_form_unique(b@, d, s, data@, sa@);
                        assert(placed(s, o as int));
                        let j = choose|j: int| 0 <= j < s.len() && #[trigger] s[j] == o;
                        assert(inv@[sa@[j] as int] < n);
                    }
                }
                return None;
            }
            proof {
                assert(sa@[inv@[o as int] as int] == o);
                assert(placed(sa@, o as int));
            }
            o = o + 1;
        }
        let r = Index::from_parts(data, sa);
        proof {
            assert(b@.subrange(8, 8 + n as int) =~= r.old_bytes());
        }
        Some(r)
    }
}

/// The index over `old`: the one that `cached` holds in stored form where it
/// holds one over exactly these bytes, else a fresh build. The second part of
/// the result is the stored form to put in the cache after a build, and
/// `None` when the cached entry was used.
pub fn fetch_or_build(old: Vec<u8>, cached: Option<Vec<u8>>) -> (r: (Index, Option<Vec<u8>>))
    ensures
        r.0.wf(),
        r.0.complete(),
        r.0.sorted(),
        r.0.old_bytes() == old@,
        r.1 matches Some(b) ==> encodes_index(b@, old@, r.0.suffixes()),
        r.1 is None ==> cached is Some && encodes_index(cached->Some_0@, old@, r.0.suffixes()),
        forall|sa: Seq<usize>| #![trigger encodes_index(cached->Some_0@, old@, sa)]
            cached is Some && encodes_index(cached->Some_0@, old@, sa) && offsets_valid(sa, old@.len()) && sorted_order(old@, sa)
                && covers(sa, old@.len()) ==> r.1 is None && r.0.suffixes() == sa,
{
    if let Some(b) = &cached {
        if let Some(i) = Index::from_bytes(b.as_slice()) {
            if bytes_equal(i.data(), &old) {
                proof {
                    assert forall|sa: Seq<usize>| encodes_index(b@, old@, sa) && offsets_valid(sa, old@.len()) && sorted_order(old@, sa) && covers(sa, old@.len())
                        implies i.suffixes() == sa by {
                        lemma_stored_form_unique(b@, i.old_bytes(), i.suffixes(), old@, sa);
                    }
                }
                proof {
                    i.lemma_wf();
                }
                return (i, None);
            }
            proof {
                assert forall|sa: Seq<usize>| encodes_index(b@, old@, sa) && offsets_valid(sa, old@.len()) && sorted_order(old@, sa) && covers(sa, old@.len()) implies false by {
                    lemma_stored_form_unique(b@, i.old_bytes(), i.suffixes(), old@, sa);
                }
            }
        }
    }
    let i = Index::compute(old);
    let b = i.to_bytes();
    (i, Some(b))
}

/// Whether `a` and `b` hold the same bytes.
fn bytes_equal(a: &Vec<u8>, b: &Vec<u8>) -> (r: bool)
    ensures
        r <==> a@ == b@,
{
    if a.len() != b.len() {
        return false;
    }
    let mut i: usize = 0;
    while i < a.len()
        invariant
            i <= a@.len(),
            a@.len() == b@.len(),
            a@.subrange(0, i as int) == b@.subrange(0, i as int),
        decreases a@.len() - i,
    {
        if a[i] != b[i] {
            proof {
                assert(a@[i as int] != b@[i as int]);
            }
            return false;
        }
        i = i + 1;
        proof {
            assert(a@.subrange(0, i as int) =~= a@.subrange(0, i - 1).push(a@[i - 1]));
            assert(b@.subrange(0, i as int) =~= b@.subrange(0, i - 1).push(b@[i - 1]));
        }
    }
    proof {
        assert(a@ =~= a@.subrange(0, i as int));
        assert(b@ =~= b@.subrange(0, i as int));
    }
    true
}

} // verus!
