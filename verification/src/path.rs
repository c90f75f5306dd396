//! Hierarchical names.
//!
//! A path is a slash-separated name such as `/a/b`. Its mathematical model
//! is the sequence of its bytes (the UTF-8 encoding of the text it was made
//! from). Paths are ordered byte-wise, which is the order in which the
//! directory lists them.

use vstd::prelude::*;
use vstd::slice::slice_to_vec;
use vstd::string::StringSliceAdditionalSpecFns;

verus! {

/// The byte that separates the segments of a path.
pub const SEP: u8 = 0x2f;

/// An absolute path begins with the separator.
pub open spec fn is_absolute(s: Seq<u8>) -> bool {
    s.len() > 0 && s[0] == SEP
}

/// A canonical path is absolute, has no empty segment, and does not end with
/// a separator; the root `/` is the one exception.
pub open spec fn is_canonical(s: Seq<u8>) -> bool {
    &&& is_absolute(s)
    &&& forall|i: int| 0 <= i < s.len() - 1 ==> !(s[i] == SEP && #[trigger] s[i + 1] == SEP)
    &&& (s.len() == 1 || s[s.len() - 1] != SEP)
}

/// `q` is an initial part of `s` (possibly all of it).
pub open spec fn has_prefix(s: Seq<u8>, q: Seq<u8>) -> bool {
    q.len() <= s.len() && s.subrange(0, q.len() as int) == q
}

/// The prefix under which the descendants of `p` are found: `p` itself when
/// it already ends with a separator, `p` followed by a separator otherwise.
pub open spec fn dir_prefix(p: Seq<u8>) -> Seq<u8> {
    if p.len() > 0 && p[p.len() - 1] == SEP {
        p
    } else {
        p.push(SEP)
    }
}

/// `s` lies strictly below `p` in the hierarchy: it differs from `p`, begins
/// with `p`, and a separator stands where `p` ends.
pub open spec fn is_strict_descendant(s: Seq<u8>, p: Seq<u8>) -> bool {
    s != p && has_prefix(s, dir_prefix(p))
}

/// `a` and `b` hold the same bytes at every index below `k`.
pub open spec fn agree_upto(a: Seq<u8>, b: Seq<u8>, k: int) -> bool {
    &&& 0 <= k <= a.len()
    &&& k <= b.len()
    &&& forall|i: int| 0 <= i < k ==> a[i] == b[i]
}

/// `a` precedes `b`, and index `k` decides it: the two agree below `k`, and
/// either `a` ends there while `b` goes on, or `a` holds the smaller byte.
pub open spec fn precedes_at(a: Seq<u8>, b: Seq<u8>, k: int) -> bool {
    &&& agree_upto(a, b, k)
    &&& (k == a.len() && k < b.len()) || (k < a.len() && k < b.len() && a[k] < b[k])
}

/// Lexicographic order on byte sequences.
pub open spec fn lex_lt(a: Seq<u8>, b: Seq<u8>) -> bool {
    exists|k: int| precedes_at(a, b, k)
}

/// `a` is `b` or precedes it.
pub open spec fn lex_le(a: Seq<u8>, b: Seq<u8>) -> bool {
    a == b || lex_lt(a, b)
}

/// Strictly ascending sequences of byte strings.
pub open spec fn strictly_sorted(keys: Seq<Seq<u8>>) -> bool {
    forall|i: int, j: int| 0 <= i < j < keys.len() ==> lex_lt(#[trigger] keys[i], #[trigger] keys[j])
}

/// No byte sequence precedes itself.
pub proof fn lemma_lex_irreflexive(a: Seq<u8>)
    ensures
        !lex_lt(a, a),
{
}

/// If `a` precedes `b` then `b` does not precede `a`.
pub proof fn lemma_lex_asymmetric(a: Seq<u8>, b: Seq<u8>)
    requires
        lex_lt(a, b),
    ensures
        !lex_lt(b, a),
        a != b,
{
    let k = choose|k: int| precedes_at(a, b, k);
    if lex_lt(b, a) {
        let j = choose|j: int| precedes_at(b, a, j);
        if j < k {
            assert(a[j] == b[j]);
        } else if k < j {
            assert(b[k] == a[k]);
        }
    }
}

/// The order is transitive.
pub proof fn lemma_lex_transitive(a: Seq<u8>, b: Seq<u8>, c: Seq<u8>)
    requires
        lex_lt(a, b),
        lex_lt(b, c),
    ensures
        lex_lt(a, c),
{
    let k1 = choose|k: int| precedes_at(a, b, k);
    let k2 = choose|k: int| precedes_at(b, c, k);
    let k = if k1 <= k2 { k1 } else { k2 };
    assert forall|i: int| 0 <= i < k implies a[i] == c[i] by {
        assert(a[i] == b[i]);
        assert(b[i] == c[i]);
    }
    if k2 < k1 {
        assert(a[k2] == b[k2]);
    } else if k1 < k2 {
        assert(b[k1] == c[k1]);
    }
    assert(precedes_at(a, c, k));
}

proof fn lemma_agree_then_equal(a: Seq<u8>, b: Seq<u8>, k: int)
    requires
        agree_upto(a, b, k),
        !lex_lt(a, b),
        !lex_lt(b, a),
    ensures
        a == b,
    decreases a.len() - k,
{
    if k == a.len() {
        if k < b.len() {
            assert(precedes_at(a, b, k));
        }
        assert(a =~= b);
    } else if k == b.len() {
        assert(precedes_at(b, a, k));
    } else {
        if a[k] < b[k] {
            assert(precedes_at(a, b, k));
        } else if b[k] < a[k] {
            assert(precedes_at(b, a, k));
        }
        lemma_agree_then_equal(a, b, k + 1);
    }
}

/// The order is total: of two different byte sequences one precedes the
/// other.
pub proof fn lemma_lex_total(a: Seq<u8>, b: Seq<u8>)
    ensures
        lex_lt(a, b) || a == b || lex_lt(b, a),
{
    if !lex_lt(a, b) && !lex_lt(b, a) {
        lemma_agree_then_equal(a, b, 0);
    }
}

/// An ascending sequence is determined by the byte strings it holds.
pub proof fn lemma_sorted_determined(a: Seq<Seq<u8>>, b: Seq<Seq<u8>>)
    requires
        strictly_sorted(a),
        strictly_sorted(b),
        a.to_set() == b.to_set(),
    ensures
        a == b,
    decreases a.len(),
{
    if a.len() == 0 {
        if b.len() > 0 {
            assert(b.contains(b[0]));
            assert(b.to_set().contains(b[0]));
            assert(a.contains(b[0]));
        }
        assert(a =~= b);
    } else if b.len() == 0 {
        assert(a.contains(a[0]));
        assert(a.to_set().contains(a[0]));
        assert(b.contains(a[0]));
    } else {
        let n = a.len() - 1;
        let m = b.len() - 1;
        assert(a.contains(a[n]));
        assert(a.to_set().contains(a[n]));
        assert(b.contains(a[n]));
        let jb = choose|j: int| 0 <= j < b.len() && b[j] == a[n];
        assert(b.contains(b[m]));
        assert(b.to_set().contains(b[m]));
        assert(a.contains(b[m]));
        let ja = choose|j: int| 0 <= j < a.len() && a[j] == b[m];
        if jb < m {
            if ja < n {
                lemma_lex_transitive(a[ja], a[n], b[m]);
                lemma_lex_asymmetric(a[ja], b[m]);
            }
            lemma_lex_asymmetric(b[jb], b[m]);
        }
        assert(a[n] == b[m]);
        let a0 = a.drop_last();
        let b0 = b.drop_last();
        assert forall|s: Seq<u8>| a0.to_set().contains(s) == b0.to_set().contains(s) by {
            if a0.contains(s) {
                let i = choose|i: int| 0 <= i < a0.len() && a0[i] == s;
                assert(a[i] == s);
                assert(a.contains(s));
                assert(a.to_set().contains(s));
                assert(b.contains(s));
                let j = choose|j: int| 0 <= j < b.len() && b[j] == s;
                if j == m {
                    lemma_lex_asymmetric(a[i], a[n]);
                }
                assert(b0[j] == s);
            }
            if b0.contains(s) {
                let i = choose|i: int| 0 <= i < b0.len() && b0[i] == s;
                assert(b[i] == s);
                assert(b.contains(s));
                assert(b.to_set().contains(s));
                assert(a.contains(s));
                let j = choose|j: int| 0 <= j < a.len() && a[j] == s;
                if j == n {
                    lemma_lex_asymmetric(b[i], b[m]);
                }
                assert(a0[j] == s);
            }
        }
        assert(a0.to_set() =~= b0.to_set());
        assert(strictly_sorted(a0)) by {
            assert forall|i: int, j: int| 0 <= i < j < a0.len() implies lex_lt(
                #[trigger] a0[i],
                #[trigger] a0[j],
            ) by {
                assert(a0[i] == a[i] && a0[j] == a[j]);
            }
        }
        assert(strictly_sorted(b0)) by {
            assert forall|i: int, j: int| 0 <= i < j < b0.len() implies lex_lt(
                #[trigger] b0[i],
                #[trigger] b0[j],
            ) by {
                assert(b0[i] == b[i] && b0[j] == b[j]);
            }
        }
        lemma_sorted_determined(a0, b0);
        assert(a =~= a0.push(a[n]));
        assert(b =~= b0.push(b[m]));
    }
}

/// Nothing that begins with `q` precedes `q`.
pub proof fn lemma_prefixed_not_below(s: Seq<u8>, q: Seq<u8>)
    requires
        has_prefix(s, q),
    ensures
        !lex_lt(s, q),
{
    if lex_lt(s, q) {
        let k = choose|k: int| precedes_at(s, q, k);
        assert(s.subrange(0, q.len() as int)[k] == s[k]);
    }
}

/// The byte sequences that begin with `q` form one block of the order:
/// whatever does not precede `q` and does not begin with it comes after all
/// of them.
pub proof fn lemma_prefixed_block(s: Seq<u8>, q: Seq<u8>, t: Seq<u8>)
    requires
        has_prefix(s, q),
        lex_le(q, t),
        !has_prefix(t, q),
    ensures
        lex_lt(s, t),
{
    assert(q != t) by {
        if q == t {
            assert(t.subrange(0, q.len() as int) =~= q);
        }
    }
    let k = choose|k: int| precedes_at(q, t, k);
    if k == q.len() {
        assert(t.subrange(0, q.len() as int) =~= q);
    }
    assert forall|i: int| 0 <= i <= k implies s[i] == q[i] by {
        assert(s.subrange(0, q.len() as int)[i] == s[i]);
    }
    assert(precedes_at(s, t, k));
}

/// Descent in the hierarchy, said without `dir_prefix`: `s` is longer than
/// `p`, begins with it, and a separator ends `p` or follows it in `s`.
pub proof fn lemma_descendant_by_separator(s: Seq<u8>, p: Seq<u8>)
    ensures
        is_strict_descendant(s, p) <==> (p.len() < s.len() && has_prefix(s, p) && ((p.len() > 0
            && p[p.len() - 1] == SEP) || s[p.len() as int] == SEP)),
{
    let q = dir_prefix(p);
    if p.len() > 0 && p[p.len() - 1] == SEP {
        if has_prefix(s, p) && s.len() == p.len() {
            assert(s.subrange(0, p.len() as int) =~= s);
        }
    } else {
        if has_prefix(s, q) {
            assert(s.subrange(0, p.len() as int) =~= q.subrange(0, p.len() as int)) by {
                assert forall|i: int| 0 <= i < p.len() implies s[i] == q[i] by {
                    assert(s.subrange(0, q.len() as int)[i] == s[i]);
                }
            }
            assert(q.subrange(0, p.len() as int) =~= p);
            assert(s.subrange(0, q.len() as int)[p.len() as int] == s[p.len() as int]);
            assert(s.len() != p.len());
        }
        if p.len() < s.len() && has_prefix(s, p) && s[p.len() as int] == SEP {
            assert(s.subrange(0, q.len() as int) =~= q) by {
                assert forall|i: int| 0 <= i < p.len() implies s[i] == p[i] by {
                    assert(s.subrange(0, p.len() as int)[i] == s[i]);
                }
            }
        }
    }
}

/// The result of comparing two paths.
#[derive(Clone, Copy, Debug, PartialEq, Eq, Structural)]
pub enum Order {
    Less,
    Equal,
    Greater,
}

/// A hierarchical name, held as its bytes.
#[derive(Debug, PartialEq, Eq, Hash)]
pub struct Path {
    bytes: Vec<u8>,
}

impl View for Path {
    type V = Seq<u8>;

    closed spec fn view(&self) -> Seq<u8> {
        self.bytes@
    }
}

impl Clone for Path {
    fn clone(&self) -> (r: Path)
        ensures
            r@ == self@,
    {
        Path { bytes: copy_bytes(self.bytes.as_slice()) }
    }
}

/// A fresh vector with the bytes of `b`.
pub fn copy_bytes(b: &[u8]) -> (v: Vec<u8>)
    ensures
        v@ == b@,
{
    slice_to_vec(b)
}

/// Compares two byte strings lexicographically.
pub fn order_bytes(a: &[u8], b: &[u8]) -> (o: Order)
    ensures
        o == Order::Less <==> lex_lt(a@, b@),
        o == Order::Equal <==> a@ == b@,
        o == Order::Greater <==> lex_lt(b@, a@),
{
    let mut i: usize = 0;
    while i < a.len() && i < b.len()
        invariant
            agree_upto(a@, b@, i as int),
            agree_upto(b@, a@, i as int),
        decreases a.len() - i,
    {
        if a[i] < b[i] {
            proof {
                assert(precedes_at(a@, b@, i as int));
                lemma_lex_asymmetric(a@, b@);
            }
            return Order::Less;
        }
        if a[i] > b[i] {
            proof {
                assert(precedes_at(b@, a@, i as int));
                lemma_lex_asymmetric(b@, a@);
            }
            return Order::Greater;
        }
        i += 1;
    }
    if i < b.len() {
        proof {
            assert(precedes_at(a@, b@, i as int));
            lemma_lex_asymmetric(a@, b@);
        }
        Order::Less
    } else if i < a.len() {
        proof {
            assert(precedes_at(b@, a@, i as int));
            lemma_lex_asymmetric(b@, a@);
        }
        Order::Greater
    } else {
        proof {
            assert(a@ =~= b@);
            lemma_lex_irreflexive(a@);
        }
        Order::Equal
    }
}

/// Tells whether `s` begins with `q`.
pub fn bytes_have_prefix(s: &[u8], q: &[u8]) -> (b: bool)
    ensures
        b == has_prefix(s@, q@),
{
    if q.len() > s.len() {
        return false;
    }
    let mut i: usize = 0;
    while i < q.len()
        invariant
            q.len() <= s.len(),
            0 <= i <= q.len(),
            forall|j: int| 0 <= j < i ==> s[j] == q[j],
        decreases q.len() - i,
    {
        if s[i] != q[i] {
            proof {
                assert(s@.subrange(0, q.len() as int)[i as int] == s[i as int]);
            }
            return false;
        }
        i += 1;
    }
    proof {
        assert(s@.subrange(0, q.len() as int) =~= q@);
    }
    true
}

impl Path {
    /// The path written as `s`.
    pub fn new(s: &str) -> (p: Path)
        ensures
            p@ == s.spec_bytes(),
    {
        Path { bytes: slice_to_vec(s.as_bytes()) }
    }

    /// The path whose bytes are `bytes`.
    pub fn from_bytes(bytes: Vec<u8>) -> (p: Path)
        ensures
            p@ == bytes@,
    {
        Path { bytes }
    }

    /// The bytes of the path.
    pub fn as_bytes(&self) -> (b: &[u8])
        ensures
            b@ == self@,
    {
        self.bytes.as_slice()
    }

    /// The bytes of the path, as a vector of their own.
    pub fn into_bytes(self) -> (b: Vec<u8>)
        ensures
            b@ == self@,
    {
        self.bytes
    }

    /// The number of bytes in the path.
    pub fn len(&self) -> (n: usize)
        ensures
            n == self@.len(),
    {
        self.bytes.len()
    }

    /// Whether the path begins with a separator.
    pub fn is_absolute(&self) -> (b: bool)
        ensures
            b == is_absolute(self@),
    {
        self.bytes.len() > 0 && self.bytes[0] == SEP
    }

    /// Whether the path is absolute, without empty segments and without a
    /// trailing separator.
    pub fn is_canonical(&self) -> (b: bool)
        ensures
            b == is_canonical(self@),
    {
        let n = self.bytes.len();
        if n == 0 || self.bytes[0] != SEP {
            return false;
        }
        if n > 1 && self.bytes[n - 1] == SEP {
            return false;
        }
        let mut i: usize = 0;
        while i + 1 < n
            invariant
                n == self.bytes@.len(),
                i < n,
                forall|j: int| 0 <= j < i ==> !(self.bytes@[j] == SEP && #[trigger] self.bytes@[j + 1] == SEP),
            decreases n - i,
        {
            if self.bytes[i] == SEP && self.bytes[i + 1] == SEP {
                return false;
            }
            i += 1;
        }
        true
    }

    /// Compares this path with `other` in the order of the directory.
    pub fn order(&self, other: &Path) -> (o: Order)
        ensures
            o == Order::Less <==> lex_lt(self@, other@),
            o == Order::Equal <==> self@ == other@,
            o == Order::Greater <==> lex_lt(other@, self@),
    {
        order_bytes(self.bytes.as_slice(), other.bytes.as_slice())
    }

    /// Whether the two paths hold the same bytes.
    pub fn equals(&self, other: &Path) -> (b: bool)
        ensures
            b == (self@ == other@),
    {
        match self.order(other) {
            Order::Equal => true,
            _ => false,
        }
    }

    /// The prefix under which the descendants of this path are found.
    pub fn dir_prefix(&self) -> (q: Vec<u8>)
        ensures
            q@ == dir_prefix(self@),
    {
        let mut q = copy_bytes(self.bytes.as_slice());
        let n = q.len();
        if n == 0 || q[n - 1] != SEP {
            q.push(SEP);
        }
        q
    }

    /// Whether this path lies strictly below `ancestor`.
    pub fn is_strict_descendant_of(&self, ancestor: &Path) -> (b: bool)
        ensures
            b == is_strict_descendant(self@, ancestor@),
    {
        let q = ancestor.dir_prefix();
        !self.equals(ancestor) && bytes_have_prefix(self.bytes.as_slice(), q.as_slice())
    }
}

} // verus!
