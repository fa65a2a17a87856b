//! The order in which keys and values of a mapping are kept: byte-wise
//! lexicographic order of the UTF-8 encoding, which is the order of `str`.

use vstd::prelude::*;
use vstd::seq_lib::*;
use vstd::string::*;
use vstd::utf8::*;

verus! {

/// `a` and `b` hold the same byte at every position below `k`.
pub open spec fn agree_below(a: Seq<u8>, b: Seq<u8>, k: int) -> bool {
    &&& 0 <= k <= a.len()
    &&& k <= b.len()
    &&& forall|i: int| 0 <= i < k ==> a[i] == b[i]
}

/// Strict lexicographic order on byte strings: at the first position where
/// the two differ, `a` has ended or holds the smaller byte.
pub open spec fn bytes_before(a: Seq<u8>, b: Seq<u8>) -> bool {
    exists|k: int| #[trigger] agree_below(a, b, k) && k < b.len() && (k == a.len() || a[k] < b[k])
}

/// Strict order on texts: the order of their UTF-8 encodings.
pub open spec fn text_before(a: Seq<char>, b: Seq<char>) -> bool {
    bytes_before(encode_utf8(a), encode_utf8(b))
}

/// Every element of `s` stands before each later one.
pub open spec fn ascending(s: Seq<Seq<char>>) -> bool {
    forall|i: int, j: int| 0 <= i < j < s.len() ==> text_before(#[trigger] s[i], #[trigger] s[j])
}

/// No byte string stands before itself.
pub proof fn lemma_bytes_irreflexive(a: Seq<u8>)
    ensures
        !bytes_before(a, a),
{
}

/// The order on byte strings is transitive.
pub proof fn lemma_bytes_transitive(a: Seq<u8>, b: Seq<u8>, c: Seq<u8>)
    requires
        bytes_before(a, b),
        bytes_before(b, c),
    ensures
        bytes_before(a, c),
{
    let k1 = choose|k: int| #[trigger] agree_below(a, b, k) && k < b.len() && (k == a.len() || a[k] < b[k]);
    let k2 = choose|k: int| #[trigger] agree_below(b, c, k) && k < c.len() && (k == b.len() || b[k] < c[k]);
    let k = if k1 <= k2 { k1 } else { k2 };
    assert(agree_below(a, c, k));
}

proof fn lemma_bytes_total_from(a: Seq<u8>, b: Seq<u8>, k: int)
    requires
        agree_below(a, b, k),
    ensures
        a == b || bytes_before(a, b) || bytes_before(b, a),
    decreases a.len() - k,
{
    if k == a.len() {
        if k == b.len() {
            assert(a =~= b);
        }
    } else if k == b.len() {
        assert(agree_below(b, a, k));
    } else if a[k] == b[k] {
        lemma_bytes_total_from(a, b, k + 1);
    } else {
        assert(agree_below(b, a, k));
    }
}

/// Two byte strings are equal, or one stands before the other.
pub proof fn lemma_bytes_total(a: Seq<u8>, b: Seq<u8>)
    ensures
        a == b || bytes_before(a, b) || bytes_before(b, a),
{
    assert(agree_below(a, b, 0));
    lemma_bytes_total_from(a, b, 0);
}

/// Texts with the same encoding are the same text.
pub proof fn lemma_encoding_injective(a: Seq<char>, b: Seq<char>)
    requires
        encode_utf8(a) == encode_utf8(b),
    ensures
        a == b,
{
    encode_utf8_decode_utf8(a);
    encode_utf8_decode_utf8(b);
}

/// The order on texts is a strict total order: of two texts exactly one of
/// "before", "equal" and "after" holds.
pub proof fn lemma_text_trichotomy(a: Seq<char>, b: Seq<char>)
    ensures
        a == b || text_before(a, b) || text_before(b, a),
        !(a == b && text_before(a, b)),
        !(a == b && text_before(b, a)),
        !(text_before(a, b) && text_before(b, a)),
{
    let x = encode_utf8(a);
    let y = encode_utf8(b);
    lemma_bytes_total(x, y);
    if x == y {
        lemma_encoding_injective(a, b);
    }
    lemma_bytes_irreflexive(x);
    if bytes_before(x, y) && bytes_before(y, x) {
        lemma_bytes_transitive(x, y, x);
    }
}

/// The order on texts is transitive.
pub proof fn lemma_text_transitive(a: Seq<char>, b: Seq<char>, c: Seq<char>)
    requires
        text_before(a, b),
        text_before(b, c),
    ensures
        text_before(a, c),
{
    lemma_bytes_transitive(encode_utf8(a), encode_utf8(b), encode_utf8(c));
}

/// `p` is the place of `v` in `s`: what stands before `p` stands before `v`,
/// and what stands at `p`, if anything, does not.
pub open spec fn is_place(s: Seq<Seq<char>>, v: Seq<char>, p: int) -> bool {
    &&& 0 <= p <= s.len()
    &&& forall|q: int| 0 <= q < p ==> text_before(#[trigger] s[q], v)
    &&& p < s.len() ==> !text_before(s[p], v)
}

/// An ascending sequence holds no text twice.
pub proof fn lemma_ascending_distinct(s: Seq<Seq<char>>)
    requires
        ascending(s),
    ensures
        s.no_duplicates(),
{
    assert forall|i: int, j: int| 0 <= i < s.len() && 0 <= j < s.len() && i != j implies s[i]
        != s[j] by {
        lemma_text_trichotomy(s[i], s[j]);
    }
}

/// In an ascending sequence a text is found at its place or nowhere.
pub proof fn lemma_place_decides(s: Seq<Seq<char>>, v: Seq<char>, p: int)
    requires
        ascending(s),
        is_place(s, v, p),
    ensures
        s.contains(v) <==> (p < s.len() && s[p] == v),
        forall|q: int| 0 <= q < s.len() && s[q] == v ==> q == p,
{
    assert forall|q: int| 0 <= q < s.len() && s[q] == v implies q == p by {
        lemma_text_trichotomy(s[q], v);
        if q > p {
            lemma_text_trichotomy(s[p], s[q]);
        }
    }
}

/// Putting a text that an ascending sequence lacks at its place keeps the
/// sequence ascending.
pub proof fn lemma_insert_at_place(s: Seq<Seq<char>>, v: Seq<char>, p: int)
    requires
        ascending(s),
        is_place(s, v, p),
        !s.contains(v),
    ensures
        ascending(s.insert(p, v)),
        is_place(s.insert(p, v), v, p),
{
    let t = s.insert(p, v);
    assert forall|i: int, j: int| 0 <= i < j < t.len() implies text_before(
        #[trigger] t[i],
        #[trigger] t[j],
    ) by {
        if j == p {
            assert(t[i] == s[i]);
        } else if i == p {
            assert(t[j] == s[j - 1]);
            lemma_text_trichotomy(s[p], v);
            if j - 1 > p {
                lemma_text_transitive(v, s[p], s[j - 1]);
            }
        } else {
            let a = if i < p { i } else { i - 1 };
            let b = if j < p { j } else { j - 1 };
            assert(t[i] == s[a] && t[j] == s[b]);
        }
    }
    lemma_text_trichotomy(v, v);
}

/// Ascending sequences with the same members are the same sequence.
pub proof fn lemma_ascending_unique(s: Seq<Seq<char>>, t: Seq<Seq<char>>)
    requires
        ascending(s),
        ascending(t),
        s.to_set() == t.to_set(),
    ensures
        s == t,
    decreases s.len(),
{
    lemma_ascending_distinct(s);
    lemma_ascending_distinct(t);
    s.unique_seq_to_set();
    t.unique_seq_to_set();
    if s.len() > 0 {
        let a = s.last();
        let b = t.last();
        assert(s.to_set().contains(a));
        assert(t.to_set().contains(b));
        let j = choose|j: int| 0 <= j < t.len() && t[j] == a;
        let i = choose|i: int| 0 <= i < s.len() && s[i] == b;
        lemma_text_trichotomy(a, b);
        if j < t.len() - 1 && i < s.len() - 1 {
            assert(text_before(t[j], t[t.len() - 1]));
            assert(text_before(s[i], s[s.len() - 1]));
        }
        assert(a == b);
        let s0 = s.drop_last();
        let t0 = t.drop_last();
        assert forall|x: Seq<char>| s0.to_set().contains(x) <==> t0.to_set().contains(x) by {
            if s0.to_set().contains(x) {
                let k = choose|k: int| 0 <= k < s0.len() && s0[k] == x;
                assert(s[k] == x);
                assert(s.to_set().contains(x));
                let m = choose|m: int| 0 <= m < t.len() && t[m] == x;
                assert(t0[m] == x);
            }
            if t0.to_set().contains(x) {
                let k = choose|k: int| 0 <= k < t0.len() && t0[k] == x;
                assert(t[k] == x);
                assert(t.to_set().contains(x));
                let m = choose|m: int| 0 <= m < s.len() && s[m] == x;
                assert(s0[m] == x);
            }
        }
        assert(s0.to_set() =~= t0.to_set());
        lemma_ascending_unique(s0, t0);
        assert(s =~= s0.push(a));
        assert(t =~= t0.push(b));
    } else {
        assert(s =~= t);
    }
}

/// How one text stands to another in the order of keys.
#[derive(Clone, Copy, Debug)]
pub enum Precedence {
    Before,
    Same,
    After,
}

/// Compares two texts byte by byte.
pub fn compare_text(a: &str, b: &str) -> (r: Precedence)
    ensures
        r is Before <==> text_before(a@, b@),
        r is Same <==> a@ == b@,
        r is After <==> text_before(b@, a@),
{
    let x = a.as_bytes();
    let y = b.as_bytes();
    let n: usize = if x.len() < y.len() { x.len() } else { y.len() };
    proof {
        lemma_text_trichotomy(a@, b@);
    }
    let mut i: usize = 0;
    while i < n
        invariant
            i <= n,
            n <= x@.len(),
            n <= y@.len(),
            x@ == encode_utf8(a@),
            y@ == encode_utf8(b@),
            agree_below(x@, y@, i as int),
        decreases n - i,
    {
        if x[i] < y[i] {
            proof {
                lemma_text_trichotomy(a@, b@);
            }
            return Precedence::Before;
        }
        if x[i] > y[i] {
            proof {
                assert(agree_below(y@, x@, i as int));
                lemma_text_trichotomy(a@, b@);
            }
            return Precedence::After;
        }
        i += 1;
    }
    if x.len() < y.len() {
        Precedence::Before
    } else if x.len() > y.len() {
        assert(agree_below(y@, x@, i as int));
        Precedence::After
    } else {
        proof {
            assert(x@ =~= y@);
            lemma_encoding_injective(a@, b@);
        }
        Precedence::Same
    }
}

/// Whether two texts are the same.
pub fn same_text(a: &str, b: &str) -> (same: bool)
    ensures
        same == (a@ == b@),
{
    match compare_text(a, b) {
        Precedence::Same => true,
        _ => false,
    }
}

} // verus!
