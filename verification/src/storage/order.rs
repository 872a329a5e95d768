//! The total order that index keys are sorted by, and its laws.
//!
//! Text is ordered by the bytes of its UTF-8 encoding. Values of different
//! kinds are ordered by kind, so that any two distinct keys are strictly
//! ordered one way or the other.

use vstd::prelude::*;
use vstd::utf8::*;
use super::ValueView;

verus! {

/// Strict lexicographic order on the suffixes of `a` and `b` that start at `i`.
pub open spec fn bytes_lt_from(a: Seq<u8>, b: Seq<u8>, i: int) -> bool
    decreases a.len() - i,
{
    if i < 0 || i >= b.len() {
        false
    } else if i >= a.len() {
        true
    } else if a[i] != b[i] {
        a[i] < b[i]
    } else {
        bytes_lt_from(a, b, i + 1)
    }
}

/// Strict lexicographic order on byte strings: a proper prefix comes first,
/// otherwise the first differing byte decides.
pub open spec fn bytes_lt(a: Seq<u8>, b: Seq<u8>) -> bool {
    bytes_lt_from(a, b, 0)
}

/// Strict order on texts: the byte order of their UTF-8 encodings.
pub open spec fn text_lt(a: Seq<char>, b: Seq<char>) -> bool {
    bytes_lt(encode_utf8(a), encode_utf8(b))
}

/// The position of a value's kind in the key order.
pub open spec fn kind_rank(v: ValueView) -> int {
    match v {
        ValueView::Null => 0,
        ValueView::Integer(_) => 1,
        ValueView::Float(_) => 2,
        ValueView::Text(_) => 3,
        ValueView::Boolean(_) => 4,
    }
}

/// The strict total order on keys: first by kind, then by content.
pub open spec fn key_lt(a: ValueView, b: ValueView) -> bool {
    if kind_rank(a) != kind_rank(b) {
        kind_rank(a) < kind_rank(b)
    } else {
        match (a, b) {
            (ValueView::Integer(x), ValueView::Integer(y)) => x < y,
            (ValueView::Float(x), ValueView::Float(y)) => x < y,
            (ValueView::Text(x), ValueView::Text(y)) => text_lt(x, y),
            (ValueView::Boolean(x), ValueView::Boolean(y)) => !x && y,
            _ => false,
        }
    }
}

/// `a` comes before `b` or is `b`.
pub open spec fn key_le(a: ValueView, b: ValueView) -> bool {
    a == b || key_lt(a, b)
}

pub proof fn lemma_bytes_lt_from_irreflexive(a: Seq<u8>, i: int)
    ensures
        !bytes_lt_from(a, a, i),
    decreases a.len() - i,
{
    if 0 <= i < a.len() {
        lemma_bytes_lt_from_irreflexive(a, i + 1);
    }
}

pub proof fn lemma_bytes_lt_from_transitive(a: Seq<u8>, b: Seq<u8>, c: Seq<u8>, i: int)
    requires
        bytes_lt_from(a, b, i),
        bytes_lt_from(b, c, i),
    ensures
        bytes_lt_from(a, c, i),
    decreases a.len() - i,
{
    if i < a.len() && a[i] == b[i] && b[i] == c[i] {
        lemma_bytes_lt_from_transitive(a, b, c, i + 1);
    }
}

pub proof fn lemma_bytes_lt_from_asymmetric(a: Seq<u8>, b: Seq<u8>, i: int)
    requires
        bytes_lt_from(a, b, i),
    ensures
        !bytes_lt_from(b, a, i),
    decreases a.len() - i,
{
    if i < a.len() && a[i] == b[i] {
        lemma_bytes_lt_from_asymmetric(a, b, i + 1);
    }
}

/// Two byte strings of which neither comes first agree from `i` on.
pub proof fn lemma_bytes_lt_from_connected(a: Seq<u8>, b: Seq<u8>, i: int)
    requires
        0 <= i,
        i <= a.len(),
        i <= b.len(),
        !bytes_lt_from(a, b, i),
        !bytes_lt_from(b, a, i),
    ensures
        a.len() == b.len(),
        forall|j: int| i <= j < a.len() ==> a[j] == b[j],
    decreases a.len() - i,
{
    if i < a.len() && i < b.len() {
        lemma_bytes_lt_from_connected(a, b, i + 1);
    }
}

/// Of two different texts one comes first.
pub proof fn lemma_text_lt_connected(a: Seq<char>, b: Seq<char>)
    requires
        !text_lt(a, b),
        !text_lt(b, a),
    ensures
        a == b,
{
    let x = encode_utf8(a);
    let y = encode_utf8(b);
    lemma_bytes_lt_from_connected(x, y, 0);
    assert(x =~= y);
    encode_utf8_decode_utf8(a);
    encode_utf8_decode_utf8(b);
}

/// No key comes before itself.
pub proof fn lemma_key_lt_irreflexive(a: ValueView)
    ensures
        !key_lt(a, a),
{
    if let ValueView::Text(x) = a {
        lemma_bytes_lt_from_irreflexive(encode_utf8(x), 0);
    }
}

/// The key order is transitive.
pub proof fn lemma_key_lt_transitive(a: ValueView, b: ValueView, c: ValueView)
    requires
        key_lt(a, b),
        key_lt(b, c),
    ensures
        key_lt(a, c),
{
    if let (ValueView::Text(x), ValueView::Text(y), ValueView::Text(z)) = (a, b, c) {
        lemma_bytes_lt_from_transitive(encode_utf8(x), encode_utf8(y), encode_utf8(z), 0);
    }
}

/// Two keys are never ordered both ways.
pub proof fn lemma_key_lt_asymmetric(a: ValueView, b: ValueView)
    requires
        key_lt(a, b),
    ensures
        !key_lt(b, a),
        a != b,
{
    if let (ValueView::Text(x), ValueView::Text(y)) = (a, b) {
        lemma_bytes_lt_from_asymmetric(encode_utf8(x), encode_utf8(y), 0);
        lemma_bytes_lt_from_irreflexive(encode_utf8(x), 0);
    }
}

/// Any two different keys are ordered.
pub proof fn lemma_key_lt_connected(a: ValueView, b: ValueView)
    requires
        !key_lt(a, b),
        !key_lt(b, a),
    ensures
        a == b,
{
    if let (ValueView::Text(x), ValueView::Text(y)) = (a, b) {
        lemma_text_lt_connected(x, y);
    }
}

/// Decides the lexicographic order of two byte strings.
pub fn bytes_less(a: &[u8], b: &[u8]) -> (r: bool)
    ensures
        r == bytes_lt(a@, b@),
{
    let mut i: usize = 0;
    while i < a.len() && i < b.len()
        invariant
            i <= a.len(),
            i <= b.len(),
            bytes_lt(a@, b@) == bytes_lt_from(a@, b@, i as int),
        decreases a.len() - i,
    {
        if a[i] != b[i] {
            return a[i] < b[i];
        }
        i += 1;
    }
    i < b.len()
}

/// Decides whether two byte strings are the same.
pub fn bytes_equal(a: &[u8], b: &[u8]) -> (r: bool)
    ensures
        r == (a@ == b@),
{
    if a.len() != b.len() {
        return false;
    }
    let mut i: usize = 0;
    while i < a.len()
        invariant
            i <= a.len(),
            a.len() == b.len(),
            forall|j: int| 0 <= j < i ==> a@[j] == b@[j],
        decreases a.len() - i,
    {
        if a[i] != b[i] {
            return false;
        }
        i += 1;
    }
    assert(a@ =~= b@);
    true
}

/// Decides whether two texts are the same.
pub fn text_equal(a: &str, b: &str) -> (r: bool)
    ensures
        r == (a@ == b@),
{
    let r = bytes_equal(a.as_bytes(), b.as_bytes());
    proof {
        encode_utf8_decode_utf8(a@);
        encode_utf8_decode_utf8(b@);
    }
    r
}

/// Decides the order of two texts.
pub fn text_less(a: &str, b: &str) -> (r: bool)
    ensures
        r == text_lt(a@, b@),
{
    bytes_less(a.as_bytes(), b.as_bytes())
}

} // verus!
