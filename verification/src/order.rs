//! Total orders on byte strings and on text, the basis of every keyed collection
//! of the hub.

use vstd::prelude::*;
use vstd::utf8::*;

verus! {

/// The outcome of comparing two keys.
#[derive(Clone, Copy, Debug, PartialEq, Eq, Structural)]
pub enum Order {
    Less,
    Equal,
    Greater,
}

impl Order {
    /// The outcome of the same comparison with its two sides exchanged.
    pub open spec fn flip(self) -> Order {
        match self {
            Order::Less => Order::Greater,
            Order::Equal => Order::Equal,
            Order::Greater => Order::Less,
        }
    }

    /// `self`, unless it is `Equal`: then `next` decides.
    pub open spec fn or_else(self, next: Order) -> Order {
        match self {
            Order::Equal => next,
            _ => self,
        }
    }
}

/// Lexicographic comparison of `a` and `b` from index `i` on: the first index at
/// which they differ decides, and a proper prefix is less.
pub open spec fn bytes_order_from(a: Seq<u8>, b: Seq<u8>, i: int) -> Order
    decreases a.len() - i,
{
    if i < 0 {
        Order::Equal
    } else if i >= a.len() {
        if i >= b.len() {
            Order::Equal
        } else {
            Order::Less
        }
    } else if i >= b.len() {
        Order::Greater
    } else if a[i] < b[i] {
        Order::Less
    } else if a[i] > b[i] {
        Order::Greater
    } else {
        bytes_order_from(a, b, i + 1)
    }
}

/// Lexicographic comparison of two byte strings.
pub open spec fn bytes_order(a: Seq<u8>, b: Seq<u8>) -> Order {
    bytes_order_from(a, b, 0)
}

/// Comparison of two texts by their UTF-8 encodings, byte by byte.
pub open spec fn text_order(a: Seq<char>, b: Seq<char>) -> Order {
    bytes_order(encode_utf8(a), encode_utf8(b))
}

proof fn lemma_bytes_order_from_equal(a: Seq<u8>, b: Seq<u8>, i: int)
    requires
        0 <= i <= a.len(),
        i <= b.len(),
        forall|k: int| 0 <= k < i ==> a[k] == b[k],
    ensures
        bytes_order_from(a, b, i) == Order::Equal <==> a == b,
    decreases a.len() - i,
{
    if i >= a.len() || i >= b.len() {
        if bytes_order_from(a, b, i) == Order::Equal {
            assert(a =~= b);
        }
    } else if a[i] == b[i] {
        lemma_bytes_order_from_equal(a, b, i + 1);
    }
}

proof fn lemma_bytes_order_from_flip(a: Seq<u8>, b: Seq<u8>, i: int)
    requires
        0 <= i,
    ensures
        bytes_order_from(b, a, i) == bytes_order_from(a, b, i).flip(),
    decreases a.len() - i,
{
    if i < a.len() && i < b.len() && a[i] == b[i] {
        lemma_bytes_order_from_flip(a, b, i + 1);
    }
}

proof fn lemma_bytes_order_from_trans(a: Seq<u8>, b: Seq<u8>, c: Seq<u8>, i: int)
    requires
        0 <= i,
        bytes_order_from(a, b, i) == Order::Less,
        bytes_order_from(b, c, i) == Order::Less,
    ensures
        bytes_order_from(a, c, i) == Order::Less,
    decreases a.len() - i,
{
    if i < a.len() && i < b.len() && i < c.len() && a[i] == b[i] && b[i] == c[i] {
        lemma_bytes_order_from_trans(a, b, c, i + 1);
    }
}

/// Two byte strings compare `Equal` exactly when they are the same.
pub proof fn lemma_bytes_order_equal(a: Seq<u8>, b: Seq<u8>)
    ensures
        bytes_order(a, b) == Order::Equal <==> a == b,
{
    lemma_bytes_order_from_equal(a, b, 0);
}

/// Exchanging the two sides of a comparison flips its outcome.
pub proof fn lemma_bytes_order_flip(a: Seq<u8>, b: Seq<u8>)
    ensures
        bytes_order(b, a) == bytes_order(a, b).flip(),
{
    lemma_bytes_order_from_flip(a, b, 0);
}

/// `Less` is transitive on byte strings.
pub proof fn lemma_bytes_order_trans(a: Seq<u8>, b: Seq<u8>, c: Seq<u8>)
    requires
        bytes_order(a, b) == Order::Less,
        bytes_order(b, c) == Order::Less,
    ensures
        bytes_order(a, c) == Order::Less,
{
    lemma_bytes_order_from_trans(a, b, c, 0);
}

/// Two texts compare `Equal` exactly when they are the same.
pub proof fn lemma_text_order_equal(a: Seq<char>, b: Seq<char>)
    ensures
        text_order(a, b) == Order::Equal <==> a == b,
{
    lemma_bytes_order_equal(encode_utf8(a), encode_utf8(b));
    encode_utf8_decode_utf8(a);
    encode_utf8_decode_utf8(b);
}

/// Exchanging the two sides of a text comparison flips its outcome.
pub proof fn lemma_text_order_flip(a: Seq<char>, b: Seq<char>)
    ensures
        text_order(b, a) == text_order(a, b).flip(),
{
    lemma_bytes_order_flip(encode_utf8(a), encode_utf8(b));
}

/// `Less` is transitive on texts.
pub proof fn lemma_text_order_trans(a: Seq<char>, b: Seq<char>, c: Seq<char>)
    requires
        text_order(a, b) == Order::Less,
        text_order(b, c) == Order::Less,
    ensures
        text_order(a, c) == Order::Less,
{
    lemma_bytes_order_trans(encode_utf8(a), encode_utf8(b), encode_utf8(c));
}

/// Compares two byte strings lexicographically.
pub fn compare_bytes(a: &[u8], b: &[u8]) -> (o: Order)
    ensures
        o == bytes_order(a@, b@),
{
    let mut i: usize = 0;
    while i < a.len() && i < b.len()
        invariant
            i <= a.len(),
            i <= b.len(),
            bytes_order(a@, b@) == bytes_order_from(a@, b@, i as int),
        decreases a.len() - i,
    {
        if a[i] < b[i] {
            return Order::Less;
        } else if a[i] > b[i] {
            return Order::Greater;
        }
        i += 1;
    }
    if i < b.len() {
        Order::Less
    } else if i < a.len() {
        Order::Greater
    } else {
        Order::Equal
    }
}

/// Compares two texts by their UTF-8 encodings.
pub fn compare_text(a: &str, b: &str) -> (o: Order)
    ensures
        o == text_order(a@, b@),
{
    compare_bytes(a.as_bytes(), b.as_bytes())
}

} // verus!
