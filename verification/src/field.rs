//! Event fields and sorted sets of them.

use vstd::prelude::*;
use crate::order::{
    bytes_order, compare_bytes, compare_text, lemma_bytes_order_equal, lemma_bytes_order_flip,
    lemma_bytes_order_trans, lemma_text_order_equal, lemma_text_order_flip,
    lemma_text_order_trans, text_order, Order,
};

verus! {

/// What an [`EventField`] stands for: its name and its encoded value.
pub type FieldView = (Seq<char>, Seq<u8>);

/// One named field of an event, its value already encoded.
#[derive(Debug, PartialEq, Eq, PartialOrd, Ord, Hash)]
pub struct EventField {
    pub name: String,
    pub value: Vec<u8>,
}

impl View for EventField {
    type V = FieldView;

    open spec fn view(&self) -> FieldView {
        (self.name@, self.value@)
    }
}

impl Clone for EventField {
    fn clone(&self) -> (r: Self)
        ensures
            r@ == self@,
    {
        EventField { name: self.name.clone(), value: self.value.clone() }
    }
}

/// Fields are ordered by name, then by value.
pub open spec fn field_order(a: FieldView, b: FieldView) -> Order {
    text_order(a.0, b.0).or_else(bytes_order(a.1, b.1))
}

/// Two fields compare `Equal` exactly when name and value agree.
pub proof fn lemma_field_order_equal(a: FieldView, b: FieldView)
    ensures
        field_order(a, b) == Order::Equal <==> a == b,
{
    lemma_text_order_equal(a.0, b.0);
    lemma_bytes_order_equal(a.1, b.1);
}

/// Exchanging the two sides of a field comparison flips its outcome.
pub proof fn lemma_field_order_flip(a: FieldView, b: FieldView)
    ensures
        field_order(b, a) == field_order(a, b).flip(),
{
    lemma_text_order_flip(a.0, b.0);
    lemma_bytes_order_flip(a.1, b.1);
}

/// `Less` is transitive on fields.
pub proof fn lemma_field_order_trans(a: FieldView, b: FieldView, c: FieldView)
    requires
        field_order(a, b) == Order::Less,
        field_order(b, c) == Order::Less,
    ensures
        field_order(a, c) == Order::Less,
{
    lemma_text_order_equal(a.0, b.0);
    lemma_text_order_equal(b.0, c.0);
    lemma_text_order_equal(a.0, c.0);
    if text_order(a.0, b.0) == Order::Less && text_order(b.0, c.0) == Order::Less {
        lemma_text_order_trans(a.0, b.0, c.0);
    }
    if a.0 == b.0 && b.0 == c.0 {
        lemma_bytes_order_trans(a.1, b.1, c.1);
    }
}

/// Compares two fields by name, then by value.
pub fn compare_fields(a: &EventField, b: &EventField) -> (o: Order)
    ensures
        o == field_order(a@, b@),
{
    match compare_text(a.name.as_str(), b.name.as_str()) {
        Order::Equal => compare_bytes(a.value.as_slice(), b.value.as_slice()),
        o => o,
    }
}

} // verus!
