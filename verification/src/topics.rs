//! Sorted sets of event fields: the topics of an event or of a filter.

use vstd::prelude::*;
use crate::field::{
    compare_fields, field_order, lemma_field_order_equal, lemma_field_order_flip,
    lemma_field_order_trans, EventField, FieldView,
};
use crate::order::Order;

verus! {

/// A set of fields, kept in ascending field order without repetition.
#[derive(Debug, PartialEq, Eq, PartialOrd, Ord, Hash)]
pub struct TopicSet {
    fields: Vec<EventField>,
}

/// The fields of `s` stand in strictly ascending order.
pub open spec fn strictly_ascending(s: Seq<FieldView>) -> bool {
    forall|i: int, j: int| 0 <= i < j < s.len() ==> field_order(s[i], s[j]) == Order::Less
}

impl TopicSet {
    /// The fields in ascending order.
    pub closed spec fn entries(&self) -> Seq<FieldView> {
        self.fields@.map_values(|f: EventField| f@)
    }

    /// The fields stand in strictly ascending order, so none occurs twice.
    #[verifier::type_invariant]
    pub closed spec fn wf(&self) -> bool {
        strictly_ascending(self.entries())
    }

    /// The entries of a well-formed set ascend strictly.
    pub proof fn lemma_entries_ascending(&self)
        requires
            self.wf(),
        ensures
            strictly_ascending(self.entries()),
    {
    }

    /// The set holds exactly the fields of its entries.
    pub proof fn lemma_view_is_entries(&self, field: FieldView)
        ensures
            self@.contains(field) == self.entries().contains(field),
    {
        if self.entries().contains(field) {
            let k = choose|k: int| 0 <= k < self.entries().len() && self.entries()[k] == field;
            assert(0 <= k < self.entries().len() && self.entries()[k] == field);
        }
    }

    /// The set has no fields.
    pub fn new() -> (r: TopicSet)
        ensures
            r@ == Set::<FieldView>::empty(),
            r.entries() == Seq::<FieldView>::empty(),
    {
        let r = TopicSet { fields: Vec::new() };
        assert(r.entries() =~= Seq::<FieldView>::empty());
        assert(r@ =~= Set::<FieldView>::empty());
        r
    }

    /// The number of fields.
    pub fn len(&self) -> (n: usize)
        ensures
            n == self.entries().len(),
    {
        self.fields.len()
    }

    /// The field at position `i` of the ascending order.
    pub fn get(&self, i: usize) -> (f: &EventField)
        requires
            i < self.entries().len(),
        ensures
            f@ == self.entries()[i as int],
    {
        &self.fields[i]
    }

    /// Whether `field` is in the set.
    pub fn contains(&self, field: &EventField) -> (r: bool)
        ensures
            r == self@.contains(field@),
    {
        let mut i: usize = 0;
        while i < self.fields.len()
            invariant
                i <= self.fields.len(),
                forall|k: int| 0 <= k < i ==> self.entries()[k] != field@,
            decreases self.fields.len() - i,
        {
            proof {
                lemma_field_order_equal(self.entries()[i as int], field@);
            }
            match compare_fields(&self.fields[i], field) {
                Order::Equal => {
                    return true;
                },
                _ => {},
            }
            i += 1;
        }
        false
    }

    /// Puts `field` into the set, at its place in the order. Returns whether it was new.
    pub fn insert(&mut self, field: EventField) -> (r: bool)
        ensures
            final(self)@ == old(self)@.insert(field@),
            r == !old(self)@.contains(field@),
    {
        proof {
            use_type_invariant(&*self);
        }
        let mut i: usize = 0;
        let mut at_place = false;
        while i < self.fields.len() && !at_place
            invariant
                i <= self.fields.len(),
                *self == *old(self),
                self.wf(),
                forall|k: int| 0 <= k < i ==> field_order(self.entries()[k], field@) == Order::Less,
                at_place ==> i < self.fields.len() && field_order(
                    self.entries()[i as int],
                    field@,
                ) == Order::Greater,
            decreases self.fields.len() - i + (if at_place { 0int } else { 1int }),
        {
            match compare_fields(&self.fields[i], &field) {
                Order::Less => {
                    i += 1;
                },
                Order::Equal => {
                    proof {
                        lemma_field_order_equal(self.entries()[i as int], field@);
                        assert(self@ =~= old(self)@.insert(field@));
                    }
                    return false;
                },
                Order::Greater => {
                    at_place = true;
                },
            }
        }
        let ghost before = self.entries();
        proof {
            assert forall|k: int| 0 <= k < before.len() implies before[k] != field@ by {
                lemma_field_order_equal(before[k], field@);
                if k >= i {
                    lemma_field_order_flip(before[i as int], field@);
                    if k > i {
                        lemma_field_order_trans(field@, before[i as int], before[k]);
                    }
                    lemma_field_order_flip(before[k], field@);
                }
            }
        }
        let mut fields: Vec<EventField> = Vec::new();
        core::mem::swap(&mut fields, &mut self.fields);
        fields.insert(i, field);
        let ghost after = fields@.map_values(|f: EventField| f@);
        proof {
            assert(after =~= before.insert(i as int, field@));
            assert forall|a: int, b: int| 0 <= a < b < after.len() implies field_order(
                after[a],
                after[b],
            ) == Order::Less by {
                if b == i {
                } else if a == i {
                    lemma_field_order_flip(before[i as int], field@);
                    if b - 1 > i {
                        lemma_field_order_trans(field@, before[i as int], before[b - 1]);
                    }
                } else {
                }
            }
        }
        self.fields = fields;
        proof {
            assert forall|v: FieldView| self@.contains(v) == old(self)@.insert(field@).contains(
                v,
            ) by {
                if self@.contains(v) {
                    let k = choose|k: int| 0 <= k < after.len() && after[k] == v;
                    if k < i {
                        assert(before[k] == v);
                    } else if k > i {
                        assert(before[k - 1] == v);
                    }
                }
                if old(self)@.contains(v) {
                    let k = choose|k: int| 0 <= k < before.len() && before[k] == v;
                    if k < i {
                        assert(after[k] == v);
                    } else {
                        assert(after[k + 1] == v);
                    }
                }
                if v == field@ {
                    assert(after[i as int] == v);
                }
            }
            assert(self@ =~= old(self)@.insert(field@));
        }
        true
    }

    /// Whether every field of `self` is in `other`.
    pub fn is_subset(&self, other: &TopicSet) -> (r: bool)
        ensures
            r == self@.subset_of(other@),
    {
        proof {
            use_type_invariant(self);
            use_type_invariant(other);
        }
        let mut i: usize = 0;
        let mut j: usize = 0;
        while i < self.fields.len() && j < other.fields.len()
            invariant
                self.wf(),
                other.wf(),
                i <= self.fields.len(),
                j <= other.fields.len(),
                forall|k: int| 0 <= k < i ==> other@.contains(self.entries()[k]),
                forall|k: int|
                    0 <= k < j && i < self.fields.len() ==> field_order(
                        other.entries()[k],
                        self.entries()[i as int],
                    ) == Order::Less,
            decreases self.fields.len() - i + other.fields.len() - j,
        {
            let ghost x = self.entries()[i as int];
            let ghost y = other.entries()[j as int];
            proof {
                lemma_field_order_equal(x, y);
                lemma_field_order_flip(x, y);
            }
            match compare_fields(&self.fields[i], &other.fields[j]) {
                Order::Equal => {
                    proof {
                        if i + 1 < self.fields.len() {
                            let next = self.entries()[i + 1];
                            assert forall|k: int| 0 <= k < j + 1 implies field_order(
                                other.entries()[k],
                                next,
                            ) == Order::Less by {
                                if k < j {
                                    lemma_field_order_trans(other.entries()[k], x, next);
                                }
                            }
                        }
                    }
                    i += 1;
                    j += 1;
                },
                Order::Greater => {
                    j += 1;
                },
                Order::Less => {
                    proof {
                        assert(self@.contains(x));
                        if other@.contains(x) {
                            let k = choose|k: int|
                                0 <= k < other.entries().len() && other.entries()[k] == x;
                            lemma_field_order_equal(x, x);
                            if k > j {
                                lemma_field_order_trans(x, y, other.entries()[k]);
                            }
                        }
                    }
                    return false;
                },
            }
        }
        if i < self.fields.len() {
            proof {
                let x = self.entries()[i as int];
                assert(self@.contains(x));
                if other@.contains(x) {
                    let k = choose|k: int|
                        0 <= k < other.entries().len() && other.entries()[k] == x;
                    lemma_field_order_equal(x, x);
                }
            }
            false
        } else {
            true
        }
    }

    /// Whether the two sets hold the same fields.
    pub fn same_as(&self, other: &TopicSet) -> (r: bool)
        ensures
            r == (self@ == other@),
    {
        let r = self.is_subset(other) && other.is_subset(self);
        proof {
            if r {
                assert(self@ =~= other@);
            }
        }
        r
    }

    /// The set of the fields of `fields`.
    pub fn from_vec(fields: Vec<EventField>) -> (r: TopicSet)
        ensures
            r@ == fields@.map_values(|f: EventField| f@).to_set(),
    {
        let mut r = TopicSet::new();
        let mut fields = fields;
        let ghost all = fields@.map_values(|f: EventField| f@);
        while fields.len() > 0
            invariant
                fields@.len() <= all.len(),
                fields@.map_values(|f: EventField| f@) == all.subrange(0, fields@.len() as int),
                forall|v: FieldView|
                    r@.contains(v) <==> exists|k: int|
                        fields@.len() <= k < all.len() && all[k] == v,
            decreases fields.len(),
        {
            let ghost n = fields@.len();
            let ghost prev = fields@.map_values(|f: EventField| f@);
            let ghost seen = r@;
            let f = fields.pop().unwrap();
            proof {
                assert(prev[n - 1] == f@);
                assert(all[n - 1] == f@);
                assert(fields@.map_values(|f: EventField| f@) =~= all.subrange(0, n - 1));
            }
            r.insert(f);
            proof {
                assert forall|v: FieldView|
                    r@.contains(v) <==> exists|k: int| n - 1 <= k < all.len() && all[k] == v by {
                    if seen.contains(v) {
                        let k = choose|k: int| n <= k < all.len() && all[k] == v;
                        assert(n - 1 <= k < all.len() && all[k] == v);
                    }
                    if exists|k: int| n - 1 <= k < all.len() && all[k] == v {
                        let k = choose|k: int| n - 1 <= k < all.len() && all[k] == v;
                        if k >= n {
                            assert(seen.contains(v));
                        }
                    }
                }
            }
        }
        proof {
            assert forall|v: FieldView| r@.contains(v) == all.to_set().contains(v) by {
                if r@.contains(v) {
                    let k = choose|k: int| 0 <= k < all.len() && all[k] == v;
                    assert(all.contains(v));
                }
                if all.to_set().contains(v) {
                    assert(all.contains(v));
                    let k = choose|k: int| 0 <= k < all.len() && all[k] == v;
                    assert(0 <= k < all.len() && all[k] == v);
                }
            }
            assert(r@ =~= all.to_set());
        }
        r
    }
}

impl View for TopicSet {
    type V = Set<FieldView>;

    /// The fields as a set.
    closed spec fn view(&self) -> Set<FieldView> {
        Set::new(|v: FieldView| exists|k: int| 0 <= k < self.entries().len() && self.entries()[k] == v)
    }
}

impl Clone for TopicSet {
    fn clone(&self) -> (r: Self)
        ensures
            r.entries() == self.entries(),
            r@ == self@,
    {
        proof {
            use_type_invariant(self);
        }
        let mut fields: Vec<EventField> = Vec::new();
        let mut i: usize = 0;
        while i < self.fields.len()
            invariant
                i <= self.fields.len(),
                fields@.len() == i,
                forall|k: int| 0 <= k < i ==> fields@[k]@ == self.fields@[k]@,
            decreases self.fields.len() - i,
        {
            fields.push(self.fields[i].clone());
            i += 1;
        }
        assert(fields@.map_values(|f: EventField| f@) =~= self.entries());
        TopicSet { fields }
    }
}

} // verus!
