//! The subscription index: which endpoints listen on which filter.

use vstd::prelude::*;
use crate::assoc::{
    distinct_keys, has_key, lemma_to_map_empty, lemma_to_map_entry, lemma_to_map_push,
    lemma_to_map_remove, lemma_to_map_update, to_map,
};
use crate::endpoint::{same_endpoint, EndpointView, RemoteCallEndpoint};
use crate::field::FieldView;
use crate::topics::TopicSet;
use crate::types::{EventFilter, ListenerError};

verus! {

/// What a [`FilterIndex`] stands for: the set of endpoints under each filter.
pub type IndexView = Map<Set<FieldView>, Set<EndpointView>>;

/// The index after `endpoint` was put under `filter`.
pub open spec fn index_add(
    m: IndexView,
    filter: Set<FieldView>,
    endpoint: EndpointView,
) -> IndexView {
    m.insert(
        filter,
        if m.dom().contains(filter) {
            m[filter].insert(endpoint)
        } else {
            set![endpoint]
        },
    )
}

/// Whether `endpoint` can be taken from under `filter`, and why not.
pub open spec fn index_removal(
    m: IndexView,
    filter: Set<FieldView>,
    endpoint: EndpointView,
) -> Result<(), ListenerError> {
    if !m.dom().contains(filter) {
        Err(ListenerError::UnknownFilter)
    } else if !m[filter].contains(endpoint) {
        Err(ListenerError::UnknownEndpoint)
    } else {
        Ok(())
    }
}

/// The index after `endpoint` was taken from under `filter`: a filter that is
/// left without endpoints leaves the index.
pub open spec fn index_remove(
    m: IndexView,
    filter: Set<FieldView>,
    endpoint: EndpointView,
) -> IndexView {
    if m[filter].remove(endpoint) == Set::<EndpointView>::empty() {
        m.remove(filter)
    } else {
        m.insert(filter, m[filter].remove(endpoint))
    }
}

/// The endpoints under the filters of `m` that are subsets of `topics`.
pub open spec fn matching(m: IndexView, topics: Set<FieldView>) -> Set<EndpointView> {
    Set::new(
        |e: EndpointView|
            exists|f: Set<FieldView>|
                #![trigger m.dom().contains(f)]
                m.dom().contains(f) && f.subset_of(topics) && m[f].contains(e),
    )
}

/// The endpoints of a list, as a set.
pub open spec fn endpoint_set(s: Seq<RemoteCallEndpoint>) -> Set<EndpointView> {
    Set::new(|v: EndpointView| exists|i: int| 0 <= i < s.len() && (#[trigger] s[i])@ == v)
}

/// No endpoint occurs twice in the list.
pub open spec fn distinct_endpoints(s: Seq<RemoteCallEndpoint>) -> bool {
    forall|i: int, j: int| 0 <= i < j < s.len() ==> (#[trigger] s[i])@ != (#[trigger] s[j])@
}

/// The position of `endpoint` in `list`.
pub fn find_endpoint(list: &Vec<RemoteCallEndpoint>, endpoint: &RemoteCallEndpoint) -> (r: Option<
    usize,
>)
    ensures
        r.is_some() == endpoint_set(list@).contains(endpoint@),
        r.is_some() ==> r.unwrap() < list@.len() && list@[r.unwrap() as int]@ == endpoint@,
{
    let mut i: usize = 0;
    while i < list.len()
        invariant
            i <= list.len(),
            forall|k: int| 0 <= k < i ==> (#[trigger] list@[k])@ != endpoint@,
        decreases list.len() - i,
    {
        if same_endpoint(&list[i], endpoint) {
            return Some(i);
        }
        i += 1;
    }
    None
}

struct FilterEntry {
    filter: EventFilter,
    endpoints: Vec<RemoteCallEndpoint>,
}

/// For each registered filter, the endpoints that listen on it.
pub struct FilterIndex {
    entries: Vec<FilterEntry>,
}

impl View for FilterIndex {
    type V = IndexView;

    /// The set of endpoints under each registered filter.
    closed spec fn view(&self) -> IndexView {
        to_map(self.model())
    }
}

impl FilterIndex {
    spec fn model_of(entries: Seq<FilterEntry>) -> Seq<(Set<FieldView>, Set<EndpointView>)> {
        entries.map_values(|e: FilterEntry| (e.filter@, endpoint_set(e.endpoints@)))
    }

    spec fn lists_ok(entries: Seq<FilterEntry>) -> bool {
        forall|i: int|
            0 <= i < entries.len() ==> (#[trigger] entries[i]).endpoints@.len() > 0
                && distinct_endpoints(entries[i].endpoints@)
    }

    spec fn entries_ok(entries: Seq<FilterEntry>) -> bool {
        distinct_keys(Self::model_of(entries)) && Self::lists_ok(entries)
    }

    closed spec fn model(&self) -> Seq<(Set<FieldView>, Set<EndpointView>)> {
        Self::model_of(self.entries@)
    }

    /// No filter is registered twice, and under each stands at least one
    /// endpoint, none twice.
    #[verifier::type_invariant]
    pub closed spec fn wf(&self) -> bool {
        Self::entries_ok(self.entries@)
    }

    /// Every registered filter has an endpoint.
    pub proof fn lemma_no_empty_filter(&self, filter: Set<FieldView>)
        requires
            self.wf(),
            self@.dom().contains(filter),
        ensures
            self@[filter] != Set::<EndpointView>::empty(),
    {
        let m = self.model();
        let i = choose|i: int| 0 <= i < m.len() && (#[trigger] m[i]).0 == filter;
        lemma_to_map_entry(m, i);
        let list = self.entries@[i].endpoints@;
        assert(endpoint_set(list).contains(list[0]@));
    }

    /// The index without filters.
    pub fn new() -> (r: FilterIndex)
        ensures
            r@ == Map::<Set<FieldView>, Set<EndpointView>>::empty(),
    {
        let entries: Vec<FilterEntry> = Vec::new();
        proof {
            lemma_to_map_empty::<Set<FieldView>, Set<EndpointView>>();
            assert(Self::model_of(entries@) =~= Seq::empty());
        }
        FilterIndex { entries }
    }

    fn find_filter(entries: &Vec<FilterEntry>, filter: &EventFilter) -> (r: Option<usize>)
        ensures
            r.is_some() == has_key(Self::model_of(entries@), filter@),
            r.is_some() ==> r.unwrap() < entries@.len() && entries@[r.unwrap() as int].filter@
                == filter@,
    {
        let mut i: usize = 0;
        while i < entries.len()
            invariant
                i <= entries.len(),
                forall|k: int| 0 <= k < i ==> (#[trigger] entries@[k]).filter@ != filter@,
            decreases entries.len() - i,
        {
            if entries[i].filter.0.same_as(&filter.0) {
                assert(Self::model_of(entries@)[i as int].0 == filter@);
                return Some(i);
            }
            i += 1;
        }
        proof {
            let m = Self::model_of(entries@);
            if has_key(m, filter@) {
                let k = choose|k: int| 0 <= k < m.len() && (#[trigger] m[k]).0 == filter@;
                assert(entries@[k].filter@ == filter@);
            }
        }
        None
    }

    /// Puts `endpoint` under `filter`. Where it already stands there, nothing changes.
    pub fn add(&mut self, filter: EventFilter, endpoint: RemoteCallEndpoint)
        ensures
            final(self)@ == index_add(old(self)@, filter@, endpoint@),
    {
        proof {
            use_type_invariant(&*self);
        }
        let ghost before = self.entries@;
        let ghost m = Self::model_of(before);
        let mut entries: Vec<FilterEntry> = Vec::new();
        proof {
            lemma_to_map_empty::<Set<FieldView>, Set<EndpointView>>();
            assert(Self::model_of(entries@) =~= Seq::empty());
        }
        core::mem::swap(&mut entries, &mut self.entries);
        match Self::find_filter(&entries, &filter) {
            Some(i) => {
                proof {
                    lemma_to_map_entry(m, i as int);
                }
                let mut entry = entries.remove(i);
                let ghost list = entry.endpoints@;
                if find_endpoint(&entry.endpoints, &endpoint).is_none() {
                    entry.endpoints.push(endpoint);
                }
                let ghost new_list = entry.endpoints@;
                entries.insert(i, entry);
                proof {
                    assert(endpoint_set(new_list) =~= endpoint_set(list).insert(endpoint@)) by {
                        assert forall|v: EndpointView|
                            endpoint_set(new_list).contains(v) == endpoint_set(list).insert(
                                endpoint@,
                            ).contains(v) by {
                            if endpoint_set(new_list).contains(v) {
                                let k = choose|k: int|
                                    0 <= k < new_list.len() && (#[trigger] new_list[k])@ == v;
                                if k < list.len() {
                                    assert(list[k]@ == v);
                                }
                            }
                            if endpoint_set(list).contains(v) {
                                let k = choose|k: int|
                                    0 <= k < list.len() && (#[trigger] list[k])@ == v;
                                assert(new_list[k]@ == v);
                            }
                            if v == endpoint@ && !endpoint_set(list).contains(v) {
                                assert(new_list[list.len() as int]@ == v);
                            }
                        }
                    }
                    assert(distinct_endpoints(new_list)) by {
                        assert forall|a: int, b: int| 0 <= a < b < new_list.len() implies (
                        #[trigger] new_list[a])@ != (#[trigger] new_list[b])@ by {
                            if b < list.len() {
                                assert(list[a]@ != list[b]@);
                            } else {
                                assert(list[a]@ != endpoint@);
                            }
                        }
                    }
                    let after = Self::model_of(entries@);
                    assert(after =~= m.update(
                        i as int,
                        (filter@, endpoint_set(list).insert(endpoint@)),
                    ));
                    lemma_to_map_update(m, i as int, endpoint_set(list).insert(endpoint@));
                    assert forall|k: int| 0 <= k < entries@.len() implies (
                    #[trigger] entries@[k]).endpoints@.len() > 0 && distinct_endpoints(
                        entries@[k].endpoints@,
                    ) by {
                        if k != i {
                            assert(entries@[k] == before[k]);
                        }
                    }
                }
            },
            None => {
                let mut list: Vec<RemoteCallEndpoint> = Vec::new();
                list.push(endpoint);
                proof {
                    assert(endpoint_set(list@) =~= set![endpoint@]) by {
                        assert(list@[0]@ == endpoint@);
                    }
                }
                entries.push(FilterEntry { filter, endpoints: list });
                proof {
                    let after = Self::model_of(entries@);
                    assert(after =~= m.push((filter@, set![endpoint@])));
                    lemma_to_map_push(m, filter@, set![endpoint@]);
                    assert forall|k: int| 0 <= k < entries@.len() implies (
                    #[trigger] entries@[k]).endpoints@.len() > 0 && distinct_endpoints(
                        entries@[k].endpoints@,
                    ) by {
                        if k < before.len() {
                            assert(entries@[k] == before[k]);
                        }
                    }
                }
            },
        }
        self.entries = entries;
    }

    /// Takes `endpoint` from under `filter`, and the filter with it where no
    /// endpoint is left. Fails, and changes nothing, where the filter is not
    /// registered or the endpoint does not stand under it.
    pub fn remove(&mut self, filter: &EventFilter, endpoint: &RemoteCallEndpoint) -> (r: Result<
        (),
        ListenerError,
    >)
        ensures
            r == index_removal(old(self)@, filter@, endpoint@),
            r.is_ok() ==> final(self)@ == index_remove(old(self)@, filter@, endpoint@),
            r.is_err() ==> final(self)@ == old(self)@,
    {
        proof {
            use_type_invariant(&*self);
        }
        let ghost before = self.entries@;
        let ghost m = Self::model_of(before);
        let i = match Self::find_filter(&self.entries, filter) {
            Some(i) => i,
            None => {
                return Err(ListenerError::UnknownFilter);
            },
        };
        proof {
            lemma_to_map_entry(m, i as int);
        }
        let j = match find_endpoint(&self.entries[i].endpoints, endpoint) {
            Some(j) => j,
            None => {
                return Err(ListenerError::UnknownEndpoint);
            },
        };
        let mut entries: Vec<FilterEntry> = Vec::new();
        proof {
            lemma_to_map_empty::<Set<FieldView>, Set<EndpointView>>();
            assert(Self::model_of(entries@) =~= Seq::empty());
        }
        core::mem::swap(&mut entries, &mut self.entries);
        let mut entry = entries.remove(i);
        let ghost list = entry.endpoints@;
        entry.endpoints.remove(j);
        let ghost new_list = entry.endpoints@;
        proof {
            assert forall|k: int| 0 <= k < new_list.len() implies (#[trigger] new_list[k])
                == list[if k < j { k } else { k + 1 }] by {}
            assert(endpoint_set(new_list) =~= endpoint_set(list).remove(endpoint@)) by {
                assert forall|v: EndpointView|
                    endpoint_set(new_list).contains(v) == endpoint_set(list).remove(
                        endpoint@,
                    ).contains(v) by {
                    if endpoint_set(new_list).contains(v) {
                        let k = choose|k: int|
                            0 <= k < new_list.len() && (#[trigger] new_list[k])@ == v;
                        let k2 = if k < j { k } else { k + 1 };
                        assert(list[k2]@ == v);
                        if k2 < j {
                            assert(list[k2]@ != list[j as int]@);
                        } else {
                            assert(list[j as int]@ != list[k2]@);
                        }
                    }
                    if endpoint_set(list).contains(v) && v != endpoint@ {
                        let k = choose|k: int| 0 <= k < list.len() && (#[trigger] list[k])@ == v;
                        let k2 = if k < j { k } else { k - 1 };
                        assert(new_list[k2]@ == v);
                    }
                }
            }
            assert(distinct_endpoints(new_list)) by {
                assert forall|a: int, b: int| 0 <= a < b < new_list.len() implies (
                #[trigger] new_list[a])@ != (#[trigger] new_list[b])@ by {
                    let a2 = if a < j { a } else { a + 1 };
                    let b2 = if b < j { b } else { b + 1 };
                    assert(list[a2]@ != list[b2]@);
                }
            }
            lemma_to_map_remove(m, i as int);
            assert(Self::model_of(entries@) =~= m.remove(i as int));
            assert forall|k: int| 0 <= k < entries@.len() implies (
            #[trigger] entries@[k]).endpoints@.len() > 0 && distinct_endpoints(
                entries@[k].endpoints@,
            ) by {
                assert(entries@[k] == before[if k < i { k } else { k + 1 }]);
            }
        }
        if entry.endpoints.len() > 0 {
            let ghost without = entries@;
            entries.insert(i, entry);
            proof {
                assert(endpoint_set(new_list).contains(new_list[0]@));
                assert(endpoint_set(new_list) != Set::<EndpointView>::empty());
                let after = Self::model_of(entries@);
                assert(after =~= m.update(i as int, (filter@, endpoint_set(new_list))));
                lemma_to_map_update(m, i as int, endpoint_set(new_list));
                assert forall|k: int| 0 <= k < entries@.len() implies (
                #[trigger] entries@[k]).endpoints@.len() > 0 && distinct_endpoints(
                    entries@[k].endpoints@,
                ) by {
                    if k != i {
                        assert(entries@[k] == before[k]);
                    }
                }
            }
        } else {
            proof {
                assert(endpoint_set(new_list) =~= Set::<EndpointView>::empty());
            }
        }
        self.entries = entries;
        Ok(())
    }

    /// The endpoints under the filters that are subsets of `topics`, each once.
    pub fn match_by_topics(&self, topics: &TopicSet) -> (r: Vec<RemoteCallEndpoint>)
        ensures
            endpoint_set(r@) == matching(self@, topics@),
            distinct_endpoints(r@),
    {
        proof {
            use_type_invariant(self);
        }
        let ghost m = self.model();
        let mut found: Vec<RemoteCallEndpoint> = Vec::new();
        let mut i: usize = 0;
        while i < self.entries.len()
            invariant
                i <= self.entries.len(),
                m == self.model(),
                distinct_endpoints(found@),
                forall|v: EndpointView|
                    endpoint_set(found@).contains(v) <==> exists|k: int|
                        0 <= k < i && (#[trigger] m[k]).0.subset_of(topics@) && m[k].1.contains(v),
            decreases self.entries.len() - i,
        {
            if self.entries[i].filter.matches(topics) {
                let list = &self.entries[i].endpoints;
                let mut j: usize = 0;
                while j < list.len()
                    invariant
                        i < self.entries.len(),
                        m == self.model(),
                        list@ == self.entries@[i as int].endpoints@,
                        m[i as int].0.subset_of(topics@),
                        j <= list.len(),
                        distinct_endpoints(found@),
                        forall|v: EndpointView|
                            endpoint_set(found@).contains(v) <==> (exists|k: int|
                                0 <= k < i && (#[trigger] m[k]).0.subset_of(topics@)
                                    && m[k].1.contains(v)) || (exists|k: int|
                                0 <= k < j && (#[trigger] list@[k])@ == v),
                    decreases list.len() - j,
                {
                    let ghost prev = found@;
                    if find_endpoint(&found, &list[j]).is_none() {
                        found.push(list[j].clone());
                    }
                    proof {
                        let x = list@[j as int]@;
                        assert forall|v: EndpointView|
                            endpoint_set(found@).contains(v) <==> (exists|k: int|
                                0 <= k < i && (#[trigger] m[k]).0.subset_of(topics@)
                                    && m[k].1.contains(v)) || (exists|k: int|
                                0 <= k < j + 1 && (#[trigger] list@[k])@ == v) by {
                            if endpoint_set(found@).contains(v) {
                                let k = choose|k: int|
                                    0 <= k < found@.len() && (#[trigger] found@[k])@ == v;
                                if k < prev.len() {
                                    assert(prev[k]@ == v);
                                    assert(endpoint_set(prev).contains(v));
                                    if exists|k: int| 0 <= k < j && (#[trigger] list@[k])@ == v {
                                        let k2 = choose|k: int|
                                            0 <= k < j && (#[trigger] list@[k])@ == v;
                                        assert(0 <= k2 < j + 1 && list@[k2]@ == v);
                                    }
                                } else {
                                    assert(0 <= j < j + 1 && list@[j as int]@ == v);
                                }
                            }
                            if endpoint_set(prev).contains(v) {
                                let k = choose|k: int|
                                    0 <= k < prev.len() && (#[trigger] prev[k])@ == v;
                                assert(found@[k]@ == v);
                            }
                            if exists|k: int| 0 <= k < j + 1 && (#[trigger] list@[k])@ == v {
                                let k = choose|k: int|
                                    0 <= k < j + 1 && (#[trigger] list@[k])@ == v;
                                if k < j {
                                    assert(endpoint_set(prev).contains(v));
                                } else if !endpoint_set(prev).contains(v) {
                                    assert(found@[prev.len() as int]@ == v);
                                }
                            }
                        }
                        assert forall|a: int, b: int| 0 <= a < b < found@.len() implies (
                        #[trigger] found@[a])@ != (#[trigger] found@[b])@ by {
                            if b < prev.len() {
                                assert(prev[a]@ != prev[b]@);
                            } else {
                                assert(prev[a]@ != x);
                            }
                        }
                    }
                    j += 1;
                }
                proof {
                    assert forall|v: EndpointView|
                        endpoint_set(found@).contains(v) <==> exists|k: int|
                            0 <= k < i + 1 && (#[trigger] m[k]).0.subset_of(topics@)
                                && m[k].1.contains(v) by {
                        if exists|k: int| 0 <= k < j && (#[trigger] list@[k])@ == v {
                            assert(m[i as int].1.contains(v));
                        }
                        if exists|k: int|
                            0 <= k < i + 1 && (#[trigger] m[k]).0.subset_of(topics@)
                                && m[k].1.contains(v) {
                            let k = choose|k: int|
                                0 <= k < i + 1 && (#[trigger] m[k]).0.subset_of(topics@)
                                    && m[k].1.contains(v);
                            if k == i {
                                let k2 = choose|k2: int|
                                    0 <= k2 < list@.len() && (#[trigger] list@[k2])@ == v;
                                assert(0 <= k2 < j && list@[k2]@ == v);
                            }
                        }
                    }
                }
            } else {
                proof {
                    assert forall|v: EndpointView|
                        endpoint_set(found@).contains(v) <==> exists|k: int|
                            0 <= k < i + 1 && (#[trigger] m[k]).0.subset_of(topics@)
                                && m[k].1.contains(v) by {
                        if exists|k: int|
                            0 <= k < i + 1 && (#[trigger] m[k]).0.subset_of(topics@)
                                && m[k].1.contains(v) {
                            let k = choose|k: int|
                                0 <= k < i + 1 && (#[trigger] m[k]).0.subset_of(topics@)
                                    && m[k].1.contains(v);
                            assert(k < i);
                        }
                    }
                }
            }
            i += 1;
        }
        proof {
            assert forall|v: EndpointView|
                endpoint_set(found@).contains(v) == matching(self@, topics@).contains(v) by {
                if endpoint_set(found@).contains(v) {
                    let k = choose|k: int|
                        0 <= k < i && (#[trigger] m[k]).0.subset_of(topics@) && m[k].1.contains(v);
                    lemma_to_map_entry(m, k);
                    assert(self@.dom().contains(m[k].0));
                }
                if matching(self@, topics@).contains(v) {
                    let f = choose|f: Set<FieldView>|
                        #![trigger self@.dom().contains(f)]
                        self@.dom().contains(f) && f.subset_of(topics@) && self@[f].contains(v);
                    let k = choose|k: int| 0 <= k < m.len() && (#[trigger] m[k]).0 == f;
                    lemma_to_map_entry(m, k);
                    assert(0 <= k < i && m[k].0.subset_of(topics@) && m[k].1.contains(v));
                }
            }
            assert(endpoint_set(found@) =~= matching(self@, topics@));
        }
        found
    }
}

} // verus!
