//! Principals and the remote endpoints that events are delivered to.

use vstd::prelude::*;
use vstd::slice::slice_to_vec;
use crate::order::{
    bytes_order, compare_bytes, compare_text, lemma_bytes_order_equal, lemma_bytes_order_flip,
    lemma_bytes_order_trans, lemma_text_order_equal, lemma_text_order_flip,
    lemma_text_order_trans, text_order, Order,
};

verus! {

/// The greatest number of bytes in a principal.
pub const MAX_PRINCIPAL_LENGTH: usize = 29;

/// The identifier of an actor: at most [`MAX_PRINCIPAL_LENGTH`] bytes.
#[derive(Debug, PartialEq, Eq, Hash)]
pub struct Principal {
    bytes: Vec<u8>,
}

impl View for Principal {
    type V = Seq<u8>;

    /// The bytes of the identifier.
    closed spec fn view(&self) -> Seq<u8> {
        self.bytes@
    }
}

impl Principal {
    /// The identifier is no longer than a principal may be.
    #[verifier::type_invariant]
    pub closed spec fn wf(&self) -> bool {
        self.bytes@.len() <= MAX_PRINCIPAL_LENGTH
    }

    /// The principal without bytes, which is that of the management canister.
    pub fn management_canister() -> (r: Principal)
        ensures
            r@ == Seq::<u8>::empty(),
    {
        Principal { bytes: Vec::new() }
    }

    /// The principal with the bytes of `slice`.
    pub fn from_slice(slice: &[u8]) -> (r: Principal)
        requires
            slice@.len() <= MAX_PRINCIPAL_LENGTH,
        ensures
            r@ == slice@,
    {
        Principal { bytes: slice_to_vec(slice) }
    }

    /// The principal with the bytes of `slice`, unless they are too many.
    pub fn try_from_slice(slice: &[u8]) -> (r: Option<Principal>)
        ensures
            r.is_some() == (slice@.len() <= MAX_PRINCIPAL_LENGTH),
            r.is_some() ==> r.unwrap()@ == slice@,
    {
        if slice.len() <= MAX_PRINCIPAL_LENGTH {
            Some(Principal::from_slice(slice))
        } else {
            None
        }
    }

    /// The bytes of the identifier, at most [`MAX_PRINCIPAL_LENGTH`] of them.
    pub fn as_slice(&self) -> (r: &[u8])
        ensures
            r@ == self@,
            r@.len() <= MAX_PRINCIPAL_LENGTH,
    {
        proof {
            use_type_invariant(self);
        }
        self.bytes.as_slice()
    }
}

impl Clone for Principal {
    fn clone(&self) -> (r: Self)
        ensures
            r@ == self@,
    {
        proof {
            use_type_invariant(self);
        }
        Principal { bytes: self.bytes.clone() }
    }
}

/// Principals are ordered by length, and among equal lengths byte by byte.
pub open spec fn principal_order(a: Seq<u8>, b: Seq<u8>) -> Order {
    if a.len() < b.len() {
        Order::Less
    } else if a.len() > b.len() {
        Order::Greater
    } else {
        bytes_order(a, b)
    }
}

/// Compares two principals by length, then byte by byte.
pub fn compare_principals(a: &Principal, b: &Principal) -> (o: Order)
    ensures
        o == principal_order(a@, b@),
{
    if a.bytes.len() < b.bytes.len() {
        Order::Less
    } else if a.bytes.len() > b.bytes.len() {
        Order::Greater
    } else {
        compare_bytes(a.bytes.as_slice(), b.bytes.as_slice())
    }
}

/// What a [`RemoteCallEndpoint`] stands for: the bytes of its principal and its method name.
pub type EndpointView = (Seq<u8>, Seq<char>);

/// The address of a callback: a method of an actor.
#[derive(Debug, PartialEq, Eq, Hash)]
pub struct RemoteCallEndpoint {
    pub canister_id: Principal,
    pub method_name: String,
}

impl View for RemoteCallEndpoint {
    type V = EndpointView;

    open spec fn view(&self) -> EndpointView {
        (self.canister_id@, self.method_name@)
    }
}

impl Clone for RemoteCallEndpoint {
    fn clone(&self) -> (r: Self)
        ensures
            r@ == self@,
    {
        RemoteCallEndpoint {
            canister_id: self.canister_id.clone(),
            method_name: self.method_name.clone(),
        }
    }
}

/// Endpoints are ordered by principal, then by method name.
pub open spec fn endpoint_order(a: EndpointView, b: EndpointView) -> Order {
    principal_order(a.0, b.0).or_else(text_order(a.1, b.1))
}

/// Two endpoints compare `Equal` exactly when principal and method agree.
pub proof fn lemma_endpoint_order_equal(a: EndpointView, b: EndpointView)
    ensures
        endpoint_order(a, b) == Order::Equal <==> a == b,
{
    lemma_bytes_order_equal(a.0, b.0);
    lemma_text_order_equal(a.1, b.1);
}

/// Exchanging the two sides of an endpoint comparison flips its outcome.
pub proof fn lemma_endpoint_order_flip(a: EndpointView, b: EndpointView)
    ensures
        endpoint_order(b, a) == endpoint_order(a, b).flip(),
{
    lemma_bytes_order_flip(a.0, b.0);
    lemma_text_order_flip(a.1, b.1);
}

/// `Less` is transitive on endpoints.
pub proof fn lemma_endpoint_order_trans(a: EndpointView, b: EndpointView, c: EndpointView)
    requires
        endpoint_order(a, b) == Order::Less,
        endpoint_order(b, c) == Order::Less,
    ensures
        endpoint_order(a, c) == Order::Less,
{
    lemma_bytes_order_equal(a.0, b.0);
    lemma_bytes_order_equal(b.0, c.0);
    lemma_bytes_order_equal(a.0, c.0);
    if a.0.len() == b.0.len() && b.0.len() == c.0.len() {
        if bytes_order(a.0, b.0) == Order::Less && bytes_order(b.0, c.0) == Order::Less {
            lemma_bytes_order_trans(a.0, b.0, c.0);
        }
    }
    if a.0 == b.0 && b.0 == c.0 {
        lemma_text_order_trans(a.1, b.1, c.1);
    }
}

/// Compares two endpoints by principal, then by method name.
pub fn compare_endpoints(a: &RemoteCallEndpoint, b: &RemoteCallEndpoint) -> (o: Order)
    ensures
        o == endpoint_order(a@, b@),
{
    match compare_principals(&a.canister_id, &b.canister_id) {
        Order::Equal => compare_text(a.method_name.as_str(), b.method_name.as_str()),
        o => o,
    }
}

/// Whether two endpoints have the same principal and method.
pub fn same_endpoint(a: &RemoteCallEndpoint, b: &RemoteCallEndpoint) -> (r: bool)
    ensures
        r == (a@ == b@),
{
    proof {
        lemma_endpoint_order_equal(a@, b@);
    }
    match compare_endpoints(a, b) {
        Order::Equal => true,
        _ => false,
    }
}

} // verus!
