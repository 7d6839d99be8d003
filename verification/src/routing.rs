//! Addressing and routing: `Address`, `Route`, `TransportMessage`,
//! `RouterMessage`, and the forwarding algebra every hop obeys.
//!
//! An envelope carries two routes: the onward route (remaining hops toward
//! the destination) and the return route (hops to retrace back to the
//! originator). Each forwarding hop pops the head of the onward route and
//! prepends that address to the return route in one step, so a reply sent
//! along the accumulated return route retraces the path.

use vstd::prelude::*;

verus! {

/// Mathematical value of an [`Address`]: a transport-type tag and the
/// opaque bytes naming the endpoint within that transport's namespace.
#[verifier::ext_equal]
pub struct AddressView {
    pub tt: u8,
    pub data: Seq<u8>,
}

/// An opaque, comparable identifier naming an endpoint reachable within a
/// node. Addresses are namespaced by a transport-type prefix `tt`, so a
/// generic router can dispatch by prefix; `tt == 0` names a local worker.
pub struct Address {
    /// Transport-type tag of the namespace this address lives in.
    pub tt: u8,
    /// Opaque endpoint name within that namespace.
    pub data: Vec<u8>,
}

impl View for Address {
    type V = AddressView;

    open spec fn view(&self) -> AddressView {
        AddressView { tt: self.tt, data: self.data@ }
    }
}

impl Address {
    /// An address in an arbitrary transport namespace.
    pub fn new(tt: u8, data: Vec<u8>) -> (r: Address)
        ensures
            r@ == (AddressView { tt, data: data@ }),
    {
        Address { tt, data }
    }

    /// A local worker address (transport type 0).
    pub fn local(data: Vec<u8>) -> (r: Address)
        ensures
            r@ == (AddressView { tt: 0u8, data: data@ }),
    {
        Address { tt: 0, data }
    }

    /// An independently owned copy naming the same endpoint.
    pub fn duplicate(&self) -> (r: Address)
        ensures
            r@ == self@,
    {
        let mut data: Vec<u8> = Vec::new();
        let mut i: usize = 0;
        while i < self.data.len()
            invariant
                i <= self.data.len(),
                data@ == self.data@.subrange(0, i as int),
            decreases self.data.len() - i,
        {
            data.push(self.data[i]);
            i = i + 1;
        }
        proof {
            assert(data@ =~= self.data@);
        }
        Address { tt: self.tt, data }
    }

    /// Whether two addresses name the same endpoint.
    pub fn same_as(&self, other: &Address) -> (r: bool)
        ensures
            r == (self@ == other@),
    {
        if self.tt != other.tt {
            proof {
                assert(self@ != other@);
            }
            return false;
        }
        if self.data.len() != other.data.len() {
            proof {
                assert(self@.data.len() != other@.data.len());
            }
            return false;
        }
        let mut i: usize = 0;
        while i < self.data.len()
            invariant
                i <= self.data.len(),
                self.data.len() == other.data.len(),
                self.tt == other.tt,
                forall|j: int| 0 <= j < i ==> self.data@[j] == other.data@[j],
            decreases self.data.len() - i,
        {
            if self.data[i] != other.data[i] {
                proof {
                    assert(self@.data[i as int] != other@.data[i as int]);
                }
                return false;
            }
            i = i + 1;
        }
        proof {
            assert(self@.data =~= other@.data);
            assert(self@ =~= other@);
        }
        true
    }
}

/// An ordered sequence of addresses forming a path: onward (toward the
/// destination) or return (back to the originator). A route used for
/// sending must be non-empty; the empty route only arises as the onward
/// route of a fully delivered envelope.
pub struct Route {
    /// The hops, first hop first.
    pub hops: Vec<Address>,
}

impl View for Route {
    type V = Seq<AddressView>;

    open spec fn view(&self) -> Seq<AddressView> {
        self.hops@.map_values(|a: Address| a@)
    }
}

impl Route {
    /// The empty route, to be extended with [`Route::append`].
    pub fn new() -> (r: Route)
        ensures
            r@ == Seq::<AddressView>::empty(),
    {
        let r = Route { hops: Vec::new() };
        proof {
            assert(r@ =~= Seq::<AddressView>::empty());
        }
        r
    }

    /// The route with `addr` as the new tail: onward paths are built
    /// top-down, outermost hop appended first.
    pub fn append(self, addr: Address) -> (r: Route)
        ensures
            r@ == self@.push(addr@),
    {
        let ghost before = self@;
        let mut hops = self.hops;
        hops.push(addr);
        let r = Route { hops };
        proof {
            assert(r@ =~= before.push(r.hops@.last()@));
        }
        r
    }

    /// The route with `addr` as the new head: return paths are built by
    /// each traversed hop prepending its own address.
    pub fn prepend(self, addr: Address) -> (r: Route)
        ensures
            r@ == seq![addr@] + self@,
    {
        let ghost before = self@;
        let ghost av = addr@;
        let mut hops = self.hops;
        hops.insert(0, addr);
        let r = Route { hops };
        proof {
            assert(r@ =~= seq![av] + before);
        }
        r
    }

    /// Number of hops remaining.
    pub fn len(&self) -> (r: usize)
        ensures
            r == self@.len(),
    {
        self.hops.len()
    }

    /// The next hop to traverse.
    pub fn head(&self) -> (r: &Address)
        requires
            self@.len() > 0,
        ensures
            r@ == self@[0],
    {
        &self.hops[0]
    }

    /// Removes and returns the head hop, leaving the remainder.
    pub fn pop_head(&mut self) -> (r: Address)
        requires
            old(self)@.len() > 0,
        ensures
            r@ == old(self)@[0],
            final(self)@ == old(self)@.drop_first(),
    {
        let ghost before = self@;
        let r = self.hops.remove(0);
        proof {
            assert(self@ =~= before.drop_first());
        }
        r
    }

    /// An independently owned copy of the same path.
    pub fn duplicate(&self) -> (r: Route)
        ensures
            r@ == self@,
    {
        let mut hops: Vec<Address> = Vec::new();
        let mut i: usize = 0;
        while i < self.hops.len()
            invariant
                i <= self.hops.len(),
                hops@.len() == i,
                forall|j: int| 0 <= j < i ==> hops@[j]@ == self.hops@[j]@,
            decreases self.hops.len() - i,
        {
            hops.push(self.hops[i].duplicate());
            i = i + 1;
        }
        let r = Route { hops };
        proof {
            assert(r@ =~= self@);
        }
        r
    }
}

/// Mathematical value of a [`TransportMessage`].
#[verifier::ext_equal]
pub struct TransportMessageView {
    pub onward_route: Seq<AddressView>,
    pub return_route: Seq<AddressView>,
    pub payload: Seq<u8>,
}

/// The envelope that crosses any transport and any secure-channel
/// boundary: onward route, accumulated return route, and an opaque
/// payload. A forwarding hop never interprets the payload; only the
/// terminal worker or a channel's crypto layer does.
pub struct TransportMessage {
    /// Remaining hops toward the destination.
    pub onward_route: Route,
    /// Hops to retrace back to the originator, nearest hop first.
    pub return_route: Route,
    /// Opaque message body.
    pub payload: Vec<u8>,
}

impl View for TransportMessage {
    type V = TransportMessageView;

    open spec fn view(&self) -> TransportMessageView {
        TransportMessageView {
            onward_route: self.onward_route@,
            return_route: self.return_route@,
            payload: self.payload@,
        }
    }
}

impl TransportMessage {
    /// A fresh envelope for `payload` addressed by `onward_route`, with
    /// the return route seeded by the sender's own address.
    pub fn new(onward_route: Route, sender: Address, payload: Vec<u8>) -> (r: TransportMessage)
        ensures
            r@ == (TransportMessageView {
                onward_route: onward_route@,
                return_route: seq![sender@],
                payload: payload@,
            }),
    {
        let ghost sv = sender@;
        let return_route = Route::new().append(sender);
        let r = TransportMessage { onward_route, return_route, payload };
        proof {
            assert(r@.return_route =~= seq![sv]);
        }
        r
    }
}

/// A command message for a router-role worker.
pub enum RouterMessage {
    /// Route the provided message towards its destination.
    Route(TransportMessage),
    /// Register a new client to this routing scope.
    Register {
        /// An accept scope (address prefix) this client services.
        accepts: Address,
        /// The client's own worker address.
        self_addr: Address,
    },
}

/// One forwarding step as every intermediate hop performs it: pop the
/// head of the onward route and prepend that address to the return
/// route, atomically, leaving the payload untouched.
pub open spec fn forward_hop(m: TransportMessageView) -> TransportMessageView
    recommends
        m.onward_route.len() > 0,
{
    TransportMessageView {
        onward_route: m.onward_route.drop_first(),
        return_route: seq![m.onward_route[0]] + m.return_route,
        payload: m.payload,
    }
}

/// The envelope after `k` forwarding steps.
pub open spec fn traverse(m: TransportMessageView, k: nat) -> TransportMessageView
    decreases k,
{
    if k == 0 {
        m
    } else {
        traverse(forward_hop(m), (k - 1) as nat)
    }
}

/// After traversing all hops of its onward route, an envelope's payload
/// is unchanged and its return route is the reversed onward route in
/// front of the original return route.
pub proof fn lemma_traverse_full(m: TransportMessageView)
    ensures
        traverse(m, m.onward_route.len()).onward_route == Seq::<AddressView>::empty(),
        traverse(m, m.onward_route.len()).return_route == m.onward_route.reverse()
            + m.return_route,
        traverse(m, m.onward_route.len()).payload == m.payload,
    decreases m.onward_route.len(),
{
    if m.onward_route.len() == 0 {
        assert(traverse(m, 0) == m);
        assert(m.onward_route.reverse() =~= Seq::<AddressView>::empty());
        assert(m.onward_route.reverse() + m.return_route =~= m.return_route);
    } else {
        let m1 = forward_hop(m);
        lemma_traverse_full(m1);
        assert(traverse(m, m.onward_route.len()) == traverse(
            m1,
            (m.onward_route.len() - 1) as nat,
        ));
        assert(m1.onward_route.len() == m.onward_route.len() - 1);
        assert(m1.onward_route.reverse() + m1.return_route =~= m.onward_route.reverse()
            + m.return_route);
    }
}

/// Route transparency: sending a payload through a route and replying
/// along the accumulated return route delivers the reply back to the
/// original sender, both payloads intact. After the request traverses
/// every hop of `r`, the accumulated return route leads the reply —
/// forwarded the same way — to end at the sender's address, while the
/// destination never had to inspect or understand any hop of `r`.
pub proof fn lemma_route_round_trip(
    r: Seq<AddressView>,
    sender: AddressView,
    request: Seq<u8>,
    reply: Seq<u8>,
)
    requires
        r.len() > 0,
    ensures
        ({
            let m0 = TransportMessageView {
                onward_route: r,
                return_route: seq![sender],
                payload: request,
            };
            let arrived = traverse(m0, r.len());
            let back0 = TransportMessageView {
                onward_route: arrived.return_route,
                return_route: seq![r.last()],
                payload: reply,
            };
            let back = traverse(back0, (arrived.return_route.len() - 1) as nat);
            arrived.payload == request && arrived.return_route.len() == r.len() + 1
                && back.onward_route.len() == 1 && back.onward_route[0] == sender && back.payload
                == reply
        }),
{
    let m0 = TransportMessageView {
        onward_route: r,
        return_route: seq![sender],
        payload: request,
    };
    lemma_traverse_full(m0);
    let arrived = traverse(m0, r.len());
    assert(arrived.return_route =~= r.reverse() + seq![sender]);
    let back0 = TransportMessageView {
        onward_route: arrived.return_route,
        return_route: seq![r.last()],
        payload: reply,
    };
    let n = (arrived.return_route.len() - 1) as nat;
    lemma_traverse_partial(back0, n);
    let back = traverse(back0, n);
    assert(back.onward_route =~= back0.onward_route.skip(n as int));
    assert(back.onward_route.len() == 1);
    assert(back.onward_route[0] == (r.reverse() + seq![sender])[r.len() as int]);
}

/// After `k <= len` forwarding steps the onward route is the original
/// one with its first `k` hops removed, and the payload is unchanged.
pub proof fn lemma_traverse_partial(m: TransportMessageView, k: nat)
    requires
        k <= m.onward_route.len(),
    ensures
        traverse(m, k).onward_route == m.onward_route.skip(k as int),
        traverse(m, k).payload == m.payload,
    decreases k,
{
    if k == 0 {
        assert(m.onward_route.skip(0) =~= m.onward_route);
    } else {
        let m1 = forward_hop(m);
        lemma_traverse_partial(m1, (k - 1) as nat);
        assert(m1.onward_route.skip(k - 1) =~= m.onward_route.skip(k as int));
    }
}

} // verus!
