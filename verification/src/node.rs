//! The node runtime: the worker registry, the routing table, and the
//! cooperative scheduler.
//!
//! Workers are addressable actors; each holds private state and a FIFO
//! mailbox and processes one message at a time, so mutual exclusion is
//! structural. The registry is the single owner of worker state;
//! addresses are opaque keys into it, so a channel's address can appear
//! inside another channel's route without ownership cycles. Transport
//! clients register accept scopes (address prefixes) with the router;
//! a directly owned address wins over any scope match.

use vstd::prelude::*;
use crate::channel::{
    encryptor_handle, decryptor_handle, initiator_handle, listener_handle, responder_handle,
    encode_kex, encryptor_spec, decryptor_spec, initiator_spec, kex_verified, listener_spec,
    outcome_stopped, HandlerOutcome, HandlerOutcomeView, InitiatorState, Kex,
    ListenerState, WorkerState, WorkerStateView, KEX1_TAG,
};
use crate::errors::NodeError;
use crate::routing::{Address, AddressView, forward_hop, Route, RouterMessage, TransportMessage, TransportMessageView};
use crate::vault::{add64, Identity, Vault, wrap_add64};
use crate::wire::{bytes_eq, lemma_u64_le_round_trip, push_u64_le, u64_le_bytes};

verus! {

/// An addressable actor: its exclusive address binding, its role state,
/// and its FIFO mailbox. Messages from one sender to one address are
/// processed in send order; no message is dropped except by an explicit
/// error.
pub struct Worker {
    /// The address bound exclusively to this worker.
    pub address: Address,
    /// The worker's role and private state.
    pub state: WorkerState,
    /// Messages delivered and not yet processed, oldest first.
    pub mailbox: Vec<TransportMessage>,
}

impl Worker {
    /// The mailbox as a sequence of envelope values.
    pub open spec fn mail_view(&self) -> Seq<TransportMessageView> {
        self.mailbox@.map_values(|m: TransportMessage| m@)
    }
}

impl View for Worker {
    type V = WorkerView;

    open spec fn view(&self) -> WorkerView {
        WorkerView { address: self.address@, state: self.state@, mailbox: self.mail_view() }
    }
}

impl View for Node {
    type V = NodeView;

    open spec fn view(&self) -> NodeView {
        NodeView {
            workers: self.workers@.map_values(|w: Worker| w@),
            scope_table: scope_view(self.scope_table@),
            secrets: self.vault.secrets@,
            vault_counter: self.vault.counter,
            counter: self.counter,
            faults: self.faults@,
        }
    }
}

/// Mathematical value of a [`Worker`].
#[verifier::ext_equal]
pub struct WorkerView {
    pub address: AddressView,
    pub state: WorkerStateView,
    pub mailbox: Seq<TransportMessageView>,
}

/// Mathematical value of a [`Node`].
#[verifier::ext_equal]
pub struct NodeView {
    pub workers: Seq<WorkerView>,
    pub scope_table: Seq<(AddressView, AddressView)>,
    pub secrets: Seq<u64>,
    pub vault_counter: u64,
    pub counter: u64,
    pub faults: Seq<NodeError>,
}

/// The first worker owning `a`, if any.
pub open spec fn first_owner(ws: Seq<WorkerView>, a: AddressView) -> Option<int>
    decreases ws.len(),
{
    if ws.len() == 0 {
        None
    } else if ws[0].address == a {
        Some(0)
    } else {
        match first_owner(ws.drop_first(), a) {
            Some(i) => Some(i + 1),
            None => None,
        }
    }
}

/// The first index matching `a` is the first owner.
pub proof fn lemma_first_owner_some(ws: Seq<WorkerView>, a: AddressView, i: int)
    requires
        0 <= i < ws.len(),
        ws[i].address == a,
        forall|j: int| 0 <= j < i ==> ws[j].address != a,
    ensures
        first_owner(ws, a) == Some(i),
    decreases i,
{
    if i > 0 {
        lemma_first_owner_some(ws.drop_first(), a, i - 1);
    }
}

/// With no index matching `a` there is no owner.
pub proof fn lemma_first_owner_none(ws: Seq<WorkerView>, a: AddressView)
    requires
        forall|j: int| 0 <= j < ws.len() ==> ws[j].address != a,
    ensures
        first_owner(ws, a) is None,
    decreases ws.len(),
{
    if ws.len() > 0 {
        lemma_first_owner_none(ws.drop_first(), a);
    }
}

/// Whether accept scope `scope` services address `a`: same transport
/// type, and the scope's name is a prefix of the address's name.
pub open spec fn scope_matches(scope: AddressView, a: AddressView) -> bool {
    &&& scope.tt == a.tt
    &&& scope.data.len() <= a.data.len()
    &&& a.data.subrange(0, scope.data.len() as int) == scope.data
}

/// The client the routing table sends `a` to: the most recently
/// registered scope that matches, registrations being additive with
/// last registration winning.
pub open spec fn resolve_spec(t: Seq<(AddressView, AddressView)>, a: AddressView) -> Option<
    AddressView,
>
    decreases t.len(),
{
    if t.len() == 0 {
        None
    } else if scope_matches(t.last().0, a) {
        Some(t.last().1)
    } else {
        resolve_spec(t.drop_last(), a)
    }
}

/// The registrations that survive a new registration of `accepts`:
/// those bound to any other scope.
pub open spec fn other_scopes(accepts: AddressView) -> spec_fn((AddressView, AddressView)) -> bool {
    |e: (AddressView, AddressView)| e.0 != accepts
}

/// The table after registering `client` for scope `accepts`: any
/// earlier binding of exactly that scope is replaced, and the new
/// binding takes the highest precedence.
pub open spec fn register_spec(
    t: Seq<(AddressView, AddressView)>,
    accepts: AddressView,
    client: AddressView,
) -> Seq<(AddressView, AddressView)> {
    t.filter(other_scopes(accepts)).push((accepts, client))
}

/// Filtering commutes with appending one element.
proof fn lemma_filter_push<A>(s: Seq<A>, pred: spec_fn(A) -> bool, x: A)
    ensures
        s.push(x).filter(pred) == (if pred(x) {
            s.filter(pred).push(x)
        } else {
            s.filter(pred)
        }),
{
    reveal(Seq::filter);
    assert(s.push(x).drop_last() =~= s);
    assert(s.push(x).last() == x);
}

/// Filtering a second time changes nothing.
proof fn lemma_filter_idempotent<A>(s: Seq<A>, pred: spec_fn(A) -> bool)
    ensures
        s.filter(pred).filter(pred) == s.filter(pred),
    decreases s.len(),
{
    reveal(Seq::filter);
    if s.len() == 0 {
        assert(s.filter(pred) =~= Seq::<A>::empty());
    } else {
        lemma_filter_idempotent(s.drop_last(), pred);
        if pred(s.last()) {
            lemma_filter_push(s.drop_last().filter(pred), pred, s.last());
        }
    }
}

/// Registration idempotence: registering the same client for the same
/// scope twice leaves exactly the table one registration leaves, so
/// routing behavior is observably the same.
pub proof fn lemma_register_idempotent(
    t: Seq<(AddressView, AddressView)>,
    accepts: AddressView,
    client: AddressView,
)
    ensures
        register_spec(register_spec(t, accepts, client), accepts, client) == register_spec(
            t,
            accepts,
            client,
        ),
        forall|a: AddressView|
            resolve_spec(register_spec(register_spec(t, accepts, client), accepts, client), a)
                == resolve_spec(#[trigger] register_spec(t, accepts, client), a),
{
    let pred = other_scopes(accepts);
    lemma_filter_push(t.filter(pred), pred, (accepts, client));
    lemma_filter_idempotent(t, pred);
    assert(!pred((accepts, client)));
}

/// A single node: the owned registry of workers, the routing table of
/// accept-scope registrations, the vault, the freshness counter for
/// internal addresses, and every fault surfaced to the supervision
/// point.
pub struct Node {
    /// All running workers; addresses are mutually distinct.
    pub workers: Vec<Worker>,
    /// Accept-scope registrations, oldest first; the last match wins.
    pub scope_table: Vec<(Address, Address)>,
    /// The isolated holder of all secret key material.
    pub vault: Vault,
    /// Freshness counter minting internal addresses.
    pub counter: u64,
    /// Faults surfaced by workers and failed routings, oldest first.
    pub faults: Vec<NodeError>,
}

/// The routing table as a sequence of (scope, client) address values.
pub open spec fn scope_view(t: Seq<(Address, Address)>) -> Seq<(AddressView, AddressView)> {
    t.map_values(|e: (Address, Address)| (e.0@, e.1@))
}

/// Everything but the workers is unchanged between `pre` and `post`.
pub open spec fn same_but_workers(pre: Node, post: Node) -> bool {
    &&& post.scope_table == pre.scope_table
    &&& post.vault == pre.vault
    &&& post.counter == pre.counter
    &&& post.faults == pre.faults
}

/// `post` is `pre` with envelope `mv` appended to the mailbox of the
/// worker at index `i` and nothing else changed.
pub open spec fn mailbox_extended(pre: Node, post: Node, i: int, mv: TransportMessageView) -> bool {
    &&& 0 <= i < pre.workers@.len()
    &&& post.workers@.len() == pre.workers@.len()
    &&& forall|j: int| 0 <= j < pre.workers@.len() && j != i ==> post.workers@[j] == pre.workers@[j]
    &&& post.workers@[i].address == pre.workers@[i].address
    &&& post.workers@[i].state == pre.workers@[i].state
    &&& post.workers@[i].mail_view() == pre.workers@[i].mail_view().push(mv)
    &&& same_but_workers(pre, post)
}

/// Exclusive binding: no two workers share an address. Every operation
/// of the runtime preserves this, so an address names at most one
/// worker for its whole life.
pub open spec fn wf_registry(ws: Seq<Worker>) -> bool {
    forall|i: int, j: int|
        0 <= i < j < ws.len() ==> (#[trigger] ws[i].address@) != (#[trigger] ws[j].address@)
}

/// The router's obligation for one envelope, exactly as the routing
/// contract states it: an empty onward route fails; a directly owned
/// head wins and receives the remainder; otherwise the last matching
/// accept scope receives the envelope after one forwarding step (head
/// popped and pushed onto the return route, atomically); otherwise the
/// message fails with a routing error, never a silent drop.
pub open spec fn delivered_spec(
    pre: Node,
    post: Node,
    m: TransportMessageView,
    r: Result<(), NodeError>,
) -> bool {
    let ws = pre.workers@;
    if m.onward_route.len() == 0 {
        r == Err::<(), NodeError>(NodeError::RoutingError) && post == pre
    } else {
        let h = m.onward_route[0];
        let remainder = TransportMessageView {
            onward_route: m.onward_route.drop_first(),
            return_route: m.return_route,
            payload: m.payload,
        };
        if exists|i: int| 0 <= i < ws.len() && (#[trigger] ws[i].address@) == h {
            r == Ok::<(), NodeError>(()) && exists|i: int|
                0 <= i < ws.len() && (#[trigger] ws[i].address@) == h && mailbox_extended(
                    pre,
                    post,
                    i,
                    remainder,
                )
        } else {
            match resolve_spec(scope_view(pre.scope_table@), h) {
                Some(client) => {
                    if exists|i: int| 0 <= i < ws.len() && (#[trigger] ws[i].address@) == client {
                        r == Ok::<(), NodeError>(()) && exists|i: int|
                            0 <= i < ws.len() && (#[trigger] ws[i].address@) == client
                                && mailbox_extended(pre, post, i, forward_hop(m))
                    } else {
                        r == Err::<(), NodeError>(NodeError::RoutingError) && post == pre
                    }
                },
                None => r == Err::<(), NodeError>(NodeError::RoutingError) && post == pre,
            }
        }
    }
}

/// `n` with envelope `m` appended to the mailbox of worker `i`.
pub open spec fn push_mail(n: NodeView, i: int, m: TransportMessageView) -> NodeView {
    NodeView {
        workers: n.workers.update(
            i,
            WorkerView { mailbox: n.workers[i].mailbox.push(m), ..n.workers[i] },
        ),
        ..n
    }
}

/// Routing one envelope, as a function on node values: the same
/// decision [`delivered_spec`] states as a relation.
pub open spec fn deliver_to(n: NodeView, m: TransportMessageView) -> (NodeView, Result<
    (),
    NodeError,
>) {
    if m.onward_route.len() == 0 {
        (n, Err(NodeError::RoutingError))
    } else {
        let h = m.onward_route[0];
        let remainder = TransportMessageView {
            onward_route: m.onward_route.drop_first(),
            return_route: m.return_route,
            payload: m.payload,
        };
        match first_owner(n.workers, h) {
            Some(i) => (push_mail(n, i, remainder), Ok(())),
            None => match resolve_spec(n.scope_table, h) {
                Some(c) => match first_owner(n.workers, c) {
                    Some(i) => (push_mail(n, i, forward_hop(m)), Ok(())),
                    None => (n, Err(NodeError::RoutingError)),
                },
                None => (n, Err(NodeError::RoutingError)),
            },
        }
    }
}

/// Starting a worker, as a function on node values.
pub open spec fn start_spec(n: NodeView, a: AddressView, st: WorkerStateView) -> (NodeView, Result<
    (),
    NodeError,
>) {
    match first_owner(n.workers, a) {
        Some(i) => (n, Err(NodeError::RegistrationConflict)),
        None => (
            NodeView {
                workers: n.workers.push(
                    WorkerView { address: a, state: st, mailbox: Seq::empty() },
                ),
                ..n
            },
            Ok(()),
        ),
    }
}

/// Stopping a worker, as a function on node values.
pub open spec fn stop_spec(n: NodeView, a: AddressView) -> (NodeView, bool) {
    match first_owner(n.workers, a) {
        Some(i) => (NodeView { workers: n.workers.remove(i), ..n }, true),
        None => (n, false),
    }
}

/// Minting a fresh internal address, as a function on node values.
pub open spec fn mint_spec(n: NodeView) -> (NodeView, AddressView) {
    (
        NodeView { counter: add64(n.counter, 1), ..n },
        AddressView { tt: 1u8, data: u64_le_bytes(n.counter) },
    )
}

/// Routing one envelope never rebinds an address: delivery preserves
/// the registry's exclusive bindings.
pub proof fn lemma_delivered_preserves_wf(
    pre: Node,
    post: Node,
    m: TransportMessageView,
    r: Result<(), NodeError>,
)
    requires
        delivered_spec(pre, post, m, r),
        wf_registry(pre.workers@),
    ensures
        wf_registry(post.workers@),
{
    if m.onward_route.len() == 0 {
    } else {
        let ws = pre.workers@;
        let h = m.onward_route[0];
        let remainder = TransportMessageView {
            onward_route: m.onward_route.drop_first(),
            return_route: m.return_route,
            payload: m.payload,
        };
        if exists|i: int| 0 <= i < ws.len() && (#[trigger] ws[i].address@) == h {
            let i = choose|i: int|
                0 <= i < ws.len() && (#[trigger] ws[i].address@) == h && mailbox_extended(
                    pre,
                    post,
                    i,
                    remainder,
                );
            assert(forall|k: int|
                0 <= k < ws.len() ==> (#[trigger] post.workers@[k].address@) == ws[k].address@);
        } else {
            match resolve_spec(scope_view(pre.scope_table@), h) {
                Some(client) => {
                    if exists|i: int| 0 <= i < ws.len() && (#[trigger] ws[i].address@) == client {
                        let i = choose|i: int|
                            0 <= i < ws.len() && (#[trigger] ws[i].address@) == client
                                && mailbox_extended(pre, post, i, forward_hop(m));
                        assert(forall|k: int|
                            0 <= k < ws.len() ==> (#[trigger] post.workers@[k].address@)
                                == ws[k].address@);
                    }
                },
                None => {},
            }
        }
    }
}

/// The position of the oldest envelope whose payload equals `wanted`.
fn find_payload(mailbox: &Vec<TransportMessage>, wanted: &Vec<u8>) -> (r: Option<usize>)
    ensures
        match r {
            Some(j) => j < mailbox@.len() && mailbox@[j as int]@.payload == wanted@ && forall|
                k: int,
            | 0 <= k < j ==> (#[trigger] mailbox@[k]@).payload != wanted@,
            None => forall|k: int|
                0 <= k < mailbox@.len() ==> (#[trigger] mailbox@[k]@).payload != wanted@,
        },
{
    let mut j: usize = 0;
    while j < mailbox.len()
        invariant
            j <= mailbox@.len(),
            forall|k: int| 0 <= k < j ==> (#[trigger] mailbox@[k]@).payload != wanted@,
        decreases mailbox@.len() - j,
    {
        if bytes_eq(&mailbox[j].payload, wanted) {
            return Some(j);
        }
        j = j + 1;
    }
    None
}

/// The first worker able to take a scheduling turn: unread mail and
/// not an application endpoint.
pub open spec fn first_processable(ws: Seq<WorkerView>) -> Option<int>
    decreases ws.len(),
{
    if ws.len() == 0 {
        None
    } else if ws[0].mailbox.len() > 0 && !(ws[0].state is App) {
        Some(0)
    } else {
        match first_processable(ws.drop_first()) {
            Some(i) => Some(i + 1),
            None => None,
        }
    }
}

/// The first index with a turn to take is the first processable one.
pub proof fn lemma_first_processable_some(ws: Seq<WorkerView>, i: int)
    requires
        0 <= i < ws.len(),
        ws[i].mailbox.len() > 0,
        !(ws[i].state is App),
        forall|j: int| 0 <= j < i ==> (#[trigger] ws[j].mailbox).len() == 0 || (ws[j].state is App),
    ensures
        first_processable(ws) == Some(i),
    decreases i,
{
    if i > 0 {
        lemma_first_processable_some(ws.drop_first(), i - 1);
    }
}

/// With no worker holding a turn there is nothing processable.
pub proof fn lemma_first_processable_none(ws: Seq<WorkerView>)
    requires
        forall|j: int|
            0 <= j < ws.len() ==> (#[trigger] ws[j].mailbox).len() == 0 || (ws[j].state is App),
    ensures
        first_processable(ws) is None,
    decreases ws.len(),
{
    if ws.len() > 0 {
        lemma_first_processable_none(ws.drop_first());
    }
}

/// `n` with fault `e` surfaced at the supervision point.
pub open spec fn record_fault(n: NodeView, e: NodeError) -> NodeView {
    NodeView { faults: n.faults.push(e), ..n }
}

/// Starting a spawned worker; an address conflict becomes a fault.
pub open spec fn start_or_fault(n: NodeView, a: AddressView, st: WorkerStateView) -> NodeView {
    let sr = start_spec(n, a, st);
    match sr.1 {
        Ok(u) => sr.0,
        Err(e) => record_fault(n, e),
    }
}

/// Starting every spawned worker in order.
pub open spec fn apply_spawns(n: NodeView, spawns: Seq<(AddressView, WorkerStateView)>) -> NodeView
    decreases spawns.len(),
{
    if spawns.len() == 0 {
        n
    } else {
        apply_spawns(start_or_fault(n, spawns[0].0, spawns[0].1), spawns.drop_first())
    }
}

/// Tearing down every listed worker in order.
pub open spec fn apply_stops(n: NodeView, stops: Seq<AddressView>) -> NodeView
    decreases stops.len(),
{
    if stops.len() == 0 {
        n
    } else {
        apply_stops(stop_spec(n, stops[0]).0, stops.drop_first())
    }
}

/// Routing one outcome envelope; a routing failure becomes a fault,
/// never a silent drop.
pub open spec fn deliver_or_fault(n: NodeView, m: TransportMessageView) -> NodeView {
    let dr = deliver_to(n, m);
    match dr.1 {
        Ok(u) => dr.0,
        Err(e) => record_fault(n, e),
    }
}

/// Routing every outcome envelope in order.
pub open spec fn apply_sends(n: NodeView, sends: Seq<TransportMessageView>) -> NodeView
    decreases sends.len(),
{
    if sends.len() == 0 {
        n
    } else {
        apply_sends(deliver_or_fault(n, sends[0]), sends.drop_first())
    }
}

/// Surfacing the handler's own fault, if any.
pub open spec fn apply_fault(n: NodeView, fault: Option<NodeError>) -> NodeView {
    match fault {
        Some(e) => record_fault(n, e),
        None => n,
    }
}

/// Applying one handler outcome to node `n`, the processed worker
/// having been taken out at `idx` with `mailbox` left unread: the next
/// state is installed (or the worker stays stopped), spawns are
/// started, stops torn down, envelopes routed, and the fault surfaced.
pub open spec fn apply_outcome(
    n: NodeView,
    idx: int,
    address: AddressView,
    mailbox: Seq<TransportMessageView>,
    o: HandlerOutcomeView,
) -> NodeView {
    let n1 = match o.state {
        Some(stv) => NodeView {
            workers: n.workers.insert(idx, WorkerView { address, state: stv, mailbox }),
            ..n
        },
        None => n,
    };
    apply_fault(apply_sends(apply_stops(apply_spawns(n1, o.spawns), o.stops), o.sends), o.fault)
}

/// One cooperative scheduling step, as a function on node values: the
/// first processable worker consumes its oldest message, its role
/// handler decides the outcome — minting fresh internal addresses and
/// touching the vault exactly as the handlers' own contracts say — and
/// the outcome is applied. A quiescent node is a fixpoint.
pub open spec fn step_spec(n: NodeView) -> NodeView {
    match first_processable(n.workers) {
        None => n,
        Some(i) => {
            let w = n.workers[i];
            let m = w.mailbox[0];
            let rest = w.mailbox.drop_first();
            let n0 = NodeView { workers: n.workers.remove(i), ..n };
            match w.state {
                WorkerStateView::App => n,
                WorkerStateView::Listener(st) => {
                    let mr = mint_spec(n0);
                    apply_outcome(mr.0, i, w.address, rest, listener_spec(st, m, mr.1))
                },
                WorkerStateView::Responder(st) => {
                    if st.identity_handle >= n0.secrets.len() {
                        apply_outcome(
                            n0,
                            i,
                            w.address,
                            rest,
                            outcome_stopped(NodeError::WorkerFault),
                        )
                    } else {
                        let mr = mint_spec(n0);
                        let o = crate::channel::responder_spec(
                            st,
                            w.address,
                            m,
                            mr.0.secrets,
                            mr.0.vault_counter,
                            mr.1,
                        );
                        let n2 = if kex_verified(m.payload, KEX1_TAG) {
                            NodeView {
                                secrets: mr.0.secrets.push(
                                    Vault::derived_secret(mr.0.vault_counter),
                                ),
                                vault_counter: add64(mr.0.vault_counter, 1),
                                ..mr.0
                            }
                        } else {
                            mr.0
                        };
                        apply_outcome(n2, i, w.address, rest, o)
                    }
                },
                WorkerStateView::Initiator(st) => {
                    if st.ephemeral_handle >= n0.secrets.len() {
                        apply_outcome(
                            n0,
                            i,
                            w.address,
                            rest,
                            outcome_stopped(NodeError::WorkerFault),
                        )
                    } else {
                        apply_outcome(n0, i, w.address, rest, initiator_spec(st, m, n0.secrets))
                    }
                },
                WorkerStateView::Encryptor(st) => apply_outcome(
                    n0,
                    i,
                    w.address,
                    rest,
                    encryptor_spec(st, w.address, m),
                ),
                WorkerStateView::Decryptor(st) => apply_outcome(
                    n0,
                    i,
                    w.address,
                    rest,
                    decryptor_spec(st, m),
                ),
            }
        },
    }
}

/// `k` scheduling steps from `n`.
pub open spec fn steps_iter(n: NodeView, k: nat) -> NodeView
    decreases k,
{
    if k == 0 {
        n
    } else {
        steps_iter(step_spec(n), (k - 1) as nat)
    }
}

/// Iterating one more step is stepping the iterate.
pub proof fn lemma_steps_iter_snoc(n: NodeView, k: nat)
    ensures
        steps_iter(n, k + 1) == step_spec(steps_iter(n, k)),
    decreases k,
{
    if k == 0 {
        assert(steps_iter(n, 1) == steps_iter(step_spec(n), 0));
        assert(steps_iter(step_spec(n), 0) == step_spec(n));
    } else {
        lemma_steps_iter_snoc(step_spec(n), (k - 1) as nat);
        assert(steps_iter(n, k + 1) == steps_iter(step_spec(n), k));
        assert(steps_iter(n, k) == steps_iter(step_spec(n), (k - 1) as nat));
    }
}

/// Whether scope `scope` services address `a`, per [`scope_matches`].
pub fn scope_matches_exec(scope: &Address, a: &Address) -> (r: bool)
    ensures
        r == scope_matches(scope@, a@),
{
    if scope.tt != a.tt {
        return false;
    }
    if scope.data.len() > a.data.len() {
        return false;
    }
    let mut i: usize = 0;
    while i < scope.data.len()
        invariant
            i <= scope.data@.len(),
            scope.data@.len() <= a.data@.len(),
            forall|j: int| 0 <= j < i ==> a.data@[j] == scope.data@[j],
        decreases scope.data@.len() - i,
    {
        if a.data[i] != scope.data[i] {
            proof {
                assert(a.data@.subrange(0, scope.data@.len() as int)[i as int] != scope.data@[
                i as int]);
            }
            return false;
        }
        i = i + 1;
    }
    proof {
        assert(a.data@.subrange(0, scope.data@.len() as int) =~= scope.data@);
    }
    true
}

impl Node {
    /// A fresh node: no workers, no registrations, an empty vault.
    pub fn new() -> (r: Node)
        ensures
            r.workers@.len() == 0,
            wf_registry(r.workers@),
            r.scope_table@.len() == 0,
            r.vault.secrets@.len() == 0,
            r.counter == 0,
            r.faults@.len() == 0,
    {
        Node {
            workers: Vec::new(),
            scope_table: Vec::new(),
            vault: Vault::new(),
            counter: 0,
            faults: Vec::new(),
        }
    }

    /// The index of the worker owning `address`, if any.
    fn find_worker(&self, address: &Address) -> (r: Option<usize>)
        ensures
            match r {
                Some(i) => i < self.workers@.len() && self.workers@[i as int].address@ == address@
                    && forall|j: int| 0 <= j < i ==> self.workers@[j].address@ != address@,
                None => forall|j: int|
                    0 <= j < self.workers@.len() ==> self.workers@[j].address@ != address@,
            },
            match r {
                Some(i) => first_owner(self@.workers, address@) == Some(i as int),
                None => first_owner(self@.workers, address@) is None,
            },
    {
        let mut i: usize = 0;
        while i < self.workers.len()
            invariant
                i <= self.workers@.len(),
                forall|j: int| 0 <= j < i ==> self.workers@[j].address@ != address@,
            decreases self.workers@.len() - i,
        {
            if self.workers[i].address.same_as(address) {
                proof {
                    assert(forall|j: int|
                        0 <= j < i ==> self@.workers[j].address != address@);
                    lemma_first_owner_some(self@.workers, address@, i as int);
                }
                return Some(i);
            }
            i = i + 1;
        }
        proof {
            assert(forall|j: int|
                0 <= j < self@.workers.len() ==> self@.workers[j].address != address@);
            lemma_first_owner_none(self@.workers, address@);
        }
        None
    }

    /// Whether `address` is currently routable to a worker.
    pub fn is_routable(&self, address: &Address) -> (r: bool)
        ensures
            r == exists|i: int|
                0 <= i < self.workers@.len() && (#[trigger] self.workers@[i].address@) == address@,
    {
        match self.find_worker(address) {
            Some(i) => {
                proof {
                    assert(self.workers@[i as int].address@ == address@);
                }
                true
            },
            None => false,
        }
    }

    /// Starts a worker, binding `address` exclusively to it; an address
    /// already bound is a resource conflict and nothing changes.
    pub fn start_worker(&mut self, address: Address, state: WorkerState) -> (r: Result<
        (),
        NodeError,
    >)
        ensures
            match r {
                Err(e) => {
                    &&& e == NodeError::RegistrationConflict
                    &&& exists|i: int|
                        0 <= i < old(self).workers@.len() && (#[trigger] old(self).workers@[i].address@) == address@
                    &&& *final(self) == *old(self)
                },
                Ok(()) => {
                    &&& forall|i: int|
                        0 <= i < old(self).workers@.len() ==> (#[trigger] old(self).workers@[i].address@) != address@
                    &&& final(self).workers@.len() == old(self).workers@.len() + 1
                    &&& forall|i: int|
                        0 <= i < old(self).workers@.len() ==> final(self).workers@[i] == old(self).workers@[i]
                    &&& final(self).workers@.last().address@ == address@
                    &&& final(self).workers@.last().state == state
                    &&& final(self).workers@.last().mail_view() == Seq::<
                        TransportMessageView,
                    >::empty()
                    &&& same_but_workers(*old(self), *final(self))
                },
            },
            wf_registry(old(self).workers@) ==> wf_registry(final(self).workers@),
            ({
                let sr = start_spec(old(self)@, address@, state@);
                final(self)@ == sr.0 && r == sr.1
            }),
    {
        match self.find_worker(&address) {
            Some(i) => {
                proof {
                    assert(self.workers@[i as int].address@ == address@);
                }
                Err(NodeError::RegistrationConflict)
            },
            None => {
                let w = Worker { address, state, mailbox: Vec::new() };
                proof {
                    assert(w.mail_view() =~= Seq::<TransportMessageView>::empty());
                }
                let ghost pre = self.workers@;
                let ghost prenode = *self;
                let ghost wv = w@;
                self.workers.push(w);
                proof {
                    assert(self@.workers =~= prenode@.workers.push(wv));
                    assert(self@ =~= start_spec(prenode@, wv.address, wv.state).0);
                    if wf_registry(pre) {
                        assert forall|i: int, j: int| 0 <= i < j < self.workers@.len() implies (
                        #[trigger] self.workers@[i].address@) != (#[trigger] self.workers@[
                        j].address@) by {
                            if j < pre.len() {
                                assert(self.workers@[i] == pre[i] && self.workers@[j] == pre[j]);
                            } else {
                                assert(self.workers@[i] == pre[i]);
                            }
                        }
                    }
                }
                Ok(())
            },
        }
    }

    /// Tears down the worker bound to `address`, removing the binding;
    /// its shutdown releases the role's resources. Returns whether a
    /// worker was bound.
    pub fn stop_worker(&mut self, address: &Address) -> (r: bool)
        ensures
            !r ==> *final(self) == *old(self) && forall|i: int|
                0 <= i < old(self).workers@.len() ==> (#[trigger] old(self).workers@[i].address@)
                    != address@,
            r ==> exists|i: int|
                {
                    &&& 0 <= i < old(self).workers@.len()
                    &&& (#[trigger] old(self).workers@[i].address@) == address@
                    &&& final(self).workers@ == old(self).workers@.remove(i)
                } && same_but_workers(*old(self), *final(self)),
            wf_registry(old(self).workers@) ==> wf_registry(final(self).workers@),
            ({
                let sp = stop_spec(old(self)@, address@);
                final(self)@ == sp.0 && r == sp.1
            }),
    {
        match self.find_worker(address) {
            Some(i) => {
                proof {
                    assert(self.workers@[i as int].address@ == address@);
                }
                let ghost pre = self.workers@;
                let ghost prenode = *self;
                let _w = self.workers.remove(i);
                proof {
                    assert(self@.workers =~= prenode@.workers.remove(i as int));
                    assert(self@ =~= stop_spec(prenode@, address@).0);
                    if wf_registry(pre) {
                        assert forall|a: int, b: int| 0 <= a < b < self.workers@.len() implies (
                        #[trigger] self.workers@[a].address@) != (#[trigger] self.workers@[
                        b].address@) by {
                            let a0: int = if a < i { a } else { a + 1 };
                            let b0: int = if b < i { b } else { b + 1 };
                            assert(self.workers@[a] == pre[a0] && self.workers@[b] == pre[b0]);
                        }
                    }
                }
                true
            },
            None => false,
        }
    }

    /// Registers `self_addr` as the client servicing scope `accepts`:
    /// additive, last registration winning per scope, no side effect
    /// beyond the mapping update.
    pub fn register(&mut self, accepts: Address, self_addr: Address)
        ensures
            scope_view(final(self).scope_table@) == register_spec(
                scope_view(old(self).scope_table@),
                accepts@,
                self_addr@,
            ),
            final(self).workers == old(self).workers,
            final(self).vault == old(self).vault,
            final(self).counter == old(self).counter,
            final(self).faults == old(self).faults,
    {
        let ghost pred = other_scopes(accepts@);
        let ghost oldview = scope_view(self.scope_table@);
        let mut kept: Vec<(Address, Address)> = Vec::new();
        let mut i: usize = 0;
        while i < self.scope_table.len()
            invariant
                i <= self.scope_table@.len(),
                pred == other_scopes(accepts@),
                oldview == scope_view(self.scope_table@),
                scope_view(kept@) == scope_view(self.scope_table@).subrange(0, i as int).filter(
                    pred,
                ),
            decreases self.scope_table@.len() - i,
        {
            let ghost prefix = scope_view(self.scope_table@).subrange(0, i as int);
            let ghost entry_view = (self.scope_table@[i as int].0@, self.scope_table@[i as int].1@);
            proof {
                assert(scope_view(self.scope_table@).subrange(0, i as int + 1) =~= prefix.push(
                    entry_view,
                ));
                lemma_filter_push(prefix, pred, entry_view);
            }
            if !self.scope_table[i].0.same_as(&accepts) {
                let e = (self.scope_table[i].0.duplicate(), self.scope_table[i].1.duplicate());
                let ghost kv = scope_view(kept@);
                kept.push(e);
                proof {
                    assert(scope_view(kept@) =~= kv.push(entry_view));
                }
            }
            i = i + 1;
        }
        proof {
            assert(scope_view(self.scope_table@).subrange(
                0,
                self.scope_table@.len() as int,
            ) =~= scope_view(self.scope_table@));
        }
        let ghost kv = scope_view(kept@);
        let ghost av = accepts@;
        let ghost sv = self_addr@;
        kept.push((accepts, self_addr));
        self.scope_table = kept;
        proof {
            assert(scope_view(self.scope_table@) =~= kv.push((av, sv)));
        }
    }

    /// The registered client servicing `address`, if any: the most
    /// recent matching scope wins.
    fn resolve_scope(&self, address: &Address) -> (r: Option<Address>)
        ensures
            match r {
                Some(c) => resolve_spec(scope_view(self.scope_table@), address@) == Some(c@),
                None => resolve_spec(scope_view(self.scope_table@), address@) is None,
            },
    {
        let ghost t = scope_view(self.scope_table@);
        let mut i: usize = self.scope_table.len();
        proof {
            assert(t.subrange(0, i as int) =~= t);
        }
        while i > 0
            invariant
                i <= self.scope_table@.len(),
                t == scope_view(self.scope_table@),
                resolve_spec(t, address@) == resolve_spec(t.subrange(0, i as int), address@),
            decreases i,
        {
            i = i - 1;
            proof {
                assert(t.subrange(0, i as int + 1).last() == (self.scope_table@[i as int].0@,
                self.scope_table@[i as int].1@));
                assert(t.subrange(0, i as int + 1).drop_last() =~= t.subrange(0, i as int));
            }
            if scope_matches_exec(&self.scope_table[i].0, address) {
                return Some(self.scope_table[i].1.duplicate());
            }
        }
        proof {
            assert(t.subrange(0, 0) =~= Seq::<(AddressView, AddressView)>::empty());
        }
        None
    }

    /// Routes one envelope per the routing contract: direct ownership
    /// of the head wins and the worker receives the remainder; else the
    /// last matching accept scope receives it after one forwarding step;
    /// else the message fails with a routing error — never a silent
    /// drop.
    pub fn deliver(&mut self, msg: TransportMessage) -> (r: Result<(), NodeError>)
        ensures
            delivered_spec(*old(self), *final(self), msg@, r),
            ({
                let dr = deliver_to(old(self)@, msg@);
                final(self)@ == dr.0 && r == dr.1
            }),
            wf_registry(old(self).workers@) ==> wf_registry(final(self).workers@),
    {
        let ghost pre = *self;
        let ghost mv = msg@;
        if msg.onward_route.len() == 0 {
            return Err(NodeError::RoutingError);
        }
        let mut m = msg;
        let direct = self.find_worker(m.onward_route.head());
        match direct {
            Some(i) => {
                let _head = m.onward_route.pop_head();
                let mut w = self.workers.remove(i);
                let ghost wmail = w.mail_view();
                w.mailbox.push(m);
                proof {
                    assert(w.mail_view() =~= wmail.push(
                        TransportMessageView {
                            onward_route: mv.onward_route.drop_first(),
                            return_route: mv.return_route,
                            payload: mv.payload,
                        },
                    ));
                }
                self.workers.insert(i, w);
                proof {
                    assert(forall|j: int|
                        0 <= j < pre.workers@.len() && j != i ==> self.workers@[j]
                            == pre.workers@[j]);
                    assert(mailbox_extended(
                        pre,
                        *self,
                        i as int,
                        TransportMessageView {
                            onward_route: mv.onward_route.drop_first(),
                            return_route: mv.return_route,
                            payload: mv.payload,
                        },
                    ));
                    assert(delivered_spec(pre, *self, mv, Ok::<(), NodeError>(())));
                    assert(self@.workers =~= push_mail(
                        pre@,
                        i as int,
                        TransportMessageView {
                            onward_route: mv.onward_route.drop_first(),
                            return_route: mv.return_route,
                            payload: mv.payload,
                        },
                    ).workers);
                    assert(self@ =~= deliver_to(pre@, mv).0);
                    if wf_registry(pre.workers@) {
                        lemma_delivered_preserves_wf(pre, *self, mv, Ok::<(), NodeError>(()));
                    }
                }
                Ok(())
            },
            None => {
                let resolved = self.resolve_scope(m.onward_route.head());
                match resolved {
                    Some(client) => {
                        match self.find_worker(&client) {
                            Some(i) => {
                                let head = m.onward_route.pop_head();
                                let fwd = TransportMessage {
                                    onward_route: m.onward_route,
                                    return_route: m.return_route.prepend(head),
                                    payload: m.payload,
                                };
                                proof {
                                    assert(fwd@ =~= forward_hop(mv));
                                }
                                let mut w = self.workers.remove(i);
                                let ghost wmail = w.mail_view();
                                w.mailbox.push(fwd);
                                proof {
                                    assert(w.mail_view() =~= wmail.push(forward_hop(mv)));
                                }
                                self.workers.insert(i, w);
                                proof {
                                    assert(forall|j: int|
                                        0 <= j < pre.workers@.len() && j != i ==> self.workers@[j]
                                            == pre.workers@[j]);
                                    assert(mailbox_extended(pre, *self, i as int, forward_hop(mv)));
                                    assert(delivered_spec(pre, *self, mv, Ok::<(), NodeError>(())));
                                    assert(self@.workers =~= push_mail(
                                        pre@,
                                        i as int,
                                        forward_hop(mv),
                                    ).workers);
                                    assert(self@ =~= deliver_to(pre@, mv).0);
                                    if wf_registry(pre.workers@) {
                                        lemma_delivered_preserves_wf(
                                            pre,
                                            *self,
                                            mv,
                                            Ok::<(), NodeError>(()),
                                        );
                                    }
                                }
                                Ok(())
                            },
                            None => Err(NodeError::RoutingError),
                        }
                    },
                    None => Err(NodeError::RoutingError),
                }
            },
        }
    }

    /// Builds a fresh envelope for `payload` addressed by `route`, the
    /// return route seeded with `sender`, and routes it. Acceptance by
    /// the router is what the call reports; end-to-end delivery is
    /// asynchronous.
    pub fn send(&mut self, route: Route, sender: Address, payload: Vec<u8>) -> (r: Result<
        (),
        NodeError,
    >)
        ensures
            delivered_spec(
                *old(self),
                *final(self),
                TransportMessageView {
                    onward_route: route@,
                    return_route: seq![sender@],
                    payload: payload@,
                },
                r,
            ),
            wf_registry(old(self).workers@) ==> wf_registry(final(self).workers@),
    {
        let msg = TransportMessage::new(route, sender, payload);
        self.deliver(msg)
    }

    /// A router-role worker's handling of its control messages: `Route`
    /// forwards one envelope; `Register` binds an accept scope.
    pub fn handle_router_message(&mut self, rm: RouterMessage) -> (r: Result<(), NodeError>)
        ensures
            match rm {
                RouterMessage::Route(m) => delivered_spec(*old(self), *final(self), m@, r),
                RouterMessage::Register { accepts, self_addr } => {
                    &&& r == Ok::<(), NodeError>(())
                    &&& scope_view(final(self).scope_table@) == register_spec(
                        scope_view(old(self).scope_table@),
                        accepts@,
                        self_addr@,
                    )
                    &&& final(self).workers == old(self).workers
                    &&& final(self).vault == old(self).vault
                    &&& final(self).counter == old(self).counter
                    &&& final(self).faults == old(self).faults
                },
            },
    {
        match rm {
            RouterMessage::Route(m) => self.deliver(m),
            RouterMessage::Register { accepts, self_addr } => {
                self.register(accepts, self_addr);
                Ok(())
            },
        }
    }

    /// Mints a fresh internal address for a spawned channel worker.
    fn fresh_internal(&mut self) -> (r: Address)
        ensures
            r@ == (AddressView { tt: 1u8, data: u64_le_bytes(old(self).counter) }),
            ({
                let mr = mint_spec(old(self)@);
                final(self)@ == mr.0 && r@ == mr.1
            }),
            final(self).counter == add64(old(self).counter, 1),
            final(self).workers == old(self).workers,
            final(self).scope_table == old(self).scope_table,
            final(self).vault == old(self).vault,
            final(self).faults == old(self).faults,
    {
        let mut data: Vec<u8> = Vec::new();
        push_u64_le(&mut data, self.counter);
        self.counter = wrap_add64(self.counter, 1);
        proof {
            assert(data@ =~= u64_le_bytes(old(self).counter));
            assert(self@ =~= mint_spec(old(self)@).0);
        }
        Address { tt: 1, data }
    }

    /// Creates an identity whose secret never leaves the vault.
    pub fn create_identity(&mut self) -> (r: Identity)
        ensures
            r.handle == old(self).vault.secrets@.len(),
            r.public_key == crate::vault::pk(Vault::derived_secret(old(self).vault.counter)),
            final(self).vault.secrets@ == old(self).vault.secrets@.push(
                Vault::derived_secret(old(self).vault.counter),
            ),
            final(self).workers == old(self).workers,
            final(self).scope_table == old(self).scope_table,
            final(self).counter == old(self).counter,
            final(self).faults == old(self).faults,
    {
        let (handle, public_key) = self.vault.generate_ephemeral_keypair();
        Identity { handle, public_key }
    }

    /// Creates a mutually authenticated secure channel listener at
    /// `address`, answering as `identity`. Fails with a registration
    /// conflict if the address is bound, and with a worker fault on a
    /// stale identity handle.
    pub fn create_secure_channel_listener(&mut self, address: Address, identity: &Identity) -> (r:
        Result<(), NodeError>)
        ensures
            identity.handle >= old(self).vault.secrets@.len() ==> r == Err::<(), NodeError>(
                NodeError::WorkerFault,
            ) && *final(self) == *old(self),
            identity.handle < old(self).vault.secrets@.len() ==> match r {
                Err(e) => {
                    &&& e == NodeError::RegistrationConflict
                    &&& exists|i: int|
                        0 <= i < old(self).workers@.len() && (#[trigger] old(self).workers@[i].address@) == address@
                    &&& *final(self) == *old(self)
                },
                Ok(()) => {
                    &&& final(self).workers@.len() == old(self).workers@.len() + 1
                    &&& forall|i: int|
                        0 <= i < old(self).workers@.len() ==> final(self).workers@[i] == old(self).workers@[i]
                    &&& final(self).workers@.last().address@ == address@
                    &&& final(self).workers@.last().state matches WorkerState::Listener(l)
                        && l.identity_handle == identity.handle && l.identity_pub
                        == identity.public_key
                    &&& same_but_workers(*old(self), *final(self))
                },
            },
            wf_registry(old(self).workers@) ==> wf_registry(final(self).workers@),
    {
        if identity.handle >= self.vault.secrets.len() {
            return Err(NodeError::WorkerFault);
        }
        let st = ListenerState {
            identity_handle: identity.handle,
            identity_pub: identity.public_key,
        };
        self.start_worker(address, WorkerState::Listener(st))
    }

    /// Creates a mutually authenticated secure channel over `route`,
    /// whose far end must reach a listener, and drives the handshake to
    /// completion: the initiator walks `Idle` through `KeyExchangeSent`
    /// and `Authenticating` to `Established`, and only then is the
    /// channel's address returned, bound to its encrypting worker. A
    /// failed handshake — the peer's proof rejected, its refusal
    /// notified back, or no answer at all — abandons the whole attempt:
    /// the pending initiator is torn down, no channel address becomes
    /// routable, and the exact failure recorded at the supervision
    /// point is returned to the caller.
    pub fn create_secure_channel(&mut self, route: Route, identity: &Identity) -> (r: Result<
        Address,
        NodeError,
    >)
        ensures
            identity.handle >= old(self).vault.secrets@.len() ==> r == Err::<Address, NodeError>(
                NodeError::WorkerFault,
            ) && *final(self) == *old(self),
            identity.handle < old(self).vault.secrets@.len() && route@.len() == 0 ==> r
                == Err::<Address, NodeError>(NodeError::RoutingError) && *final(self) == *old(self),
            r matches Ok(a) ==> a@ == (AddressView {
                tt: 1u8,
                data: u64_le_bytes(add64(old(self).counter, 1)),
            }),
            ({
                let reserved = AddressView {
                    tt: 1u8,
                    data: u64_le_bytes(add64(old(self).counter, 1)),
                };
                let dec_v = AddressView { tt: 1u8, data: u64_le_bytes(old(self).counter) };
                let fresh_free = forall|i: int|
                    0 <= i < old(self).workers@.len() ==> (#[trigger] old(self).workers@[i].address@) != reserved && old(self).workers@[i].address@ != dec_v;
                (wf_registry(old(self).workers@) && identity.handle < old(self).vault.secrets@.len() && route@.len() > 0 && fresh_free) ==> {
                    &&& ((r is Ok) <==> exists|i: int|
                        0 <= i < final(self).workers@.len() && (#[trigger] final(self).workers@[i].address@) == reserved && (final(self).workers@[i].state
                            is Encryptor))
                    &&& (r matches Err(e) ==> e == NodeError::RoutingError || exists|k: int|
                        old(self).faults@.len() <= k < final(self).faults@.len() && final(self).faults@[k] == e)
                }
            }),
            wf_registry(old(self).workers@) ==> wf_registry(final(self).workers@),
    {
        if identity.handle >= self.vault.secrets.len() {
            return Err(NodeError::WorkerFault);
        }
        if route.len() == 0 {
            return Err(NodeError::RoutingError);
        }
        let ghost reserved = AddressView {
            tt: 1u8,
            data: u64_le_bytes(add64(old(self).counter, 1)),
        };
        let ghost dec_v = AddressView { tt: 1u8, data: u64_le_bytes(old(self).counter) };
        proof {
            lemma_u64_le_round_trip(old(self).counter);
            lemma_u64_le_round_trip(add64(old(self).counter, 1));
            assert(add64(old(self).counter, 1) != old(self).counter);
            assert(reserved != dec_v);
        }
        let faults_before = self.faults.len();
        let decryptor_addr = self.fresh_internal();
        let dec_probe = decryptor_addr.duplicate();
        let encryptor_addr = self.fresh_internal();
        let (eph_handle, e_pub) = self.vault.generate_ephemeral_keypair();
        let proof_sig = self.vault.sign(identity.handle, e_pub);
        let kex = Kex { id_pub: identity.public_key, e_pub, proof_sig };
        let payload = encode_kex(KEX1_TAG, &kex);
        let st = InitiatorState {
            identity_handle: identity.handle,
            identity_pub: identity.public_key,
            ephemeral_handle: eph_handle,
            encryptor_addr: encryptor_addr.duplicate(),
        };
        match self.start_worker(decryptor_addr.duplicate(), WorkerState::Initiator(st)) {
            Ok(()) => {},
            Err(e) => {
                proof {
                    // the decryptor address was already bound, so the
                    // minted addresses were not free of prior bindings
                    assert(exists|i: int|
                        0 <= i < old(self).workers@.len() && (#[trigger] old(self).workers@[i].address@) == dec_v);
                }
                return Err(e);
            },
        }
        let ghost mid = *self;
        let msg = TransportMessage::new(route, decryptor_addr, payload);
        let ghost mv = msg@;
        match self.deliver(msg) {
            Ok(()) => {},
            Err(e) => {
                // routing refused the initiation: tear the pending
                // initiator down, leaving no partial channel
                let ghost at_err = *self;
                let removed = self.stop_worker(&dec_probe);
                proof {
                    if forall|i: int|
                        0 <= i < old(self).workers@.len() ==> (#[trigger] old(self).workers@[i].address@) != reserved && old(self).workers@[i].address@
                            != dec_v {
                        assert(at_err == mid);
                        assert(forall|i: int|
                            0 <= i < mid.workers@.len() ==> (#[trigger] mid.workers@[i].address@)
                                != reserved) by {
                            assert(forall|i: int|
                                0 <= i < old(self).workers@.len() ==> mid.workers@[i] == old(self).workers@[i]);
                            assert(mid.workers@.last().address@ == dec_v);
                        }
                        if removed {
                            let ri = choose|ri: int|
                                {
                                    &&& 0 <= ri < at_err.workers@.len()
                                    &&& (#[trigger] at_err.workers@[ri].address@) == dec_probe@
                                    &&& self.workers@ == at_err.workers@.remove(ri)
                                };
                            at_err.workers@.remove_ensures(ri);
                            assert(forall|j: int|
                                0 <= j < self.workers@.len() ==> (#[trigger] self.workers@[
                                j].address@) != reserved);
                        }
                    }
                }
                return Err(NodeError::RoutingError);
            },
        }
        let _steps = self.run_steps(65536);
        let established = match self.find_worker(&encryptor_addr) {
            Some(i) => match &self.workers[i].state {
                WorkerState::Encryptor(_) => true,
                _ => false,
            },
            None => false,
        };
        if established {
            return Ok(encryptor_addr);
        }
        // the handshake did not establish: abandon the attempt — tear
        // down the pending initiator and surface the recorded failure
        let ghost at_check = *self;
        proof {
            if wf_registry(old(self).workers@) {
                // no established channel sits at the reserved address:
                // its first owner, if any, is not an encryptor, and
                // exclusive binding makes it the only owner
                assert(forall|j: int|
                    0 <= j < at_check.workers@.len() ==> !((#[trigger] at_check.workers@[
                    j].address@) == reserved && (at_check.workers@[j].state is Encryptor)));
            }
        }
        let removed = self.stop_worker(&dec_probe);
        proof {
            if wf_registry(old(self).workers@) && removed {
                let ri = choose|ri: int|
                    {
                        &&& 0 <= ri < at_check.workers@.len()
                        &&& (#[trigger] at_check.workers@[ri].address@) == dec_probe@
                        &&& self.workers@ == at_check.workers@.remove(ri)
                    };
                at_check.workers@.remove_ensures(ri);
                assert(forall|j: int|
                    0 <= j < self.workers@.len() ==> !((#[trigger] self.workers@[j].address@)
                        == reserved && (self.workers@[j].state is Encryptor)));
            }
        }
        proof {
            assert(old(self).faults@.len() == faults_before as int);
        }
        if faults_before < self.faults.len() {
            let e = self.faults[faults_before];
            return Err(e);
        }
        self.faults.push(NodeError::WorkerFault);
        proof {
            assert(self.faults@.last() == NodeError::WorkerFault);
            assert(old(self).faults@.len() <= self.faults@.len() - 1 < self.faults@.len());
        }
        Err(NodeError::WorkerFault)
    }

    /// Pops the oldest unread envelope delivered to `address`, the
    /// application's blocking receive made explicit. Nothing comes back
    /// only when no worker owns the address or the owner's mailbox is
    /// empty.
    pub fn receive(&mut self, address: &Address) -> (r: Option<TransportMessage>)
        ensures
            match r {
                Some(m) => exists|i: int|
                    {
                        &&& 0 <= i < old(self).workers@.len()
                        &&& (#[trigger] old(self).workers@[i].address@) == address@
                        &&& old(self).workers@[i].mail_view().len() > 0
                        &&& m@ == old(self).workers@[i].mail_view()[0]
                        &&& final(self).workers@.len() == old(self).workers@.len()
                        &&& forall|j: int|
                            0 <= j < old(self).workers@.len() && j != i ==> final(self).workers@[j] == old(self).workers@[j]
                        &&& final(self).workers@[i].address == old(self).workers@[i].address
                        &&& final(self).workers@[i].state == old(self).workers@[i].state
                        &&& final(self).workers@[i].mail_view() == old(self).workers@[i].mail_view().drop_first()
                    } && same_but_workers(*old(self), *final(self)),
                None => *final(self) == *old(self) && forall|i: int|
                    (0 <= i < old(self).workers@.len() && (#[trigger] old(self).workers@[i].address@) == address@ && (forall|j: int|
                        0 <= j < i ==> old(self).workers@[j].address@ != address@)) ==> old(self).workers@[i].mail_view().len() == 0,
            },
            wf_registry(old(self).workers@) ==> wf_registry(final(self).workers@),
    {
        let ghost pre = *self;
        match self.find_worker(address) {
            Some(i) => {
                if self.workers[i].mailbox.len() == 0 {
                    return None;
                }
                let mut w = self.workers.remove(i);
                let ghost wmail = w.mail_view();
                let m = w.mailbox.remove(0);
                proof {
                    assert(w.mail_view() =~= wmail.drop_first());
                }
                self.workers.insert(i, w);
                proof {
                    assert(forall|j: int|
                        0 <= j < pre.workers@.len() && j != i ==> self.workers@[j]
                            == pre.workers@[j]);
                    if wf_registry(pre.workers@) {
                        assert(forall|k: int|
                            0 <= k < pre.workers@.len() ==> (#[trigger] self.workers@[k].address@)
                                == pre.workers@[k].address@);
                    }
                }
                Some(m)
            },
            None => None,
        }
    }

    /// The blocking receive with a predicate made explicit: pops the
    /// oldest envelope delivered to `address` whose payload equals
    /// `wanted`, leaving every other message in order. Nothing comes
    /// back only when no worker owns the address or no envelope with
    /// the wanted payload sits in the owner's mailbox.
    pub fn receive_matching(&mut self, address: &Address, wanted: &Vec<u8>) -> (r: Option<
        TransportMessage,
    >)
        ensures
            match r {
                Some(m) => m@.payload == wanted@ && exists|i: int|
                    {
                        &&& 0 <= i < old(self).workers@.len()
                        &&& (#[trigger] old(self).workers@[i].address@) == address@
                        &&& exists|j: int|
                            {
                                &&& 0 <= j < old(self).workers@[i].mail_view().len()
                                &&& m@ == old(self).workers@[i].mail_view()[j]
                                &&& forall|k: int|
                                    0 <= k < j ==> (#[trigger] old(self).workers@[
                                    i].mail_view()[k]).payload != wanted@
                                &&& final(self).workers@[i].mail_view() == old(self).workers@[
                                i].mail_view().remove(j)
                            }
                        &&& final(self).workers@.len() == old(self).workers@.len()
                        &&& forall|k: int|
                            0 <= k < old(self).workers@.len() && k != i ==> final(self).workers@[k]
                                == old(self).workers@[k]
                        &&& final(self).workers@[i].address == old(self).workers@[i].address
                        &&& final(self).workers@[i].state == old(self).workers@[i].state
                    } && same_but_workers(*old(self), *final(self)),
                None => *final(self) == *old(self) && forall|i: int|
                    (0 <= i < old(self).workers@.len() && (#[trigger] old(self).workers@[i].address@) == address@ && (forall|j: int|
                        0 <= j < i ==> old(self).workers@[j].address@ != address@)) ==> forall|
                        k: int,
                    |
                        0 <= k < old(self).workers@[i].mail_view().len() ==> (#[trigger] old(self).workers@[i].mail_view()[k]).payload != wanted@,
            },
            wf_registry(old(self).workers@) ==> wf_registry(final(self).workers@),
    {
        let ghost pre = *self;
        let i = match self.find_worker(address) {
            Some(i) => i,
            None => {
                return None;
            },
        };
        let j = match find_payload(&self.workers[i].mailbox, wanted) {
            Some(j) => j,
            None => {
                return None;
            },
        };
        let mut w = self.workers.remove(i);
        let ghost wmail = w.mail_view();
        let m = w.mailbox.remove(j);
        proof {
            assert(w.mail_view() =~= wmail.remove(j as int));
        }
        self.workers.insert(i, w);
        proof {
            assert(forall|k: int|
                0 <= k < pre.workers@.len() && k != i ==> self.workers@[k] == pre.workers@[k]);
            if wf_registry(pre.workers@) {
                assert(forall|k: int|
                    0 <= k < pre.workers@.len() ==> (#[trigger] self.workers@[k].address@)
                        == pre.workers@[k].address@);
            }
        }
        Some(m)
    }

    /// Runs one cooperative scheduling step, exactly [`step_spec`]: the
    /// first non-application worker with unread mail processes its
    /// oldest message with exclusive access to its own state, and the
    /// outcome — next state or stop-with-shutdown, routed envelopes,
    /// spawned and torn down workers, surfaced fault — is applied.
    /// Returns whether any worker had mail to process; a false return
    /// leaves the node unchanged, a quiescent fixpoint.
    #[verifier::rlimit(100)]
    pub fn step(&mut self) -> (r: bool)
        ensures
            final(self)@ == step_spec(old(self)@),
            !r ==> *final(self) == *old(self),
            r == exists|i: int|
                0 <= i < old(self).workers@.len() && (#[trigger] old(self).workers@[i].mail_view()).len() > 0 && !(old(self).workers@[i].state is App),
            final(self).scope_table == old(self).scope_table,
            old(self).faults@.is_prefix_of(final(self).faults@),
            wf_registry(old(self).workers@) ==> wf_registry(final(self).workers@),
    {
        let mut i: usize = 0;
        let mut found: Option<usize> = None;
        while i < self.workers.len()
            invariant_except_break
                found is None,
            invariant
                i <= self.workers@.len(),
                found matches Some(k) ==> k < self.workers@.len() && self.workers@[
                    k as int].mail_view().len() > 0 && !(self.workers@[k as int].state is App) && (
                forall|j: int|
                    0 <= j < k ==> (#[trigger] self.workers@[j].mail_view()).len() == 0 || (
                    self.workers@[j].state is App)),
                found is None ==> forall|j: int|
                    0 <= j < i ==> (#[trigger] self.workers@[j].mail_view()).len() == 0 || (
                    self.workers@[j].state is App),
            ensures
                found is None ==> forall|j: int|
                    0 <= j < self.workers@.len() ==> (#[trigger] self.workers@[
                    j].mail_view()).len() == 0 || (self.workers@[j].state is App),
            decreases self.workers@.len() - i,
        {
            let has_mail = self.workers[i].mailbox.len() > 0;
            let processable = match &self.workers[i].state {
                WorkerState::App => false,
                _ => true,
            };
            if has_mail && processable {
                found = Some(i);
                break;
            }
            i = i + 1;
        }
        proof {
            assert(forall|j: int|
                0 <= j < self.workers@.len() ==> (#[trigger] self@.workers[j]) == self.workers@[
                j]@);
            assert(forall|j: int|
                0 <= j < self.workers@.len() ==> ((#[trigger] self.workers@[j].state is App) <==> (
                self@.workers[j].state is App)));
        }
        let idx = match found {
            Some(k) => k,
            None => {
                proof {
                    assert(forall|j: int|
                        0 <= j < self@.workers.len() ==> (#[trigger] self@.workers[
                        j].mailbox).len() == 0 || (self@.workers[j].state is App));
                    lemma_first_processable_none(self@.workers);
                }
                return false;
            },
        };
        proof {
            assert(forall|j: int|
                0 <= j < idx ==> (#[trigger] self@.workers[j].mailbox).len() == 0 || (
                self@.workers[j].state is App));
            lemma_first_processable_some(self@.workers, idx as int);
        }
        let ghost orig = self@;
        let ghost wv = self@.workers[idx as int];
        let ghost pre_ws = self.workers@;
        let mut w = self.workers.remove(idx);
        proof {
            assert(self@.workers =~= orig.workers.remove(idx as int));
            assert(self@ =~= (NodeView { workers: orig.workers.remove(idx as int), ..orig }));
            if wf_registry(pre_ws) {
                assert forall|a: int, b: int| 0 <= a < b < self.workers@.len() implies (
                #[trigger] self.workers@[a].address@) != (#[trigger] self.workers@[b].address@) by {
                    let a0: int = if a < idx { a } else { a + 1 };
                    let b0: int = if b < idx { b } else { b + 1 };
                    assert(self.workers@[a] == pre_ws[a0] && self.workers@[b] == pre_ws[b0]);
                }
            }
        }
        proof {
            assert(w@ == wv);
        }
        let m = w.mailbox.remove(0);
        proof {
            assert(m@ == wv.mailbox[0]);
            assert(w.mail_view() =~= wv.mailbox.drop_first());
        }
        let Worker { address, state, mailbox } = w;
        let ghost mbv = wv.mailbox.drop_first();
        let outcome: HandlerOutcome = match state {
            WorkerState::App => {
                proof {
                    assert(wv.state is App);
                    assert(false);
                }
                let mut mb = mailbox;
                mb.insert(0, m);
                self.workers.insert(idx, Worker { address, state: WorkerState::App, mailbox: mb });
                return true;
            },
            WorkerState::Listener(st) => {
                let responder_addr = self.fresh_internal();
                listener_handle(st, m, responder_addr)
            },
            WorkerState::Responder(st) => {
                if st.identity_handle >= self.vault.secrets.len() {
                    let o = HandlerOutcome {
                        state: None,
                        sends: Vec::new(),
                        spawns: Vec::new(),
                        stops: Vec::new(),
                        fault: Some(NodeError::WorkerFault),
                    };
                    proof {
                        assert(o@ =~= outcome_stopped(NodeError::WorkerFault));
                    }
                    o
                } else {
                    let encryptor_addr = self.fresh_internal();
                    responder_handle(st, &address, m, &mut self.vault, encryptor_addr)
                }
            },
            WorkerState::Initiator(st) => {
                if st.ephemeral_handle >= self.vault.secrets.len() {
                    let o = HandlerOutcome {
                        state: None,
                        sends: Vec::new(),
                        spawns: Vec::new(),
                        stops: Vec::new(),
                        fault: Some(NodeError::WorkerFault),
                    };
                    proof {
                        assert(o@ =~= outcome_stopped(NodeError::WorkerFault));
                    }
                    o
                } else {
                    initiator_handle(st, m, &mut self.vault)
                }
            },
            WorkerState::Encryptor(st) => encryptor_handle(st, &address, m),
            WorkerState::Decryptor(st) => decryptor_handle(st, m),
        };
        let ghost ov = outcome@;
        let ghost pre_apply = self@;
        proof {
            assert(step_spec(orig) == apply_outcome(pre_apply, idx as int, address@, mbv, ov));
        }
        let HandlerOutcome { state: next_state, mut sends, mut spawns, mut stops, fault } = outcome;
        match next_state {
            Some(s) => {
                let ghost sv = s@;
                self.workers.insert(idx, Worker { address, state: s, mailbox });
                proof {
                    assert(self@.workers =~= pre_apply.workers.insert(
                        idx as int,
                        WorkerView { address: wv.address, state: sv, mailbox: mbv },
                    ));
                    assert(self@ =~= (NodeView {
                        workers: pre_apply.workers.insert(
                            idx as int,
                            WorkerView { address: wv.address, state: sv, mailbox: mbv },
                        ),
                        ..pre_apply
                    }));
                    if wf_registry(pre_ws) {
                        assert(forall|k: int|
                            0 <= k < pre_ws.len() ==> (#[trigger] self.workers@[k].address@)
                                == pre_ws[k].address@);
                    }
                }
            },
            None => {
                // the worker stops: shutdown has run, the binding is gone
            },
        }
        let ghost base1 = self@;
        proof {
            assert(base1 == (match ov.state {
                Some(stv) => NodeView {
                    workers: pre_apply.workers.insert(
                        idx as int,
                        WorkerView { address: wv.address, state: stv, mailbox: mbv },
                    ),
                    ..pre_apply
                },
                None => pre_apply,
            }));
            assert(spawns@.map_values(|p: (Address, WorkerState)| (p.0@, p.1@)) == ov.spawns);
        }
        while spawns.len() > 0
            invariant
                self.scope_table == old(self).scope_table,
                old(self).faults@.is_prefix_of(self.faults@),
                wf_registry(old(self).workers@) ==> wf_registry(self.workers@),
                apply_spawns(
                    self@,
                    spawns@.map_values(|p: (Address, WorkerState)| (p.0@, p.1@)),
                ) == apply_spawns(base1, ov.spawns),
            decreases spawns@.len(),
        {
            let ghost before = self@;
            let ghost rem = spawns@.map_values(|p: (Address, WorkerState)| (p.0@, p.1@));
            let (a, s) = spawns.remove(0);
            proof {
                assert(rem[0] == (a@, s@));
                assert(spawns@.map_values(|p: (Address, WorkerState)| (p.0@, p.1@))
                    =~= rem.drop_first());
            }
            match self.start_worker(a, s) {
                Ok(()) => {},
                Err(e) => {
                    self.faults.push(e);
                },
            }
            proof {
                assert(self@ =~= start_or_fault(before, rem[0].0, rem[0].1));
                assert(apply_spawns(before, rem) == apply_spawns(
                    start_or_fault(before, rem[0].0, rem[0].1),
                    rem.drop_first(),
                ));
            }
        }
        proof {
            assert(spawns@.map_values(|p: (Address, WorkerState)| (p.0@, p.1@)) =~= Seq::<
                (AddressView, WorkerStateView),
            >::empty());
            assert(self@ == apply_spawns(base1, ov.spawns));
        }
        let ghost base2 = self@;
        proof {
            assert(stops@.map_values(|a2: Address| a2@) == ov.stops);
        }
        while stops.len() > 0
            invariant
                self.scope_table == old(self).scope_table,
                old(self).faults@.is_prefix_of(self.faults@),
                wf_registry(old(self).workers@) ==> wf_registry(self.workers@),
                apply_stops(self@, stops@.map_values(|a2: Address| a2@)) == apply_stops(
                    base2,
                    ov.stops,
                ),
            decreases stops@.len(),
        {
            let ghost before = self@;
            let ghost rem = stops@.map_values(|a2: Address| a2@);
            let a = stops.remove(0);
            proof {
                assert(rem[0] == a@);
                assert(stops@.map_values(|a2: Address| a2@) =~= rem.drop_first());
            }
            let _ = self.stop_worker(&a);
            proof {
                assert(self@ == stop_spec(before, rem[0]).0);
                assert(apply_stops(before, rem) == apply_stops(
                    stop_spec(before, rem[0]).0,
                    rem.drop_first(),
                ));
            }
        }
        proof {
            assert(stops@.map_values(|a2: Address| a2@) =~= Seq::<AddressView>::empty());
            assert(self@ == apply_stops(base2, ov.stops));
        }
        let ghost base3 = self@;
        proof {
            assert(sends@.map_values(|m2: TransportMessage| m2@) == ov.sends);
        }
        while sends.len() > 0
            invariant
                self.scope_table == old(self).scope_table,
                old(self).faults@.is_prefix_of(self.faults@),
                wf_registry(old(self).workers@) ==> wf_registry(self.workers@),
                apply_sends(self@, sends@.map_values(|m2: TransportMessage| m2@)) == apply_sends(
                    base3,
                    ov.sends,
                ),
            decreases sends@.len(),
        {
            let ghost before = self@;
            let ghost rem = sends@.map_values(|m2: TransportMessage| m2@);
            let sm = sends.remove(0);
            proof {
                assert(rem[0] == sm@);
                assert(sends@.map_values(|m2: TransportMessage| m2@) =~= rem.drop_first());
            }
            match self.deliver(sm) {
                Ok(()) => {},
                Err(e) => {
                    self.faults.push(e);
                },
            }
            proof {
                assert(self@ =~= deliver_or_fault(before, rem[0]));
                assert(apply_sends(before, rem) == apply_sends(
                    deliver_or_fault(before, rem[0]),
                    rem.drop_first(),
                ));
            }
        }
        proof {
            assert(sends@.map_values(|m2: TransportMessage| m2@) =~= Seq::<
                TransportMessageView,
            >::empty());
            assert(self@ == apply_sends(base3, ov.sends));
        }
        match fault {
            Some(e) => {
                let ghost before = self@;
                self.faults.push(e);
                proof {
                    assert(self@ =~= record_fault(before, e));
                }
            },
            None => {},
        }
        proof {
            assert(self@ == apply_fault(apply_sends(base3, ov.sends), ov.fault));
            assert(self@ == apply_outcome(pre_apply, idx as int, address@, mbv, ov));
        }
        true
    }

    /// Runs scheduling steps until the node is quiescent or `limit`
    /// steps have run, whichever is first: the final state is reached
    /// by exactly the returned number of [`step_spec`] transitions, and
    /// fewer than `limit` ran only once no non-application worker has
    /// mail left to process.
    pub fn run_steps(&mut self, limit: usize) -> (used: usize)
        ensures
            used <= limit,
            final(self)@ == steps_iter(old(self)@, used as nat),
            used < limit ==> forall|j: int|
                0 <= j < final(self).workers@.len() ==> (#[trigger] final(self).workers@[j].mail_view()).len() == 0 || (final(self).workers@[j].state is App),
            final(self).scope_table == old(self).scope_table,
            old(self).faults@.is_prefix_of(final(self).faults@),
            wf_registry(old(self).workers@) ==> wf_registry(final(self).workers@),
    {
        let mut used: usize = 0;
        while used < limit
            invariant
                used <= limit,
                self@ == steps_iter(old(self)@, used as nat),
                self.scope_table == old(self).scope_table,
                old(self).faults@.is_prefix_of(self.faults@),
                wf_registry(old(self).workers@) ==> wf_registry(self.workers@),
            decreases limit - used,
        {
            proof {
                lemma_steps_iter_snoc(old(self)@, used as nat);
            }
            if !self.step() {
                return used;
            }
            used = used + 1;
        }
        used
    }
}

} // verus!
