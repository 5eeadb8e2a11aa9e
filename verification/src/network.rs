//! The round-based network simulator: per-node links with in/out buffers,
//! a transit list of packets tagged with their remaining latency, and an
//! optional per-pair latency matrix.

use crate::rng::{range_draw, range_ops, SimRng};
use vstd::prelude::*;

verus! {

/// A message in flight from `sender` to `receiver`.
#[derive(Clone, Copy, Debug)]
pub struct Packet<M> {
    pub sender: usize,
    pub receiver: usize,
    pub content: M,
}

/// The buffers of one node: packets delivered to it (`in_buffer`) and
/// packets it has queued for sending (`out_buffer`).
pub struct Link<M> {
    pub id: usize,
    pub in_buffer: Vec<Packet<M>>,
    pub out_buffer: Vec<Packet<M>>,
}

/// The mathematical value of a `Link`: the same data with sequences in
/// place of vectors.
#[verifier::ext_equal]
pub ghost struct LinkV<M> {
    pub id: usize,
    pub in_buffer: Seq<Packet<M>>,
    pub out_buffer: Seq<Packet<M>>,
}

impl<M> View for Link<M> {
    type V = LinkV<M>;

    open spec fn view(&self) -> LinkV<M> {
        LinkV { id: self.id, in_buffer: self.in_buffer@, out_buffer: self.out_buffer@ }
    }
}

impl<M> Link<M> {
    /// Every packet a node has queued for sending names that node as its
    /// sender.
    pub open spec fn wf(&self) -> bool {
        forall|k: int|
            0 <= k < self.out_buffer@.len() ==> (#[trigger] self.out_buffer@[k]).sender == self.id
    }

    /// A fresh link with both buffers empty.
    pub fn new(id: usize) -> (link: Link<M>)
        ensures
            link@.id == id,
            link@.in_buffer == Seq::<Packet<M>>::empty(),
            link@.out_buffer == Seq::<Packet<M>>::empty(),
            link.wf(),
    {
        Link { id, in_buffer: Vec::new(), out_buffer: Vec::new() }
    }

    /// Queue a message for sending; the packet's sender is this link's id.
    pub fn enqueue(&mut self, receiver: usize, message: M)
        ensures
            final(self)@.id == old(self)@.id,
            final(self)@.in_buffer == old(self)@.in_buffer,
            final(self)@.out_buffer == old(self)@.out_buffer.push(
                Packet { sender: old(self)@.id, receiver, content: message },
            ),
            old(self).wf() ==> final(self).wf(),
    {
        let sender = self.id;
        self.out_buffer.push(Packet { sender, receiver, content: message });
    }

    /// Take every packet that has been delivered to this node, in arrival
    /// order, leaving the incoming buffer empty.
    pub fn empty_buffer(&mut self) -> (mail: Vec<Packet<M>>)
        ensures
            mail@ == old(self)@.in_buffer,
            final(self)@.id == old(self)@.id,
            final(self)@.in_buffer == Seq::<Packet<M>>::empty(),
            final(self)@.out_buffer == old(self)@.out_buffer,
            old(self).wf() ==> final(self).wf(),
    {
        let mut mail: Vec<Packet<M>> = Vec::new();
        core::mem::swap(&mut mail, &mut self.in_buffer);
        mail
    }
}

/// The simulated network: one link per node, a transit list of packets
/// tagged with their remaining latency, and an optional latency matrix.
/// `latencies == None` means the network is synchronous: every packet is
/// delivered on the exchange after it was sent.
pub struct Network<M> {
    pub links: Vec<Link<M>>,
    pub packets: Vec<(usize, Packet<M>)>,
    pub latencies: Option<Vec<Vec<usize>>>,
}

/// The mathematical value of a `Network`.
#[verifier::ext_equal]
pub ghost struct NetworkV<M> {
    pub links: Seq<LinkV<M>>,
    pub transit: Seq<(usize, Packet<M>)>,
    pub latencies: Option<Seq<Seq<usize>>>,
}

impl<M> View for Network<M> {
    type V = NetworkV<M>;

    open spec fn view(&self) -> NetworkV<M> {
        NetworkV {
            links: Seq::new(self.links@.len(), |i: int| self.links@[i]@),
            transit: self.packets@,
            latencies: net_lat_view(self),
        }
    }
}

/// Both endpoints of a packet are node ids of this network.
pub open spec fn pkt_ids_ok<M>(p: Packet<M>, node_count: int) -> bool {
    p.sender < node_count && p.receiver < node_count
}

/// A well-formed network: link `i` carries id `i`, every buffered or
/// in-transit packet names existing nodes as its endpoints, every queued
/// outgoing packet names its own node as sender, and the latency matrix,
/// if there is one, is square with one row per node.
pub open spec fn net_wf<M>(n: NetworkV<M>) -> bool {
    let count = n.links.len() as int;
    &&& forall|i: int|
        0 <= i < count ==> (#[trigger] n.links[i]).id == i
    &&& forall|i: int, k: int|
        0 <= i < count && 0 <= k < n.links[i].out_buffer.len() ==> {
            let p = #[trigger] n.links[i].out_buffer[k];
            pkt_ids_ok(p, count) && p.sender == i
        }
    &&& forall|i: int, k: int|
        0 <= i < count && 0 <= k < n.links[i].in_buffer.len() ==> pkt_ids_ok(
            #[trigger] n.links[i].in_buffer[k],
            count,
        ) && n.links[i].in_buffer[k].receiver == i
    &&& forall|k: int|
        0 <= k < n.transit.len() ==> pkt_ids_ok((#[trigger] n.transit[k]).1, count)
    &&& match n.latencies {
        Some(l) => l.len() == count && forall|i: int|
            0 <= i < count ==> (#[trigger] l[i]).len() == count,
        None => true,
    }
}

/// The latency matrix as the view sees it.
pub open spec fn net_lat_view<M>(net: &Network<M>) -> Option<Seq<Seq<usize>>> {
    match net.latencies {
        Some(l) => Some(rows_view(l@)),
        None => None,
    }
}

/// The latency matrix, if any, is square with one row per link.
pub open spec fn lat_wf_exec<M>(net: &Network<M>) -> bool {
    match net.latencies {
        Some(l) => l@.len() == net.links@.len() && forall|i: int|
            0 <= i < l@.len() ==> (#[trigger] l@[i])@.len() == net.links@.len(),
        None => true,
    }
}

/// A network whose view is well-formed has a square latency matrix.
pub proof fn lemma_lat_wf_exec<M>(net: &Network<M>)
    requires
        net_wf(net@),
    ensures
        lat_wf_exec(net),
{
    match net.latencies {
        Some(l) => {
            assert(net@.latencies == Some(rows_view(l@)));
            assert forall|i: int| 0 <= i < l@.len() implies (#[trigger] l@[i])@.len()
                == net.links@.len() by {
                assert(rows_view(l@)[i] == l@[i]@);
            }
        },
        None => {},
    }
}

/// The latency the network assigns to a packet: the matrix entry for its
/// sender/receiver pair, or zero for a synchronous network.
pub open spec fn spec_latency<M>(n: NetworkV<M>, p: Packet<M>) -> usize {
    match n.latencies {
        Some(l) => l[p.sender as int][p.receiver as int],
        None => 0,
    }
}

/// How many latency draws precede the draw for matrix cell `(i, j)` when
/// the off-diagonal cells of an `n` by `n` matrix are drawn in row-major
/// order.
pub open spec fn lat_draw_index(i: int, j: int, n: int) -> int {
    i * (n - 1) + if j < i {
        j
    } else {
        j - 1
    }
}

/// The latency matrix drawn from a generator seeded with `seed`: zero on
/// the diagonal, and one uniform draw below `max` for every off-diagonal
/// cell, in row-major order.
pub open spec fn latency_matrix(seed: u64, n: int, max: usize) -> Seq<Seq<usize>> {
    Seq::new(
        n as nat,
        |i: int|
            Seq::new(
                n as nat,
                |j: int|
                    if i == j {
                        0usize
                    } else {
                        range_draw(seed, range_ops(lat_draw_index(i, j, n), max), max)
                    },
            ),
    )
}

/// A square latency matrix with zero diagonal and all entries below `max`
/// (or at zero when `max` is zero, which only happens for a single node,
/// where no draw is ever made).
pub open spec fn lat_matrix_wf(l: Seq<Seq<usize>>, n: int, max: usize) -> bool {
    &&& l.len() == n
    &&& forall|i: int| 0 <= i < n ==> (#[trigger] l[i]).len() == n
    &&& forall|i: int| 0 <= i < n ==> (#[trigger] l[i])[i] == 0
    &&& forall|i: int, j: int|
        0 <= i < n && 0 <= j < n && i != j ==> (#[trigger] l[i][j]) < max
}

/// The packets of one outgoing buffer, each tagged with the latency the
/// network assigns to it.
pub open spec fn tagged_out<M>(n: NetworkV<M>, out: Seq<Packet<M>>) -> Seq<(usize, Packet<M>)> {
    Seq::new(out.len(), |j: int| (spec_latency(n, out[j]), out[j]))
}

/// What the outgoing buffers of links `0..k` contribute to the transit
/// list, in node-id order.
pub open spec fn collected_transit<M>(n: NetworkV<M>, k: int) -> Seq<(usize, Packet<M>)>
    decreases k,
{
    if k <= 0 {
        Seq::empty()
    } else {
        collected_transit(n, k - 1) + tagged_out(n, n.links[k - 1].out_buffer)
    }
}

/// The network after the collection phase: every outgoing buffer is
/// empty and its packets stand at the end of the transit list, tagged
/// with their latencies, in node-id order.
pub open spec fn collect_spec<M>(n: NetworkV<M>) -> NetworkV<M> {
    NetworkV {
        links: Seq::new(
            n.links.len(),
            |i: int|
                LinkV {
                    id: n.links[i].id,
                    in_buffer: n.links[i].in_buffer,
                    out_buffer: Seq::empty(),
                },
        ),
        transit: n.transit + collected_transit(n, n.links.len() as int),
        latencies: n.latencies,
    }
}

/// The packets of the transit list that are delivered to node `i` this
/// round, in transit order: exactly those whose latency has run out.
pub open spec fn delivered_to<M>(transit: Seq<(usize, Packet<M>)>, i: int) -> Seq<Packet<M>>
    decreases transit.len(),
{
    if transit.len() == 0 {
        Seq::empty()
    } else {
        let prev = delivered_to(transit.drop_last(), i);
        let e = transit.last();
        if e.0 == 0 && e.1.receiver == i {
            prev.push(e.1)
        } else {
            prev
        }
    }
}

/// The transit list one round later: undelivered packets in their
/// original order, each one round closer to delivery.
pub open spec fn aged<M>(transit: Seq<(usize, Packet<M>)>) -> Seq<(usize, Packet<M>)>
    decreases transit.len(),
{
    if transit.len() == 0 {
        Seq::empty()
    } else {
        let prev = aged(transit.drop_last());
        let e = transit.last();
        if e.0 > 0 {
            prev.push(((e.0 - 1) as usize, e.1))
        } else {
            prev
        }
    }
}

/// The network after the delivery phase.
pub open spec fn deliver_spec<M>(n: NetworkV<M>) -> NetworkV<M> {
    NetworkV {
        links: Seq::new(
            n.links.len(),
            |i: int|
                LinkV {
                    id: n.links[i].id,
                    in_buffer: n.links[i].in_buffer + delivered_to(n.transit, i),
                    out_buffer: n.links[i].out_buffer,
                },
        ),
        transit: aged(n.transit),
        latencies: n.latencies,
    }
}

/// One full exchange: collection, then delivery.
pub open spec fn exchange_spec<M>(n: NetworkV<M>) -> NetworkV<M> {
    deliver_spec(collect_spec(n))
}

/// Every packet delivered to node `i` was in transit with latency zero,
/// is addressed to `i`, and satisfies any property that held of every
/// packet in transit.
pub proof fn lemma_delivered_to_pred<M>(
    transit: Seq<(usize, Packet<M>)>,
    i: int,
    pred: spec_fn(Packet<M>) -> bool,
)
    requires
        forall|t: int| 0 <= t < transit.len() ==> pred((#[trigger] transit[t]).1),
    ensures
        forall|k: int|
            0 <= k < delivered_to(transit, i).len() ==> pred(
                #[trigger] delivered_to(transit, i)[k],
            ) && delivered_to(transit, i)[k].receiver == i,
    decreases transit.len(),
{
    if transit.len() > 0 {
        assert(forall|t: int|
            0 <= t < transit.drop_last().len() ==> pred((#[trigger] transit.drop_last()[t]).1));
        lemma_delivered_to_pred(transit.drop_last(), i, pred);
        let prev = delivered_to(transit.drop_last(), i);
        let e = transit.last();
        assert(pred(transit[transit.len() - 1].1));
        assert forall|k: int| 0 <= k < delivered_to(transit, i).len() implies pred(
            #[trigger] delivered_to(transit, i)[k],
        ) && delivered_to(transit, i)[k].receiver == i by {
            if e.0 == 0 && e.1.receiver == i {
                assert(delivered_to(transit, i) == prev.push(e.1));
                if k < prev.len() {
                    assert(delivered_to(transit, i)[k] == prev[k]);
                } else {
                    assert(delivered_to(transit, i)[k] == e.1);
                }
            } else {
                assert(delivered_to(transit, i) == prev);
                assert(delivered_to(transit, i)[k] == prev[k]);
            }
        }
    }
}

/// Every aged transit entry carries a packet that was in transit, with
/// any property of the packets in transit preserved.
pub proof fn lemma_aged_pred<M>(transit: Seq<(usize, Packet<M>)>, pred: spec_fn(Packet<M>) -> bool)
    requires
        forall|t: int| 0 <= t < transit.len() ==> pred((#[trigger] transit[t]).1),
    ensures
        forall|k: int| 0 <= k < aged(transit).len() ==> pred((#[trigger] aged(transit)[k]).1),
    decreases transit.len(),
{
    if transit.len() > 0 {
        assert(forall|t: int|
            0 <= t < transit.drop_last().len() ==> pred((#[trigger] transit.drop_last()[t]).1));
        lemma_aged_pred(transit.drop_last(), pred);
        let prev = aged(transit.drop_last());
        let e = transit.last();
        assert(pred(transit[transit.len() - 1].1));
        assert forall|k: int| 0 <= k < aged(transit).len() implies pred(
            (#[trigger] aged(transit)[k]).1,
        ) by {
            if e.0 > 0 {
                assert(aged(transit) == prev.push(((e.0 - 1) as usize, e.1)));
                if k < prev.len() {
                    assert(aged(transit)[k] == prev[k]);
                } else {
                    assert(aged(transit)[k] == ((e.0 - 1) as usize, e.1));
                }
            } else {
                assert(aged(transit) == prev);
                assert(aged(transit)[k] == prev[k]);
            }
        }
    }
}

/// Every packet that collection moves into transit comes out of some
/// outgoing buffer, so any property of all queued outgoing packets holds
/// of it.
pub proof fn lemma_collected_pred<M>(n: NetworkV<M>, k: int, pred: spec_fn(Packet<M>) -> bool)
    requires
        0 <= k <= n.links.len(),
        forall|i: int, j: int|
            0 <= i < k && 0 <= j < n.links[i].out_buffer.len() ==> pred(
                #[trigger] n.links[i].out_buffer[j],
            ),
    ensures
        forall|e: int|
            0 <= e < collected_transit(n, k).len() ==> pred(
                (#[trigger] collected_transit(n, k)[e]).1,
            ),
    decreases k,
{
    if k > 0 {
        lemma_collected_pred(n, k - 1, pred);
        let out = n.links[k - 1].out_buffer;
        assert forall|e: int| 0 <= e < collected_transit(n, k).len() implies pred(
            (#[trigger] collected_transit(n, k)[e]).1,
        ) by {
            let prev = collected_transit(n, k - 1);
            if e >= prev.len() {
                assert(collected_transit(n, k)[e] == tagged_out(n, out)[e - prev.len()]);
                assert(pred(out[e - prev.len()]));
            }
        }
    }
}

/// `pred` holds of every packet anywhere in the network: in transit, in
/// an incoming buffer, or in an outgoing buffer.
pub open spec fn all_packets<M>(n: NetworkV<M>, pred: spec_fn(Packet<M>) -> bool) -> bool {
    &&& forall|k: int| 0 <= k < n.transit.len() ==> pred((#[trigger] n.transit[k]).1)
    &&& forall|i: int, k: int|
        0 <= i < n.links.len() && 0 <= k < n.links[i].in_buffer.len() ==> pred(
            #[trigger] n.links[i].in_buffer[k],
        )
    &&& forall|i: int, k: int|
        0 <= i < n.links.len() && 0 <= k < n.links[i].out_buffer.len() ==> pred(
            #[trigger] n.links[i].out_buffer[k],
        )
}

/// An exchange only moves packets around, so a property of every packet
/// in the network is kept.
pub proof fn lemma_exchange_preserves<M>(n: NetworkV<M>, pred: spec_fn(Packet<M>) -> bool)
    requires
        all_packets(n, pred),
    ensures
        all_packets(exchange_spec(n), pred),
{
    let count = n.links.len() as int;
    let c = collect_spec(n);
    lemma_collected_pred(n, count, pred);
    assert forall|k: int| 0 <= k < c.transit.len() implies pred((#[trigger] c.transit[k]).1) by {
        if k >= n.transit.len() {
            let e = k - n.transit.len();
            assert(c.transit[k] == collected_transit(n, count)[e]);
            assert(pred(collected_transit(n, count)[e].1));
        }
    }
    let d = deliver_spec(c);
    lemma_aged_pred(c.transit, pred);
    assert forall|k: int| 0 <= k < d.transit.len() implies pred((#[trigger] d.transit[k]).1) by {
        assert(pred(aged(c.transit)[k].1));
    }
    assert forall|i: int, k: int|
        0 <= i < d.links.len() && 0 <= k < d.links[i].in_buffer.len() implies pred(
        #[trigger] d.links[i].in_buffer[k],
    ) by {
        lemma_delivered_to_pred(c.transit, i, pred);
        if k >= c.links[i].in_buffer.len() {
            let e = k - c.links[i].in_buffer.len();
            assert(d.links[i].in_buffer[k] == delivered_to(c.transit, i)[e]);
            assert(pred(delivered_to(c.transit, i)[e]));
        } else {
            assert(d.links[i].in_buffer[k] == n.links[i].in_buffer[k]);
        }
    }
}

/// Collection keeps a network well-formed.
pub proof fn lemma_collect_wf<M>(n: NetworkV<M>)
    requires
        net_wf(n),
    ensures
        net_wf(collect_spec(n)),
{
    let count = n.links.len() as int;
    let pred = |p: Packet<M>| pkt_ids_ok(p, count);
    lemma_collected_pred(n, count, pred);
    let c = collect_spec(n);
    assert forall|k: int| 0 <= k < c.transit.len() implies pkt_ids_ok(
        (#[trigger] c.transit[k]).1,
        c.links.len() as int,
    ) by {
        if k >= n.transit.len() {
            let e = k - n.transit.len();
            assert(c.transit[k] == collected_transit(n, count)[e]);
            assert(pred(collected_transit(n, count)[e].1));
        }
    }
}

/// Delivery keeps a network well-formed.
pub proof fn lemma_deliver_wf<M>(n: NetworkV<M>)
    requires
        net_wf(n),
    ensures
        net_wf(deliver_spec(n)),
{
    let d = deliver_spec(n);
    let count = n.links.len() as int;
    let pred = |p: Packet<M>| pkt_ids_ok(p, count);
    lemma_aged_pred(n.transit, pred);
    assert forall|k: int| 0 <= k < d.transit.len() implies pkt_ids_ok(
        (#[trigger] d.transit[k]).1,
        count,
    ) by {
        assert(pred(aged(n.transit)[k].1));
    }
    assert forall|i: int, k: int|
        0 <= i < count && 0 <= k < d.links[i].in_buffer.len() implies pkt_ids_ok(
        #[trigger] d.links[i].in_buffer[k],
        count,
    ) && d.links[i].in_buffer[k].receiver == i by {
        lemma_delivered_to_pred(n.transit, i, pred);
        if k >= n.links[i].in_buffer.len() {
            let e = k - n.links[i].in_buffer.len();
            assert(d.links[i].in_buffer[k] == delivered_to(n.transit, i)[e]);
            assert(pred(delivered_to(n.transit, i)[e]));
        } else {
            assert(d.links[i].in_buffer[k] == n.links[i].in_buffer[k]);
        }
    }
}

/// The sequences of a vector of rows.
pub open spec fn rows_view(rows: Seq<Vec<usize>>) -> Seq<Seq<usize>> {
    Seq::new(rows.len(), |i: int| rows[i]@)
}

/// How many latency draws have been made when row-major generation
/// stands before cell `(i, j)`.
pub open spec fn draws_at(i: int, j: int, n: int) -> int {
    i * (n - 1) + if j <= i {
        j
    } else {
        j - 1
    }
}

/// One row-major pass over all off-diagonal cells, drawing each latency
/// below `max_latency`.
fn rand_latencies(link_count: usize, max_latency: usize, rng: &mut SimRng) -> (m: Vec<Vec<usize>>)
    requires
        old(rng).ops@ == Seq::<int>::empty(),
        link_count >= 2 ==> max_latency >= 1,
    ensures
        final(rng).seed == old(rng).seed,
        lat_matrix_wf(rows_view(m@), link_count as int, max_latency),
        old(rng).seed@ matches Some(s) ==> rows_view(m@) == latency_matrix(
            s,
            link_count as int,
            max_latency,
        ),
{
    let ghost seed0 = old(rng).seed@;
    let n = link_count;
    let mut m: Vec<Vec<usize>> = Vec::new();
    let mut i: usize = 0;
    proof {
        assert(range_ops(0, max_latency) =~= Seq::<int>::empty());
    }
    while i < n
        invariant
            i <= n,
            n == link_count,
            n >= 2 ==> max_latency >= 1,
            rng.seed@ == seed0,
            rng.ops@ == range_ops(i as int * (n as int - 1), max_latency),
            m@.len() == i,
            forall|r: int| 0 <= r < i ==> (#[trigger] m@[r])@.len() == n,
            forall|r: int| 0 <= r < i ==> (#[trigger] m@[r])@[r] == 0,
            forall|r: int, c: int|
                0 <= r < i && 0 <= c < n && r != c ==> (#[trigger] m@[r]@[c]) < max_latency,
            seed0 matches Some(s) ==> forall|r: int, c: int|
                0 <= r < i && 0 <= c < n && r != c ==> (#[trigger] m@[r]@[c]) == range_draw(
                    s,
                    range_ops(lat_draw_index(r, c, n as int), max_latency),
                    max_latency,
                ),
        decreases n - i,
    {
        let mut row: Vec<usize> = Vec::new();
        let mut j: usize = 0;
        while j < n
            invariant
                j <= n,
                i < n,
                n == link_count,
                n >= 2 ==> max_latency >= 1,
                rng.seed@ == seed0,
                rng.ops@ == range_ops(draws_at(i as int, j as int, n as int), max_latency),
                row@.len() == j,
                forall|c: int| 0 <= c < j && c == i ==> (#[trigger] row@[c]) == 0,
                forall|c: int| 0 <= c < j && c != i ==> (#[trigger] row@[c]) < max_latency,
                seed0 matches Some(s) ==> forall|c: int|
                    0 <= c < j && c != i ==> (#[trigger] row@[c]) == range_draw(
                        s,
                        range_ops(lat_draw_index(i as int, c, n as int), max_latency),
                        max_latency,
                    ),
            decreases n - j,
        {
            if i == j {
                row.push(0);
            } else {
                let v = rng.gen_below(max_latency);
                proof {
                    crate::rng::lemma_range_ops_push(
                        draws_at(i as int, j as int, n as int),
                        max_latency,
                    );
                }
                row.push(v);
            }
            j += 1;
        }
        proof {
            assert((i as int + 1) * (n as int - 1) == i as int * (n as int - 1) + (n as int - 1))
                by (nonlinear_arith);
        }
        m.push(row);
        i += 1;
    }
    proof {
        match seed0 {
            Some(s) => {
                assert(rows_view(m@) =~~= latency_matrix(s, link_count as int, max_latency));
            },
            None => {},
        }
    }
    m
}

impl<M> Network<M> {
    /// A network of `link_count` fresh links. An asynchronous network
    /// draws its latency matrix from a generator built from `seed`; a
    /// synchronous one delivers every packet on the next exchange.
    pub fn new(asynchronous: bool, link_count: usize, seed: Option<u64>, max_latency: usize) -> (
        net: Network<M>)
        requires
            asynchronous && link_count >= 2 ==> max_latency >= 1,
        ensures
            net_wf(net@),
            net@.links.len() == link_count,
            forall|i: int|
                0 <= i < link_count ==> (#[trigger] net@.links[i]).in_buffer == Seq::<
                    Packet<M>,
                >::empty() && net@.links[i].out_buffer == Seq::<Packet<M>>::empty(),
            net@.transit == Seq::<(usize, Packet<M>)>::empty(),
            !asynchronous ==> net@.latencies is None,
            asynchronous ==> (net@.latencies matches Some(l) && lat_matrix_wf(
                l,
                link_count as int,
                max_latency,
            )),
            seed matches Some(s) ==> (asynchronous ==> net@.latencies == Some(
                latency_matrix(s, link_count as int, max_latency),
            )),
    {
        let mut links: Vec<Link<M>> = Vec::new();
        let mut id: usize = 0;
        while id < link_count
            invariant
                id <= link_count,
                links@.len() == id,
                forall|i: int|
                    0 <= i < id ==> (#[trigger] links@[i])@.id == i && links@[i]@.in_buffer
                        == Seq::<Packet<M>>::empty() && links@[i]@.out_buffer == Seq::<
                        Packet<M>,
                    >::empty(),
            decreases link_count - id,
        {
            links.push(Link::new(id));
            id += 1;
        }
        let mut rng = SimRng::new(seed);
        let latencies = if asynchronous {
            Some(rand_latencies(link_count, max_latency, &mut rng))
        } else {
            None
        };
        Network { links, packets: Vec::new(), latencies }
    }

    /// A shared borrow of the link of node `id`.
    pub fn get_link(&self, id: usize) -> (link: &Link<M>)
        requires
            id < self@.links.len(),
        ensures
            link@ == self@.links[id as int],
    {
        &self.links[id]
    }

    /// An exclusive borrow of the link of node `id`; the rest of the
    /// network is untouched.
    pub fn get_link_ref(&mut self, id: usize) -> (link: &mut Link<M>)
        requires
            id < old(self)@.links.len(),
        ensures
            (*link)@ == old(self)@.links[id as int],
            final(self)@.links.len() == old(self)@.links.len(),
            forall|i: int|
                0 <= i < old(self)@.links.len() && i != id ==> (#[trigger] final(self)@.links[i])
                    == old(self)@.links[i],
            final(self)@.links[id as int] == final(link)@,
            final(self)@.transit == old(self)@.transit,
            final(self)@.latencies == old(self)@.latencies,
    {
        &mut self.links[id]
    }

    /// Move every packet one tick toward delivery: queued outgoing
    /// packets enter the transit list tagged with their latency, packets
    /// whose latency has run out land in their receiver's incoming
    /// buffer, and the rest age by one round.
    pub fn exchange_messages(&mut self)
        requires
            net_wf(old(self)@),
        ensures
            final(self)@ == exchange_spec(old(self)@),
            net_wf(final(self)@),
    {
        self.collect_messages();
        proof {
            lemma_collect_wf(old(self)@);
        }
        self.deliver_messages();
        proof {
            lemma_deliver_wf(collect_spec(old(self)@));
        }
    }

    /// Drain every outgoing buffer, in node-id order, into the transit
    /// list, tagging each packet with the latency of its link.
    fn collect_messages(&mut self)
        requires
            net_wf(old(self)@),
        ensures
            final(self)@ == collect_spec(old(self)@),
    {
        let ghost net0 = old(self)@;
        proof {
            lemma_lat_wf_exec(self);
        }
        let n = self.links.len();
        let mut i: usize = 0;
        proof {
            assert(self.packets@ =~= net0.transit + collected_transit(net0, 0));
            assert(forall|k: int| 0 <= k < n ==> (#[trigger] self.links@[k])@ == net0.links[k]);
        }
        while i < n
            invariant
                i <= n,
                n == self.links@.len(),
                net_wf(net0),
                n == net0.links.len(),
                lat_wf_exec(self),
                net_lat_view(self) == net0.latencies,
                self.packets@ == net0.transit + collected_transit(net0, i as int),
                forall|k: int|
                    0 <= k < i ==> (#[trigger] self.links@[k])@ == (LinkV {
                        id: net0.links[k].id,
                        in_buffer: net0.links[k].in_buffer,
                        out_buffer: Seq::<Packet<M>>::empty(),
                    }),
                forall|k: int| i <= k < n ==> (#[trigger] self.links@[k])@ == net0.links[k],
            decreases n - i,
        {
            let mut out: Vec<Packet<M>> = Vec::new();
            core::mem::swap(&mut out, &mut self.links[i].out_buffer);
            let ghost fullout = out@;
            let ghost base = self.packets@;
            let out_len = out.len();
            proof {
                assert(fullout.len() == out_len);
            }
            let mut t: usize = 0;
            proof {
                assert(out@ == net0.links[i as int].out_buffer);
                assert(base + tagged_out(net0, fullout).take(0) =~= base);
                assert(out@ =~= fullout.skip(0));
                assert(fullout.len() <= usize::MAX);
            }
            while out.len() > 0
                invariant
                    t + out@.len() == fullout.len(),
                    out@ == fullout.skip(t as int),
                    t <= fullout.len(),
                    fullout.len() <= usize::MAX,
                    net_wf(net0),
                    i < n,
                    n == net0.links.len(),
                    n == self.links@.len(),
                    fullout == net0.links[i as int].out_buffer,
                    lat_wf_exec(self),
                    net_lat_view(self) == net0.latencies,
                    self.packets@ == base + tagged_out(net0, fullout).take(t as int),
                    forall|k: int|
                        0 <= k < i ==> (#[trigger] self.links@[k])@ == (LinkV {
                            id: net0.links[k].id,
                            in_buffer: net0.links[k].in_buffer,
                            out_buffer: Seq::<Packet<M>>::empty(),
                        }),
                    self.links@[i as int]@ == (LinkV {
                        id: net0.links[i as int].id,
                        in_buffer: net0.links[i as int].in_buffer,
                        out_buffer: Seq::<Packet<M>>::empty(),
                    }),
                    forall|k: int| i < k < n ==> (#[trigger] self.links@[k])@ == net0.links[k],
                decreases out@.len(),
            {
                let p = out.remove(0);
                proof {
                    assert(p == fullout[t as int]);
                    assert(pkt_ids_ok(p, n as int));
                }
                let lat = self.get_latency(&p);
                self.packets.push((lat, p));
                proof {
                    assert(spec_latency(self@, p) == spec_latency(net0, p));
                    assert(base + tagged_out(net0, fullout).take(t as int + 1) =~= (base
                        + tagged_out(net0, fullout).take(t as int)).push(
                        (spec_latency(net0, p), p),
                    ));
                    assert(out@ =~= fullout.skip(t as int + 1));
                }
                t += 1;
            }
            proof {
                assert(tagged_out(net0, fullout).take(fullout.len() as int) =~= tagged_out(
                    net0,
                    fullout,
                ));
                assert(base + tagged_out(net0, fullout) =~= net0.transit + collected_transit(
                    net0,
                    i as int + 1,
                ));
            }
            i += 1;
        }
        proof {
            assert forall|k: int| 0 <= k < n implies self@.links[k] =~= collect_spec(
                net0,
            ).links[k] by {
                assert(self@.links[k] == self.links@[k]@);
            }
            assert(self@.links =~= collect_spec(net0).links);
            assert(self@ =~~= collect_spec(net0));
        }
    }

    /// Walk the transit list in order: packets whose latency has run out
    /// are appended to their receiver's incoming buffer; the rest stay in
    /// transit with their latency decremented by one.
    fn deliver_messages(&mut self)
        requires
            net_wf(old(self)@),
        ensures
            final(self)@ == deliver_spec(old(self)@),
    {
        let ghost net0 = old(self)@;
        let n = self.links.len();
        let mut work: Vec<(usize, Packet<M>)> = Vec::new();
        core::mem::swap(&mut work, &mut self.packets);
        let ghost full = work@;
        let work_len = work.len();
        proof {
            assert(full.len() == work_len);
        }
        let mut remaining: Vec<(usize, Packet<M>)> = Vec::new();
        let mut t: usize = 0;
        proof {
            assert(full == net0.transit);
            assert(full.len() <= usize::MAX);
            assert(remaining@ =~= aged(full.take(0)));
            assert(work@ =~= full.skip(0));
            assert forall|k: int| 0 <= k < n implies (#[trigger] self.links@[k])@ == (LinkV {
                id: net0.links[k].id,
                in_buffer: net0.links[k].in_buffer + delivered_to(full.take(0), k),
                out_buffer: net0.links[k].out_buffer,
            }) by {
                assert(delivered_to(full.take(0), k) =~= Seq::<Packet<M>>::empty());
                assert(net0.links[k].in_buffer + delivered_to(full.take(0), k)
                    =~= net0.links[k].in_buffer);
                assert(self.links@[k]@ == net0.links[k]);
            }
        }
        while work.len() > 0
            invariant
                t + work@.len() == full.len(),
                work@ == full.skip(t as int),
                t <= full.len(),
                full.len() <= usize::MAX,
                net_wf(net0),
                n == net0.links.len(),
                n == self.links@.len(),
                full == net0.transit,
                net_lat_view(self) == net0.latencies,
                self.packets@.len() == 0,
                remaining@ == aged(full.take(t as int)),
                forall|k: int|
                    0 <= k < n ==> (#[trigger] self.links@[k])@ == (LinkV {
                        id: net0.links[k].id,
                        in_buffer: net0.links[k].in_buffer + delivered_to(full.take(t as int), k),
                        out_buffer: net0.links[k].out_buffer,
                    }),
            decreases work@.len(),
        {
            let (age, message) = work.remove(0);
            proof {
                assert((age, message) == full[t as int]);
                assert(full.take(t as int + 1).drop_last() =~= full.take(t as int));
                assert(full.take(t as int + 1).last() == full[t as int]);
                assert(pkt_ids_ok(message, n as int));
                assert(work@ =~= full.skip(t as int + 1));
            }
            if age == 0 {
                let r = message.receiver;
                self.links[r].in_buffer.push(message);
                proof {
                    assert(delivered_to(full.take(t as int + 1), r as int) == delivered_to(
                        full.take(t as int),
                        r as int,
                    ).push(message));
                    assert(net0.links[r as int].in_buffer + delivered_to(
                        full.take(t as int + 1),
                        r as int,
                    ) =~= (net0.links[r as int].in_buffer + delivered_to(
                        full.take(t as int),
                        r as int,
                    )).push(message));
                    assert(forall|k: int|
                        0 <= k < n && k != r ==> delivered_to(full.take(t as int + 1), k)
                            == delivered_to(full.take(t as int), k));
                    assert(remaining@ =~= aged(full.take(t as int + 1)));
                }
            } else {
                remaining.push(((age - 1), message));
                proof {
                    assert(remaining@ =~= aged(full.take(t as int + 1)));
                    assert(forall|k: int|
                        0 <= k < n ==> delivered_to(full.take(t as int + 1), k) == delivered_to(
                            full.take(t as int),
                            k,
                        ));
                }
            }
            t += 1;
        }
        self.packets = remaining;
        proof {
            assert(full.take(full.len() as int) =~= full);
            assert forall|k: int| 0 <= k < n implies self@.links[k] =~= deliver_spec(
                net0,
            ).links[k] by {
                assert(self@.links[k] == self.links@[k]@);
            }
            assert(self@.links =~= deliver_spec(net0).links);
            assert(self@ =~~= deliver_spec(net0));
        }
    }

    /// The latency the network assigns to a packet.
    pub fn get_latency(&self, message: &Packet<M>) -> (l: usize)
        requires
            message.sender < self.links@.len(),
            message.receiver < self.links@.len(),
            lat_wf_exec(self),
        ensures
            l == spec_latency(self@, *message),
    {
        match &self.latencies {
            Some(lat) => {
                proof {
                    assert(rows_view(lat@)[message.sender as int] == lat@[message.sender as int]@);
                }
                lat[message.sender][message.receiver]
            },
            None => 0,
        }
    }
}

} // verus!
