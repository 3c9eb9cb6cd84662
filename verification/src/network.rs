//! The routed network and its discrete-time simulation.
//!
//! A `Network` owns the immutable topology (vertices, edges, packets with
//! their fixed paths) and the mutable simulation state (per-edge waiting and
//! leaving queues, capacity accumulators, the clock, and the arrival table).
//! One time step runs three phases: `determine_leaving`, `node_transitions`
//! and `packet_arrivals`, then the clock advances.  Every phase is specified
//! as a function on the mathematical view `StateV` of the network, so the
//! whole trajectory is pinned down by the initial state.

use vstd::prelude::*;
use std::collections::VecDeque;
use crate::fraction::Fraction;
use crate::fraction::{frac_le, divides};
use crate::fraction::{
    lemma_reduce_properties, lemma_reduced_divides, lemma_represents_other_form, represents,
};
use crate::heap_element::{MaxHeapElement, PriorityQueue, pops_before, best_index};
use vstd::std_specs::ops::AddSpec;
use vstd::std_specs::ops::SubSpec;

verus! {

pub type Time = usize;

pub type VertexId = usize;

pub type EdgeId = usize;

pub type PacketId = usize;

/// Largest admitted numerator or denominator of an average capacity; the
/// bound keeps the capacity accumulator arithmetic inside `i64`.
pub const CAPACITY_LIMIT: i64 = 0x4000_0000;

/// A vertex: the edges that end here and the edges that start here, in the
/// order in which the zipper considers them.
#[derive(Clone)]
pub struct Vertex {
    pub incoming_edges: Vec<EdgeId>,
    pub outgoing_edges: Vec<EdgeId>,
}

/// An edge with its transit time and its two capacity registers.
#[derive(Clone)]
pub struct Edge {
    pub id: EdgeId,
    pub v_from: VertexId,
    pub v_to: VertexId,
    /// Time units a packet spends inside the edge before it may leave.
    pub length: usize,
    /// Immutable service rate.
    pub average_capacity: Fraction,
    /// Accumulator: capacity available this step, plus carried fraction.
    pub current_capacity: Fraction,
}

/// A packet with its fixed edge path and its mutable progress.
#[derive(Clone)]
pub struct Packet {
    pub id: PacketId,
    /// Grouping tag, carried through to the output without any effect here.
    pub commodity_id: usize,
    pub release_time: Time,
    /// The edges the packet traverses, in order; never empty.
    pub path: Vec<EdgeId>,
    /// When the packet entered the edge it currently sits in.
    pub entrance_time: Option<Time>,
    /// Index into `path` of that edge; `None` until the packet is released.
    pub path_position: Option<usize>,
}

/// The network and the full simulation state.
pub struct Network {
    pub vertices: Vec<Vertex>,
    pub edges: Vec<Edge>,
    pub packets: Vec<Packet>,
    /// FIFO of packets currently traversing each edge.
    pub edge_queues: Vec<VecDeque<PacketId>>,
    /// FIFO of packets that left each edge this step, awaiting routing.
    pub leaving_queues: Vec<VecDeque<PacketId>>,
    pub time: Time,
    pub packets_arrived: usize,
    pub arrival_times: Vec<Option<Time>>,
}

/// Mathematical view of a vertex.
pub ghost struct VertexV {
    pub incoming_edges: Seq<EdgeId>,
    pub outgoing_edges: Seq<EdgeId>,
}

impl View for Vertex {
    type V = VertexV;

    open spec fn view(&self) -> VertexV {
        VertexV { incoming_edges: self.incoming_edges@, outgoing_edges: self.outgoing_edges@ }
    }
}

/// Mathematical view of a packet.
pub ghost struct PacketV {
    pub id: PacketId,
    pub commodity_id: usize,
    pub release_time: Time,
    pub path: Seq<EdgeId>,
    pub entrance_time: Option<Time>,
    pub path_position: Option<usize>,
}

impl View for Packet {
    type V = PacketV;

    open spec fn view(&self) -> PacketV {
        PacketV {
            id: self.id,
            commodity_id: self.commodity_id,
            release_time: self.release_time,
            path: self.path@,
            entrance_time: self.entrance_time,
            path_position: self.path_position,
        }
    }
}

/// Mathematical view of the whole simulation state.
#[verifier::ext_equal]
pub ghost struct StateV {
    pub vertices: Seq<VertexV>,
    pub edges: Seq<Edge>,
    pub packets: Seq<PacketV>,
    pub edge_queues: Seq<Seq<PacketId>>,
    pub leaving_queues: Seq<Seq<PacketId>>,
    pub time: Time,
    pub packets_arrived: usize,
    pub arrival_times: Seq<Option<Time>>,
}

impl View for Network {
    type V = StateV;

    open spec fn view(&self) -> StateV {
        StateV {
            vertices: self.vertices@.map_values(|v: Vertex| v@),
            edges: self.edges@,
            packets: self.packets@.map_values(|p: Packet| p@),
            edge_queues: self.edge_queues@.map_values(|q: VecDeque<PacketId>| q@),
            leaving_queues: self.leaving_queues@.map_values(|q: VecDeque<PacketId>| q@),
            time: self.time,
            packets_arrived: self.packets_arrived,
            arrival_times: self.arrival_times@,
        }
    }
}

// ------------------------------------------------------------------
// Spec model: determine-leaving
// ------------------------------------------------------------------

/// The packet may leave its edge: it has been inside for at least the edge's
/// transit time.
pub open spec fn packet_eligible(packets: Seq<PacketV>, pid: PacketId, length: usize, time: Time) -> bool {
    &&& pid < packets.len()
    &&& match packets[pid as int].entrance_time {
        Some(t) => t + length <= time,
        None => false,
    }
}

/// Length of the front block of the queue whose packets may all leave.
pub open spec fn eligible_count(
    q: Seq<PacketId>,
    packets: Seq<PacketV>,
    length: usize,
    time: Time,
) -> int
    decreases q.len(),
{
    if q.len() == 0 {
        0
    } else if packet_eligible(packets, q[0], length, time) {
        1 + eligible_count(q.skip(1), packets, length, time)
    } else {
        0
    }
}

/// The transit times of all edges, by edge id.
pub open spec fn edge_lengths(edges: Seq<Edge>) -> Seq<usize> {
    edges.map_values(|e: Edge| e.length)
}

/// Total transit time of the first `i` edges of a path.
pub open spec fn path_len_sum(lengths: Seq<usize>, path: Seq<EdgeId>, i: int) -> int
    decreases i,
{
    if i <= 0 {
        0
    } else {
        path_len_sum(lengths, path, i - 1) + lengths[path[i - 1] as int]
    }
}

/// Every packet inside the eligible front block may leave.
pub proof fn lemma_eligible_prefix(
    q: Seq<PacketId>,
    packets: Seq<PacketV>,
    length: usize,
    time: Time,
    i: int,
)
    requires
        0 <= i < eligible_count(q, packets, length, time),
    ensures
        packet_eligible(packets, q[i], length, time),
    decreases i,
{
    lemma_eligible_count_bounds(q, packets, length, time);
    if i > 0 {
        lemma_eligible_prefix(q.skip(1), packets, length, time, i - 1);
        assert(q.skip(1)[i - 1] == q[i]);
    }
}

/// How many packets edge `e` releases this step: the eligible front block,
/// capped by the integer part of the capacity accumulator.
pub open spec fn leave_count(s: StateV, e: int) -> int {
    let elig = eligible_count(s.edge_queues[e], s.packets, s.edges[e].length, s.time);
    let cap = s.edges[e].current_capacity.spec_floor();
    if elig <= cap {
        elig
    } else {
        cap
    }
}

/// The integer part of a fraction, as a fraction over 1.
pub open spec fn floor_frac(c: Fraction) -> Fraction {
    Fraction { numerator: (c.numerator as int / c.denominator as int) as i64, denominator: 1 }
}

/// The capacity register of edge `e` after the step: reset to the average
/// when no eligible packet stayed behind, otherwise the average plus the
/// carried fractional part.
pub open spec fn updated_capacity(s: StateV, e: int) -> Fraction {
    let edge = s.edges[e];
    let elig = eligible_count(s.edge_queues[e], s.packets, edge.length, s.time);
    if leave_count(s, e) == elig {
        edge.average_capacity
    } else {
        edge.average_capacity.add_spec(edge.current_capacity).sub_spec(
            floor_frac(edge.current_capacity),
        )
    }
}

/// Phase one: every edge moves its released packets to its leaving queue and
/// updates its capacity register.
pub open spec fn phase_leaving(s: StateV) -> StateV {
    StateV {
        edges: Seq::new(
            s.edges.len(),
            |e: int| Edge { current_capacity: updated_capacity(s, e), ..s.edges[e] },
        ),
        edge_queues: Seq::new(s.edge_queues.len(), |e: int| s.edge_queues[e].skip(leave_count(s, e))),
        leaving_queues: Seq::new(
            s.leaving_queues.len(),
            |e: int| s.edge_queues[e].take(leave_count(s, e)),
        ),
        ..s
    }
}

// ------------------------------------------------------------------
// Invariants
// ------------------------------------------------------------------

/// Number of packets already recorded as arrived among the first `n` entries.
pub open spec fn count_arrived(arr: Seq<Option<Time>>, n: int) -> int
    decreases n,
{
    if n <= 0 {
        0
    } else {
        count_arrived(arr, n - 1) + if arr[n - 1] is Some {
            1int
        } else {
            0int
        }
    }
}

/// The queue vectors match the edge list, the arrival table matches the
/// packet list, and the edge lists of the vertices describe the topology:
/// an edge is listed exactly at its two endpoints, and each list has no
/// repeated entry.
pub open spec fn wf_topology(s: StateV) -> bool {
    &&& s.edge_queues.len() == s.edges.len()
    &&& s.leaving_queues.len() == s.edges.len()
    &&& s.arrival_times.len() == s.packets.len()
    &&& s.packets.len() < 0x8000_0000_0000_0000
    &&& s.packets.len() <= usize::MAX
    &&& s.edges.len() <= usize::MAX
    &&& s.vertices.len() <= usize::MAX
    &&& forall|e: int|
        0 <= e < s.edges.len() ==> (#[trigger] s.edges[e]).v_from < s.vertices.len()
            && s.edges[e].v_to < s.vertices.len()
    &&& forall|v: int, j: int|
        0 <= v < s.vertices.len() && 0 <= j < s.vertices[v].incoming_edges.len() ==> {
            let e = #[trigger] s.vertices[v].incoming_edges[j];
            &&& e < s.edges.len()
            &&& s.edges[e as int].v_to == v
        }
    &&& forall|v: int, j: int|
        0 <= v < s.vertices.len() && 0 <= j < s.vertices[v].outgoing_edges.len() ==> {
            let e = #[trigger] s.vertices[v].outgoing_edges[j];
            &&& e < s.edges.len()
            &&& s.edges[e as int].v_from == v
        }
    &&& forall|e: int|
        0 <= e < s.edges.len() ==> s.vertices[(#[trigger] s.edges[e]).v_to as int].incoming_edges.contains(
            e as EdgeId,
        ) && s.vertices[s.edges[e].v_from as int].outgoing_edges.contains(e as EdgeId)
    &&& forall|v: int, j1: int, j2: int|
        0 <= v < s.vertices.len() && 0 <= j1 < j2 < s.vertices[v].incoming_edges.len() ==> #[trigger] s.vertices[v].incoming_edges[j1]
            != #[trigger] s.vertices[v].incoming_edges[j2]
    &&& forall|v: int, j1: int, j2: int|
        0 <= v < s.vertices.len() && 0 <= j1 < j2 < s.vertices[v].outgoing_edges.len() ==> #[trigger] s.vertices[v].outgoing_edges[j1]
            != #[trigger] s.vertices[v].outgoing_edges[j2]
}

/// The capacity registers of one edge are well formed and bounded: the
/// average is a positive fraction within `CAPACITY_LIMIT`, and the
/// accumulator stays below average plus one, with a denominator dividing the
/// average's denominator.
pub open spec fn wf_capacity(edge: Edge) -> bool {
    &&& edge.average_capacity.wf()
    &&& 1 <= edge.average_capacity.numerator <= CAPACITY_LIMIT
    &&& 1 <= edge.average_capacity.denominator <= CAPACITY_LIMIT
    &&& edge.current_capacity.wf()
    &&& edge.current_capacity.numerator <= edge.average_capacity.numerator
        + edge.average_capacity.denominator
    &&& edge.current_capacity.denominator <= edge.average_capacity.denominator
    &&& divides(
        edge.current_capacity.denominator as int,
        edge.average_capacity.denominator as int,
    )
    &&& edge.length >= 1
}

/// What must hold of a packet id found in the waiting queue of edge `e`: a
/// known packet, inside that very edge, not yet arrived.
pub open spec fn queued_packet_ok(s: StateV, e: int, pid: PacketId) -> bool {
    &&& pid < s.packets.len()
    &&& s.packets[pid as int].entrance_time is Some
    &&& s.packets[pid as int].path_position matches Some(pos) && pos < s.packets[
        pid as int
    ].path.len() && s.packets[pid as int].path[pos as int] == e
    &&& s.arrival_times[pid as int] is None
}

/// What must hold of a packet id found in the leaving queue of edge `e`: it
/// sat in that edge and its transit time has elapsed.
pub open spec fn leaving_packet_ok(s: StateV, e: int, pid: PacketId) -> bool {
    &&& pid < s.packets.len()
    &&& s.packets[pid as int].path_position matches Some(pos) && pos < s.packets[
        pid as int
    ].path.len() && s.packets[pid as int].path[pos as int] == e
    &&& s.packets[pid as int].entrance_time matches Some(t) && t + edge_lengths(s.edges)[e]
        <= s.time
    &&& s.arrival_times[pid as int] is None
}

/// Per-packet well-formedness of the progress fields: positions stay on the
/// path, clocks read consistently, and a packet at position `pos` entered
/// that edge no earlier than its release time plus the transit times of all
/// edges before it.
pub open spec fn wf_packet(s: StateV, pid: int) -> bool {
    let p = s.packets[pid];
    &&& 1 <= p.path.len() <= usize::MAX
    &&& forall|j: int| 0 <= j < p.path.len() ==> (#[trigger] p.path[j]) < s.edges.len()
    &&& forall|j: int|
        0 <= j < p.path.len() - 1 ==> s.edges[p.path[j] as int].v_to == s.edges[(
        #[trigger] p.path[j + 1]) as int].v_from
    &&& match p.path_position {
        Some(pos) => pos < p.path.len() && (p.entrance_time matches Some(t) && t
            >= p.release_time + path_len_sum(edge_lengths(s.edges), p.path, pos as int)),
        None => s.arrival_times[pid] is None,
    }
    &&& match p.entrance_time {
        Some(t) => t <= s.time,
        None => true,
    }
    &&& p.release_time > s.time ==> p.path_position is None
    &&& match s.arrival_times[pid] {
        Some(t) => p.path_position matches Some(pos) && pos + 1 == p.path.len() && t
            >= p.release_time + path_len_sum(edge_lengths(s.edges), p.path, pos + 1),
        None => true,
    }
}

/// No packet id occurs twice over all waiting and leaving queues together.
pub open spec fn queues_distinct(s: StateV) -> bool {
    &&& forall|e1: int, i1: int, e2: int, i2: int|
        0 <= e1 < s.edge_queues.len() && 0 <= i1 < s.edge_queues[e1].len() && 0 <= e2
            < s.edge_queues.len() && 0 <= i2 < s.edge_queues[e2].len() && (e1 != e2 || i1 != i2)
            ==> #[trigger] s.edge_queues[e1][i1] != #[trigger] s.edge_queues[e2][i2]
    &&& forall|e1: int, i1: int, e2: int, i2: int|
        0 <= e1 < s.leaving_queues.len() && 0 <= i1 < s.leaving_queues[e1].len() && 0 <= e2
            < s.leaving_queues.len() && 0 <= i2 < s.leaving_queues[e2].len() && (e1 != e2 || i1
            != i2) ==> #[trigger] s.leaving_queues[e1][i1] != #[trigger] s.leaving_queues[e2][i2]
    &&& forall|e1: int, i1: int, e2: int, i2: int|
        0 <= e1 < s.edge_queues.len() && 0 <= i1 < s.edge_queues[e1].len() && 0 <= e2
            < s.leaving_queues.len() && 0 <= i2 < s.leaving_queues[e2].len() ==> #[trigger] s.edge_queues[e1][i1]
            != #[trigger] s.leaving_queues[e2][i2]
}

/// Every packet still waiting in a leaving queue sits at the last edge of
/// its path.
pub open spec fn leaving_at_path_end(s: StateV) -> bool {
    forall|e: int, idx: int|
        0 <= e < s.leaving_queues.len() && 0 <= idx < s.leaving_queues[e].len() ==> {
            let pid = #[trigger] s.leaving_queues[e][idx];
            s.packets[pid as int].path_position matches Some(pos) && pos + 1 == s.packets[
                pid as int
            ].path.len()
        }
}

/// The invariant of the routing phase: it holds when node transitions start,
/// after each outgoing edge is handled, and when the phase ends.
pub open spec fn inv_trans(s: StateV) -> bool {
    &&& wf_topology(s)
    &&& forall|e: int| 0 <= e < s.edges.len() ==> wf_capacity(#[trigger] s.edges[e])
    &&& forall|pid: int| 0 <= pid < s.packets.len() ==> wf_packet(s, pid)
    &&& forall|e: int, i: int|
        0 <= e < s.edge_queues.len() && 0 <= i < s.edge_queues[e].len() ==> queued_packet_ok(
            s,
            e,
            #[trigger] s.edge_queues[e][i],
        )
    &&& forall|e: int, i: int|
        0 <= e < s.leaving_queues.len() && 0 <= i < s.leaving_queues[e].len()
            ==> leaving_packet_ok(s, e, #[trigger] s.leaving_queues[e][i])
    &&& queues_distinct(s)
    &&& s.packets_arrived as int == count_arrived(s.arrival_times, s.arrival_times.len() as int)
}

/// The invariant at the start of a time step: the routing invariant, empty
/// leaving queues, and no packet released now or later inside the network.
pub open spec fn inv(s: StateV) -> bool {
    &&& inv_trans(s)
    &&& forall|e: int|
        0 <= e < s.leaving_queues.len() ==> #[trigger] s.leaving_queues[e] == Seq::<
            PacketId,
        >::empty()
    &&& forall|pid: int|
        0 <= pid < s.packets.len() && (#[trigger] s.packets[pid]).release_time >= s.time
            ==> s.packets[pid].path_position is None
}

/// What recording the arrivals needs: a matching table whose members are
/// unrecorded, and leaving queues free of repeated packets.
pub open spec fn pre_arrivals(s: StateV) -> bool {
    &&& s.arrival_times.len() == s.packets.len()
    &&& s.packets.len() < 0x8000_0000_0000_0000
    &&& s.packets_arrived as int == count_arrived(s.arrival_times, s.arrival_times.len() as int)
    &&& forall|e: int, idx: int|
        0 <= e < s.leaving_queues.len() && 0 <= idx < s.leaving_queues[e].len() ==> {
            let pid = #[trigger] s.leaving_queues[e][idx];
            &&& pid < s.packets.len()
            &&& s.arrival_times[pid as int] is None
        }
    &&& forall|e1: int, i1: int, e2: int, i2: int|
        0 <= e1 < s.leaving_queues.len() && 0 <= i1 < s.leaving_queues[e1].len() && 0 <= e2
            < s.leaving_queues.len() && 0 <= i2 < s.leaving_queues[e2].len() && (e1 != e2 || i1
            != i2) ==> #[trigger] s.leaving_queues[e1][i1] != #[trigger] s.leaving_queues[e2][i2]
}

// ------------------------------------------------------------------
// Capacity update
// ------------------------------------------------------------------

/// The capacity carry-over `average + current - floor(current)` stays inside
/// the bounds of `wf_capacity` and denotes exactly that rational value.
pub proof fn lemma_capacity_update(avg: Fraction, cur: Fraction)
    requires
        avg.wf(),
        1 <= avg.numerator <= CAPACITY_LIMIT,
        1 <= avg.denominator <= CAPACITY_LIMIT,
        cur.wf(),
        cur.numerator <= avg.numerator + avg.denominator,
        cur.denominator <= avg.denominator,
        divides(cur.denominator as int, avg.denominator as int),
    ensures
        avg.add_req(cur),
        avg.add_spec(cur).sub_req(floor_frac(cur)),
        ({
            let r = avg.add_spec(cur).sub_spec(floor_frac(cur));
            &&& r.wf()
            &&& r.numerator <= avg.numerator + avg.denominator
            &&& r.denominator <= avg.denominator
            &&& divides(r.denominator as int, avg.denominator as int)
            &&& represents(
                r,
                avg.numerator * cur.denominator + cur.numerator * avg.denominator
                    - cur.spec_floor() * (avg.denominator * cur.denominator),
                avg.denominator * cur.denominator,
            )
        }),
{
    let an = avg.numerator as int;
    let ad = avg.denominator as int;
    let cn = cur.numerator as int;
    let cd = cur.denominator as int;
    let k = choose|k: int| ad == #[trigger] (k * cd);
    assert(1 <= k <= ad) by (nonlinear_arith)
        requires
            ad == k * cd,
            ad >= 1,
            cd >= 1,
    ;
    // the exact sum fits in range
    assert(an * cd + cn * ad <= 3 * CAPACITY_LIMIT * CAPACITY_LIMIT && an * cd >= 1 && cn * ad
        >= 0 && ad * cd <= CAPACITY_LIMIT * CAPACITY_LIMIT && ad * cd >= 1) by (nonlinear_arith)
        requires
            1 <= an <= CAPACITY_LIMIT,
            1 <= ad <= CAPACITY_LIMIT,
            0 <= cn <= 2 * CAPACITY_LIMIT,
            1 <= cd <= ad,
    ;
    assert(avg.add_req(cur));
    // the sum denotes (an + cn * k) / ad
    let m = an + cn * k;
    let raw1 = crate::fraction::sum_raw(avg, cur);
    assert(raw1.numerator == an * cd + cn * ad && raw1.denominator == ad * cd);
    assert(raw1.numerator * ad == m * raw1.denominator) by (nonlinear_arith)
        requires
            raw1.numerator == an * cd + cn * ad,
            raw1.denominator == ad * cd,
            ad == k * cd,
            m == an + cn * k,
    ;
    lemma_reduce_properties(raw1);
    let s1 = avg.add_spec(cur);
    assert(s1 == raw1.spec_reduce());
    lemma_represents_other_form(s1, raw1.numerator as int, raw1.denominator as int, m, ad);
    assert(m >= 0 && m <= an + (an + ad) * ad) by (nonlinear_arith)
        requires
            m == an + cn * k,
            0 <= cn <= an + ad,
            1 <= k <= ad,
            an >= 1,
            ad >= 1,
    ;
    lemma_reduced_divides(s1.numerator as int, s1.denominator as int, m, ad);
    // the floor of the accumulator stays below the sum
    let f = cur.spec_floor();
    vstd::arithmetic::div_mod::lemma_fundamental_div_mod(cn, cd);
    let rem = cn - f * cd;
    assert(rem == cn % cd);
    assert(0 <= rem < cd);
    assert(f * ad <= m) by (nonlinear_arith)
        requires
            m == an + cn * k,
            cn == f * cd + rem,
            ad == k * cd,
            rem >= 0,
            an >= 1,
            k >= 1,
            f >= 0,
            cd >= 1,
    ;
    assert(f >= 0 && f <= cn) by (nonlinear_arith)
        requires
            cn == f * cd + rem,
            0 <= rem < cd,
            cd >= 1,
            cn >= 0,
    ;
    let fl = floor_frac(cur);
    assert(fl.numerator == f && fl.denominator == 1);
    // subtraction is permitted: fl <= s1
    assert(f * s1.denominator * ad <= s1.numerator * ad) by (nonlinear_arith)
        requires
            s1.numerator * ad == m * s1.denominator,
            f * ad <= m,
            s1.denominator > 0,
            ad > 0,
    ;
    assert(frac_le(fl, s1)) by (nonlinear_arith)
        requires
            f * s1.denominator * ad <= s1.numerator * ad,
            fl.numerator == f,
            fl.denominator == 1,
            ad > 0,
            frac_le(fl, s1) <==> fl.numerator * s1.denominator <= s1.numerator * fl.denominator,
    ;
    assert(s1.sub_req(fl));
    // the difference denotes (m - f * ad) / ad
    let raw2 = crate::fraction::diff_raw(s1, fl);
    assert(raw2.numerator == s1.numerator - f * s1.denominator && raw2.denominator
        == s1.denominator) by {
        assert(s1.numerator * 1 == s1.numerator && f * s1.denominator >= 0 && s1.denominator * 1
            == s1.denominator) by (nonlinear_arith)
            requires
                f >= 0,
                s1.denominator >= 1,
        ;
        assert(s1.numerator - f * s1.denominator >= 0) by (nonlinear_arith)
            requires
                f * s1.denominator * ad <= s1.numerator * ad,
                ad > 0,
        ;
    }
    let m2 = m - f * ad;
    assert(raw2.numerator * ad == m2 * raw2.denominator) by (nonlinear_arith)
        requires
            raw2.numerator == s1.numerator - f * s1.denominator,
            raw2.denominator == s1.denominator,
            s1.numerator * ad == m * s1.denominator,
            m2 == m - f * ad,
    ;
    assert(m2 >= 0) by (nonlinear_arith)
        requires
            raw2.numerator >= 0,
            raw2.numerator * ad == m2 * raw2.denominator,
            ad > 0,
            raw2.denominator > 0,
    ;
    lemma_reduce_properties(raw2);
    let r = s1.sub_spec(fl);
    lemma_represents_other_form(r, raw2.numerator as int, raw2.denominator as int, m2, ad);
    lemma_reduced_divides(r.numerator as int, r.denominator as int, m2, ad);
    // the carried value stays below average plus one
    assert(m2 < an + ad) by (nonlinear_arith)
        requires
            m2 == m - f * ad,
            m == an + cn * k,
            cn == f * cd + rem,
            ad == k * cd,
            0 <= rem < cd,
            k >= 1,
    ;
    let kr = choose|k2: int| ad == #[trigger] (k2 * (r.denominator as int));
    assert(r.denominator <= ad) by (nonlinear_arith)
        requires
            ad == kr * (r.denominator as int),
            ad >= 1,
            r.denominator >= 1,
    ;
    // restate the value over the denominator ad * cd
    assert(represents(r, m2, ad));
    assert(m2 * cd == an * cd + cn * ad - f * (ad * cd)) by (nonlinear_arith)
        requires
            m2 == an + cn * k - f * ad,
            ad == k * cd,
    ;
    assert(r.numerator * (ad * cd) == (an * cd + cn * ad - f * (ad * cd)) * r.denominator)
        by (nonlinear_arith)
        requires
            r.numerator * ad == m2 * r.denominator,
            m2 * cd == an * cd + cn * ad - f * (ad * cd),
    ;
    assert(ad * cd > 0) by (nonlinear_arith)
        requires
            ad > 0,
            cd > 0,
    ;
}

// ------------------------------------------------------------------
// Determine-leaving, executable
// ------------------------------------------------------------------

/// The eligible front block is never longer than the queue.
pub proof fn lemma_eligible_count_bounds(
    q: Seq<PacketId>,
    packets: Seq<PacketV>,
    length: usize,
    time: Time,
)
    ensures
        0 <= eligible_count(q, packets, length, time) <= q.len(),
    decreases q.len(),
{
    if q.len() > 0 {
        lemma_eligible_count_bounds(q.skip(1), packets, length, time);
    }
}

/// Scanning an all-eligible prefix of length `j` leaves the eligible count
/// of the remainder to decide the total.
pub proof fn lemma_eligible_count_skip(
    q: Seq<PacketId>,
    packets: Seq<PacketV>,
    length: usize,
    time: Time,
    j: int,
)
    requires
        0 <= j <= q.len(),
        forall|i: int| 0 <= i < j ==> packet_eligible(packets, #[trigger] q[i], length, time),
    ensures
        eligible_count(q, packets, length, time) == j + eligible_count(
            q.skip(j),
            packets,
            length,
            time,
        ),
    decreases j,
{
    if j == 0 {
        assert(q.skip(0) =~= q);
    } else {
        assert(packet_eligible(packets, q[0], length, time));
        lemma_eligible_count_skip(q.skip(1), packets, length, time, j - 1);
        assert(q.skip(1).skip(j - 1) =~= q.skip(j));
        assert(forall|i: int|
            0 <= i < j - 1 ==> packet_eligible(packets, #[trigger] q.skip(1)[i], length, time));
    }
}

/// Releasing the eligible packets keeps the routing invariant, with fresh
/// leaving queues drawn from the waiting queues.
#[verifier::rlimit(60)]
#[verifier::spinoff_prover]
pub proof fn lemma_leaving_preserves(s: StateV)
    requires
        inv(s),
    ensures
        inv_trans(phase_leaving(s)),
        forall|pid: int|
            0 <= pid < phase_leaving(s).packets.len() && (#[trigger] phase_leaving(
                s,
            ).packets[pid]).release_time == phase_leaving(s).time ==> phase_leaving(
                s,
            ).packets[pid].path_position is None,
{
    let t = phase_leaving(s);
    assert(t.packets == s.packets && t.time == s.time && t.arrival_times == s.arrival_times);
    assert(t.vertices == s.vertices && t.packets_arrived == s.packets_arrived);
    assert(t.edges.len() == s.edges.len() && t.edge_queues.len() == s.edge_queues.len()
        && t.leaving_queues.len() == s.leaving_queues.len());
    assert forall|pid: int| 0 <= pid < t.packets.len() implies wf_packet(t, pid) by {
        assert(wf_packet(s, pid));
        assert(edge_lengths(t.edges) =~= edge_lengths(s.edges));
    }
    assert(wf_topology(t)) by {
        assert forall|e: int|
            0 <= e < t.edges.len() implies (#[trigger] t.edges[e]).v_from < t.vertices.len()
            && t.edges[e].v_to < t.vertices.len() by {
            assert(t.edges[e] == Edge {
                current_capacity: updated_capacity(s, e),
                ..s.edges[e]
            });
            assert(s.edges[e].v_from < s.vertices.len() && s.edges[e].v_to < s.vertices.len());
        }
        assert forall|e: int|
            0 <= e < t.edges.len() implies t.vertices[(
        #[trigger] t.edges[e]).v_to as int].incoming_edges.contains(e as EdgeId) && t.vertices[
        t.edges[e].v_from as int].outgoing_edges.contains(e as EdgeId) by {
            assert(t.edges[e].v_to == s.edges[e].v_to && t.edges[e].v_from == s.edges[e].v_from);
            assert(s.vertices[s.edges[e].v_to as int].incoming_edges.contains(e as EdgeId)
                && s.vertices[s.edges[e].v_from as int].outgoing_edges.contains(e as EdgeId));
        }
    }
    assert forall|e: int| 0 <= e < t.edges.len() implies wf_capacity(#[trigger] t.edges[e]) by {
        assert(wf_capacity(s.edges[e]));
        lemma_capacity_update(s.edges[e].average_capacity, s.edges[e].current_capacity);
        assert(t.edges[e] == Edge { current_capacity: updated_capacity(s, e), ..s.edges[e] });
        assert(divides(
            s.edges[e].average_capacity.denominator as int,
            s.edges[e].average_capacity.denominator as int,
        )) by {
            assert(s.edges[e].average_capacity.denominator as int == 1 * (
            s.edges[e].average_capacity.denominator as int));
        }
    }
    // bounds of the released block
    assert forall|e: int| 0 <= e < s.edge_queues.len() implies 0 <= leave_count(s, e) <= (
    #[trigger] s.edge_queues[e]).len() by {
        lemma_eligible_count_bounds(s.edge_queues[e], s.packets, s.edges[e].length, s.time);
        assert(s.edges[e].current_capacity.spec_floor() >= 0) by {
            assert(s.edges[e].current_capacity.wf());
            vstd::arithmetic::div_mod::lemma_div_pos_is_pos(
                s.edges[e].current_capacity.numerator as int,
                s.edges[e].current_capacity.denominator as int,
            );
        }
    }
    assert forall|e: int, i: int|
        0 <= e < t.edge_queues.len() && 0 <= i < t.edge_queues[e].len() implies queued_packet_ok(
        t,
        e,
        #[trigger] t.edge_queues[e][i],
    ) by {
        assert(t.edge_queues[e] == s.edge_queues[e].skip(leave_count(s, e)));
        assert(t.edge_queues[e][i] == s.edge_queues[e][leave_count(s, e) + i]);
        assert(queued_packet_ok(s, e, s.edge_queues[e][leave_count(s, e) + i]));
        assert(edge_lengths(t.edges) =~= edge_lengths(s.edges));
        assert(wf_packet(s, t.edge_queues[e][i] as int));
    }
    assert(edge_lengths(t.edges) =~= edge_lengths(s.edges));
    assert forall|e: int, i: int|
        0 <= e < t.leaving_queues.len() && 0 <= i < t.leaving_queues[e].len() implies
        leaving_packet_ok(t, e, #[trigger] t.leaving_queues[e][i]) by {
        assert(t.leaving_queues[e] == s.edge_queues[e].take(leave_count(s, e)));
        assert(t.leaving_queues[e][i] == s.edge_queues[e][i]);
        assert(queued_packet_ok(s, e, s.edge_queues[e][i]));
        lemma_eligible_prefix(s.edge_queues[e], s.packets, s.edges[e].length, s.time, i);
        assert(packet_eligible(s.packets, s.edge_queues[e][i], s.edges[e].length, s.time));
        assert(edge_lengths(s.edges)[e] == s.edges[e].length);
    }
    assert forall|e1: int, i1: int, e2: int, i2: int|
        0 <= e1 < t.edge_queues.len() && 0 <= i1 < t.edge_queues[e1].len() && 0 <= e2
            < t.edge_queues.len() && 0 <= i2 < t.edge_queues[e2].len() && (e1 != e2 || i1 != i2)
            implies #[trigger] t.edge_queues[e1][i1] != #[trigger] t.edge_queues[e2][i2] by {
        assert(t.edge_queues[e1][i1] == s.edge_queues[e1][leave_count(s, e1) + i1]);
        assert(t.edge_queues[e2][i2] == s.edge_queues[e2][leave_count(s, e2) + i2]);
    }
    assert forall|e1: int, i1: int, e2: int, i2: int|
        0 <= e1 < t.leaving_queues.len() && 0 <= i1 < t.leaving_queues[e1].len() && 0 <= e2
            < t.leaving_queues.len() && 0 <= i2 < t.leaving_queues[e2].len() && (e1 != e2 || i1
            != i2) implies #[trigger] t.leaving_queues[e1][i1] != #[trigger] t.leaving_queues[e2][i2] by {
        assert(t.leaving_queues[e1][i1] == s.edge_queues[e1][i1]);
        assert(t.leaving_queues[e2][i2] == s.edge_queues[e2][i2]);
    }
    assert forall|e1: int, i1: int, e2: int, i2: int|
        0 <= e1 < t.edge_queues.len() && 0 <= i1 < t.edge_queues[e1].len() && 0 <= e2
            < t.leaving_queues.len() && 0 <= i2 < t.leaving_queues[e2].len() implies #[trigger] t.edge_queues[e1][i1]
        != #[trigger] t.leaving_queues[e2][i2] by {
        assert(t.edge_queues[e1][i1] == s.edge_queues[e1][leave_count(s, e1) + i1]);
        assert(t.leaving_queues[e2][i2] == s.edge_queues[e2][i2]);
        if e1 == e2 {
            assert(leave_count(s, e1) + i1 != i2);
        }
    }
}

/// Recording the arrivals keeps everything the next step needs.
#[verifier::rlimit(60)]
#[verifier::spinoff_prover]
pub proof fn lemma_arrivals_preserves(s: StateV)
    requires
        inv_trans(s),
        leaving_at_path_end(s),
    ensures
        ({
            let t = phase_arrivals(s);
            &&& wf_topology(t)
            &&& forall|e: int| 0 <= e < t.edges.len() ==> wf_capacity(#[trigger] t.edges[e])
            &&& forall|pid: int| 0 <= pid < t.packets.len() ==> wf_packet(t, pid)
            &&& forall|e: int, i: int|
                0 <= e < t.edge_queues.len() && 0 <= i < t.edge_queues[e].len()
                    ==> queued_packet_ok(t, e, #[trigger] t.edge_queues[e][i])
            &&& queues_distinct(t)
            &&& forall|e: int|
                0 <= e < t.leaving_queues.len() ==> #[trigger] t.leaving_queues[e] == Seq::<
                    PacketId,
                >::empty()
        }),
{
    let t = phase_arrivals(s);
    assert(t.packets == s.packets && t.time == s.time && t.edge_queues == s.edge_queues);
    assert(edge_lengths(t.edges) =~= edge_lengths(s.edges));
    assert forall|pid: int| 0 <= pid < t.packets.len() implies wf_packet(t, pid) by {
        assert(wf_packet(s, pid));
        if t.packets[pid].path_position is None {
            assert(s.arrival_times[pid] is None);
            if in_leaving(s, pid) {
                let e = choose|e: int|
                    0 <= e < s.leaving_queues.len() && (#[trigger] s.leaving_queues[e]).contains(
                        pid as PacketId,
                    );
                let i = choose|i: int|
                    0 <= i < s.leaving_queues[e].len() && s.leaving_queues[e][i] == pid as PacketId;
                assert(leaving_packet_ok(s, e, s.leaving_queues[e][i]));
                assert(false);
            }
            assert(t.arrival_times[pid] == s.arrival_times[pid]);
        }
        if in_leaving(s, pid) {
            // the packet arrives now: it waited out its final edge, which it
            // entered no earlier than its release plus all earlier transits
            let e = choose|e: int|
                0 <= e < s.leaving_queues.len() && (#[trigger] s.leaving_queues[e]).contains(
                    pid as PacketId,
                );
            let i = choose|i: int|
                0 <= i < s.leaving_queues[e].len() && s.leaving_queues[e][i] == pid as PacketId;
            assert(leaving_packet_ok(s, e, s.leaving_queues[e][i]));
            assert(t.arrival_times[pid] == Some(s.time));
        }
    }
    assert forall|e: int, i: int|
        0 <= e < t.edge_queues.len() && 0 <= i < t.edge_queues[e].len() implies queued_packet_ok(
        t,
        e,
        #[trigger] t.edge_queues[e][i],
    ) by {
        let pid = t.edge_queues[e][i];
        assert(queued_packet_ok(s, e, pid)) by {
            assert(s.edge_queues[e][i] == pid);
        }
        assert(!in_leaving(s, pid as int)) by {
            if in_leaving(s, pid as int) {
                let e2 = choose|e2: int|
                    0 <= e2 < s.leaving_queues.len() && (#[trigger] s.leaving_queues[e2]).contains(
                        pid,
                    );
                let i2 = choose|i2: int|
                    0 <= i2 < s.leaving_queues[e2].len() && s.leaving_queues[e2][i2] == pid;
                assert(s.edge_queues[e][i] != s.leaving_queues[e2][i2]);
                assert(false);
            }
        }
        assert(t.arrival_times[pid as int] == s.arrival_times[pid as int]);
    }
}

impl Network {
    /// Move the packets of the leaving queue of incoming edge `i` that head
    /// for outgoing edge `o` into one stream, advancing their position and
    /// stamping their entrance time; the rest stay behind in queue order.
    #[verifier::loop_isolation(false)]
    #[verifier::rlimit(50)]
    #[verifier::spinoff_prover]
    fn collect_stream(&mut self, i: EdgeId, o: EdgeId) -> (to_o: VecDeque<PacketId>)
        requires
            (i as int) < old(self)@.leaving_queues.len(),
            distinct_seq(old(self)@.leaving_queues[i as int]),
            forall|idx: int|
                0 <= idx < old(self)@.leaving_queues[i as int].len() ==> {
                    let pid = #[trigger] old(self)@.leaving_queues[i as int][idx];
                    &&& pid < old(self)@.packets.len()
                    &&& old(self)@.packets[pid as int].path_position matches Some(pos) && pos < old(
                        self,
                    )@.packets[pid as int].path.len()
                },
        ensures
            to_o@ == select_going(
                old(self)@.leaving_queues[i as int],
                old(self)@.packets,
                o,
            ),
            final(self)@.leaving_queues == old(self)@.leaving_queues.update(
                i as int,
                reject_going(old(self)@.leaving_queues[i as int], old(self)@.packets, o),
            ),
            final(self)@.packets == Seq::new(
                old(self)@.packets.len(),
                |pid: int|
                    if select_going(
                        old(self)@.leaving_queues[i as int],
                        old(self)@.packets,
                        o,
                    ).contains(pid as PacketId) {
                        advanced_packet(old(self)@.packets[pid], old(self)@.time)
                    } else {
                        old(self)@.packets[pid]
                    },
            ),
            final(self)@.edges == old(self)@.edges,
            final(self)@.edge_queues == old(self)@.edge_queues,
            final(self)@.vertices == old(self)@.vertices,
            final(self).time == old(self).time,
            final(self).packets_arrived == old(self).packets_arrived,
            final(self)@.arrival_times == old(self)@.arrival_times,
            final(self)@.packets.len() == old(self)@.packets.len(),
    {
        let ghost s0 = self@;
        let ghost l0 = s0.leaving_queues[i as int];
        let mut to_o: VecDeque<PacketId> = VecDeque::new();
        let mut rem: VecDeque<PacketId> = VecDeque::new();
        proof {
            assert(self.leaving_queues@[i as int]@ == l0);
            assert(l0.skip(0) =~= l0);
            assert(self@.leaving_queues =~= s0.leaving_queues.update(i as int, l0.skip(0)));
            assert(self@.packets =~= Seq::new(
                s0.packets.len(),
                |pid: int|
                    if to_o@.contains(pid as PacketId) {
                        advanced_packet(s0.packets[pid], s0.time)
                    } else {
                        s0.packets[pid]
                    },
            ));
        }
        let n_items = self.leaving_queues[i].len();
        let n_pk = self.packets.len();
        proof {
            assert(s0.packets.len() == n_pk);
        }
        let mut j: usize = 0;
        while j < n_items
            invariant
                0 <= j <= n_items,
                n_items == l0.len(),
                s0.packets.len() == n_pk,
                self@.leaving_queues == s0.leaving_queues.update(i as int, l0.skip(j as int)),
                to_o@ + select_going(l0.skip(j as int), s0.packets, o) == select_going(
                    l0,
                    s0.packets,
                    o,
                ),
                rem@ + reject_going(l0.skip(j as int), s0.packets, o) == reject_going(
                    l0,
                    s0.packets,
                    o,
                ),
                self@.packets == Seq::new(
                    s0.packets.len(),
                    |pid: int|
                        if to_o@.contains(pid as PacketId) {
                            advanced_packet(s0.packets[pid], s0.time)
                        } else {
                            s0.packets[pid]
                        },
                ),
                forall|x: PacketId|
                    to_o@.contains(x) ==> exists|m: int| 0 <= m < j && l0[m] == x,
                self@.edges == s0.edges,
                self@.edge_queues == s0.edge_queues,
                self@.vertices == s0.vertices,
                self.time == s0.time,
                self.packets_arrived == s0.packets_arrived,
                self@.arrival_times == s0.arrival_times,
            decreases n_items - j,
        {
            let ghost pre = self@;
            proof {
                assert(pre.leaving_queues[i as int] == l0.skip(j as int));
                assert(self.leaving_queues@[i as int]@ == l0.skip(j as int));
                assert(l0.skip(j as int)[0] == l0[j as int]);
            }
            let pid = self.leaving_queues[i].pop_front().unwrap();
            proof {
                assert(pid == l0[j as int]);
                assert(pid == old(self)@.leaving_queues[i as int][j as int]);
                assert(pid < s0.packets.len() && (s0.packets[pid as int].path_position matches Some(
                    pos,
                ) && pos < s0.packets[pid as int].path.len()));
                assert(!to_o@.contains(pid)) by {
                    if to_o@.contains(pid) {
                        let m = choose|m: int| 0 <= m < j && l0[m] == pid;
                        assert(l0[m] == l0[j as int]);
                    }
                }
                assert(self@.packets[pid as int] == s0.packets[pid as int]);
                assert(self.packets@[pid as int]@ == s0.packets[pid as int]);
                assert(l0.skip(j as int).skip(1) =~= l0.skip(j + 1));
                assert(self@.leaving_queues =~= pre.leaving_queues.update(
                    i as int,
                    l0.skip(j as int).skip(1),
                ));
                assert(pre.leaving_queues.update(i as int, l0.skip(j + 1))
                    =~= s0.leaving_queues.update(i as int, l0.skip(j + 1)));
                assert(self@.leaving_queues =~= s0.leaving_queues.update(
                    i as int,
                    l0.skip(j + 1),
                ));
            }
            let p_pos = self.packets[pid].path_position.unwrap();
            let p_len = self.packets[pid].path.len();
            proof {
                assert(p_pos < p_len);
            }
            let goes = p_pos + 1 < p_len && self.packets[pid].path[p_pos + 1] == o;
            proof {
                assert(goes == goes_to(s0.packets, pid, o));
                assert(select_going(l0.skip(j as int), s0.packets, o) == if goes_to(
                    s0.packets,
                    l0[j as int],
                    o,
                ) {
                    seq![l0[j as int]] + select_going(l0.skip(j + 1), s0.packets, o)
                } else {
                    select_going(l0.skip(j + 1), s0.packets, o)
                });
                assert(reject_going(l0.skip(j as int), s0.packets, o) == if goes_to(
                    s0.packets,
                    l0[j as int],
                    o,
                ) {
                    reject_going(l0.skip(j + 1), s0.packets, o)
                } else {
                    seq![l0[j as int]] + reject_going(l0.skip(j + 1), s0.packets, o)
                });
            }
            if goes {
                let ghost to_pre = to_o@;
                self.packets[pid].path_position = Some(p_pos + 1);
                self.packets[pid].entrance_time = Some(self.time);
                to_o.push_back(pid);
                proof {
                    assert(self@.packets[pid as int] == advanced_packet(
                        s0.packets[pid as int],
                        s0.time,
                    ));
                    assert(to_o@ == to_pre.push(pid));
                    assert((to_pre + (seq![pid] + select_going(l0.skip(j + 1), s0.packets, o)))
                        =~= (to_pre.push(pid) + select_going(l0.skip(j + 1), s0.packets, o)));
                    assert forall|k2: int|
                        0 <= k2 < s0.packets.len() implies self@.packets[k2] == (if to_o@.contains(
                        k2 as PacketId,
                    ) {
                        advanced_packet(s0.packets[k2], s0.time)
                    } else {
                        s0.packets[k2]
                    }) by {
                        lemma_push_contains(to_pre, pid, k2 as PacketId);
                        if k2 != pid as int {
                            assert(self.packets@[k2]@ == self@.packets[k2]);
                            assert(self@.packets[k2] == pre.packets[k2]);
                            assert(pre.packets[k2] == (if to_pre.contains(k2 as PacketId) {
                                advanced_packet(s0.packets[k2], s0.time)
                            } else {
                                s0.packets[k2]
                            }));
                        }
                    }
                    assert(self@.packets =~= Seq::new(
                        s0.packets.len(),
                        |pid2: int|
                            if to_o@.contains(pid2 as PacketId) {
                                advanced_packet(s0.packets[pid2], s0.time)
                            } else {
                                s0.packets[pid2]
                            },
                    ));
                    assert forall|x: PacketId|
                        to_o@.contains(x) implies exists|m: int| 0 <= m < j + 1 && l0[m] == x by {
                        lemma_push_contains(to_pre, pid, x);
                        if to_pre.contains(x) {
                            let m = choose|m: int| 0 <= m < j && l0[m] == x;
                            assert(0 <= m < j + 1 && l0[m] == x);
                        } else {
                            assert(l0[j as int] == x);
                        }
                    }
                }
            } else {
                let ghost rem_pre = rem@;
                rem.push_back(pid);
                proof {
                    assert((rem_pre + (seq![pid] + reject_going(l0.skip(j + 1), s0.packets, o)))
                        =~= (rem_pre.push(pid) + reject_going(l0.skip(j + 1), s0.packets, o)));
                }
            }
            j = j + 1;
        }
        proof {
            assert(l0.skip(n_items as int) =~= Seq::<PacketId>::empty());
            assert(to_o@ + Seq::<PacketId>::empty() =~= to_o@);
            assert(rem@ + Seq::<PacketId>::empty() =~= rem@);
            assert(to_o@ == select_going(l0, s0.packets, o));
            assert(rem@ == reject_going(l0, s0.packets, o));
        }
        let ghost pre2 = self@;
        self.leaving_queues[i] = rem;
        proof {
            assert(self@.leaving_queues =~= pre2.leaving_queues.update(i as int, rem@));
            assert(pre2.leaving_queues.update(i as int, rem@) =~= s0.leaving_queues.update(
                i as int,
                reject_going(l0, s0.packets, o),
            ));
        }
        to_o
    }

    /// Collect the packets released at the current time whose first edge is
    /// `o`, in packet id order, stamping their position and entrance time.
    #[verifier::loop_isolation(false)]
    #[verifier::rlimit(50)]
    #[verifier::spinoff_prover]
    fn collect_entering(&mut self, o: EdgeId) -> (entering: VecDeque<PacketId>)
        requires
            forall|pid: int|
                0 <= pid < old(self)@.packets.len() ==> (#[trigger] old(
                    self,
                )@.packets[pid]).path.len() >= 1,
        ensures
            entering@ == entering_upto(
                old(self)@.packets,
                old(self).time,
                o,
                old(self)@.packets.len() as int,
            ),
            final(self)@.packets == Seq::new(
                old(self)@.packets.len(),
                |pid: int|
                    if enters_at(old(self)@.packets, pid as PacketId, old(self).time, o) {
                        entered_packet(old(self)@.packets[pid], old(self).time)
                    } else {
                        old(self)@.packets[pid]
                    },
            ),
            final(self)@.leaving_queues == old(self)@.leaving_queues,
            final(self)@.edges == old(self)@.edges,
            final(self)@.edge_queues == old(self)@.edge_queues,
            final(self)@.vertices == old(self)@.vertices,
            final(self).time == old(self).time,
            final(self).packets_arrived == old(self).packets_arrived,
            final(self)@.arrival_times == old(self)@.arrival_times,
    {
        let ghost s0 = self@;
        let mut entering: VecDeque<PacketId> = VecDeque::new();
        let n_packets = self.packets.len();
        proof {
            assert(self@.packets =~= Seq::new(
                s0.packets.len(),
                |pid2: int|
                    if pid2 < 0 && enters_at(s0.packets, pid2 as PacketId, s0.time, o) {
                        entered_packet(s0.packets[pid2], s0.time)
                    } else {
                        s0.packets[pid2]
                    },
            ));
        }
        let mut pid: usize = 0;
        while pid < n_packets
            invariant
                0 <= pid <= n_packets,
                n_packets == s0.packets.len(),
                entering@ == entering_upto(s0.packets, s0.time, o, pid as int),
                self@.packets == Seq::new(
                    s0.packets.len(),
                    |pid2: int|
                        if pid2 < pid && enters_at(s0.packets, pid2 as PacketId, s0.time, o) {
                            entered_packet(s0.packets[pid2], s0.time)
                        } else {
                            s0.packets[pid2]
                        },
                ),
                self@.leaving_queues == s0.leaving_queues,
                self@.edges == s0.edges,
                self@.edge_queues == s0.edge_queues,
                self@.vertices == s0.vertices,
                self.time == s0.time,
                self.packets_arrived == s0.packets_arrived,
                self@.arrival_times == s0.arrival_times,
            decreases n_packets - pid,
        {
            let ghost pre = self@;
            proof {
                assert(self@.packets[pid as int] == s0.packets[pid as int]);
                assert(self.packets@[pid as int]@ == s0.packets[pid as int]);
            }
            if self.packets[pid].release_time == self.time && self.packets[pid].path[0] == o {
                entering.push_back(pid);
                self.packets[pid].path_position = Some(0);
                self.packets[pid].entrance_time = Some(self.time);
                proof {
                    assert(enters_at(s0.packets, pid, s0.time, o));
                    assert(self@.packets[pid as int] == entered_packet(
                        s0.packets[pid as int],
                        s0.time,
                    ));
                    assert forall|pid2: int|
                        0 <= pid2 < s0.packets.len() && pid2 != pid implies self@.packets[pid2]
                        == pre.packets[pid2] by {
                        assert(self.packets@[pid2]@ == pre.packets[pid2]);
                    }
                }
            } else {
                proof {
                    assert(!enters_at(s0.packets, pid, s0.time, o));
                    assert(self@ == pre);
                }
            }
            proof {
                assert forall|pid2: int| 0 <= pid2 < s0.packets.len() implies self@.packets[pid2]
                    == (if pid2 < pid + 1 && enters_at(s0.packets, pid2 as PacketId, s0.time, o) {
                    entered_packet(s0.packets[pid2], s0.time)
                } else {
                    s0.packets[pid2]
                }) by {
                    assert(pre.packets[pid2] == (if pid2 < pid && enters_at(
                        s0.packets,
                        pid2 as PacketId,
                        s0.time,
                        o,
                    ) {
                        entered_packet(s0.packets[pid2], s0.time)
                    } else {
                        s0.packets[pid2]
                    }));
                    if pid2 != pid {
                        assert(self.packets@[pid2]@ == self@.packets[pid2]);
                        assert(self@.packets[pid2] == pre.packets[pid2]);
                    }
                }
                assert(self@.packets.len() == s0.packets.len());
                assert(self@.packets =~= Seq::new(
                    s0.packets.len(),
                    |pid2: int|
                        if pid2 < pid + 1 && enters_at(s0.packets, pid2 as PacketId, s0.time, o) {
                            entered_packet(s0.packets[pid2], s0.time)
                        } else {
                            s0.packets[pid2]
                        },
                ));
            }
            pid = pid + 1;
        }
        proof {
            assert(self@.packets =~= Seq::new(
                s0.packets.len(),
                |pid2: int|
                    if enters_at(s0.packets, pid2 as PacketId, s0.time, o) {
                        entered_packet(s0.packets[pid2], s0.time)
                    } else {
                        s0.packets[pid2]
                    },
            ));
        }
        entering
    }

    /// The stream arguments handed to the zipper: matching lengths, pairwise
    /// distinct edge ids, and recorded original lengths that fit in `i64`.
    pub open spec fn zipper_args_ok(
        stream_edges: Seq<EdgeId>,
        stream_queues: Seq<VecDeque<PacketId>>,
        stream_lens: Seq<usize>,
    ) -> bool {
        &&& stream_edges.len() == stream_queues.len()
        &&& stream_lens.len() == stream_queues.len()
        &&& forall|j1: int, j2: int|
            0 <= j1 < j2 < stream_edges.len() ==> stream_edges[j1] != stream_edges[j2]
        &&& forall|j: int|
            0 <= j < stream_queues.len() ==> (#[trigger] stream_lens[j]) as int == (
            #[trigger] stream_queues[j])@.len() && (stream_lens[j] as int)
                < 0x8000_0000_0000_0000
    }

    /// Merge the streams into the waiting queue of outgoing edge `o`,
    /// serving in each round the stream whose normalized progress
    /// `(served + 1) / original length` is smallest, ties to the smaller
    /// edge id, exactly as a heap of `MaxHeapElement`s pops them.
    #[verifier::loop_isolation(false)]
    #[verifier::rlimit(60)]
    #[verifier::spinoff_prover]
    fn zipper_into(
        &mut self,
        o: EdgeId,
        stream_edges: &Vec<EdgeId>,
        stream_queues: Vec<VecDeque<PacketId>>,
        stream_lens: &Vec<usize>,
    )
        requires
            (o as int) < old(self)@.edge_queues.len(),
            Self::zipper_args_ok(stream_edges@, stream_queues@, stream_lens@),
        ensures
            final(self)@.edge_queues == old(self)@.edge_queues.update(
                o as int,
                old(self)@.edge_queues[o as int] + zipper_order(
                    stream_edges@,
                    stream_queues@.map_values(|q: VecDeque<PacketId>| q@),
                    Seq::new(stream_lens@.len(), |j: int| stream_lens@[j] as int),
                ),
            ),
            final(self)@.leaving_queues == old(self)@.leaving_queues,
            final(self)@.packets == old(self)@.packets,
            final(self)@.edges == old(self)@.edges,
            final(self)@.vertices == old(self)@.vertices,
            final(self).time == old(self).time,
            final(self).packets_arrived == old(self).packets_arrived,
            final(self)@.arrival_times == old(self)@.arrival_times,
    {
        let mut stream_queues = stream_queues;
        let ghost s0 = self@;
        let ghost se = stream_edges@;
        let ghost qs0 = stream_queues@.map_values(|q: VecDeque<PacketId>| q@);
        let ghost lens_i = Seq::new(stream_lens@.len(), |j: int| stream_lens@[j] as int);
        let k = stream_queues.len();
        let mut pq = PriorityQueue::new();
        let mut j: usize = 0;
        while j < k
            invariant
                0 <= j <= k,
                stream_queues@.len() == k,
                stream_queues@.map_values(|q: VecDeque<PacketId>| q@) == qs0,
                pq.wf(),
                self@ == s0,
                forall|idx: int|
                    0 <= idx < pq@.len() ==> {
                        let el = #[trigger] pq@[idx];
                        &&& (el.queue_id as int) < j
                        &&& qs0[el.queue_id as int].len() > 0
                        &&& el == zipper_elem(se, qs0, lens_i, el.queue_id as int)
                    },
                forall|i1: int, i2: int|
                    0 <= i1 < i2 < pq@.len() ==> pq@[i1].queue_id != pq@[i2].queue_id,
                forall|j2: int|
                    0 <= j2 < j && qs0[j2].len() > 0 ==> exists|idx: int|
                        0 <= idx < pq@.len() && (#[trigger] pq@[idx]).queue_id == j2,
            decreases k - j,
        {
            if stream_queues[j].len() > 0 {
                let ghost pq_pre = pq@;
                let prio = Fraction::new(1, stream_lens[j] as i64);
                pq.push(MaxHeapElement { priority: prio, edge_id: stream_edges[j], queue_id: j });
                proof {
                    assert(qs0[j as int].len() == lens_i[j as int]);
                    assert(pq@[pq_pre.len() as int] == zipper_elem(se, qs0, lens_i, j as int));
                    assert forall|j2: int|
                        0 <= j2 < j + 1 && qs0[j2].len() > 0 implies exists|idx: int|
                        0 <= idx < pq@.len() && (#[trigger] pq@[idx]).queue_id == j2 by {
                        if j2 < j {
                            let idx = choose|idx: int|
                                0 <= idx < pq_pre.len() && (#[trigger] pq_pre[idx]).queue_id == j2;
                            assert(pq@[idx].queue_id == j2);
                        } else {
                            assert(pq@[pq_pre.len() as int].queue_id == j2);
                        }
                    }
                }
            }
            j = j + 1;
        }
        let ghost eq0 = s0.edge_queues;
        let ghost mut appended: Seq<PacketId> = Seq::empty();
        proof {
            assert(eq0[o as int] + appended =~= eq0[o as int]);
            assert(self@.edge_queues =~= eq0.update(o as int, eq0[o as int] + appended));
            assert(zipper_wf(qs0, lens_i)) by {
                assert forall|j2: int| 0 <= j2 < k implies 0 <= (#[trigger] qs0[j2]).len()
                    <= lens_i[j2] < 0x8000_0000_0000_0000 by {
                    assert((stream_lens@[j2]) as int == (stream_queues@[j2])@.len());
                }
            }
            assert forall|j2: int|
                0 <= j2 < k && (#[trigger] stream_queues@[j2])@.len() > 0 implies exists|idx: int|
                0 <= idx < pq@.len() && (#[trigger] pq@[idx]).queue_id == j2 by {
                assert(qs0[j2] == stream_queues@[j2]@);
            }
        }
        while pq.len() > 0
            invariant
                stream_queues@.len() == k,
                se.len() == k,
                lens_i.len() == k,
                pq.wf(),
                zipper_wf(stream_queues@.map_values(|q: VecDeque<PacketId>| q@), lens_i),
                forall|idx: int|
                    0 <= idx < pq@.len() ==> {
                        let el = #[trigger] pq@[idx];
                        &&& (el.queue_id as int) < k
                        &&& stream_queues@[el.queue_id as int]@.len() > 0
                        &&& el == zipper_elem(
                            se,
                            stream_queues@.map_values(|q: VecDeque<PacketId>| q@),
                            lens_i,
                            el.queue_id as int,
                        )
                    },
                forall|i1: int, i2: int|
                    0 <= i1 < i2 < pq@.len() ==> pq@[i1].queue_id != pq@[i2].queue_id,
                forall|j2: int|
                    0 <= j2 < k && (#[trigger] stream_queues@[j2])@.len() > 0 ==> exists|idx: int|
                        0 <= idx < pq@.len() && (#[trigger] pq@[idx]).queue_id == j2,
                zipper_order(se, qs0, lens_i) == appended + zipper_order(
                    se,
                    stream_queues@.map_values(|q: VecDeque<PacketId>| q@),
                    lens_i,
                ),
                self@.edge_queues == eq0.update(o as int, eq0[o as int] + appended),
                self@.leaving_queues == s0.leaving_queues,
                self@.packets == s0.packets,
                self@.edges == s0.edges,
                self@.vertices == s0.vertices,
                self.time == s0.time,
                self.packets_arrived == s0.packets_arrived,
                self@.arrival_times == s0.arrival_times,
            decreases total_len(stream_queues@.map_values(|q: VecDeque<PacketId>| q@)),
        {
            let ghost qs_pre = stream_queues@.map_values(|q: VecDeque<PacketId>| q@);
            let ghost pq_pre = pq@;
            proof {
                lemma_total_len_nonneg(qs_pre);
                assert(zipper_wf(qs_pre, lens_i));
                lemma_pick_props(se, qs_pre, lens_i, k as int);
            }
            let ghost jp = pick_upto(se, qs_pre, lens_i, k as int);
            let top = pq.pop();
            proof {
                // the popped element stands for one of the streams
                assert forall|idx: int|
                    0 <= idx < pq_pre.len() implies (#[trigger] pq_pre[idx]).priority.wf() by {
                    lemma_zipper_elem_wf(se, qs_pre, lens_i, pq_pre[idx].queue_id as int);
                }
                crate::heap_element::lemma_best_is_min(pq_pre, pq_pre.len() as int);
                let bi = best_index(pq_pre);
                assert(0 <= bi < pq_pre.len());
                assert(top == pq_pre[bi]);
                assert(top == zipper_elem(se, qs_pre, lens_i, top.queue_id as int));
                assert(qs_pre[top.queue_id as int].len() > 0);
                // the heap pops exactly the stream that the merge rule picks
                assert(jp != -1) by {
                    if jp == -1 {
                        assert(qs_pre[top.queue_id as int].len() == 0);
                    }
                }
                let idxp = choose|idx: int|
                    0 <= idx < pq_pre.len() && (#[trigger] pq_pre[idx]).queue_id == jp;
                assert(pq_pre[idxp] == zipper_elem(se, qs_pre, lens_i, jp));
                assert(!pops_before(zipper_elem(se, qs_pre, lens_i, jp), top));
                assert(!pops_before(top, zipper_elem(se, qs_pre, lens_i, jp)));
                let ea = zipper_elem(se, qs_pre, lens_i, jp);
                let eb = zipper_elem(se, qs_pre, lens_i, top.queue_id as int);
                lemma_zipper_elem_wf(se, qs_pre, lens_i, jp);
                lemma_zipper_elem_wf(se, qs_pre, lens_i, top.queue_id as int);
                crate::fraction::lemma_order_total(ea.priority, eb.priority);
                assert(ea.edge_id == eb.edge_id);
                assert(jp == top.queue_id as int) by {
                    if jp != top.queue_id as int {
                        assert(se[jp] != se[top.queue_id as int]);
                    }
                }
            }
            let qid = top.queue_id;
            proof {
                assert(stream_queues@[qid as int]@ == qs_pre[qid as int]);
            }
            let pid = stream_queues[qid].pop_front().unwrap();
            proof {
                assert(pid == qs_pre[qid as int][0]);
                assert(stream_queues@.map_values(|q: VecDeque<PacketId>| q@) =~= qs_pre.update(
                    jp,
                    qs_pre[jp].skip(1),
                ));
            }
            let ghost pre_push = self@;
            proof {
                assert(pre_push.edge_queues == eq0.update(o as int, eq0[o as int] + appended));
                assert(pre_push.edge_queues[o as int] == eq0[o as int] + appended);
                assert(self.edge_queues@[o as int]@ == eq0[o as int] + appended);
            }
            self.edge_queues[o].push_back(pid);
            proof {
                assert(self@.edge_queues =~= pre_push.edge_queues.update(
                    o as int,
                    (eq0[o as int] + appended).push(pid),
                ));
                assert((eq0[o as int] + appended.push(pid)) =~= (eq0[o as int] + appended).push(
                    pid,
                ));
                appended = appended.push(pid);
                assert(self@.edge_queues =~= eq0.update(o as int, eq0[o as int] + appended));
                // peel one round off the merge order
                lemma_total_len_nonneg(qs_pre);
                lemma_total_len_update(qs_pre, jp, qs_pre[jp].skip(1));
                lemma_total_len_nonneg(qs_pre.update(jp, qs_pre[jp].skip(1)));
                assert(zipper_order(se, qs_pre, lens_i) == seq![qs_pre[jp][0]] + zipper_order(
                    se,
                    qs_pre.update(jp, qs_pre[jp].skip(1)),
                    lens_i,
                ));
                assert((appended.drop_last() + (seq![pid] + zipper_order(
                    se,
                    qs_pre.update(jp, qs_pre[jp].skip(1)),
                    lens_i,
                ))) =~= (appended + zipper_order(
                    se,
                    qs_pre.update(jp, qs_pre[jp].skip(1)),
                    lens_i,
                )));
                assert(appended.drop_last() =~= appended.subrange(0, appended.len() - 1));
                lemma_total_len_update(qs_pre, jp, qs_pre[jp].skip(1));
            }
            let ghost qs_now = stream_queues@.map_values(|q: VecDeque<PacketId>| q@);
            let ghost pq_mid = pq@;
            if stream_queues[qid].len() > 0 {
                let served_plus = stream_lens[qid] - stream_queues[qid].len() + 1;
                let prio = Fraction::new(served_plus as i64, stream_lens[qid] as i64);
                pq.push(MaxHeapElement {
                    priority: prio,
                    edge_id: stream_edges[qid],
                    queue_id: qid,
                });
                proof {
                    assert(pq@[pq_mid.len() as int] == zipper_elem(se, qs_now, lens_i, qid as int));
                }
            }
            proof {
                // every element of the old heap except the popped one is kept,
                // still standing for a non-empty stream other than `qid`
                assert forall|idx: int|
                    0 <= idx < pq_pre.len() implies (#[trigger] pq_pre[idx]).priority.wf() by {
                    lemma_zipper_elem_wf(se, qs_pre, lens_i, pq_pre[idx].queue_id as int);
                }
                crate::heap_element::lemma_best_is_min(pq_pre, pq_pre.len() as int);
                assert(pq_mid == pq_pre.remove(best_index(pq_pre)));
                let bi = best_index(pq_pre);
                assert(0 <= bi < pq_pre.len());
                assert(pq_pre[bi] == top);
                assert forall|idx: int| 0 <= idx < pq_mid.len() implies {
                    let el = #[trigger] pq_mid[idx];
                    &&& (el.queue_id as int) < k
                    &&& el.queue_id != qid
                    &&& qs_now[el.queue_id as int].len() > 0
                    &&& el == zipper_elem(se, qs_now, lens_i, el.queue_id as int)
                } by {
                    let oi = if idx < bi {
                        idx
                    } else {
                        idx + 1
                    };
                    assert(pq_mid[idx] == pq_pre[oi]);
                    assert(pq_pre[oi].queue_id != pq_pre[bi].queue_id || oi == bi);
                    assert(qs_now[pq_pre[oi].queue_id as int] == qs_pre[pq_pre[oi].queue_id as int]);
                }
                assert forall|i1: int, i2: int| 0 <= i1 < i2 < pq@.len() implies pq@[i1].queue_id
                    != pq@[i2].queue_id by {
                    if i2 < pq_mid.len() {
                        assert(pq@[i1] == pq_mid[i1] && pq@[i2] == pq_mid[i2]);
                    } else {
                        assert(pq@[i1] == pq_mid[i1]);
                    }
                }
                assert forall|j2: int|
                    0 <= j2 < k && (#[trigger] stream_queues@[j2])@.len() > 0 implies exists|
                    idx: int,
                |
                    0 <= idx < pq@.len() && (#[trigger] pq@[idx]).queue_id == j2 by {
                    if j2 == qid as int {
                        assert(pq@[pq_mid.len() as int].queue_id == j2);
                    } else {
                        assert(qs_pre[j2].len() > 0);
                        let idx = choose|idx: int|
                            0 <= idx < pq_pre.len() && (#[trigger] pq_pre[idx]).queue_id == j2;
                        assert(idx != bi);
                        let ni = if idx < bi {
                            idx
                        } else {
                            idx - 1
                        };
                        assert(pq_mid[ni] == pq_pre[idx]);
                        assert(pq@[ni].queue_id == j2);
                    }
                }
            }
        }
        proof {
            assert forall|j2: int|
                0 <= j2 < k implies (#[trigger] stream_queues@[j2])@.len() == 0 by {
                if stream_queues@[j2]@.len() > 0 {
                    let idx = choose|idx: int|
                        0 <= idx < pq@.len() && (#[trigger] pq@[idx]).queue_id == j2;
                }
            }
            let qs_end = stream_queues@.map_values(|q: VecDeque<PacketId>| q@);
            assert(zipper_wf(qs_end, lens_i));
            lemma_pick_props(se, qs_end, lens_i, k as int);
            lemma_total_len_all_empty(qs_end);
            lemma_total_len_nonneg(qs_end);
            assert(pick_upto(se, qs_end, lens_i, qs_end.len() as int) == -1);
            assert(zipper_order(se, qs_end, lens_i) == Seq::<PacketId>::empty());
            assert(appended + Seq::<PacketId>::empty() =~= appended);
            lemma_total_len_nonneg(qs0);
            assert(zipper_order(se, qs0, lens_i) == appended);
        }
    }

    /// Route the packets through vertex `v` onto outgoing edge `o`: split
    /// each incoming leaving queue, append the entering stream, and zipper
    /// the streams into the waiting queue of `o`.
    #[verifier::loop_isolation(false)]
    #[verifier::rlimit(60)]
    #[verifier::spinoff_prover]
    fn process_outgoing(&mut self, v: VertexId, o: EdgeId)
        requires
            out_edge_pre(old(self)@, v as int, o),
        ensures
            final(self)@ == process_out_edge(old(self)@, v as int, o),
    {
        let ghost s = self@;
        let ghost inc = s.vertices[v as int].incoming_edges;
        let n_pk = self.packets.len();
        let n_lq = self.leaving_queues.len();
        let n_eq = self.edge_queues.len();
        proof {
            assert(s.packets.len() == n_pk);
            assert(s.leaving_queues.len() == n_lq);
            assert(s.edge_queues.len() == n_eq);
            assert(inc == s.vertices[v as int].incoming_edges);
        }
        let mut stream_edges: Vec<EdgeId> = Vec::new();
        let mut stream_queues: Vec<VecDeque<PacketId>> = Vec::new();
        let mut stream_lens: Vec<usize> = Vec::new();
        let n_inc = self.vertices[v].incoming_edges.len();
        proof {
            assert(inc.take(0) =~= Seq::<EdgeId>::empty());
            assert(self@.leaving_queues =~= Seq::new(
                s.leaving_queues.len(),
                |e: int|
                    if inc.take(0).contains(e as EdgeId) {
                        reject_going(s.leaving_queues[e], s.packets, o)
                    } else {
                        s.leaving_queues[e]
                    },
            ));
            assert(self@.packets =~= Seq::new(
                s.packets.len(),
                |pid: int|
                    if exists|j: int|
                        0 <= j < 0 && s.leaving_queues[inc[j] as int].contains(pid as PacketId)
                            && goes_to(s.packets, pid as PacketId, o) {
                        advanced_packet(s.packets[pid], s.time)
                    } else {
                        s.packets[pid]
                    },
            ));
            assert(stream_queues@.map_values(|q: VecDeque<PacketId>| q@) =~= Seq::new(
                0,
                |j: int| select_going(s.leaving_queues[inc[j] as int], s.packets, o),
            ));
        }
        let mut ji: usize = 0;
        while ji < n_inc
            invariant
                0 <= ji <= n_inc,
                n_inc == inc.len(),
                stream_edges@ == inc.take(ji as int),
                stream_lens@.len() == ji,
                stream_queues@.len() == ji,
                stream_queues@.map_values(|q: VecDeque<PacketId>| q@) == Seq::new(
                    ji as nat,
                    |j: int| select_going(s.leaving_queues[inc[j] as int], s.packets, o),
                ),
                forall|j: int|
                    0 <= j < ji ==> (#[trigger] stream_lens@[j]) as int == (
                    stream_queues@[j])@.len(),
                self@.leaving_queues == Seq::new(
                    s.leaving_queues.len(),
                    |e: int|
                        if inc.take(ji as int).contains(e as EdgeId) {
                            reject_going(s.leaving_queues[e], s.packets, o)
                        } else {
                            s.leaving_queues[e]
                        },
                ),
                self@.packets == Seq::new(
                    s.packets.len(),
                    |pid: int|
                        if exists|j: int|
                            0 <= j < ji && s.leaving_queues[(#[trigger] inc[j]) as int].contains(
                                pid as PacketId,
                            ) && goes_to(s.packets, pid as PacketId, o) {
                            advanced_packet(s.packets[pid], s.time)
                        } else {
                            s.packets[pid]
                        },
                ),
                self@.edges == s.edges,
                self@.edge_queues == s.edge_queues,
                self@.vertices == s.vertices,
                self.time == s.time,
                self.packets_arrived == s.packets_arrived,
                self@.arrival_times == s.arrival_times,
            decreases n_inc - ji,
        {
            let ghost pre = self@;
            let i = self.vertices[v].incoming_edges[ji];
            proof {
                assert(i == inc[ji as int]);
                assert(!inc.take(ji as int).contains(i)) by {
                    if inc.take(ji as int).contains(i) {
                        let j = choose|j: int|
                            0 <= j < ji && inc.take(ji as int)[j] == i;
                        assert(inc[j] == inc[ji as int]);
                    }
                }
                assert(pre.leaving_queues[i as int] == s.leaving_queues[i as int]);
                // the queue members still carry their original records
                assert forall|idx: int|
                    0 <= idx < pre.leaving_queues[i as int].len() implies {
                    let pid = #[trigger] pre.leaving_queues[i as int][idx];
                    &&& pid < pre.packets.len()
                    &&& pre.packets[pid as int] == s.packets[pid as int]
                    &&& pre.packets[pid as int].path_position matches Some(pos) && pos
                        < pre.packets[pid as int].path.len()
                } by {
                    let pid = pre.leaving_queues[i as int][idx];
                    assert(s.leaving_queues[i as int][idx] == pid);
                    if exists|j: int|
                        0 <= j < ji && s.leaving_queues[(#[trigger] inc[j]) as int].contains(
                            pid as PacketId,
                        ) && goes_to(s.packets, pid as PacketId, o) {
                        let j = choose|j: int|
                            0 <= j < ji && s.leaving_queues[(#[trigger] inc[j]) as int].contains(
                                pid,
                            ) && goes_to(s.packets, pid, o);
                        let idx2 = choose|idx2: int|
                            0 <= idx2 < s.leaving_queues[inc[j] as int].len()
                                && s.leaving_queues[inc[j] as int][idx2] == pid;
                        assert(inc[j] != inc[ji as int]);
                        assert(false);
                    }
                }
            }
            let to_o = self.collect_stream(i, o);
            let ghost mid = self@;
            proof {
                lemma_split_agrees(s.leaving_queues[i as int], pre.packets, s.packets, o);
                assert(to_o@ == select_going(s.leaving_queues[i as int], s.packets, o));
            }
            stream_edges.push(i);
            stream_lens.push(to_o.len());
            stream_queues.push(to_o);
            proof {
                assert(stream_edges@ =~= inc.take(ji + 1));
                assert forall|j: int| 0 <= j < ji + 1 implies stream_queues@.map_values(
                    |q: VecDeque<PacketId>| q@,
                )[j] == select_going(s.leaving_queues[inc[j] as int], s.packets, o) by {
                    if j < ji {
                        assert(stream_queues@[j]@ == Seq::new(
                            ji as nat,
                            |j2: int| select_going(s.leaving_queues[inc[j2] as int], s.packets, o),
                        )[j]);
                    } else {
                        assert(stream_queues@[j] == to_o);
                    }
                }
                assert(stream_queues@.map_values(|q: VecDeque<PacketId>| q@) =~= Seq::new(
                    (ji + 1) as nat,
                    |j: int| select_going(s.leaving_queues[inc[j] as int], s.packets, o),
                ));
                // leaving queues: the new queue i is the rejected remainder
                assert forall|e: int| 0 <= e < s.leaving_queues.len() implies self@.leaving_queues[e]
                    == (if inc.take(ji + 1).contains(e as EdgeId) {
                    reject_going(s.leaving_queues[e], s.packets, o)
                } else {
                    s.leaving_queues[e]
                }) by {
                    lemma_push_contains(inc.take(ji as int), i, e as EdgeId);
                    assert(inc.take(ji as int).push(i) =~= inc.take(ji + 1));
                    if e == i as int {
                        lemma_split_agrees(s.leaving_queues[e], pre.packets, s.packets, o);
                        assert(self@.leaving_queues[e] == reject_going(
                            s.leaving_queues[e],
                            pre.packets,
                            o,
                        ));
                        assert(inc.take(ji + 1).contains(e as EdgeId));
                    } else {
                        assert(self@.leaving_queues[e] == pre.leaving_queues[e]);
                        assert(pre.leaving_queues[e] == Seq::new(
                            s.leaving_queues.len(),
                            |e2: int|
                                if inc.take(ji as int).contains(e2 as EdgeId) {
                                    reject_going(s.leaving_queues[e2], s.packets, o)
                                } else {
                                    s.leaving_queues[e2]
                                },
                        )[e]);
                        assert(inc.take(ji + 1).contains(e as EdgeId) == inc.take(
                            ji as int,
                        ).contains(e as EdgeId));
                    }
                }
                assert(self@.leaving_queues =~= Seq::new(
                    s.leaving_queues.len(),
                    |e: int|
                        if inc.take(ji + 1).contains(e as EdgeId) {
                            reject_going(s.leaving_queues[e], s.packets, o)
                        } else {
                            s.leaving_queues[e]
                        },
                ));
                // packets: the selected packets of queue i join the advanced set
                lemma_split_going(s.leaving_queues[i as int], s.packets, o);
                assert forall|pid: int| 0 <= pid < s.packets.len() implies self@.packets[pid] == (
                if exists|j: int|
                    0 <= j < ji + 1 && s.leaving_queues[(#[trigger] inc[j]) as int].contains(
                        pid as PacketId,
                    ) && goes_to(s.packets, pid as PacketId, o) {
                    advanced_packet(s.packets[pid], s.time)
                } else {
                    s.packets[pid]
                }) by {
                    if select_going(s.leaving_queues[i as int], s.packets, o).contains(
                        pid as PacketId,
                    ) {
                        assert(s.leaving_queues[inc[ji as int] as int].contains(pid as PacketId)
                            && goes_to(s.packets, pid as PacketId, o));
                        assert(self@.packets[pid] == advanced_packet(
                            mid.packets[pid],
                            s.time,
                        ) || self@.packets[pid] == advanced_packet(s.packets[pid], s.time));
                        assert(mid.packets[pid] == (if select_going(
                            s.leaving_queues[i as int],
                            s.packets,
                            o,
                        ).contains(pid as PacketId) {
                            advanced_packet(pre.packets[pid], s.time)
                        } else {
                            pre.packets[pid]
                        }));
                        assert(pre.packets[pid] == s.packets[pid]);
                    } else {
                        assert(mid.packets[pid] == pre.packets[pid]);
                        if exists|j: int|
                            0 <= j < ji + 1 && s.leaving_queues[(#[trigger] inc[j]) as int].contains(
                                pid as PacketId,
                            ) && goes_to(s.packets, pid as PacketId, o) {
                            let j = choose|j: int|
                                0 <= j < ji + 1 && s.leaving_queues[(
                                #[trigger] inc[j]) as int].contains(pid as PacketId) && goes_to(
                                    s.packets,
                                    pid as PacketId,
                                    o,
                                );
                            if j == ji as int {
                                assert(select_going(
                                    s.leaving_queues[i as int],
                                    s.packets,
                                    o,
                                ).contains(pid as PacketId));
                                assert(false);
                            }
                        }
                    }
                }
                assert(self@.packets =~= Seq::new(
                    s.packets.len(),
                    |pid: int|
                        if exists|j: int|
                            0 <= j < ji + 1 && s.leaving_queues[(#[trigger] inc[j]) as int].contains(
                                pid as PacketId,
                            ) && goes_to(s.packets, pid as PacketId, o) {
                            advanced_packet(s.packets[pid], s.time)
                        } else {
                            s.packets[pid]
                        },
                ));
            }
            ji = ji + 1;
        }
        let ghost before_entering = self@;
        proof {
            assert(inc.take(n_inc as int) =~= inc);
            assert forall|pid: int|
                0 <= pid < before_entering.packets.len() implies (#[trigger] before_entering.packets[pid]).path.len()
                >= 1 && before_entering.packets[pid].release_time == s.packets[pid].release_time
                && before_entering.packets[pid].path == s.packets[pid].path by {
            }
        }
        let entering = self.collect_entering(o);
        let ghost after_entering = self@;
        proof {
            lemma_entering_agrees(before_entering.packets, s.packets, s.time, o, s.packets.len() as int);
            assert(entering@ == entering_upto(s.packets, s.time, o, s.packets.len() as int));
            lemma_entering_props(s.packets, s.time, o, s.packets.len() as int);
        }
        let ghost sq_before = stream_queues@;
        let ghost sl_before = stream_lens@;
        stream_edges.push(usize::MAX);
        stream_lens.push(entering.len());
        stream_queues.push(entering);
        proof {
            // the streams are exactly the spec streams
            assert(stream_edges@ =~= stream_edges_of(s, v as int));
            assert(stream_queues@.map_values(|q: VecDeque<PacketId>| q@) =~= stream_queues_of(
                s,
                v as int,
                o,
            ));
            assert(Seq::new(stream_lens@.len(), |j: int| stream_lens@[j] as int)
                =~= stream_lens_of(s, v as int, o));
            // the stream edge ids are pairwise distinct, and the lengths fit
            assert forall|j1: int, j2: int|
                0 <= j1 < j2 < stream_edges@.len() implies stream_edges@[j1] != stream_edges@[j2] by {
                if j2 < inc.len() {
                    assert(stream_edges@[j1] == inc[j1] && stream_edges@[j2] == inc[j2]);
                    assert(inc[j1] == s.vertices[v as int].incoming_edges[j1]);
                    assert(inc[j2] == s.vertices[v as int].incoming_edges[j2]);
                } else {
                    assert(stream_edges@[j2] == usize::MAX);
                    assert(stream_edges@[j1] == inc[j1]);
                    assert(inc[j1] == s.vertices[v as int].incoming_edges[j1]);
                    assert((inc[j1] as int) < s.edge_queues.len());
                }
            }
            assert forall|j: int|
                0 <= j < stream_queues@.len() implies (#[trigger] stream_lens@[j]) as int == (
                #[trigger] stream_queues@[j])@.len() && (stream_lens@[j] as int)
                < 0x8000_0000_0000_0000 by {
                assert(Seq::new(stream_lens@.len(), |j2: int| stream_lens@[j2] as int)[j]
                    == stream_lens_of(s, v as int, o)[j]);
                assert(stream_queues@.map_values(|q: VecDeque<PacketId>| q@)[j]
                    == stream_queues_of(s, v as int, o)[j]);
                assert(stream_lens@[j] as int == stream_queues_of(s, v as int, o)[j].len());
                if j < inc.len() {
                    assert(inc[j] == s.vertices[v as int].incoming_edges[j]);
                    lemma_split_going(s.leaving_queues[inc[j] as int], s.packets, o);
                    assert(stream_queues_of(s, v as int, o)[j] == select_going(
                        s.leaving_queues[inc[j] as int],
                        s.packets,
                        o,
                    ));
                } else {
                    assert(stream_queues_of(s, v as int, o)[j] == entering_upto(
                        s.packets,
                        s.time,
                        o,
                        s.packets.len() as int,
                    ));
                    assert(entering_upto(s.packets, s.time, o, s.packets.len() as int).len()
                        <= s.packets.len());
                }
            }
        }
        proof {
            assert(Self::zipper_args_ok(stream_edges@, stream_queues@, stream_lens@));
            assert((o as int) < self@.edge_queues.len());
        }
        self.zipper_into(o, &stream_edges, stream_queues, &stream_lens);
        proof {
            assert(self@.edge_queues =~= process_out_edge(s, v as int, o).edge_queues);
            assert(self@.leaving_queues =~= process_out_edge(s, v as int, o).leaving_queues);
            assert forall|pid: int| 0 <= pid < s.packets.len() implies after_entering.packets[pid]
                == transition_packet(s, v as int, o, pid) by {
                if selected_from_leaving(s, v as int, o, pid as PacketId) {
                    assert(!enters_at(s.packets, pid as PacketId, s.time, o));
                    assert(before_entering.packets[pid] == advanced_packet(s.packets[pid], s.time));
                } else if enters_at(s.packets, pid as PacketId, s.time, o) {
                    assert(before_entering.packets[pid] == s.packets[pid]);
                }
            }
            assert(self@.packets =~= Seq::new(
                s.packets.len(),
                |pid: int| transition_packet(s, v as int, o, pid),
            ));
            assert(self@ =~= process_out_edge(s, v as int, o));
        }
    }

    /// Phase two of a time step: every vertex, in id order, takes each of its
    /// outgoing edges in stored order and routes onto it the leaving packets
    /// whose next path edge it is, zippered fairly with the packets released
    /// onto it this very step.
    #[verifier::loop_isolation(false)]
    #[verifier::rlimit(60)]
    #[verifier::spinoff_prover]
    pub fn node_transitions(&mut self)
        requires
            inv_trans(old(self)@),
            forall|pid: int|
                0 <= pid < old(self)@.packets.len() && (#[trigger] old(
                    self,
                )@.packets[pid]).release_time == old(self)@.time ==> old(
                    self,
                )@.packets[pid].path_position is None,
        ensures
            final(self)@ == phase_transitions(old(self)@),
            inv_trans(final(self)@),
            final(self).time == old(self).time,
            leaving_at_path_end(final(self)@),
    {
        let ghost s0 = self@;
        let n_vertices = self.vertices.len();
        let mut v: usize = 0;
        while v < n_vertices
            invariant
                0 <= v <= n_vertices,
                n_vertices == s0.vertices.len(),
                self@ == phase_transitions_upto(s0, v as int),
                inv_trans(self@),
                self@.vertices == s0.vertices,
                self.time == s0.time,
                self@.packets.len() == s0.packets.len(),
                forall|pid: int|
                    0 <= pid < s0.packets.len() ==> (#[trigger] self@.packets[pid]).release_time
                        == s0.packets[pid].release_time && self@.packets[pid].path
                        == s0.packets[pid].path,
                forall|pid: int|
                    0 <= pid < s0.packets.len() && (#[trigger] s0.packets[pid]).release_time
                        == s0.time && self@.packets[pid].path_position is Some ==> exists|v2: int|
                        0 <= v2 < v && (#[trigger] s0.vertices[v2].outgoing_edges).contains(
                            s0.packets[pid].path[0],
                        ),
                forall|e: int, idx: int|
                    0 <= e < self@.leaving_queues.len() && 0 <= idx < self@.leaving_queues[e].len()
                        && (s0.edges[e].v_to as int) < v ==> {
                        let pid = #[trigger] self@.leaving_queues[e][idx];
                        self@.packets[pid as int].path_position matches Some(pos) && pos + 1
                            == self@.packets[pid as int].path.len()
                    },
                self@.edges == s0.edges,
            decreases n_vertices - v,
        {
            let ghost sv = self@;
            let n_out = self.vertices[v].outgoing_edges.len();
            proof {
                assert(sv.vertices[v as int] == s0.vertices[v as int]);
                assert(process_vertex_upto(sv, v as int, 0) == sv);
            }
            let mut oi: usize = 0;
            while oi < n_out
                invariant
                    0 <= oi <= n_out,
                    v < n_vertices,
                    n_out == s0.vertices[v as int].outgoing_edges.len(),
                    self@ == process_vertex_upto(sv, v as int, oi as int),
                    inv_trans(self@),
                    self@.vertices == s0.vertices,
                    self.time == s0.time,
                    self@.packets.len() == s0.packets.len(),
                    forall|pid: int|
                        0 <= pid < s0.packets.len() ==> (#[trigger] self@.packets[pid]).release_time
                            == s0.packets[pid].release_time && self@.packets[pid].path
                            == s0.packets[pid].path,
                    forall|pid: int|
                        0 <= pid < s0.packets.len() && (#[trigger] s0.packets[pid]).release_time
                            == s0.time && self@.packets[pid].path_position is Some ==> (exists|
                            v2: int,
                        |
                            0 <= v2 < v && (#[trigger] s0.vertices[v2].outgoing_edges).contains(
                                s0.packets[pid].path[0],
                            )) || s0.vertices[v as int].outgoing_edges.take(oi as int).contains(
                            s0.packets[pid].path[0],
                        ),
                    forall|e: int, idx: int|
                        0 <= e < self@.leaving_queues.len() && 0 <= idx
                            < self@.leaving_queues[e].len() && (s0.edges[e].v_to as int) < v ==> {
                            let pid = #[trigger] self@.leaving_queues[e][idx];
                            self@.packets[pid as int].path_position matches Some(pos) && pos + 1
                                == self@.packets[pid as int].path.len()
                        },
                    forall|e: int, idx: int, j: int|
                        0 <= e < self@.leaving_queues.len() && 0 <= idx
                            < self@.leaving_queues[e].len() && (s0.edges[e].v_to as int) == v as int
                            && 0 <= j < oi ==> !goes_to(
                            self@.packets,
                            #[trigger] self@.leaving_queues[e][idx],
                            #[trigger] s0.vertices[v as int].outgoing_edges[j],
                        ),
                    self@.edges == s0.edges,
                decreases n_out - oi,
            {
                let ghost pre = self@;
                let o = self.vertices[v].outgoing_edges[oi];
                proof {
                    assert(o == s0.vertices[v as int].outgoing_edges[oi as int]);
                    assert((o as int) < self@.edge_queues.len()) by {
                        assert(wf_topology(self@));
                    }
                    // no packet released onto `o` this step has entered yet
                    assert forall|pid: int|
                        0 <= pid < self@.packets.len() && enters_at(
                            self@.packets,
                            pid as PacketId,
                            self@.time,
                            o,
                        ) implies (#[trigger] self@.packets[pid]).path_position is None by {
                        if self@.packets[pid].path_position is Some {
                            assert(s0.packets[pid].release_time == s0.time);
                            assert(s0.packets[pid].path[0] == o);
                            if exists|v2: int|
                                0 <= v2 < v && (#[trigger] s0.vertices[v2].outgoing_edges).contains(
                                    s0.packets[pid].path[0],
                                ) {
                                let v2 = choose|v2: int|
                                    0 <= v2 < v && (
                                    #[trigger] s0.vertices[v2].outgoing_edges).contains(
                                        s0.packets[pid].path[0],
                                    );
                                let j2 = choose|j2: int|
                                    0 <= j2 < s0.vertices[v2].outgoing_edges.len()
                                        && s0.vertices[v2].outgoing_edges[j2] == o;
                                assert(s0.edges[o as int].v_from == v2);
                                assert(s0.edges[o as int].v_from == v as int);
                                assert(false);
                            } else {
                                let tk = s0.vertices[v as int].outgoing_edges.take(oi as int);
                                assert(tk.contains(o));
                                let j2 = choose|j2: int| 0 <= j2 < oi && tk[j2] == o;
                                assert(s0.vertices[v as int].outgoing_edges[j2] == o);
                                assert(s0.vertices[v as int].outgoing_edges[j2]
                                    != s0.vertices[v as int].outgoing_edges[oi as int]);
                                assert(false);
                            }
                        }
                    }
                    lemma_out_edge_pre(self@, v as int, o);
                    lemma_process_preserves(self@, v as int, o);
                }
                self.process_outgoing(v, o);
                proof {
                    assert(self@ == process_out_edge(pre, v as int, o));
                    assert(process_vertex_upto(sv, v as int, oi + 1) == process_out_edge(
                        process_vertex_upto(sv, v as int, oi as int),
                        v as int,
                        process_vertex_upto(sv, v as int, oi as int).vertices[v as int].outgoing_edges[oi as int],
                    ));
                    assert(pre.vertices[v as int].outgoing_edges[oi as int] == o);
                    // the freshness bookkeeping gains exactly edge `o`
                    assert forall|pid: int|
                        0 <= pid < s0.packets.len() && (#[trigger] s0.packets[pid]).release_time
                            == s0.time && self@.packets[pid].path_position is Some implies (exists|
                        v2: int,
                    |
                        0 <= v2 < v && (#[trigger] s0.vertices[v2].outgoing_edges).contains(
                            s0.packets[pid].path[0],
                        )) || s0.vertices[v as int].outgoing_edges.take(oi + 1).contains(
                        s0.packets[pid].path[0],
                    ) by {
                        let tk = s0.vertices[v as int].outgoing_edges.take(oi as int);
                        lemma_push_contains(tk, o, s0.packets[pid].path[0]);
                        assert(tk.push(o) =~= s0.vertices[v as int].outgoing_edges.take(oi + 1));
                        if pre.packets[pid].path_position is Some {
                        } else {
                            assert(enters_at(pre.packets, pid as PacketId, pre.time, o));
                            assert(pre.packets[pid].path == s0.packets[pid].path);
                            assert(s0.packets[pid].path[0] == o);
                        }
                    }
                    // remaining leaving packets head to none of the edges
                    // handled so far at this vertex
                    assert forall|e: int, idx: int, j: int|
                        0 <= e < self@.leaving_queues.len() && 0 <= idx
                            < self@.leaving_queues[e].len() && (s0.edges[e].v_to as int)
                            == v as int && 0 <= j < oi + 1 implies !goes_to(
                        self@.packets,
                        #[trigger] self@.leaving_queues[e][idx],
                        #[trigger] s0.vertices[v as int].outgoing_edges[j],
                    ) by {
                        let pid = self@.leaving_queues[e][idx];
                        assert(pre.leaving_queues[e].contains(pid) && self@.packets[pid as int]
                            == pre.packets[pid as int] && (!goes_to(pre.packets, pid, o)
                            || !pre.vertices[v as int].incoming_edges.contains(e as EdgeId)));
                        let idx2 = choose|idx2: int|
                            0 <= idx2 < pre.leaving_queues[e].len() && pre.leaving_queues[e][idx2]
                                == pid;
                        if j < oi {
                            assert(!goes_to(
                                pre.packets,
                                pre.leaving_queues[e][idx2],
                                s0.vertices[v as int].outgoing_edges[j],
                            ));
                        } else {
                            assert(s0.vertices[v as int].outgoing_edges[j] == o);
                            if goes_to(pre.packets, pid, o) {
                                assert(!pre.vertices[v as int].incoming_edges.contains(
                                    e as EdgeId,
                                ));
                                assert(wf_topology(pre));
                                assert(pre.edges[e].v_to as int == v as int);
                                assert(pre.vertices[pre.edges[e].v_to as int].incoming_edges.contains(
                                    e as EdgeId,
                                ));
                                assert(false);
                            }
                        }
                    }
                    // leaving queues of earlier vertices are untouched
                    assert forall|e: int, idx: int|
                        0 <= e < self@.leaving_queues.len() && 0 <= idx
                            < self@.leaving_queues[e].len() && (s0.edges[e].v_to as int)
                            < v as int implies {
                        let pid = #[trigger] self@.leaving_queues[e][idx];
                        self@.packets[pid as int].path_position matches Some(pos) && pos + 1
                            == self@.packets[pid as int].path.len()
                    } by {
                        let pid = self@.leaving_queues[e][idx];
                        assert(pre.leaving_queues[e].contains(pid) && self@.packets[pid as int]
                            == pre.packets[pid as int]);
                        let idx2 = choose|idx2: int|
                            0 <= idx2 < pre.leaving_queues[e].len() && pre.leaving_queues[e][idx2]
                                == pid;
                        assert(pre.packets[pre.leaving_queues[e][idx2] as int].path_position
                            matches Some(pos) && pos + 1 == pre.packets[pre.leaving_queues[e][idx2] as int].path.len());
                    }
                }
                oi = oi + 1;
            }
            proof {
                assert(self@ == process_vertex_upto(sv, v as int, n_out as int));
                assert(phase_transitions_upto(s0, v + 1) == process_vertex_upto(
                    phase_transitions_upto(s0, v as int),
                    v as int,
                    phase_transitions_upto(s0, v as int).vertices[v as int].outgoing_edges.len() as int,
                ));
                assert forall|pid: int|
                    0 <= pid < s0.packets.len() && (#[trigger] s0.packets[pid]).release_time
                        == s0.time && self@.packets[pid].path_position is Some implies exists|
                    v2: int,
                |
                    0 <= v2 < v + 1 && (#[trigger] s0.vertices[v2].outgoing_edges).contains(
                        s0.packets[pid].path[0],
                    ) by {
                    if exists|v2: int|
                        0 <= v2 < v && (#[trigger] s0.vertices[v2].outgoing_edges).contains(
                            s0.packets[pid].path[0],
                        ) {
                        let v2 = choose|v2: int|
                            0 <= v2 < v && (#[trigger] s0.vertices[v2].outgoing_edges).contains(
                                s0.packets[pid].path[0],
                            );
                        assert(0 <= v2 < v + 1 && s0.vertices[v2].outgoing_edges.contains(
                            s0.packets[pid].path[0],
                        ));
                    } else {
                        let tk = s0.vertices[v as int].outgoing_edges.take(n_out as int);
                        assert(tk =~= s0.vertices[v as int].outgoing_edges);
                        assert(tk.contains(s0.packets[pid].path[0]));
                        assert(s0.vertices[v as int].outgoing_edges.contains(
                            s0.packets[pid].path[0],
                        ));
                    }
                }
                // every packet still leaving a vertex handled so far has
                // completed its path: its next edge would have carried it on
                assert forall|e: int, idx: int|
                    0 <= e < self@.leaving_queues.len() && 0 <= idx
                        < self@.leaving_queues[e].len() && (s0.edges[e].v_to as int) < v + 1
                        implies {
                    let pid = #[trigger] self@.leaving_queues[e][idx];
                    self@.packets[pid as int].path_position matches Some(pos) && pos + 1
                        == self@.packets[pid as int].path.len()
                } by {
                    let pid = self@.leaving_queues[e][idx];
                    if (s0.edges[e].v_to as int) == v as int {
                        assert(leaving_packet_ok(self@, e, pid));
                        assert(wf_packet(self@, pid as int));
                        let p = self@.packets[pid as int];
                        let pos = p.path_position->Some_0;
                        if pos + 1 < p.path.len() {
                            let next = p.path[pos + 1];
                            assert((next as int) < self@.edges.len());
                            assert(p.path[pos as int] == e as EdgeId);
                            assert(self@.edges[next as int].v_from == self@.edges[e].v_to);
                            assert(wf_topology(self@));
                            assert(self@.vertices[self@.edges[next as int].v_from as int].outgoing_edges.contains(
                                next,
                            ));
                            let j = choose|j: int|
                                0 <= j < self@.vertices[v as int].outgoing_edges.len()
                                    && self@.vertices[v as int].outgoing_edges[j] == next;
                            assert(s0.vertices[v as int].outgoing_edges[j] == next);
                            assert(goes_to(
                                self@.packets,
                                pid,
                                s0.vertices[v as int].outgoing_edges[j],
                            ));
                            assert(false);
                        }
                    }
                }
            }
            v = v + 1;
        }
        proof {
            assert(self@ == phase_transitions_upto(s0, s0.vertices.len() as int));
            assert(leaving_at_path_end(self@)) by {
                assert forall|e: int, idx: int|
                    0 <= e < self@.leaving_queues.len() && 0 <= idx
                        < self@.leaving_queues[e].len() implies {
                    let pid = #[trigger] self@.leaving_queues[e][idx];
                    self@.packets[pid as int].path_position matches Some(pos) && pos + 1
                        == self@.packets[pid as int].path.len()
                } by {
                    assert(wf_topology(self@));
                    assert((s0.edges[e].v_to as int) < n_vertices as int) by {
                        assert(self@.edges[e] == s0.edges[e]);
                        assert(self@.edges[e].v_to < self@.vertices.len());
                    }
                }
            }
        }
    }

    /// Phase one of a time step: walk every edge in id order, move the front
    /// block of packets whose transit time has elapsed into the edge's
    /// leaving queue — at most the integer part of the capacity accumulator
    /// many — and update the accumulator: reset to the average when every
    /// eligible packet left, otherwise carry the fractional part over.
    #[verifier::loop_isolation(false)]
    pub fn determine_leaving(&mut self)
        requires
            inv(old(self)@),
        ensures
            final(self)@ == phase_leaving(old(self)@),
    {
        let ghost s0 = self@;
        let n_edges = self.edges.len();
        let mut edge_id: usize = 0;
        proof {
            assert(self@.edges =~= Seq::new(
                s0.edges.len(),
                |e: int|
                    if 0 <= e < 0 {
                        Edge { current_capacity: updated_capacity(s0, e), ..s0.edges[e] }
                    } else {
                        s0.edges[e]
                    },
            ));
            assert(self@.edge_queues =~= Seq::new(
                s0.edge_queues.len(),
                |e: int|
                    if 0 <= e < 0 {
                        s0.edge_queues[e].skip(leave_count(s0, e))
                    } else {
                        s0.edge_queues[e]
                    },
            ));
            assert(self@.leaving_queues =~= Seq::new(
                s0.leaving_queues.len(),
                |e: int|
                    if 0 <= e < 0 {
                        s0.edge_queues[e].take(leave_count(s0, e))
                    } else {
                        s0.leaving_queues[e]
                    },
            ));
        }
        while edge_id < n_edges
            invariant
                self.edges.len() == n_edges,
                self.edge_queues.len() == n_edges,
                self.leaving_queues.len() == n_edges,
                0 <= edge_id <= n_edges,
                self.vertices == old(self).vertices,
                self.packets == old(self).packets,
                self.time == old(self).time,
                self.packets_arrived == old(self).packets_arrived,
                self.arrival_times == old(self).arrival_times,
                self@.edges == Seq::new(
                    s0.edges.len(),
                    |e: int|
                        if 0 <= e < edge_id {
                            Edge { current_capacity: updated_capacity(s0, e), ..s0.edges[e] }
                        } else {
                            s0.edges[e]
                        },
                ),
                self@.edge_queues == Seq::new(
                    s0.edge_queues.len(),
                    |e: int|
                        if 0 <= e < edge_id {
                            s0.edge_queues[e].skip(leave_count(s0, e))
                        } else {
                            s0.edge_queues[e]
                        },
                ),
                self@.leaving_queues == Seq::new(
                    s0.leaving_queues.len(),
                    |e: int|
                        if 0 <= e < edge_id {
                            s0.edge_queues[e].take(leave_count(s0, e))
                        } else {
                            s0.leaving_queues[e]
                        },
                ),
            decreases n_edges - edge_id,
        {
            let ghost mid = self@;
            let ghost q0 = s0.edge_queues[edge_id as int];
            let ghost length = s0.edges[edge_id as int].length;
            proof {
                assert(self@.edge_queues[edge_id as int] == q0);
                assert(self@.edges[edge_id as int] == s0.edges[edge_id as int]);
                assert(self@.leaving_queues[edge_id as int] == s0.leaving_queues[edge_id as int]);
            }
            // find the eligible front block
            let q_len = self.edge_queues[edge_id].len();
            let mut elig: usize = 0;
            #[verifier::loop_isolation(true)]
            while elig < q_len
                invariant
                    0 <= elig <= q_len,
                    edge_id < n_edges,
                    self.edges.len() == n_edges,
                    self.edge_queues.len() == n_edges,
                    q_len == q0.len(),
                    self@.edge_queues[edge_id as int] == q0,
                    self@.packets == s0.packets,
                    self.packets.len() == s0.packets.len(),
                    self.time == s0.time,
                    self@.edges[edge_id as int].length == length,
                    forall|i: int|
                        0 <= i < q0.len() ==> queued_packet_ok(
                            s0,
                            edge_id as int,
                            #[trigger] q0[i],
                        ),
                    forall|pid: int| 0 <= pid < s0.packets.len() ==> wf_packet(s0, pid),
                    forall|i: int|
                        0 <= i < elig ==> packet_eligible(
                            s0.packets,
                            #[trigger] q0[i],
                            length,
                            s0.time,
                        ),
                ensures
                    0 <= elig <= q_len,
                    forall|i: int|
                        0 <= i < elig ==> packet_eligible(
                            s0.packets,
                            #[trigger] q0[i],
                            length,
                            s0.time,
                        ),
                    elig == q_len || !packet_eligible(s0.packets, q0[elig as int], length, s0.time),
                decreases q_len - elig,
            {
                let pid = self.edge_queues[edge_id][elig];
                assert(pid == q0[elig as int]);
                assert(queued_packet_ok(s0, edge_id as int, pid));
                assert(self.packets@[pid as int]@ == s0.packets[pid as int]);
                assert(wf_packet(s0, pid as int));
                let ent = self.packets[pid].entrance_time.unwrap();
                if !(self.edges[edge_id].length <= self.time - ent) {
                    break ;
                }
                elig = elig + 1;
            }
            proof {
                lemma_eligible_count_skip(q0, s0.packets, length, s0.time, elig as int);
                if elig == q_len {
                    assert(q0.skip(q_len as int) =~= Seq::<PacketId>::empty());
                } else {
                    assert(q0.skip(elig as int)[0] == q0[elig as int]);
                }
                assert(elig == eligible_count(q0, s0.packets, length, s0.time));
            }
            // cap the block by the integer part of the accumulator
            let cap_frac = self.edges[edge_id].current_capacity.floor();
            let cap_avail = cap_frac.numerator as usize;
            let k = if elig <= cap_avail {
                elig
            } else {
                cap_avail
            };
            assert(k as int == leave_count(s0, edge_id as int));
            proof {
                lemma_eligible_count_bounds(q0, s0.packets, length, s0.time);
                assert(q0.skip(0) =~= q0);
                assert(q0.take(0) =~= Seq::<PacketId>::empty());
                assert(mid.edge_queues.update(edge_id as int, q0.skip(0)) =~= mid.edge_queues);
                assert(mid.leaving_queues.update(edge_id as int, q0.take(0))
                    =~= mid.leaving_queues.update(edge_id as int, Seq::<PacketId>::empty()));
            }
            // move the released block into the leaving queue
            let mut j: usize = 0;
            while j < k
                invariant
                    0 <= j <= k,
                    k <= q0.len(),
                    edge_id < n_edges,
                    self.edges.len() == n_edges,
                    self.edge_queues.len() == n_edges,
                    self.leaving_queues.len() == n_edges,
                    self@.edge_queues == mid.edge_queues.update(edge_id as int, q0.skip(j as int)),
                    self@.leaving_queues == mid.leaving_queues.update(
                        edge_id as int,
                        q0.take(j as int),
                    ),
                    self@.edges == mid.edges,
                    self@.packets == mid.packets,
                    self.packets == old(self).packets,
                    self.vertices == old(self).vertices,
                    self.time == old(self).time,
                    self.packets_arrived == old(self).packets_arrived,
                    self.arrival_times == old(self).arrival_times,
                decreases k - j,
            {
                let ghost pre = self@;
                proof {
                    assert(pre.edge_queues[edge_id as int] == q0.skip(j as int));
                    assert(pre.leaving_queues[edge_id as int] == q0.take(j as int));
                    assert(self.edge_queues@[edge_id as int]@ == q0.skip(j as int));
                    assert(self.leaving_queues@[edge_id as int]@ == q0.take(j as int));
                }
                let pid = self.edge_queues[edge_id].pop_front().unwrap();
                self.leaving_queues[edge_id].push_back(pid);
                proof {
                    assert(q0.skip(j as int).skip(1) =~= q0.skip(j + 1));
                    assert(q0.skip(j as int)[0] == q0[j as int]);
                    assert(q0.take(j as int).push(q0[j as int]) =~= q0.take(j + 1));
                    assert(self@.edge_queues =~= pre.edge_queues.update(
                        edge_id as int,
                        q0.skip(j + 1),
                    ));
                    assert(self@.leaving_queues =~= pre.leaving_queues.update(
                        edge_id as int,
                        q0.take(j + 1),
                    ));
                    assert(pre.edge_queues.update(edge_id as int, q0.skip(j + 1))
                        =~= mid.edge_queues.update(edge_id as int, q0.skip(j + 1)));
                    assert(pre.leaving_queues.update(edge_id as int, q0.take(j + 1))
                        =~= mid.leaving_queues.update(edge_id as int, q0.take(j + 1)));
                }
                j = j + 1;
            }
            // update the capacity accumulator
            proof {
                assert(wf_capacity(s0.edges[edge_id as int]));
                lemma_capacity_update(
                    s0.edges[edge_id as int].average_capacity,
                    s0.edges[edge_id as int].current_capacity,
                );
                assert(self@.edges[edge_id as int] == s0.edges[edge_id as int]);
                assert(self.edges@[edge_id as int] == s0.edges[edge_id as int]);
            }
            let ghost pre_cap = self@;
            if k == elig {
                let avg = self.edges[edge_id].average_capacity;
                self.edges[edge_id].current_capacity = avg;
            } else {
                let avg = self.edges[edge_id].average_capacity;
                let cur = self.edges[edge_id].current_capacity;
                let fl = cur.floor();
                assert(fl == floor_frac(cur));
                let next_cap = avg + cur - fl;
                self.edges[edge_id].current_capacity = next_cap;
            }
            proof {
                assert(self@.edges == pre_cap.edges.update(
                    edge_id as int,
                    Edge {
                        current_capacity: updated_capacity(s0, edge_id as int),
                        ..s0.edges[edge_id as int]
                    },
                ));
                assert(self@.edges =~= Seq::new(
                    s0.edges.len(),
                    |e: int|
                        if 0 <= e < edge_id + 1 {
                            Edge { current_capacity: updated_capacity(s0, e), ..s0.edges[e] }
                        } else {
                            s0.edges[e]
                        },
                ));
                assert(self@.edge_queues =~= Seq::new(
                    s0.edge_queues.len(),
                    |e: int|
                        if 0 <= e < edge_id + 1 {
                            s0.edge_queues[e].skip(leave_count(s0, e))
                        } else {
                            s0.edge_queues[e]
                        },
                ));
                assert(self@.leaving_queues =~= Seq::new(
                    s0.leaving_queues.len(),
                    |e: int|
                        if 0 <= e < edge_id + 1 {
                            s0.edge_queues[e].take(leave_count(s0, e))
                        } else {
                            s0.leaving_queues[e]
                        },
                ));
            }
            edge_id = edge_id + 1;
        }
        proof {
            assert(self@.edges =~= phase_leaving(s0).edges);
            assert(self@.edge_queues =~= phase_leaving(s0).edge_queues);
            assert(self@.leaving_queues =~= phase_leaving(s0).leaving_queues);
            assert(self@ =~= phase_leaving(s0));
        }
    }

    /// Phase three of a time step: every packet still waiting in a leaving
    /// queue after the node transitions has completed its path; record the
    /// current time as its arrival, count it, and clear the leaving queues.
    #[verifier::loop_isolation(false)]
    #[verifier::rlimit(60)]
    #[verifier::spinoff_prover]
    pub fn packet_arrivals(&mut self)
        requires
            pre_arrivals(old(self)@),
        ensures
            final(self)@ == phase_arrivals(old(self)@),
            final(self).packets_arrived as int == count_arrived(
                final(self)@.arrival_times,
                final(self)@.arrival_times.len() as int,
            ),
    {
        let ghost s0 = self@;
        let n_edges = self.leaving_queues.len();
        let n_packets = self.arrival_times.len();
        proof {
            assert(s0.arrival_times.len() == n_packets);
            lemma_count_bound(s0.arrival_times, n_packets as int);
        }
        let mut e: usize = 0;
        while e < n_edges
            invariant
                0 <= e <= n_edges,
                n_edges == s0.leaving_queues.len(),
                n_packets == s0.arrival_times.len(),
                self@.arrival_times == Seq::new(
                    s0.arrival_times.len(),
                    |pid: int|
                        if exists|e2: int|
                            0 <= e2 < e && (#[trigger] s0.leaving_queues[e2]).contains(
                                pid as PacketId,
                            ) {
                            Some(s0.time)
                        } else {
                            s0.arrival_times[pid]
                        },
                ),
                self.packets_arrived as int == s0.packets_arrived + sum_lens_upto(
                    s0.leaving_queues,
                    e as int,
                ),
                self.packets_arrived as int == count_arrived(
                    self@.arrival_times,
                    n_packets as int,
                ),
                self@.leaving_queues == s0.leaving_queues,
                self@.edge_queues == s0.edge_queues,
                self@.edges == s0.edges,
                self@.packets == s0.packets,
                self@.vertices == s0.vertices,
                self.time == s0.time,
            decreases n_edges - e,
        {
            let ghost outer_pre = self@;
            let q_len = self.leaving_queues[e].len();
            let mut idx: usize = 0;
            while idx < q_len
                invariant
                    0 <= idx <= q_len,
                    e < n_edges,
                    q_len == s0.leaving_queues[e as int].len(),
                    self@.arrival_times == Seq::new(
                        s0.arrival_times.len(),
                        |pid: int|
                            if (exists|e2: int|
                                0 <= e2 < e && (#[trigger] s0.leaving_queues[e2]).contains(
                                    pid as PacketId,
                                )) || s0.leaving_queues[e as int].take(idx as int).contains(
                                pid as PacketId,
                            ) {
                                Some(s0.time)
                            } else {
                                s0.arrival_times[pid]
                            },
                    ),
                    self.packets_arrived as int == s0.packets_arrived + sum_lens_upto(
                        s0.leaving_queues,
                        e as int,
                    ) + idx,
                    self.packets_arrived as int == count_arrived(
                        self@.arrival_times,
                        n_packets as int,
                    ),
                    self@.leaving_queues == s0.leaving_queues,
                    self@.edge_queues == s0.edge_queues,
                    self@.edges == s0.edges,
                    self@.packets == s0.packets,
                    self@.vertices == s0.vertices,
                    self.time == s0.time,
                decreases q_len - idx,
            {
                let ghost pre = self@;
                proof {
                    assert(self.leaving_queues@[e as int]@ == s0.leaving_queues[e as int]);
                }
                let pid = self.leaving_queues[e][idx];
                proof {
                    assert(pid == s0.leaving_queues[e as int][idx as int]);
                    assert(pid < s0.packets.len() && s0.arrival_times[pid as int] is None);
                    // this packet has not been recorded yet in this phase
                    assert(!(exists|e2: int|
                        0 <= e2 < e && (#[trigger] s0.leaving_queues[e2]).contains(pid))) by {
                        if exists|e2: int|
                            0 <= e2 < e && (#[trigger] s0.leaving_queues[e2]).contains(pid) {
                            let e2 = choose|e2: int|
                                0 <= e2 < e && (#[trigger] s0.leaving_queues[e2]).contains(pid);
                            let i2 = choose|i2: int|
                                0 <= i2 < s0.leaving_queues[e2].len() && s0.leaving_queues[e2][i2]
                                    == pid;
                            assert(s0.leaving_queues[e2][i2] == s0.leaving_queues[e as int][idx as int]);
                            assert(false);
                        }
                    }
                    assert(!s0.leaving_queues[e as int].take(idx as int).contains(pid)) by {
                        if s0.leaving_queues[e as int].take(idx as int).contains(pid) {
                            let i2 = choose|i2: int|
                                0 <= i2 < idx && s0.leaving_queues[e as int].take(idx as int)[i2]
                                    == pid;
                            assert(s0.leaving_queues[e as int][i2] == s0.leaving_queues[e as int][idx as int]);
                            assert(false);
                        }
                    }
                    assert(pre.arrival_times[pid as int] == s0.arrival_times[pid as int]);
                    lemma_count_bound(pre.arrival_times, n_packets as int);
                    if self.packets_arrived as int == n_packets as int {
                        lemma_count_full(pre.arrival_times, n_packets as int);
                        assert(pre.arrival_times[pid as int] is Some);
                        assert(false);
                    }
                }
                self.arrival_times[pid] = Some(self.time);
                self.packets_arrived = self.packets_arrived + 1;
                proof {
                    assert(self@.arrival_times == pre.arrival_times.update(
                        pid as int,
                        Some(s0.time),
                    ));
                    lemma_count_update(pre.arrival_times, pid as int, s0.time, n_packets as int);
                    assert(s0.leaving_queues[e as int].take(idx as int).push(pid)
                        =~= s0.leaving_queues[e as int].take(idx + 1));
                    assert forall|pid2: int| 0 <= pid2 < s0.arrival_times.len() implies
                        self@.arrival_times[pid2] == (if (exists|e2: int|
                        0 <= e2 < e && (#[trigger] s0.leaving_queues[e2]).contains(
                            pid2 as PacketId,
                        )) || s0.leaving_queues[e as int].take(idx + 1).contains(pid2 as PacketId) {
                        Some(s0.time)
                    } else {
                        s0.arrival_times[pid2]
                    }) by {
                        lemma_push_contains(
                            s0.leaving_queues[e as int].take(idx as int),
                            pid,
                            pid2 as PacketId,
                        );
                        if pid2 != pid as int {
                            assert(self@.arrival_times[pid2] == pre.arrival_times[pid2]);
                        }
                    }
                    assert(self@.arrival_times =~= Seq::new(
                        s0.arrival_times.len(),
                        |pid2: int|
                            if (exists|e2: int|
                                0 <= e2 < e && (#[trigger] s0.leaving_queues[e2]).contains(
                                    pid2 as PacketId,
                                )) || s0.leaving_queues[e as int].take(idx + 1).contains(
                                pid2 as PacketId,
                            ) {
                                Some(s0.time)
                            } else {
                                s0.arrival_times[pid2]
                            },
                    ));
                }
                idx = idx + 1;
            }
            proof {
                assert(s0.leaving_queues[e as int].take(q_len as int) =~= s0.leaving_queues[e as int]);
                assert forall|pid2: int| 0 <= pid2 < s0.arrival_times.len() implies
                    self@.arrival_times[pid2] == (if exists|e2: int|
                    0 <= e2 < e + 1 && (#[trigger] s0.leaving_queues[e2]).contains(
                        pid2 as PacketId,
                    ) {
                    Some(s0.time)
                } else {
                    s0.arrival_times[pid2]
                }) by {
                    if exists|e2: int|
                        0 <= e2 < e + 1 && (#[trigger] s0.leaving_queues[e2]).contains(
                            pid2 as PacketId,
                        ) {
                        let e2 = choose|e2: int|
                            0 <= e2 < e + 1 && (#[trigger] s0.leaving_queues[e2]).contains(
                                pid2 as PacketId,
                            );
                        if e2 == e as int {
                            assert(s0.leaving_queues[e as int].contains(pid2 as PacketId));
                        }
                    }
                }
                assert(self@.arrival_times =~= Seq::new(
                    s0.arrival_times.len(),
                    |pid2: int|
                        if exists|e2: int|
                            0 <= e2 < e + 1 && (#[trigger] s0.leaving_queues[e2]).contains(
                                pid2 as PacketId,
                            ) {
                            Some(s0.time)
                        } else {
                            s0.arrival_times[pid2]
                        },
                ));
            }
            e = e + 1;
        }
        proof {
            assert(phase_arrivals(s0).packets_arrived as int == count_arrived(
                phase_arrivals(s0).arrival_times,
                phase_arrivals(s0).arrival_times.len() as int,
            )) by {
                assert(self@.arrival_times =~= phase_arrivals(s0).arrival_times);
                assert(self.packets_arrived == phase_arrivals(s0).packets_arrived);
            }
        }
        // clear the leaving queues
        let mut e2: usize = 0;
        while e2 < n_edges
            invariant
                0 <= e2 <= n_edges,
                n_edges == s0.leaving_queues.len(),
                self@.leaving_queues == Seq::new(
                    s0.leaving_queues.len(),
                    |e3: int|
                        if e3 < e2 {
                            Seq::<PacketId>::empty()
                        } else {
                            s0.leaving_queues[e3]
                        },
                ),
                self@.arrival_times == phase_arrivals(s0).arrival_times,
                self.packets_arrived == phase_arrivals(s0).packets_arrived,
                self@.edge_queues == s0.edge_queues,
                self@.edges == s0.edges,
                self@.packets == s0.packets,
                self@.vertices == s0.vertices,
                self.time == s0.time,
            decreases n_edges - e2,
        {
            let ghost pre = self@;
            self.leaving_queues[e2].clear();
            proof {
                assert(self@.leaving_queues =~= pre.leaving_queues.update(
                    e2 as int,
                    Seq::<PacketId>::empty(),
                ));
                assert(self@.leaving_queues =~= Seq::new(
                    s0.leaving_queues.len(),
                    |e3: int|
                        if e3 < e2 + 1 {
                            Seq::<PacketId>::empty()
                        } else {
                            s0.leaving_queues[e3]
                        },
                ));
            }
            e2 = e2 + 1;
        }
        proof {
            assert(self@.leaving_queues =~= phase_arrivals(s0).leaving_queues);
            assert(self@ =~= phase_arrivals(s0));
        }
    }

    /// Run the simulation to completion: repeat the three phases and advance
    /// the clock until every packet has an arrival time.  The result is the
    /// state after the first number of whole steps at which all packets have
    /// arrived, so two runs from equal initial states end in equal states.
    #[verifier::loop_isolation(false)]
    #[verifier::rlimit(60)]
    #[verifier::spinoff_prover]
    pub fn run_simulation(&mut self)
        requires
            inv(old(self)@),
            exists|n: nat|
                old(self).time + n <= usize::MAX && #[trigger] steps(
                    old(self)@,
                    n,
                ).packets_arrived == steps(old(self)@, n).packets.len(),
        ensures
            exists|n: nat| complete_run(old(self)@, n, final(self)@),
            final(self)@.packets_arrived == final(self)@.packets.len(),
            all_arrived(final(self)@),
            inv_trans(final(self)@),
            forall|pid: int|
                0 <= pid < final(self)@.packets.len() ==> arrival_respects_transit(
                    final(self)@,
                    pid,
                ),
    {
        let ghost s0 = self@;
        let ghost n = choose|n: nat|
            old(self).time + n <= usize::MAX && #[trigger] steps(s0, n).packets_arrived == steps(
                s0,
                n,
            ).packets.len();
        let ghost mut k: nat = 0;
        while self.packets_arrived < self.packets.len()
            invariant
                self@ == steps(s0, k),
                inv_trans(self@),
                self.packets_arrived < self.packets.len() ==> inv(self@),
                k <= n,
                self.time as int <= s0.time + k,
                forall|m: nat|
                    m < k ==> #[trigger] steps(s0, m).packets_arrived != steps(
                        s0,
                        m,
                    ).packets.len(),
            decreases n - k,
        {
            proof {
                assert(steps(s0, k).packets_arrived != steps(s0, k).packets.len());
                assert(k != n);
                assert(k < n);
            }
            let ghost pre1 = self@;
            proof {
                assert(inv(pre1));
            }
            self.determine_leaving();
            proof {
                lemma_leaving_preserves(pre1);
                assert(self.time == pre1.time);
            }
            self.node_transitions();
            let ghost pre3 = self@;
            proof {
                assert(pre_arrivals(pre3)) by {
                    assert forall|e: int, idx: int|
                        0 <= e < pre3.leaving_queues.len() && 0 <= idx < pre3.leaving_queues[e].len()
                            implies {
                        let pid = #[trigger] pre3.leaving_queues[e][idx];
                        &&& pid < pre3.packets.len()
                        &&& pre3.arrival_times[pid as int] is None
                    } by {
                        assert(leaving_packet_ok(pre3, e, pre3.leaving_queues[e][idx]));
                    }
                }
            }
            self.packet_arrivals();
            proof {
                lemma_arrivals_preserves(pre3);
                assert(self.time == pre3.time);
            }
            let ghost pre4 = self@;
            proof {
                assert(self.packets_arrived < self.packets.len() ==> self.time < usize::MAX) by {
                    if self.packets_arrived < self.packets.len() {
                        assert(self.time as int <= s0.time + k);
                        assert(k < n);
                    }
                }
            }
            self.timestep();
            proof {
                k = k + 1nat;
                assert(self@ == step(steps(s0, (k - 1) as nat)));
                assert(steps(s0, k) == step(steps(s0, (k - 1) as nat)));
                // the step invariant holds again
                assert(inv_trans(self@) && (self.packets_arrived < self.packets.len() ==> inv(
                    self@,
                ))) by {
                    assert(inv_trans(self@)) by {
                        assert(self@.packets == pre4.packets || self@ == pre4);
                        assert forall|pid: int|
                            0 <= pid < self@.packets.len() implies wf_packet(self@, pid) by {
                            assert(wf_packet(pre4, pid));
                        }
                        assert(edge_lengths(self@.edges) =~= edge_lengths(pre4.edges));
                        assert forall|e: int, i: int|
                            0 <= e < self@.edge_queues.len() && 0 <= i
                                < self@.edge_queues[e].len() implies queued_packet_ok(
                            self@,
                            e,
                            #[trigger] self@.edge_queues[e][i],
                        ) by {
                            assert(queued_packet_ok(pre4, e, pre4.edge_queues[e][i]));
                        }
                        assert(wf_topology(self@)) by {
                            assert(wf_topology(pre4));
                        }
                        assert forall|e: int|
                            0 <= e < self@.edges.len() implies wf_capacity(
                            #[trigger] self@.edges[e],
                        ) by {
                            assert(wf_capacity(pre4.edges[e]));
                        }
                    }
                    if self.packets_arrived < self.packets.len() {
                        assert(pre4.packets_arrived < pre4.packets.len());
                        assert(self@.time == pre4.time + 1);
                        assert forall|pid: int|
                            0 <= pid < self@.packets.len() && (
                            #[trigger] self@.packets[pid]).release_time >= self@.time implies
                            self@.packets[pid].path_position is None by {
                            assert(wf_packet(pre4, pid));
                            assert(self@.packets[pid].release_time > pre4.time);
                        }
                    }
                }
            }
        }
        proof {
            assert(self@ == steps(s0, k));
            lemma_count_bound(self@.arrival_times, self@.arrival_times.len() as int);
            assert(self@.packets_arrived == self@.packets.len());
            assert(complete_run(s0, k, self@));
            lemma_count_full(self@.arrival_times, self@.arrival_times.len() as int);
            assert forall|pid: int|
                0 <= pid < self@.packets.len() implies arrival_respects_transit(self@, pid) by {
                assert(wf_packet(self@, pid));
                let p = self@.packets[pid];
                assert(self@.arrival_times[pid] is Some);
                let pos = p.path_position->Some_0;
                assert(pos + 1 == p.path.len());
                assert(path_len_sum(edge_lengths(self@.edges), p.path, pos + 1) == path_len_sum(
                    edge_lengths(self@.edges),
                    p.path,
                    p.path.len() as int,
                ));
            }
        }
    }

    /// Advance the clock, unless every packet has already arrived.
    pub fn timestep(&mut self)
        requires
            old(self).packets_arrived < old(self).packets.len() ==> old(self).time < usize::MAX,
        ensures
            final(self)@ == step_time(old(self)@),
    {
        if self.packets_arrived < self.packets.len() {
            self.time = self.time + 1;
        }
        proof {
            assert(self@ =~= step_time(old(self)@));
        }
    }
}

// ------------------------------------------------------------------
// Spec model: node transitions
// ------------------------------------------------------------------

/// The next edge on the packet's path is exactly `o`.
pub open spec fn goes_to(packets: Seq<PacketV>, pid: PacketId, o: EdgeId) -> bool {
    &&& pid < packets.len()
    &&& match packets[pid as int].path_position {
        Some(pos) => pos + 1 < packets[pid as int].path.len() && packets[pid as int].path[pos + 1]
            == o,
        None => false,
    }
}

/// The packet is released right now, onto edge `o`.
pub open spec fn enters_at(packets: Seq<PacketV>, pid: PacketId, time: Time, o: EdgeId) -> bool {
    &&& pid < packets.len()
    &&& packets[pid as int].release_time == time
    &&& packets[pid as int].path.len() >= 1
    &&& packets[pid as int].path[0] == o
}

/// The packets of `q` whose next edge is `o`, in queue order.
pub open spec fn select_going(q: Seq<PacketId>, packets: Seq<PacketV>, o: EdgeId) -> Seq<PacketId>
    decreases q.len(),
{
    if q.len() == 0 {
        Seq::empty()
    } else {
        let rest = select_going(q.skip(1), packets, o);
        if goes_to(packets, q[0], o) {
            seq![q[0]] + rest
        } else {
            rest
        }
    }
}

/// The packets of `q` whose next edge is not `o`, in queue order.
pub open spec fn reject_going(q: Seq<PacketId>, packets: Seq<PacketV>, o: EdgeId) -> Seq<PacketId>
    decreases q.len(),
{
    if q.len() == 0 {
        Seq::empty()
    } else {
        let rest = reject_going(q.skip(1), packets, o);
        if goes_to(packets, q[0], o) {
            rest
        } else {
            seq![q[0]] + rest
        }
    }
}

/// Membership in a sequence with one element in front, at one value.
pub proof fn lemma_cons_contains(h: PacketId, rest: Seq<PacketId>, x: PacketId)
    ensures
        (seq![h] + rest).contains(x) <==> x == h || rest.contains(x),
{
    if (seq![h] + rest).contains(x) {
        let i = choose|i: int| 0 <= i < (seq![h] + rest).len() && (seq![h] + rest)[i] == x;
        if i > 0 {
            assert(rest[i - 1] == x);
        }
    }
    if x == h {
        assert((seq![h] + rest)[0] == x);
    } else if rest.contains(x) {
        let i = choose|i: int| 0 <= i < rest.len() && rest[i] == x;
        assert((seq![h] + rest)[i + 1] == x);
    }
}

/// Membership and length of the two halves of the split.
pub proof fn lemma_split_going(q: Seq<PacketId>, packets: Seq<PacketV>, o: EdgeId)
    ensures
        select_going(q, packets, o).len() + reject_going(q, packets, o).len() == q.len(),
        forall|x: PacketId| #![trigger select_going(q, packets, o).contains(x)]
            select_going(q, packets, o).contains(x) <==> q.contains(x) && goes_to(packets, x, o),
        forall|x: PacketId| #![trigger reject_going(q, packets, o).contains(x)]
            reject_going(q, packets, o).contains(x) <==> q.contains(x) && !goes_to(packets, x, o),
        forall|x: PacketId| #![trigger q.contains(x)]
            q.contains(x) ==> (goes_to(packets, x, o) ==> select_going(q, packets, o).contains(x))
                && (!goes_to(packets, x, o) ==> reject_going(q, packets, o).contains(x)),
    decreases q.len(),
{
    if q.len() > 0 {
        lemma_split_going(q.skip(1), packets, o);
        assert forall|x: PacketId| q.contains(x) implies x == q[0] || q.skip(1).contains(x) by {
            let i = choose|i: int| 0 <= i < q.len() && q[i] == x;
            if i > 0 {
                assert(q.skip(1)[i - 1] == x);
            }
        }
        assert(forall|i: int| 0 <= i < q.skip(1).len() ==> q.skip(1)[i] == q[i + 1]);
        assert(forall|x: PacketId| q.skip(1).contains(x) ==> q.contains(x));
        assert(q.contains(q[0]));
        let selr = select_going(q.skip(1), packets, o);
        let rejr = reject_going(q.skip(1), packets, o);
        if goes_to(packets, q[0], o) {
            assert(select_going(q, packets, o) == seq![q[0]] + selr);
            assert(reject_going(q, packets, o) == rejr);
            assert forall|x: PacketId|
                reject_going(q, packets, o).contains(x) <==> q.contains(x) && !goes_to(
                    packets,
                    x,
                    o,
                ) by {
                assert(rejr.contains(x) <==> q.skip(1).contains(x) && !goes_to(packets, x, o));
                if q.contains(x) && !goes_to(packets, x, o) {
                    assert(x != q[0]);
                    assert(q.skip(1).contains(x));
                }
            }
            assert forall|x: PacketId|
                select_going(q, packets, o).contains(x) <==> q.contains(x) && goes_to(
                    packets,
                    x,
                    o,
                ) by {
                assert(selr.contains(x) <==> q.skip(1).contains(x) && goes_to(packets, x, o));
                lemma_cons_contains(q[0], selr, x);
                if (seq![q[0]] + selr).contains(x) && x != q[0] {
                    assert(selr.contains(x));
                }
                if q.contains(x) && goes_to(packets, x, o) && x != q[0] {
                    assert(q.skip(1).contains(x));
                }
            }
        } else {
            assert(reject_going(q, packets, o) == seq![q[0]] + rejr);
            assert(select_going(q, packets, o) == selr);
            assert forall|x: PacketId|
                select_going(q, packets, o).contains(x) <==> q.contains(x) && goes_to(
                    packets,
                    x,
                    o,
                ) by {
                assert(selr.contains(x) <==> q.skip(1).contains(x) && goes_to(packets, x, o));
                if q.contains(x) && goes_to(packets, x, o) {
                    assert(x != q[0]);
                    assert(q.skip(1).contains(x));
                }
            }
            assert forall|x: PacketId|
                reject_going(q, packets, o).contains(x) <==> q.contains(x) && !goes_to(
                    packets,
                    x,
                    o,
                ) by {
                assert(rejr.contains(x) <==> q.skip(1).contains(x) && !goes_to(packets, x, o));
                lemma_cons_contains(q[0], rejr, x);
                if (seq![q[0]] + rejr).contains(x) && x != q[0] {
                    assert(rejr.contains(x));
                }
                if q.contains(x) && !goes_to(packets, x, o) && x != q[0] {
                    assert(q.skip(1).contains(x));
                }
            }
        }
    }
}

/// A sequence without repeated entries.
pub open spec fn distinct_seq(q: Seq<PacketId>) -> bool {
    forall|i1: int, i2: int| 0 <= i1 < i2 < q.len() ==> q[i1] != q[i2]
}

/// Both halves of the split stay free of repetitions.
pub proof fn lemma_split_distinct(q: Seq<PacketId>, packets: Seq<PacketV>, o: EdgeId)
    requires
        distinct_seq(q),
    ensures
        distinct_seq(select_going(q, packets, o)),
        distinct_seq(reject_going(q, packets, o)),
    decreases q.len(),
{
    if q.len() > 0 {
        assert(forall|i: int| 0 <= i < q.skip(1).len() ==> q.skip(1)[i] == q[i + 1]);
        lemma_split_distinct(q.skip(1), packets, o);
        lemma_split_going(q.skip(1), packets, o);
        assert forall|x: PacketId| q.skip(1).contains(x) implies x != q[0] by {
            let i = choose|i: int| 0 <= i < q.skip(1).len() && q.skip(1)[i] == x;
            assert(q[i + 1] == x);
        }
        let sel = select_going(q, packets, o);
        let rej = reject_going(q, packets, o);
        if goes_to(packets, q[0], o) {
            let selr = select_going(q.skip(1), packets, o);
            assert(sel == seq![q[0]] + selr);
            assert forall|i1: int, i2: int| 0 <= i1 < i2 < sel.len() implies sel[i1] != sel[i2] by {
                assert(sel[i2] == selr[i2 - 1]);
                assert(selr.contains(selr[i2 - 1]));
                assert(q.skip(1).contains(sel[i2]));
                assert(sel[i2] != q[0]);
                if i1 > 0 {
                    assert(sel[i1] == selr[i1 - 1]);
                } else {
                    assert(sel[0] == q[0]);
                }
            }
        } else {
            let rejr = reject_going(q.skip(1), packets, o);
            assert(rej == seq![q[0]] + rejr);
            assert forall|i1: int, i2: int| 0 <= i1 < i2 < rej.len() implies rej[i1] != rej[i2] by {
                assert(rej[i2] == rejr[i2 - 1]);
                assert(rejr.contains(rejr[i2 - 1]));
                assert(q.skip(1).contains(rej[i2]));
                assert(rej[i2] != q[0]);
                if i1 > 0 {
                    assert(rej[i1] == rejr[i1 - 1]);
                } else {
                    assert(rej[0] == q[0]);
                }
            }
        }
    }
}

/// The packets released at `time` whose first edge is `o`, among ids below
/// `n`, in id order.
pub open spec fn entering_upto(packets: Seq<PacketV>, time: Time, o: EdgeId, n: int) -> Seq<
    PacketId,
>
    decreases n,
{
    if n <= 0 {
        Seq::empty()
    } else {
        let rest = entering_upto(packets, time, o, n - 1);
        if enters_at(packets, (n - 1) as PacketId, time, o) {
            rest.push((n - 1) as PacketId)
        } else {
            rest
        }
    }
}

/// Membership, order and bounds of the entering stream.
pub proof fn lemma_entering_props(packets: Seq<PacketV>, time: Time, o: EdgeId, n: int)
    requires
        0 <= n <= usize::MAX,
    ensures
        entering_upto(packets, time, o, n).len() <= n,
        forall|x: PacketId|
            entering_upto(packets, time, o, n).contains(x) <==> x < n && enters_at(
                packets,
                x,
                time,
                o,
            ),
        distinct_seq(entering_upto(packets, time, o, n)),
        forall|i: int|
            0 <= i < entering_upto(packets, time, o, n).len() ==> entering_upto(
                packets,
                time,
                o,
                n,
            )[i] < n,
    decreases n,
{
    if n > 0 {
        lemma_entering_props(packets, time, o, n - 1);
        let rest = entering_upto(packets, time, o, n - 1);
        if enters_at(packets, (n - 1) as PacketId, time, o) {
            assert forall|x: PacketId| rest.push((n - 1) as PacketId).contains(x) implies x < n
                && enters_at(packets, x, time, o) by {
                if x != (n - 1) as PacketId {
                    let pushed = rest.push((n - 1) as PacketId);
                    let i = choose|i: int| 0 <= i < pushed.len() && pushed[i] == x;
                    assert(rest[i] == x);
                    assert(rest.contains(x));
                }
            }
            assert(rest.push((n - 1) as PacketId).contains((n - 1) as PacketId)) by {
                assert(rest.push((n - 1) as PacketId)[rest.len() as int] == (n - 1) as PacketId);
            }
            assert forall|x: PacketId| x < n && enters_at(packets, x, time, o) implies rest.push(
                (n - 1) as PacketId,
            ).contains(x) by {
                if x < n - 1 {
                    assert(rest.contains(x));
                    let i = choose|i: int| 0 <= i < rest.len() && rest[i] == x;
                    assert(rest.push((n - 1) as PacketId)[i] == x);
                }
            }
        }
    }
}

/// A sequence of distinct values below `n` has at most `n` entries.
pub proof fn lemma_distinct_bounded_len(q: Seq<PacketId>, n: int)
    requires
        distinct_seq(q),
        forall|i: int| 0 <= i < q.len() ==> q[i] < n,
        n >= 0,
    ensures
        q.len() <= n,
{
    let qi = Seq::new(q.len(), |i: int| q[i] as int);
    assert(qi.no_duplicates());
    qi.unique_seq_to_set();
    let range = vstd::set_lib::set_int_range(0, n);
    vstd::set_lib::lemma_int_range(0, n);
    assert(qi.to_set().subset_of(range)) by {
        assert forall|x: int| qi.to_set().contains(x) implies range.contains(x) by {
            assert(qi.contains(x));
            let i = choose|i: int| 0 <= i < qi.len() && qi[i] == x;
        }
    }
    vstd::set_lib::lemma_len_subset(qi.to_set(), range);
}

// ------------------------------------------------------------------
// Spec model: the zipper merge
// ------------------------------------------------------------------

/// Sum of the lengths of all stream queues.
pub open spec fn total_len(queues: Seq<Seq<PacketId>>) -> int
    decreases queues.len(),
{
    if queues.len() == 0 {
        0
    } else {
        queues[0].len() + total_len(queues.skip(1))
    }
}

/// The total length is non-negative and reacts pointwise to an update.
pub proof fn lemma_total_len_update(queues: Seq<Seq<PacketId>>, j: int, nq: Seq<PacketId>)
    requires
        0 <= j < queues.len(),
    ensures
        total_len(queues.update(j, nq)) == total_len(queues) - queues[j].len() + nq.len(),
    decreases queues.len(),
{
    if j == 0 {
        assert(queues.update(0, nq).skip(1) =~= queues.skip(1));
        assert(queues.update(0, nq)[0] == nq);
    } else {
        assert(queues.update(j, nq).skip(1) =~= queues.skip(1).update(j - 1, nq));
        lemma_total_len_update(queues.skip(1), j - 1, nq);
    }
}

/// The total length is non-negative.
pub proof fn lemma_total_len_nonneg(queues: Seq<Seq<PacketId>>)
    ensures
        total_len(queues) >= 0,
    decreases queues.len(),
{
    if queues.len() > 0 {
        lemma_total_len_nonneg(queues.skip(1));
    }
}

/// Queue lengths are bounded by their original lengths, which fit in `i64`.
pub open spec fn zipper_wf(queues: Seq<Seq<PacketId>>, lens: Seq<int>) -> bool {
    &&& lens.len() == queues.len()
    &&& forall|j: int|
        0 <= j < queues.len() ==> 0 <= (#[trigger] queues[j]).len() <= lens[j]
            < 0x8000_0000_0000_0000
}

/// The heap element standing for stream `j`: its priority is the normalized
/// progress `(served + 1) / original length`.
pub open spec fn zipper_elem(
    edges: Seq<EdgeId>,
    queues: Seq<Seq<PacketId>>,
    lens: Seq<int>,
    j: int,
) -> MaxHeapElement {
    MaxHeapElement {
        priority: Fraction {
            numerator: (lens[j] - queues[j].len() + 1) as i64,
            denominator: lens[j] as i64,
        },
        edge_id: edges[j],
        queue_id: j as usize,
    }
}

/// The stream served next among the first `k`: the one whose element pops
/// first, scanning forward and keeping the earlier stream on exact ties;
/// `-1` when every stream is empty.
pub open spec fn pick_upto(
    edges: Seq<EdgeId>,
    queues: Seq<Seq<PacketId>>,
    lens: Seq<int>,
    k: int,
) -> int
    decreases k,
{
    if k <= 0 {
        -1
    } else {
        let b = pick_upto(edges, queues, lens, k - 1);
        if queues[k - 1].len() == 0 {
            b
        } else if b == -1 {
            k - 1
        } else if pops_before(
            zipper_elem(edges, queues, lens, k - 1),
            zipper_elem(edges, queues, lens, b),
        ) {
            k - 1
        } else {
            b
        }
    }
}

/// The priorities of non-empty streams are well-formed fractions.
pub proof fn lemma_zipper_elem_wf(
    edges: Seq<EdgeId>,
    queues: Seq<Seq<PacketId>>,
    lens: Seq<int>,
    j: int,
)
    requires
        zipper_wf(queues, lens),
        0 <= j < queues.len(),
        queues[j].len() > 0,
    ensures
        zipper_elem(edges, queues, lens, j).priority.wf(),
        zipper_elem(edges, queues, lens, j).priority.numerator == lens[j] - queues[j].len() + 1,
        zipper_elem(edges, queues, lens, j).priority.denominator == lens[j],
{
}

/// The picked stream is a non-empty one that no other non-empty stream's
/// element pops before.
pub proof fn lemma_pick_props(
    edges: Seq<EdgeId>,
    queues: Seq<Seq<PacketId>>,
    lens: Seq<int>,
    k: int,
)
    requires
        zipper_wf(queues, lens),
        0 <= k <= queues.len(),
    ensures
        pick_upto(edges, queues, lens, k) == -1 <==> (forall|j: int|
            0 <= j < k ==> (#[trigger] queues[j]).len() == 0),
        pick_upto(edges, queues, lens, k) != -1 ==> 0 <= pick_upto(edges, queues, lens, k) < k
            && queues[pick_upto(edges, queues, lens, k)].len() > 0,
        forall|j: int|
            0 <= j < k && (#[trigger] queues[j]).len() > 0 && pick_upto(edges, queues, lens, k)
                != -1 ==> !pops_before(
                zipper_elem(edges, queues, lens, j),
                zipper_elem(edges, queues, lens, pick_upto(edges, queues, lens, k)),
            ),
    decreases k,
{
    if k > 0 {
        lemma_pick_props(edges, queues, lens, k - 1);
        let b = pick_upto(edges, queues, lens, k - 1);
        let p = pick_upto(edges, queues, lens, k);
        if queues[k - 1].len() > 0 && b != -1 && pops_before(
            zipper_elem(edges, queues, lens, k - 1),
            zipper_elem(edges, queues, lens, b),
        ) {
            assert forall|j: int|
                0 <= j < k && (#[trigger] queues[j]).len() > 0 implies !pops_before(
                zipper_elem(edges, queues, lens, j),
                zipper_elem(edges, queues, lens, k - 1),
            ) by {
                if j < k - 1 && pops_before(
                    zipper_elem(edges, queues, lens, j),
                    zipper_elem(edges, queues, lens, k - 1),
                ) {
                    lemma_zipper_elem_wf(edges, queues, lens, j);
                    lemma_zipper_elem_wf(edges, queues, lens, k - 1);
                    lemma_zipper_elem_wf(edges, queues, lens, b);
                    crate::heap_element::lemma_pops_before_trans(
                        zipper_elem(edges, queues, lens, j),
                        zipper_elem(edges, queues, lens, k - 1),
                        zipper_elem(edges, queues, lens, b),
                    );
                }
            }
        }
    }
}

/// The order in which the zipper hands the queued packets to the outgoing
/// edge: repeatedly serve the stream whose element pops first.
pub open spec fn zipper_order(
    edges: Seq<EdgeId>,
    queues: Seq<Seq<PacketId>>,
    lens: Seq<int>,
) -> Seq<PacketId>
    decreases total_len(queues),
        when total_len(queues) >= 0 via zipper_order_decreases
{
    let j = pick_upto(edges, queues, lens, queues.len() as int);
    if j == -1 {
        Seq::empty()
    } else {
        seq![queues[j][0]] + zipper_order(edges, queues.update(j, queues[j].skip(1)), lens)
    }
}

#[via_fn]
proof fn zipper_order_decreases(edges: Seq<EdgeId>, queues: Seq<Seq<PacketId>>, lens: Seq<int>) {
    let j = pick_upto(edges, queues, lens, queues.len() as int);
    if j != -1 {
        lemma_pick_in_range(edges, queues, lens);
        lemma_total_len_update(queues, j, queues[j].skip(1));
        lemma_total_len_nonneg(queues.update(j, queues[j].skip(1)));
    }
}

/// Whatever the stream contents, the picked index stays in range.
pub proof fn lemma_pick_in_range(edges: Seq<EdgeId>, queues: Seq<Seq<PacketId>>, lens: Seq<int>)
    ensures
        pick_upto(edges, queues, lens, queues.len() as int) == -1 || (0 <= pick_upto(
            edges,
            queues,
            lens,
            queues.len() as int,
        ) < queues.len() && queues[pick_upto(edges, queues, lens, queues.len() as int)].len() > 0),
{
    lemma_pick_in_range_upto(edges, queues, lens, queues.len() as int);
}

proof fn lemma_pick_in_range_upto(
    edges: Seq<EdgeId>,
    queues: Seq<Seq<PacketId>>,
    lens: Seq<int>,
    k: int,
)
    requires
        k <= queues.len(),
    ensures
        pick_upto(edges, queues, lens, k) == -1 || (0 <= pick_upto(edges, queues, lens, k) < k
            && queues[pick_upto(edges, queues, lens, k)].len() > 0),
    decreases k,
{
    if k > 0 {
        lemma_pick_in_range_upto(edges, queues, lens, k - 1);
    }
}

/// The merged order contains exactly the stream packets, each once, and has
/// one entry per queued packet.
pub proof fn lemma_zipper_order_props(
    edges: Seq<EdgeId>,
    queues: Seq<Seq<PacketId>>,
    lens: Seq<int>,
)
    requires
        zipper_wf(queues, lens),
        forall|j1: int, i1: int, j2: int, i2: int|
            0 <= j1 < queues.len() && 0 <= i1 < queues[j1].len() && 0 <= j2 < queues.len() && 0
                <= i2 < queues[j2].len() && (j1 != j2 || i1 != i2) ==> #[trigger] queues[j1][i1]
                != #[trigger] queues[j2][i2],
    ensures
        zipper_order(edges, queues, lens).len() == total_len(queues),
        forall|x: PacketId|
            zipper_order(edges, queues, lens).contains(x) <==> exists|j: int|
                0 <= j < queues.len() && (#[trigger] queues[j]).contains(x),
        distinct_seq(zipper_order(edges, queues, lens)),
    decreases total_len(queues),
{
    lemma_total_len_nonneg(queues);
    let j = pick_upto(edges, queues, lens, queues.len() as int);
    lemma_pick_in_range(edges, queues, lens);
    let merged = zipper_order(edges, queues, lens);
    if j == -1 {
        lemma_pick_props(edges, queues, lens, queues.len() as int);
        assert(forall|jj: int| 0 <= jj < queues.len() ==> (#[trigger] queues[jj]).len() == 0);
        lemma_total_len_all_empty(queues);
    } else {
        let nq = queues.update(j, queues[j].skip(1));
        let head = queues[j][0];
        lemma_total_len_update(queues, j, queues[j].skip(1));
        lemma_total_len_nonneg(nq);
        assert(forall|i: int| 0 <= i < queues[j].skip(1).len() ==> queues[j].skip(1)[i] == queues[j][i + 1]);
        assert forall|j1: int, i1: int, j2: int, i2: int|
            0 <= j1 < nq.len() && 0 <= i1 < nq[j1].len() && 0 <= j2 < nq.len() && 0 <= i2
                < nq[j2].len() && (j1 != j2 || i1 != i2) implies #[trigger] nq[j1][i1]
            != #[trigger] nq[j2][i2] by {
            let a1 = if j1 == j {
                i1 + 1
            } else {
                i1
            };
            let a2 = if j2 == j {
                i2 + 1
            } else {
                i2
            };
            assert(nq[j1][i1] == queues[j1][a1] && nq[j2][i2] == queues[j2][a2]);
        }
        assert(zipper_wf(nq, lens)) by {
            assert forall|jj: int|
                0 <= jj < nq.len() implies 0 <= (#[trigger] nq[jj]).len() <= lens[jj]
                < 0x8000_0000_0000_0000 by {
                assert(queues[jj].len() <= lens[jj]);
            }
        }
        lemma_zipper_order_props(edges, nq, lens);
        assert(merged == seq![head] + zipper_order(edges, nq, lens));
        let rest = zipper_order(edges, nq, lens);
        // membership of the head and of the rest
        assert(queues[j].contains(head));
        assert forall|x: PacketId| merged.contains(x) implies x == head || rest.contains(x) by {
            let i = choose|i: int| 0 <= i < merged.len() && merged[i] == x;
            if i > 0 {
                assert(rest[i - 1] == x);
            }
        }
        assert forall|x: PacketId| rest.contains(x) implies merged.contains(x) by {
            let i = choose|i: int| 0 <= i < rest.len() && rest[i] == x;
            assert(merged[i + 1] == x);
        }
        assert(merged[0] == head);
        assert(merged.contains(head));
        // a packet of some stream is the head or sits in the updated streams
        assert forall|x: PacketId|
            (exists|jj: int| 0 <= jj < queues.len() && (#[trigger] queues[jj]).contains(x))
            implies merged.contains(x) by {
            let jj = choose|jj: int| 0 <= jj < queues.len() && (#[trigger] queues[jj]).contains(x);
            let i = choose|i: int| 0 <= i < queues[jj].len() && queues[jj][i] == x;
            if jj == j && i == 0 {
            } else {
                let b1 = if jj == j {
                    i - 1
                } else {
                    i
                };
                assert(nq[jj][b1] == x);
                assert(nq[jj].contains(x));
                assert(rest.contains(x));
            }
        }
        assert forall|x: PacketId| merged.contains(x) implies (exists|jj: int|
            0 <= jj < queues.len() && (#[trigger] queues[jj]).contains(x)) by {
            if x == head {
            } else {
                assert(rest.contains(x));
                let jj = choose|jj: int| 0 <= jj < nq.len() && (#[trigger] nq[jj]).contains(x);
                let i = choose|i: int| 0 <= i < nq[jj].len() && nq[jj][i] == x;
                let a1 = if jj == j {
                    i + 1
                } else {
                    i
                };
                assert(queues[jj][a1] == x);
                assert(queues[jj].contains(x));
            }
        }
        // the head is not among the remaining packets
        assert(!rest.contains(head)) by {
            if rest.contains(head) {
                let jj = choose|jj: int| 0 <= jj < nq.len() && (#[trigger] nq[jj]).contains(head);
                let i = choose|i: int| 0 <= i < nq[jj].len() && nq[jj][i] == head;
                let a1 = if jj == j {
                    i + 1
                } else {
                    i
                };
                assert(queues[jj][a1] == head);
                assert(queues[j][0] == head);
            }
        }
        assert forall|i1: int, i2: int| 0 <= i1 < i2 < merged.len() implies merged[i1]
            != merged[i2] by {
            if i1 == 0 {
                assert(rest[i2 - 1] == merged[i2]);
                assert(rest.contains(merged[i2]));
            } else {
                assert(merged[i1] == rest[i1 - 1] && merged[i2] == rest[i2 - 1]);
            }
        }
    }
}

/// All-empty streams have total length zero.
pub proof fn lemma_total_len_all_empty(queues: Seq<Seq<PacketId>>)
    requires
        forall|j: int| 0 <= j < queues.len() ==> (#[trigger] queues[j]).len() == 0,
    ensures
        total_len(queues) == 0,
    decreases queues.len(),
{
    if queues.len() > 0 {
        assert(forall|j: int|
            0 <= j < queues.skip(1).len() ==> queues.skip(1)[j] == queues[j + 1]);
        lemma_total_len_all_empty(queues.skip(1));
    }
}

// ------------------------------------------------------------------
// Spec model: one outgoing edge, one vertex, the whole phase
// ------------------------------------------------------------------

/// The packet sits in a leaving queue feeding vertex `v` and heads for `o`.
pub open spec fn selected_from_leaving(s: StateV, v: int, o: EdgeId, pid: PacketId) -> bool {
    exists|j: int|
        0 <= j < s.vertices[v].incoming_edges.len() && s.leaving_queues[(
        #[trigger] s.vertices[v].incoming_edges[j]) as int].contains(pid) && goes_to(
            s.packets,
            pid,
            o,
        )
}

/// A packet advanced one step along its path, entering the next edge now.
pub open spec fn advanced_packet(p: PacketV, time: Time) -> PacketV {
    match p.path_position {
        Some(pos) => PacketV {
            path_position: Some((pos + 1) as usize),
            entrance_time: Some(time),
            ..p
        },
        None => p,
    }
}

/// A packet released now, entering the first edge of its path.
pub open spec fn entered_packet(p: PacketV, time: Time) -> PacketV {
    PacketV { path_position: Some(0), entrance_time: Some(time), ..p }
}

/// The packet record after vertex `v` has handled outgoing edge `o`.
pub open spec fn transition_packet(s: StateV, v: int, o: EdgeId, pid: int) -> PacketV {
    let p = s.packets[pid];
    if selected_from_leaving(s, v, o, pid as PacketId) {
        advanced_packet(p, s.time)
    } else if enters_at(s.packets, pid as PacketId, s.time, o) {
        entered_packet(p, s.time)
    } else {
        p
    }
}

/// The streams contending for edge `o` at vertex `v`: one per incoming edge,
/// in incoming order, then the synthetic entering stream.
pub open spec fn stream_queues_of(s: StateV, v: int, o: EdgeId) -> Seq<Seq<PacketId>> {
    Seq::new(
        s.vertices[v].incoming_edges.len(),
        |j: int|
            select_going(s.leaving_queues[s.vertices[v].incoming_edges[j] as int], s.packets, o),
    ).push(entering_upto(s.packets, s.time, o, s.packets.len() as int))
}

/// The edge ids of those streams; the entering stream carries the largest
/// possible id and therefore loses every tie.
pub open spec fn stream_edges_of(s: StateV, v: int) -> Seq<EdgeId> {
    s.vertices[v].incoming_edges.push(usize::MAX)
}

/// The original lengths of the streams.
pub open spec fn stream_lens_of(s: StateV, v: int, o: EdgeId) -> Seq<int> {
    Seq::new(stream_queues_of(s, v, o).len(), |j: int| stream_queues_of(s, v, o)[j].len() as int)
}

/// The packets entering edge `o`, in zipper order.
pub open spec fn merged_for(s: StateV, v: int, o: EdgeId) -> Seq<PacketId> {
    zipper_order(stream_edges_of(s, v), stream_queues_of(s, v, o), stream_lens_of(s, v, o))
}

/// What routing one outgoing edge needs of the state: valid indices, a
/// distinct incoming list with distinct well-formed leaving queues, bounded
/// sizes, and no released packet that has already entered the network.
pub open spec fn out_edge_pre(s: StateV, v: int, o: EdgeId) -> bool {
    &&& 0 <= v < s.vertices.len()
    &&& (o as int) < s.edge_queues.len()
    &&& s.packets.len() < 0x8000_0000_0000_0000
    &&& forall|j: int|
        0 <= j < s.vertices[v].incoming_edges.len() ==> {
            let e = #[trigger] s.vertices[v].incoming_edges[j];
            (e as int) < s.leaving_queues.len() && (e as int) < s.edge_queues.len()
        }
    &&& forall|j1: int, j2: int|
        0 <= j1 < j2 < s.vertices[v].incoming_edges.len() ==> #[trigger] s.vertices[v].incoming_edges[j1]
            != #[trigger] s.vertices[v].incoming_edges[j2]
    &&& forall|j: int|
        0 <= j < s.vertices[v].incoming_edges.len() ==> distinct_seq(
            s.leaving_queues[(#[trigger] s.vertices[v].incoming_edges[j]) as int],
        ) && s.leaving_queues[s.vertices[v].incoming_edges[j] as int].len()
            < 0x8000_0000_0000_0000
    &&& forall|j: int, idx: int|
        0 <= j < s.vertices[v].incoming_edges.len() && 0 <= idx < s.leaving_queues[(
        #[trigger] s.vertices[v].incoming_edges[j]) as int].len() ==> {
            let pid = #[trigger] s.leaving_queues[s.vertices[v].incoming_edges[j] as int][idx];
            &&& pid < s.packets.len()
            &&& s.packets[pid as int].path_position matches Some(pos) && pos < s.packets[
                pid as int
            ].path.len()
        }
    &&& forall|j1: int, idx1: int, j2: int, idx2: int|
        0 <= j1 < s.vertices[v].incoming_edges.len() && 0 <= j2
            < s.vertices[v].incoming_edges.len() && j1 != j2 && 0 <= idx1
            < s.leaving_queues[s.vertices[v].incoming_edges[j1] as int].len() && 0 <= idx2
            < s.leaving_queues[s.vertices[v].incoming_edges[j2] as int].len()
            ==> #[trigger] s.leaving_queues[s.vertices[v].incoming_edges[j1] as int][idx1]
            != #[trigger] s.leaving_queues[s.vertices[v].incoming_edges[j2] as int][idx2]
    &&& forall|pid: int|
        0 <= pid < s.packets.len() ==> (#[trigger] s.packets[pid]).path.len() >= 1
    &&& forall|pid: int|
        0 <= pid < s.packets.len() && enters_at(s.packets, pid as PacketId, s.time, o)
            ==> (#[trigger] s.packets[pid]).path_position is None
}

/// Vertex `v` routes every waiting leaving packet bound for `o`, and every
/// packet released now onto `o`, into the waiting queue of `o`.
pub open spec fn process_out_edge(s: StateV, v: int, o: EdgeId) -> StateV {
    StateV {
        leaving_queues: Seq::new(
            s.leaving_queues.len(),
            |e: int|
                if s.vertices[v].incoming_edges.contains(e as EdgeId) {
                    reject_going(s.leaving_queues[e], s.packets, o)
                } else {
                    s.leaving_queues[e]
                },
        ),
        edge_queues: s.edge_queues.update(
            o as int,
            s.edge_queues[o as int] + merged_for(s, v, o),
        ),
        packets: Seq::new(s.packets.len(), |pid: int| transition_packet(s, v, o, pid)),
        ..s
    }
}

/// Vertex `v` after handling its first `k` outgoing edges.
pub open spec fn process_vertex_upto(s: StateV, v: int, k: int) -> StateV
    decreases k,
{
    if k <= 0 {
        s
    } else {
        let s2 = process_vertex_upto(s, v, k - 1);
        process_out_edge(s2, v, s2.vertices[v].outgoing_edges[k - 1])
    }
}

/// The state after the first `k` vertices have routed their packets.
pub open spec fn phase_transitions_upto(s: StateV, k: int) -> StateV
    decreases k,
{
    if k <= 0 {
        s
    } else {
        let s2 = phase_transitions_upto(s, k - 1);
        process_vertex_upto(s2, k - 1, s2.vertices[k - 1].outgoing_edges.len() as int)
    }
}

/// Phase two: every vertex, in id order, routes the leaving packets onto
/// their next edges and admits the packets released this step.
pub open spec fn phase_transitions(s: StateV) -> StateV {
    phase_transitions_upto(s, s.vertices.len() as int)
}

/// The routing invariant and per-edge freshness yield everything that
/// handling one outgoing edge requires.
pub proof fn lemma_out_edge_pre(s: StateV, v: int, o: EdgeId)
    requires
        inv_trans(s),
        0 <= v < s.vertices.len(),
        (o as int) < s.edge_queues.len(),
        forall|pid: int|
            0 <= pid < s.packets.len() && enters_at(s.packets, pid as PacketId, s.time, o)
                ==> (#[trigger] s.packets[pid]).path_position is None,
    ensures
        out_edge_pre(s, v, o),
{
    let inc = s.vertices[v].incoming_edges;
    assert forall|j: int| 0 <= j < inc.len() implies distinct_seq(
        s.leaving_queues[(#[trigger] inc[j]) as int],
    ) && s.leaving_queues[inc[j] as int].len() < 0x8000_0000_0000_0000 by {
        let e = inc[j] as int;
        assert(e < s.leaving_queues.len());
        assert forall|i1: int, i2: int|
            0 <= i1 < i2 < s.leaving_queues[e].len() implies s.leaving_queues[e][i1]
            != s.leaving_queues[e][i2] by {
        }
        assert forall|i1: int|
            0 <= i1 < s.leaving_queues[e].len() implies s.leaving_queues[e][i1]
            < s.packets.len() by {
            assert(leaving_packet_ok(s, e, s.leaving_queues[e][i1]));
        }
        lemma_distinct_bounded_len(s.leaving_queues[e], s.packets.len() as int);
    }
    assert forall|j: int, idx: int|
        0 <= j < inc.len() && 0 <= idx < s.leaving_queues[inc[j] as int].len() implies {
        let pid = #[trigger] s.leaving_queues[inc[j] as int][idx];
        &&& pid < s.packets.len()
        &&& s.packets[pid as int].path_position matches Some(pos) && pos < s.packets[
            pid as int
        ].path.len()
    } by {
        let pid = s.leaving_queues[inc[j] as int][idx];
        assert(leaving_packet_ok(s, inc[j] as int, pid));
    }
    assert forall|pid: int|
        0 <= pid < s.packets.len() implies (#[trigger] s.packets[pid]).path.len() >= 1 by {
        assert(wf_packet(s, pid));
    }
}

/// Facts about the streams feeding one outgoing edge: pairwise distinct
/// contents, well-formed lengths, and the characterization of the merged
/// order that the zipper produces.
pub proof fn lemma_streams_facts(s: StateV, v: int, o: EdgeId)
    requires
        inv_trans(s),
        0 <= v < s.vertices.len(),
        (o as int) < s.edge_queues.len(),
        forall|pid: int|
            0 <= pid < s.packets.len() && enters_at(s.packets, pid as PacketId, s.time, o)
                ==> (#[trigger] s.packets[pid]).path_position is None,
    ensures
        zipper_wf(stream_queues_of(s, v, o), stream_lens_of(s, v, o)),
        forall|j1: int, i1: int, j2: int, i2: int|
            0 <= j1 < stream_queues_of(s, v, o).len() && 0 <= i1 < stream_queues_of(
                s,
                v,
                o,
            )[j1].len() && 0 <= j2 < stream_queues_of(s, v, o).len() && 0 <= i2
                < stream_queues_of(s, v, o)[j2].len() && (j1 != j2 || i1 != i2)
                ==> #[trigger] stream_queues_of(s, v, o)[j1][i1] != #[trigger] stream_queues_of(
                s,
                v,
                o,
            )[j2][i2],
        merged_for(s, v, o).len() == total_len(stream_queues_of(s, v, o)),
        distinct_seq(merged_for(s, v, o)),
        forall|x: PacketId|
            merged_for(s, v, o).contains(x) <==> (exists|j: int|
                0 <= j < s.vertices[v].incoming_edges.len() && s.leaving_queues[(
                #[trigger] s.vertices[v].incoming_edges[j]) as int].contains(x) && goes_to(
                    s.packets,
                    x,
                    o,
                )) || enters_at(s.packets, x, s.time, o),
{
    let inc = s.vertices[v].incoming_edges;
    let qs = stream_queues_of(s, v, o);
    let lens = stream_lens_of(s, v, o);
    let n = s.packets.len() as int;
    lemma_entering_props(s.packets, s.time, o, n);
    assert forall|j: int| 0 <= j < inc.len() implies qs[j] == select_going(
        s.leaving_queues[(#[trigger] inc[j]) as int],
        s.packets,
        o,
    ) by {
    }
    assert(qs[inc.len() as int] == entering_upto(s.packets, s.time, o, n));
    // lengths are well formed
    assert forall|j: int| 0 <= j < qs.len() implies 0 <= (#[trigger] qs[j]).len() <= lens[j]
        < 0x8000_0000_0000_0000 by {
        assert(lens[j] == qs[j].len());
        if j < inc.len() {
            let e = inc[j] as int;
            lemma_split_going(s.leaving_queues[e], s.packets, o);
            assert forall|i1: int, i2: int|
                0 <= i1 < i2 < s.leaving_queues[e].len() implies s.leaving_queues[e][i1]
                != s.leaving_queues[e][i2] by {
            }
            assert forall|i1: int|
                0 <= i1 < s.leaving_queues[e].len() implies s.leaving_queues[e][i1] < n by {
                assert(leaving_packet_ok(s, e, s.leaving_queues[e][i1]));
            }
            lemma_distinct_bounded_len(s.leaving_queues[e], n);
        }
    }
    // stream members: where they come from
    assert forall|j: int, i1: int|
        0 <= j < qs.len() && 0 <= i1 < qs[j].len() implies qs[j].contains(
        #[trigger] qs[j][i1],
    ) by {
    }
    // pairwise distinct stream contents
    assert forall|j1: int, i1: int, j2: int, i2: int|
        0 <= j1 < qs.len() && 0 <= i1 < qs[j1].len() && 0 <= j2 < qs.len() && 0 <= i2
            < qs[j2].len() && (j1 != j2 || i1 != i2) implies #[trigger] qs[j1][i1]
        != #[trigger] qs[j2][i2] by {
        let x = qs[j1][i1];
        let y = qs[j2][i2];
        if x == y {
            if j1 < inc.len() {
                lemma_split_going(s.leaving_queues[inc[j1] as int], s.packets, o);
                lemma_split_distinct(s.leaving_queues[inc[j1] as int], s.packets, o);
                assert(qs[j1] == select_going(s.leaving_queues[inc[j1] as int], s.packets, o));
                assert(select_going(s.leaving_queues[inc[j1] as int], s.packets, o).contains(x));
                assert(s.leaving_queues[inc[j1] as int].contains(x) && goes_to(s.packets, x, o));
            } else {
                assert(qs[j1].contains(x));
                assert(entering_upto(s.packets, s.time, o, n).contains(x));
                assert(enters_at(s.packets, x, s.time, o));
            }
            if j2 < inc.len() {
                lemma_split_going(s.leaving_queues[inc[j2] as int], s.packets, o);
                lemma_split_distinct(s.leaving_queues[inc[j2] as int], s.packets, o);
                assert(qs[j2] == select_going(s.leaving_queues[inc[j2] as int], s.packets, o));
                assert(select_going(s.leaving_queues[inc[j2] as int], s.packets, o).contains(y));
                assert(s.leaving_queues[inc[j2] as int].contains(y) && goes_to(s.packets, y, o));
            } else {
                assert(qs[j2].contains(y));
                assert(entering_upto(s.packets, s.time, o, n).contains(y));
                assert(enters_at(s.packets, y, s.time, o));
            }
            if j1 < inc.len() && j2 < inc.len() {
                if j1 == j2 {
                    // repeated entry inside one split half
                    assert(distinct_seq(qs[j1]));
                    assert(false);
                } else {
                    // the same packet in two different leaving queues
                    assert(inc[j1] != inc[j2]);
                    let a1 = choose|a1: int|
                        0 <= a1 < s.leaving_queues[inc[j1] as int].len() && s.leaving_queues[inc[j1] as int][a1]
                            == x;
                    let a2 = choose|a2: int|
                        0 <= a2 < s.leaving_queues[inc[j2] as int].len() && s.leaving_queues[inc[j2] as int][a2]
                            == y;
                    assert(s.leaving_queues[inc[j1] as int][a1] != s.leaving_queues[inc[j2] as int][a2]);
                    assert(false);
                }
            } else if j1 < inc.len() && j2 == inc.len() {
                // a routed packet is inside the network, an entering one is not
                assert(s.packets[x as int].path_position is Some);
                assert(s.packets[y as int].path_position is None);
                assert(false);
            } else if j2 < inc.len() && j1 == inc.len() {
                assert(s.packets[y as int].path_position is Some);
                assert(s.packets[x as int].path_position is None);
                assert(false);
            } else {
                // two entries of the entering stream
                assert(distinct_seq(entering_upto(s.packets, s.time, o, n)));
                assert(false);
            }
        }
    }
    lemma_zipper_order_props(stream_edges_of(s, v), qs, lens);
    // translate stream membership into leaving or entering membership
    assert forall|x: PacketId|
        merged_for(s, v, o).contains(x) <==> (exists|j: int|
            0 <= j < inc.len() && s.leaving_queues[(#[trigger] inc[j]) as int].contains(x)
                && goes_to(s.packets, x, o)) || enters_at(s.packets, x, s.time, o) by {
        if merged_for(s, v, o).contains(x) {
            let j = choose|j: int| 0 <= j < qs.len() && (#[trigger] qs[j]).contains(x);
            if j < inc.len() {
                lemma_split_going(s.leaving_queues[inc[j] as int], s.packets, o);
                assert(s.leaving_queues[inc[j] as int].contains(x) && goes_to(s.packets, x, o));
            } else {
                assert(enters_at(s.packets, x, s.time, o));
            }
        }
        if exists|j: int|
            0 <= j < inc.len() && s.leaving_queues[(#[trigger] inc[j]) as int].contains(x)
                && goes_to(s.packets, x, o) {
            let j = choose|j: int|
                0 <= j < inc.len() && s.leaving_queues[(#[trigger] inc[j]) as int].contains(x)
                    && goes_to(s.packets, x, o);
            lemma_split_going(s.leaving_queues[inc[j] as int], s.packets, o);
            assert(qs[j].contains(x));
            assert(merged_for(s, v, o).contains(x));
        }
        if enters_at(s.packets, x, s.time, o) {
            assert(x < s.packets.len());
            assert(qs[inc.len() as int].contains(x));
            assert(merged_for(s, v, o).contains(x));
        }
    }
}

/// Handling one outgoing edge keeps the routing invariant, and touches a
/// packet's progress only when it is routed over `o` or released onto `o`.
#[verifier::rlimit(100)]
#[verifier::spinoff_prover]
pub proof fn lemma_process_preserves(s: StateV, v: int, o: EdgeId)
    requires
        inv_trans(s),
        0 <= v < s.vertices.len(),
        (o as int) < s.edge_queues.len(),
        forall|pid: int|
            0 <= pid < s.packets.len() && enters_at(s.packets, pid as PacketId, s.time, o)
                ==> (#[trigger] s.packets[pid]).path_position is None,
    ensures
        inv_trans(process_out_edge(s, v, o)),
        ({
            let t = process_out_edge(s, v, o);
            &&& t.packets.len() == s.packets.len()
            &&& forall|pid: int|
                0 <= pid < s.packets.len() ==> (#[trigger] t.packets[pid]).release_time
                    == s.packets[pid].release_time && t.packets[pid].path == s.packets[pid].path
                    && (t.packets[pid].path_position is Some ==> s.packets[pid].path_position
                    is Some || enters_at(s.packets, pid as PacketId, s.time, o))
            &&& forall|e: int, i: int|
                0 <= e < t.leaving_queues.len() && 0 <= i < t.leaving_queues[e].len() ==> {
                    let pid = #[trigger] t.leaving_queues[e][i];
                    &&& s.leaving_queues[e].contains(pid)
                    &&& t.packets[pid as int] == s.packets[pid as int]
                    &&& !goes_to(s.packets, pid, o) || !s.vertices[v].incoming_edges.contains(
                        e as EdgeId,
                    )
                }
        }),
{
    let t = process_out_edge(s, v, o);
    let inc = s.vertices[v].incoming_edges;
    let merged = merged_for(s, v, o);
    lemma_streams_facts(s, v, o);
    // how each packet record changes
    assert forall|pid: int| 0 <= pid < s.packets.len() implies {
        let p2 = #[trigger] t.packets[pid];
        &&& p2.release_time == s.packets[pid].release_time
        &&& p2.path == s.packets[pid].path
        &&& (p2.path_position is Some ==> s.packets[pid].path_position is Some || enters_at(
            s.packets,
            pid as PacketId,
            s.time,
            o,
        ))
        &&& wf_packet(t, pid)
    } by {
        assert(t.packets[pid] == transition_packet(s, v, o, pid));
        assert(wf_packet(s, pid));
        assert(t.arrival_times == s.arrival_times && t.time == s.time);
        assert(edge_lengths(t.edges) == edge_lengths(s.edges));
        if selected_from_leaving(s, v, o, pid as PacketId) {
            assert(goes_to(s.packets, pid as PacketId, o));
            let j = choose|j: int|
                0 <= j < inc.len() && s.leaving_queues[(#[trigger] inc[j]) as int].contains(
                    pid as PacketId,
                ) && goes_to(s.packets, pid as PacketId, o);
            let i2 = choose|i2: int|
                0 <= i2 < s.leaving_queues[inc[j] as int].len()
                    && s.leaving_queues[inc[j] as int][i2] == pid as PacketId;
            assert(leaving_packet_ok(s, inc[j] as int, s.leaving_queues[inc[j] as int][i2]));
            // entering the next edge now respects the accumulated transit time
            let p = s.packets[pid];
            let pos = p.path_position->Some_0;
            assert(p.path[pos as int] == inc[j]);
            assert(path_len_sum(edge_lengths(s.edges), p.path, pos + 1) == path_len_sum(
                edge_lengths(s.edges),
                p.path,
                pos as int,
            ) + edge_lengths(s.edges)[p.path[pos as int] as int]);
            assert(s.time >= p.release_time + path_len_sum(edge_lengths(s.edges), p.path, pos + 1));
        } else if enters_at(s.packets, pid as PacketId, s.time, o) {
            assert(s.packets[pid].release_time == s.time);
            assert(s.packets[pid].path.len() >= 1);
            assert(path_len_sum(edge_lengths(s.edges), s.packets[pid].path, 0) == 0);
        }
    }
    // leaving queue members after the split
    assert forall|e: int, i: int|
        0 <= e < t.leaving_queues.len() && 0 <= i < t.leaving_queues[e].len() implies
        leaving_packet_ok(t, e, #[trigger] t.leaving_queues[e][i]) && s.leaving_queues[e].contains(
        t.leaving_queues[e][i],
    ) && t.packets[t.leaving_queues[e][i] as int] == s.packets[t.leaving_queues[e][i] as int] && (
    !goes_to(s.packets, t.leaving_queues[e][i], o) || !s.vertices[v].incoming_edges.contains(
        e as EdgeId,
    )) by {
        let pid = t.leaving_queues[e][i];
        if inc.contains(e as EdgeId) {
            lemma_split_going(s.leaving_queues[e], s.packets, o);
            assert(reject_going(s.leaving_queues[e], s.packets, o).contains(pid));
            assert(s.leaving_queues[e].contains(pid));
            assert(!goes_to(s.packets, pid, o));
        } else {
            assert(t.leaving_queues[e] == s.leaving_queues[e]);
            assert(s.leaving_queues[e].contains(pid));
        }
        let i2 = choose|i2: int|
            0 <= i2 < s.leaving_queues[e].len() && s.leaving_queues[e][i2] == pid;
        assert(leaving_packet_ok(s, e, s.leaving_queues[e][i2]));
        assert(!enters_at(s.packets, pid as PacketId, s.time, o));
        assert(!selected_from_leaving(s, v, o, pid)) by {
            if selected_from_leaving(s, v, o, pid) {
                if inc.contains(e as EdgeId) {
                    lemma_split_going(s.leaving_queues[e], s.packets, o);
                    assert(!goes_to(s.packets, pid, o));
                    assert(false);
                } else {
                    let j = choose|j: int|
                        0 <= j < inc.len() && s.leaving_queues[(#[trigger] inc[j]) as int].contains(
                            pid,
                        ) && goes_to(s.packets, pid, o);
                    let a1 = choose|a1: int|
                        0 <= a1 < s.leaving_queues[inc[j] as int].len()
                            && s.leaving_queues[inc[j] as int][a1] == pid;
                    assert(inc[j] as int != e) by {
                        if inc[j] as int == e {
                            assert(inc.contains(e as EdgeId)) by {
                                assert(inc[j] == e as EdgeId);
                            }
                        }
                    }
                    assert(s.leaving_queues[inc[j] as int][a1] != s.leaving_queues[e][i2]);
                    assert(false);
                }
            }
        }
        assert(t.packets[pid as int] == s.packets[pid as int]);
        assert(edge_lengths(t.edges) == edge_lengths(s.edges));
    }
    // waiting queue members: old ones keep their records, merged ones are fine
    assert forall|e: int, i: int|
        0 <= e < t.edge_queues.len() && 0 <= i < t.edge_queues[e].len() implies queued_packet_ok(
        t,
        e,
        #[trigger] t.edge_queues[e][i],
    ) by {
        let pid = t.edge_queues[e][i];
        if e == o as int && i >= s.edge_queues[e].len() {
            assert(t.edge_queues[e] == s.edge_queues[e] + merged);
            assert(merged[i - s.edge_queues[e].len()] == pid);
            assert(merged.contains(pid));
            if exists|j: int|
                0 <= j < inc.len() && s.leaving_queues[(#[trigger] inc[j]) as int].contains(pid)
                    && goes_to(s.packets, pid, o) {
                let j = choose|j: int|
                    0 <= j < inc.len() && s.leaving_queues[(#[trigger] inc[j]) as int].contains(
                        pid,
                    ) && goes_to(s.packets, pid, o);
                let i2 = choose|i2: int|
                    0 <= i2 < s.leaving_queues[inc[j] as int].len()
                        && s.leaving_queues[inc[j] as int][i2] == pid;
                assert(leaving_packet_ok(s, inc[j] as int, s.leaving_queues[inc[j] as int][i2]));
                assert(selected_from_leaving(s, v, o, pid));
                assert(t.packets[pid as int] == advanced_packet(s.packets[pid as int], s.time));
            } else {
                assert(enters_at(s.packets, pid, s.time, o));
                assert(s.packets[pid as int].path_position is None);
                assert(wf_packet(s, pid as int));
                assert(s.arrival_times[pid as int] is None);
                assert(t.packets[pid as int] == entered_packet(s.packets[pid as int], s.time));
            }
        } else {
            if e == o as int {
                assert(t.edge_queues[e] == s.edge_queues[e] + merged);
                assert(t.edge_queues[e][i] == s.edge_queues[e][i]);
            } else {
                assert(t.edge_queues[e] == s.edge_queues[e]);
            }
            assert(s.edge_queues[e].contains(pid)) by {
                assert(s.edge_queues[e][i] == pid);
            }
            assert(queued_packet_ok(s, e, pid));
            // the packet is neither routed over `o` nor released onto it
            assert(!enters_at(s.packets, pid, s.time, o));
            assert(t.packets[pid as int].entrance_time is Some && t.packets[pid as int].path_position is Some) by {
                if selected_from_leaving(s, v, o, pid) {
                    assert(t.packets[pid as int] == advanced_packet(s.packets[pid as int], s.time));
                } else {
                    assert(t.packets[pid as int] == s.packets[pid as int]);
                }
            }
        }
    }
    // membership in the new waiting queue of `o` means old member or merged
    assert(t.edge_queues[o as int] == s.edge_queues[o as int] + merged);
    // distinctness of all queues together
    assert forall|e1: int, i1: int, e2: int, i2: int|
        0 <= e1 < t.edge_queues.len() && 0 <= i1 < t.edge_queues[e1].len() && 0 <= e2
            < t.edge_queues.len() && 0 <= i2 < t.edge_queues[e2].len() && (e1 != e2 || i1 != i2)
            implies #[trigger] t.edge_queues[e1][i1] != #[trigger] t.edge_queues[e2][i2] by {
        let x = t.edge_queues[e1][i1];
        let y = t.edge_queues[e2][i2];
        let old1 = e1 != o as int || i1 < s.edge_queues[e1].len();
        let old2 = e2 != o as int || i2 < s.edge_queues[e2].len();
        if old1 {
            assert(x == s.edge_queues[e1][i1]);
        } else {
            assert(x == merged[i1 - s.edge_queues[e1].len()]);
            assert(merged.contains(x));
        }
        if old2 {
            assert(y == s.edge_queues[e2][i2]);
        } else {
            assert(y == merged[i2 - s.edge_queues[e2].len()]);
            assert(merged.contains(y));
        }
        if x == y {
            if old1 && old2 {
                assert(false);
            } else if !old1 && !old2 {
                assert(merged[i1 - s.edge_queues[e1].len()] == merged[i2 - s.edge_queues[e2].len()]);
                assert(false);
            } else {
                // one sits in an old waiting queue, the other was just merged
                let (om, im, eo, io) = if old1 {
                    (y, i2, e1, i1)
                } else {
                    (x, i1, e2, i2)
                };
                assert(merged.contains(om));
                if exists|j: int|
                    0 <= j < inc.len() && s.leaving_queues[(#[trigger] inc[j]) as int].contains(
                        om,
                    ) && goes_to(s.packets, om, o) {
                    let j = choose|j: int|
                        0 <= j < inc.len() && s.leaving_queues[(#[trigger] inc[j]) as int].contains(
                            om,
                        ) && goes_to(s.packets, om, o);
                    let a = choose|a: int|
                        0 <= a < s.leaving_queues[inc[j] as int].len() && s.leaving_queues[inc[j] as int][a]
                            == om;
                    assert(s.edge_queues[eo][io] != s.leaving_queues[inc[j] as int][a]);
                    assert(false);
                } else {
                    assert(enters_at(s.packets, om, s.time, o));
                    assert(s.packets[om as int].path_position is None);
                    assert(queued_packet_ok(s, eo, om)) by {
                        assert(s.edge_queues[eo][io] == om);
                    }
                    assert(false);
                }
            }
        }
    }
    assert forall|e1: int, i1: int, e2: int, i2: int|
        0 <= e1 < t.leaving_queues.len() && 0 <= i1 < t.leaving_queues[e1].len() && 0 <= e2
            < t.leaving_queues.len() && 0 <= i2 < t.leaving_queues[e2].len() && (e1 != e2 || i1
            != i2) implies #[trigger] t.leaving_queues[e1][i1] != #[trigger] t.leaving_queues[e2][i2] by {
        let x = t.leaving_queues[e1][i1];
        let y = t.leaving_queues[e2][i2];
        if x == y {
            if e1 == e2 {
                if inc.contains(e1 as EdgeId) {
                    lemma_split_distinct(s.leaving_queues[e1], s.packets, o);
                    assert(distinct_seq(t.leaving_queues[e1]));
                    assert(false);
                } else {
                    assert(t.leaving_queues[e1] == s.leaving_queues[e1]);
                    assert(false);
                }
            } else {
                assert(s.leaving_queues[e1].contains(x) && s.leaving_queues[e2].contains(y));
                let a1 = choose|a: int|
                    0 <= a < s.leaving_queues[e1].len() && s.leaving_queues[e1][a] == x;
                let a2 = choose|a: int|
                    0 <= a < s.leaving_queues[e2].len() && s.leaving_queues[e2][a] == y;
                assert(s.leaving_queues[e1][a1] != s.leaving_queues[e2][a2]);
                assert(false);
            }
        }
    }
    assert forall|e1: int, i1: int, e2: int, i2: int|
        0 <= e1 < t.edge_queues.len() && 0 <= i1 < t.edge_queues[e1].len() && 0 <= e2
            < t.leaving_queues.len() && 0 <= i2 < t.leaving_queues[e2].len() implies #[trigger] t.edge_queues[e1][i1]
        != #[trigger] t.leaving_queues[e2][i2] by {
        let x = t.edge_queues[e1][i1];
        let y = t.leaving_queues[e2][i2];
        if x == y {
            assert(s.leaving_queues[e2].contains(y));
            let a2 = choose|a: int|
                0 <= a < s.leaving_queues[e2].len() && s.leaving_queues[e2][a] == y;
            if e1 != o as int || i1 < s.edge_queues[e1].len() {
                assert(x == s.edge_queues[e1][i1]);
                assert(s.edge_queues[e1][i1] != s.leaving_queues[e2][a2]);
                assert(false);
            } else {
                assert(x == merged[i1 - s.edge_queues[e1].len()]);
                assert(merged.contains(x));
                if exists|j: int|
                    0 <= j < inc.len() && s.leaving_queues[(#[trigger] inc[j]) as int].contains(x)
                        && goes_to(s.packets, x, o) {
                    // x was removed from its leaving queue, y stayed behind
                    assert(inc.contains(e2 as EdgeId) ==> !goes_to(s.packets, y, o)) by {
                        if inc.contains(e2 as EdgeId) {
                            lemma_split_going(s.leaving_queues[e2], s.packets, o);
                            assert(reject_going(s.leaving_queues[e2], s.packets, o).contains(y));
                        }
                    }
                    let j = choose|j: int|
                        0 <= j < inc.len() && s.leaving_queues[(#[trigger] inc[j]) as int].contains(
                            x,
                        ) && goes_to(s.packets, x, o);
                    if inc[j] as int == e2 {
                        assert(inc.contains(e2 as EdgeId)) by {
                            assert(inc[j] == e2 as EdgeId);
                        }
                        assert(false);
                    } else {
                        let a1 = choose|a: int|
                            0 <= a < s.leaving_queues[inc[j] as int].len() && s.leaving_queues[inc[j] as int][a]
                                == x;
                        assert(s.leaving_queues[inc[j] as int][a1] != s.leaving_queues[e2][a2]);
                        assert(false);
                    }
                } else {
                    assert(enters_at(s.packets, x, s.time, o));
                    assert(s.packets[x as int].path_position is None);
                    assert(leaving_packet_ok(s, e2, y)) by {
                        assert(s.leaving_queues[e2][a2] == y);
                    }
                    assert(false);
                }
            }
        }
    }
    assert(t.packets_arrived as int == count_arrived(t.arrival_times, t.arrival_times.len() as int));
    assert(wf_topology(t)) by {
        assert(t.edge_queues.len() == s.edge_queues.len());
        assert(t.leaving_queues.len() == s.leaving_queues.len());
        assert(t.arrival_times.len() == t.packets.len());
    }
    assert forall|e: int| 0 <= e < t.edges.len() implies wf_capacity(#[trigger] t.edges[e]) by {
        assert(t.edges[e] == s.edges[e]);
    }
}

/// The split of a queue only reads the records of its own members: packet
/// arrays that agree there give the same split.
pub proof fn lemma_split_agrees(
    q: Seq<PacketId>,
    p1: Seq<PacketV>,
    p2: Seq<PacketV>,
    o: EdgeId,
)
    requires
        p1.len() == p2.len(),
        forall|i: int| 0 <= i < q.len() ==> q[i] < p1.len() && p1[#[trigger] q[i] as int] == p2[q[i] as int],
    ensures
        select_going(q, p1, o) == select_going(q, p2, o),
        reject_going(q, p1, o) == reject_going(q, p2, o),
    decreases q.len(),
{
    if q.len() > 0 {
        assert(forall|i: int| 0 <= i < q.skip(1).len() ==> q.skip(1)[i] == q[i + 1]);
        lemma_split_agrees(q.skip(1), p1, p2, o);
        assert(p1[q[0] as int] == p2[q[0] as int]);
        assert(goes_to(p1, q[0], o) == goes_to(p2, q[0], o));
    }
}

/// The entering stream only reads release times and paths: packet arrays
/// that agree on those give the same stream.
pub proof fn lemma_entering_agrees(
    p1: Seq<PacketV>,
    p2: Seq<PacketV>,
    time: Time,
    o: EdgeId,
    n: int,
)
    requires
        p1.len() == p2.len(),
        forall|pid: int|
            0 <= pid < p1.len() ==> (#[trigger] p1[pid]).release_time == p2[pid].release_time
                && p1[pid].path == p2[pid].path,
        n <= p1.len(),
    ensures
        entering_upto(p1, time, o, n) == entering_upto(p2, time, o, n),
    decreases n,
{
    if n > 0 {
        lemma_entering_agrees(p1, p2, time, o, n - 1);
    }
}

/// Membership in a sequence extended at the back, at one value.
pub proof fn lemma_push_contains(q: Seq<PacketId>, x: PacketId, y: PacketId)
    ensures
        q.push(x).contains(y) <==> q.contains(y) || y == x,
{
    if q.push(x).contains(y) {
        let i = choose|i: int| 0 <= i < q.push(x).len() && q.push(x)[i] == y;
        if i < q.len() {
            assert(q[i] == y);
        }
    }
    if q.contains(y) {
        let i = choose|i: int| 0 <= i < q.len() && q[i] == y;
        assert(q.push(x)[i] == y);
    }
    if y == x {
        assert(q.push(x)[q.len() as int] == y);
    }
}

/// Sum of the lengths of the first `n` leaving queues.
pub open spec fn sum_lens_upto(qs: Seq<Seq<PacketId>>, n: int) -> int
    decreases n,
{
    if n <= 0 {
        0
    } else {
        sum_lens_upto(qs, n - 1) + qs[n - 1].len()
    }
}

/// Number of recorded arrivals never exceeds the table size.
pub proof fn lemma_count_bound(arr: Seq<Option<Time>>, n: int)
    requires
        0 <= n <= arr.len(),
    ensures
        0 <= count_arrived(arr, n) <= n,
    decreases n,
{
    if n > 0 {
        lemma_count_bound(arr, n - 1);
    }
}

/// Recording one new arrival raises the count by one.
pub proof fn lemma_count_update(arr: Seq<Option<Time>>, i: int, t: Time, n: int)
    requires
        0 <= i < n <= arr.len(),
        arr[i] is None,
    ensures
        count_arrived(arr.update(i, Some(t)), n) == count_arrived(arr, n) + 1,
    decreases n,
{
    if i == n - 1 {
        lemma_count_same(arr.update(i, Some(t)), arr, n - 1);
    } else {
        lemma_count_update(arr, i, t, n - 1);
    }
}

/// The count only reads the first `n` entries.
pub proof fn lemma_count_same(a: Seq<Option<Time>>, b: Seq<Option<Time>>, n: int)
    requires
        forall|i: int| 0 <= i < n ==> a[i] == b[i],
    ensures
        count_arrived(a, n) == count_arrived(b, n),
    decreases n,
{
    if n > 0 {
        lemma_count_same(a, b, n - 1);
    }
}

/// A full table has a full count.
pub proof fn lemma_count_full(arr: Seq<Option<Time>>, n: int)
    requires
        0 <= n <= arr.len(),
        count_arrived(arr, n) == n,
    ensures
        forall|i: int| 0 <= i < n ==> (#[trigger] arr[i]) is Some,
    decreases n,
{
    if n > 0 {
        lemma_count_bound(arr, n - 1);
        lemma_count_full(arr, n - 1);
    }
}

/// The packet sits in some leaving queue.
pub open spec fn in_leaving(s: StateV, pid: int) -> bool {
    exists|e: int|
        0 <= e < s.leaving_queues.len() && (#[trigger] s.leaving_queues[e]).contains(
            pid as PacketId,
        )
}

/// Phase three: every packet still waiting in a leaving queue has reached the
/// end of its path; record its arrival now and clear the queues.
pub open spec fn phase_arrivals(s: StateV) -> StateV {
    StateV {
        arrival_times: Seq::new(
            s.arrival_times.len(),
            |pid: int|
                if in_leaving(s, pid) {
                    Some(s.time)
                } else {
                    s.arrival_times[pid]
                },
        ),
        packets_arrived: (s.packets_arrived + sum_lens_upto(
            s.leaving_queues,
            s.leaving_queues.len() as int,
        )) as usize,
        leaving_queues: Seq::new(s.leaving_queues.len(), |e: int| Seq::<PacketId>::empty()),
        ..s
    }
}

/// One whole time step.
pub open spec fn step(s: StateV) -> StateV {
    step_time(phase_arrivals(phase_transitions(phase_leaving(s))))
}

/// The state after `n` whole time steps.
pub open spec fn steps(s: StateV, n: nat) -> StateV
    decreases n,
{
    if n == 0 {
        s
    } else {
        step(steps(s, (n - 1) as nat))
    }
}

/// Monotone time: a recorded arrival lies at or after the packet's release
/// time plus the total transit time of its whole path.
pub open spec fn arrival_respects_transit(s: StateV, pid: int) -> bool {
    match s.arrival_times[pid] {
        Some(t) => t >= s.packets[pid].release_time + path_len_sum(
            edge_lengths(s.edges),
            s.packets[pid].path,
            s.packets[pid].path.len() as int,
        ),
        None => true,
    }
}

/// Every packet has an arrival time recorded.
pub open spec fn all_arrived(s: StateV) -> bool {
    forall|pid: int| 0 <= pid < s.arrival_times.len() ==> (#[trigger] s.arrival_times[pid]) is Some
}

/// A complete run: `n` steps from `s` reach `f`, where every packet has
/// arrived, and `n` is the first such step count.
pub open spec fn complete_run(s: StateV, n: nat, f: StateV) -> bool {
    &&& f == steps(s, n)
    &&& f.packets_arrived == f.packets.len()
    &&& forall|m: nat| m < n ==> #[trigger] steps(s, m).packets_arrived != steps(s, m).packets.len()
}

/// Phase four: the clock advances while packets are still under way.
pub open spec fn step_time(s: StateV) -> StateV {
    if s.packets_arrived < s.packets.len() {
        StateV { time: (s.time + 1) as usize, ..s }
    } else {
        s
    }
}

/// Per-edge FIFO and the capacity bound: in one step an edge releases a
/// front block of its waiting queue, in queue order, and that block is never
/// larger than the integer part of its capacity accumulator.
pub proof fn lemma_leaving_fifo_and_capacity(s: StateV, e: int)
    requires
        0 <= e < s.edges.len(),
        s.edge_queues.len() == s.edges.len(),
        s.leaving_queues.len() == s.edges.len(),
        s.edges[e].current_capacity.wf(),
    ensures
        phase_leaving(s).leaving_queues[e] == s.edge_queues[e].take(leave_count(s, e)),
        phase_leaving(s).edge_queues[e] == s.edge_queues[e].skip(leave_count(s, e)),
        leave_count(s, e) <= s.edges[e].current_capacity.spec_floor(),
        0 <= leave_count(s, e) <= s.edge_queues[e].len(),
{
    lemma_eligible_count_bounds(s.edge_queues[e], s.packets, s.edges[e].length, s.time);
    vstd::arithmetic::div_mod::lemma_div_pos_is_pos(
        s.edges[e].current_capacity.numerator as int,
        s.edges[e].current_capacity.denominator as int,
    );
}

/// Zipper fairness: the packet handed over first comes from a non-empty
/// stream whose element no other non-empty stream's element pops before —
/// the smallest normalized progress, ties to the smaller edge id.
pub proof fn lemma_zipper_fair(edges: Seq<EdgeId>, queues: Seq<Seq<PacketId>>, lens: Seq<int>)
    requires
        zipper_wf(queues, lens),
        exists|j: int| 0 <= j < queues.len() && (#[trigger] queues[j]).len() > 0,
    ensures
        ({
            let j = pick_upto(edges, queues, lens, queues.len() as int);
            &&& 0 <= j < queues.len()
            &&& queues[j].len() > 0
            &&& zipper_order(edges, queues, lens)[0] == queues[j][0]
            &&& forall|j2: int|
                0 <= j2 < queues.len() && (#[trigger] queues[j2]).len() > 0 ==> !pops_before(
                    zipper_elem(edges, queues, lens, j2),
                    zipper_elem(edges, queues, lens, j),
                )
        }),
{
    lemma_pick_props(edges, queues, lens, queues.len() as int);
    let j = pick_upto(edges, queues, lens, queues.len() as int);
    assert(j != -1) by {
        if j == -1 {
            let j2 = choose|j2: int| 0 <= j2 < queues.len() && (#[trigger] queues[j2]).len() > 0;
            assert(queues[j2].len() == 0);
        }
    }
    lemma_total_len_nonneg(queues);
    lemma_total_len_update(queues, j, queues[j].skip(1));
    lemma_total_len_nonneg(queues.update(j, queues[j].skip(1)));
    assert(zipper_order(edges, queues, lens) == seq![queues[j][0]] + zipper_order(
        edges,
        queues.update(j, queues[j].skip(1)),
        lens,
    ));
}

/// The accumulator value written as an integer over the average's
/// denominator; meaningful when that denominator is a multiple of the
/// accumulator's.
pub open spec fn cap_num_over(c: Fraction, b: int) -> int {
    c.numerator * (b / c.denominator as int)
}

/// Total number of packets a saturated edge dispatches in the first `t`
/// steps of a window: the integer part of the accumulator, step by step.
pub open spec fn dispatched_sum(caps: Seq<Fraction>, t: int) -> int
    decreases t,
{
    if t <= 0 {
        0
    } else {
        dispatched_sum(caps, t - 1) + caps[t - 1].spec_floor()
    }
}

/// The register bounds that every reachable accumulator satisfies.
pub open spec fn cap_state_ok(avg: Fraction, c: Fraction) -> bool {
    &&& avg.wf()
    &&& 1 <= avg.numerator <= CAPACITY_LIMIT
    &&& 1 <= avg.denominator <= CAPACITY_LIMIT
    &&& c.wf()
    &&& c.numerator <= avg.numerator + avg.denominator
    &&& c.denominator <= avg.denominator
    &&& divides(c.denominator as int, avg.denominator as int)
}

/// One saturated step conserves capacity exactly: over the average's
/// denominator `b`, the accumulator gains the average numerator and loses
/// `b` for every dispatched packet, and it always holds the average plus a
/// remainder below one.
pub proof fn lemma_capacity_step_value(avg: Fraction, cur: Fraction)
    requires
        cap_state_ok(avg, cur),
    ensures
        ({
            let next = avg.add_spec(cur).sub_spec(floor_frac(cur));
            let b = avg.denominator as int;
            &&& cap_state_ok(avg, next)
            &&& cur.spec_floor() == cap_num_over(cur, b) / b
            &&& cap_num_over(next, b) == avg.numerator + cap_num_over(cur, b) - cur.spec_floor()
                * b
            &&& avg.numerator <= cap_num_over(next, b) < avg.numerator + avg.denominator
            &&& 0 <= cap_num_over(cur, b)
        }),
{
    let a = avg.numerator as int;
    let b = avg.denominator as int;
    let cn = cur.numerator as int;
    let cd = cur.denominator as int;
    let f = cur.spec_floor();
    let next = avg.add_spec(cur).sub_spec(floor_frac(cur));
    lemma_capacity_update(avg, cur);
    let k = choose|k: int| b == #[trigger] (k * cd);
    assert(1 <= k && k * cd == b && b / cd == k && cap_num_over(cur, b) == cn * k)
        by (nonlinear_arith)
        requires
            b == k * cd,
            b >= 1,
            cd >= 1,
            cap_num_over(cur, b) == cn * (b / cd),
    ;
    assert(0 <= cn * k) by (nonlinear_arith)
        requires
            cn >= 0,
            k >= 1,
    ;
    // the floor reads the same through either representation
    vstd::arithmetic::div_mod::lemma_div_multiples_vanish_quotient(k, cn, cd);
    assert(f == (cn * k) / (cd * k)) by {
        assert((k * cn) / (k * cd) == cn / cd);
        assert(k * cn == cn * k && k * cd == cd * k) by (nonlinear_arith);
    }
    // translate the exact update identity into the `m / b` form
    let m_next = cap_num_over(next, b);
    let kn = choose|k2: int| b == #[trigger] (k2 * (next.denominator as int));
    let nd = next.denominator as int;
    assert(1 <= kn && b / nd == kn && m_next == next.numerator * kn) by (nonlinear_arith)
        requires
            b == kn * nd,
            b >= 1,
            nd >= 1,
            m_next == next.numerator * (b / nd),
    ;
    assert(next.numerator * (b * cd) == (a * cd + cn * (k * cd) - f * ((k * cd) * cd)) * nd)
        by (nonlinear_arith)
        requires
            next.numerator * (b * cd) == (a * cd + cn * b - f * (b * cd)) * nd,
            b == k * cd,
    ;
    assert((next.numerator * kn) * cd == a * cd + (cn * k) * cd - (f * k) * cd * cd)
        by (nonlinear_arith)
        requires
            next.numerator * (b * cd) == (a * cd + cn * (k * cd) - f * ((k * cd) * cd)) * nd,
            b == kn * nd,
            nd >= 1,
            cd >= 1,
            k >= 1,
            kn >= 1,
    ;
    assert(m_next == a + cn * k - (f * k) * cd) by (nonlinear_arith)
        requires
            (next.numerator * kn) * cd == a * cd + (cn * k) * cd - (f * k) * cd * cd,
            m_next == next.numerator * kn,
            cd >= 1,
    ;
    assert(m_next == a + cn * k - f * b) by (nonlinear_arith)
        requires
            m_next == a + cn * k - (f * k) * cd,
            b == k * cd,
    ;
    // the remainder after dispatching lies below one unit of capacity
    vstd::arithmetic::div_mod::lemma_fundamental_div_mod(cn * k, b);
    vstd::arithmetic::div_mod::lemma_mod_division_less_than_divisor(cn * k, b);
    assert(m_next == a + (cn * k) % b) by {
        assert(cn * k == b * ((cn * k) / b) + (cn * k) % b);
        assert(f == (cn * k) / b) by {
            assert((cn * k) / (cd * k) == (cn * k) / b) by {
                assert(cd * k == b) by (nonlinear_arith)
                    requires
                        b == k * cd,
                ;
            }
        }
        assert(f * b == b * f) by (nonlinear_arith);
    }
}

/// Capacity conservation over a saturated window: after `t` steps of the
/// carry-over update, the accumulator over the average's denominator `b` has
/// gained `t` times the average numerator and lost `b` per dispatched packet.
/// Since the accumulator always stays within one unit of capacity of the
/// average, the dispatched count in the window is within one of `t * a / b`.
pub proof fn lemma_capacity_conservation(avg: Fraction, caps: Seq<Fraction>, t: int)
    requires
        0 <= t,
        caps.len() >= t + 1,
        cap_state_ok(avg, caps[0]),
        forall|i: int|
            0 <= i < t ==> #[trigger] caps[i + 1] == avg.add_spec(caps[i]).sub_spec(
                floor_frac(caps[i]),
            ),
    ensures
        cap_state_ok(avg, caps[t]),
        cap_num_over(caps[t], avg.denominator as int) == cap_num_over(
            caps[0],
            avg.denominator as int,
        ) + t * avg.numerator - dispatched_sum(caps, t) * (avg.denominator as int),
        t >= 1 ==> avg.numerator <= cap_num_over(caps[t], avg.denominator as int) < avg.numerator
            + avg.denominator,
        0 <= cap_num_over(caps[0], avg.denominator as int),
    decreases t,
{
    let b = avg.denominator as int;
    if t == 0 {
        assert(cap_num_over(caps[0], b) == cap_num_over(caps[0], b) + 0 * avg.numerator - 0 * b);
        lemma_capacity_step_value(avg, caps[0]);
    } else {
        lemma_capacity_conservation(avg, caps, t - 1);
        assert(caps[(t - 1) + 1] == avg.add_spec(caps[t - 1]).sub_spec(floor_frac(caps[t - 1])));
        assert(caps[t] == avg.add_spec(caps[t - 1]).sub_spec(floor_frac(caps[t - 1])));
        lemma_capacity_step_value(avg, caps[t - 1]);
        assert(cap_num_over(caps[t], b) == cap_num_over(caps[0], b) + t * avg.numerator
            - dispatched_sum(caps, t) * b) by (nonlinear_arith)
            requires
                cap_num_over(caps[t], b) == avg.numerator + cap_num_over(caps[t - 1], b) - caps[t
                    - 1].spec_floor() * b,
                cap_num_over(caps[t - 1], b) == cap_num_over(caps[0], b) + (t - 1) * avg.numerator
                    - dispatched_sum(caps, t - 1) * b,
                dispatched_sum(caps, t) == dispatched_sum(caps, t - 1) + caps[t - 1].spec_floor(),
        ;
    }
}

/// Determinism: a complete run from one initial state always takes the same
/// number of steps and ends in the same state, so two runs on the same
/// instance produce identical arrival tables.
pub proof fn lemma_determinism(s: StateV, n1: nat, n2: nat, f1: StateV, f2: StateV)
    requires
        complete_run(s, n1, f1),
        complete_run(s, n2, f2),
    ensures
        n1 == n2,
        f1 == f2,
{
    if n1 < n2 {
        assert(steps(s, n1).packets_arrived != steps(s, n1).packets.len());
        assert(false);
    }
    if n2 < n1 {
        assert(steps(s, n2).packets_arrived != steps(s, n2).packets.len());
        assert(false);
    }
}

} // verus!
