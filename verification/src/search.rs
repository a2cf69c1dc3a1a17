//! The connecting-itinerary search: a pure read over a ticket graph that
//! enumerates all valid two-leg itineraries from an origin to a destination
//! whose first leg departs inside an inclusive window and whose layover
//! lies strictly inside the policy bounds.

use vstd::prelude::*;

use crate::graph::{edge_of, outgoing_entry_ok, outgoing_lists, TicketEdge, TicketGraph};
use crate::ticket::{Code, Id, TicketView};

verus! {

/// A second leg must depart strictly more than this many seconds after the
/// first leg's arrival.
pub const MIN_LAYOVER_SECONDS: i64 = 10800;

/// A second leg must depart strictly less than this many seconds after the
/// first leg's arrival.
pub const MAX_LAYOVER_SECONDS: i64 = 28800;

/// A search request: origin, destination, and an inclusive departure-time
/// window for the first leg.
#[derive(Debug)]
pub struct SearchParams {
    pub departure_code: Code,
    pub arrival_code: Code,
    pub departure_time_start: i64,
    pub departure_time_end: i64,
}

/// The mathematical value of a [`SearchParams`].
pub ghost struct SearchParamsView {
    pub origin: Seq<char>,
    pub dest: Seq<char>,
    pub start: int,
    pub end: int,
}

impl View for SearchParams {
    type V = SearchParamsView;

    open spec fn view(&self) -> SearchParamsView {
        SearchParamsView {
            origin: self.departure_code@,
            dest: self.arrival_code@,
            start: self.departure_time_start as int,
            end: self.departure_time_end as int,
        }
    }
}

/// One found itinerary: the two legs' ticket identifiers and the combined
/// price.
#[derive(Debug)]
pub struct Solution {
    pub ticket_ids: (Id, Id),
    pub price: u128,
}

/// The mathematical value of a [`Solution`].
pub ghost struct SolutionView {
    pub ticket_ids: (Seq<char>, Seq<char>),
    pub price: int,
}

impl View for Solution {
    type V = SolutionView;

    open spec fn view(&self) -> SolutionView {
        SolutionView { ticket_ids: (self.ticket_ids.0@, self.ticket_ids.1@), price: self.price as int }
    }
}

/// All found itineraries, in no guaranteed order.
#[derive(Debug)]
pub struct Solutions {
    pub solutions: Vec<Solution>,
}

impl View for Solutions {
    type V = Seq<SolutionView>;

    open spec fn view(&self) -> Seq<SolutionView> {
        self.solutions@.map_values(|s: Solution| s@)
    }
}

/// The inclusive departure window for a first leg.
pub open spec fn departure_in_window(dep: int, start: int, end: int) -> bool {
    start <= dep && dep <= end
}

/// The layover policy: strictly more than [`MIN_LAYOVER_SECONDS`] and
/// strictly less than [`MAX_LAYOVER_SECONDS`] between the first leg's
/// arrival and the second leg's departure.
pub open spec fn layover_ok(first_arrival: int, second_departure: int) -> bool {
    first_arrival + MIN_LAYOVER_SECONDS < second_departure && second_departure < first_arrival
        + MAX_LAYOVER_SECONDS
}

/// Which ticket pairs of `ts` form a valid one-stop itinerary for `p`: the
/// first leg leaves the origin inside the window and does not land on the
/// destination itself; the second leg continues from the first leg's landing
/// point to the destination after a valid layover.
pub open spec fn valid_pair(ts: Seq<TicketView>, p: SearchParamsView, i: int, j: int) -> bool {
    &&& 0 <= i < ts.len()
    &&& 0 <= j < ts.len()
    &&& ts[i].origin == p.origin
    &&& ts[i].dest != p.dest
    &&& departure_in_window(ts[i].departure_time, p.start, p.end)
    &&& ts[j].origin == ts[i].dest
    &&& ts[j].dest == p.dest
    &&& layover_ok(ts[i].arrival_time, ts[j].departure_time)
}

/// The solution a valid pair yields: both identifiers and the summed price.
pub open spec fn sol_of(ts: Seq<TicketView>, i: int, j: int) -> SolutionView {
    SolutionView { ticket_ids: (ts[i].id, ts[j].id), price: ts[i].price + ts[j].price }
}

/// A single emitted solution is justified by some valid pair.
pub open spec fn sol_justified(ts: Seq<TicketView>, p: SearchParamsView, s: SolutionView) -> bool {
    exists|i: int, j: int| #[trigger] valid_pair(ts, p, i, j) && s == sol_of(ts, i, j)
}

/// Soundness and completeness of a search result against the tickets `ts`:
/// every emitted solution comes from a valid pair, and every valid pair is
/// emitted. Multiplicity is pinned separately: under the seen-set
/// discipline the search also returns no duplicate solutions, so exactly
/// one solution stands per valid pair.
pub open spec fn search_ok(ts: Seq<TicketView>, p: SearchParamsView, sols: Seq<SolutionView>) -> bool {
    &&& (forall|k: int| 0 <= k < sols.len() ==> sol_justified(ts, p, #[trigger] sols[k]))
    &&& (forall|i: int, j: int| #[trigger] valid_pair(ts, p, i, j) ==> sols.contains(sol_of(ts, i, j)))
}

/// The ticket at position `i` appears among the first `n` entries of the
/// outgoing-edge listing `r`.
pub open spec fn listed_before(
    g: TicketGraph,
    r: Seq<(usize, TicketEdge)>,
    n: int,
    i: int,
) -> bool {
    exists|k: int|
        0 <= k < n && g.node_of(g.tickets()[i].dest) == Some((#[trigger] r[k]).0) && r[k].1@
            == edge_of(g.tickets()[i])
}

/// The ticket at position `i` matches entry `k` of the outgoing-edge
/// listing `r`: it lands on that entry's target and carries its payload.
pub open spec fn matches_first(
    g: TicketGraph,
    r: Seq<(usize, TicketEdge)>,
    k: int,
    i: int,
) -> bool {
    g.node_of(g.tickets()[i].dest) == Some(r[k].0) && r[k].1@ == edge_of(g.tickets()[i])
}

/// Enumerates every valid two-leg itinerary from the request's origin to
/// its destination. An unknown origin or destination yields the empty
/// solution set, never an error.
#[verifier::rlimit(100)]
#[verifier::spinoff_prover]
pub fn search(graph: &TicketGraph, params: &SearchParams) -> (r: Solutions)
    requires
        graph.wf(),
    ensures
        search_ok(graph.tickets(), params@, r@),
        graph.ids_ok() ==> r@.no_duplicates(),
{
    let ghost ts = graph.tickets();
    let ghost p = params@;
    let start_opt = graph.get_node_indx_by_code(&params.departure_code);
    let goal_opt = graph.get_node_indx_by_code(&params.arrival_code);
    if start_opt.is_none() || goal_opt.is_none() {
        proof {
            graph.lemma_edges_registered();
            assert forall|i: int, j: int| #[trigger] valid_pair(ts, p, i, j) implies false by {
                assert(graph.node_of(ts[i].origin).is_some());
                assert(graph.node_of(ts[j].dest).is_some());
            }
        }
        let r = Solutions { solutions: Vec::new() };
        proof {
            assert(r@ =~= Seq::<SolutionView>::empty());
            assert(r@.no_duplicates());
        }
        return r;
    }
    let start_h = start_opt.unwrap();
    let goal_h = goal_opt.unwrap();
    let firsts = graph.outgoing_edges(start_h);
    let mut solutions: Vec<Solution> = Vec::new();
    let mut k1: usize = 0;
    while k1 < firsts.len()
        invariant
            graph.wf(),
            graph.node_of(p.origin) == Some(start_h),
            graph.node_of(p.dest) == Some(goal_h),
            ts == graph.tickets(),
            p == params@,
            0 <= k1 <= firsts@.len(),
            forall|k: int|
                0 <= k < firsts@.len() ==> outgoing_entry_ok(*graph, start_h, #[trigger] firsts@[k]),
            forall|i: int|
                0 <= i < ts.len() && graph.node_of((#[trigger] ts[i]).origin) == Some(start_h)
                    ==> outgoing_lists(*graph, firsts@, i),
            forall|k: int|
                0 <= k < solutions@.len() ==> sol_justified(ts, p, (#[trigger] solutions@[k])@),
            forall|i: int, j: int|
                #[trigger] valid_pair(ts, p, i, j) && listed_before(*graph, firsts@, k1 as int, i)
                    ==> solutions@.map_values(|s: Solution| s@).contains(sol_of(ts, i, j)),
            graph.ids_ok() ==> (forall|ka: int, kb: int|
                0 <= ka < kb < firsts@.len() ==> (#[trigger] firsts@[ka]).1@.id != (
                #[trigger] firsts@[kb]).1@.id),
            graph.ids_ok() ==> (forall|ka: int, kb: int|
                0 <= ka < kb < solutions@.len() ==> (#[trigger] solutions@[ka])@ != (
                #[trigger] solutions@[kb])@),
            graph.ids_ok() ==> (forall|k: int|
                0 <= k < solutions@.len() ==> (exists|m: int|
                    0 <= m < k1 && ((#[trigger] solutions@[k])@).ticket_ids.0
                        == firsts@[m].1@.id)),
        decreases firsts@.len() - k1,
    {
        let mid = firsts[k1].0;
        let first = &firsts[k1].1;
        proof {
            assert(outgoing_entry_ok(*graph, start_h, firsts@[k1 as int]));
        }
        if mid != goal_h && first.departure_time >= params.departure_time_start
            && first.departure_time <= params.departure_time_end {
            let seconds = graph.outgoing_edges(mid);
            let mut k2: usize = 0;
            while k2 < seconds.len()
                invariant
                    graph.wf(),
                    graph.node_of(p.origin) == Some(start_h),
                    graph.node_of(p.dest) == Some(goal_h),
                    ts == graph.tickets(),
                    p == params@,
                    0 <= k1 < firsts@.len(),
                    mid == firsts@[k1 as int].0,
                    *first == firsts@[k1 as int].1,
                    mid != goal_h,
                    p.start <= first@.departure_time <= p.end,
                    outgoing_entry_ok(*graph, start_h, firsts@[k1 as int]),
                    0 <= k2 <= seconds@.len(),
                    forall|k: int|
                        0 <= k < seconds@.len() ==> outgoing_entry_ok(
                            *graph,
                            mid,
                            #[trigger] seconds@[k],
                        ),
                    forall|i: int|
                        0 <= i < ts.len() && graph.node_of((#[trigger] ts[i]).origin) == Some(mid)
                            ==> outgoing_lists(*graph, seconds@, i),
                    forall|k: int|
                        0 <= k < solutions@.len() ==> sol_justified(
                            ts,
                            p,
                            (#[trigger] solutions@[k])@,
                        ),
                    forall|i: int, j: int|
                        #[trigger] valid_pair(ts, p, i, j) && (listed_before(
                            *graph,
                            firsts@,
                            k1 as int,
                            i,
                        ) || (matches_first(*graph, firsts@, k1 as int, i) && listed_before(
                            *graph,
                            seconds@,
                            k2 as int,
                            j,
                        ))) ==> solutions@.map_values(|s: Solution| s@).contains(sol_of(ts, i, j)),
                    graph.ids_ok() ==> (forall|ka: int, kb: int|
                        0 <= ka < kb < firsts@.len() ==> (#[trigger] firsts@[ka]).1@.id != (
                        #[trigger] firsts@[kb]).1@.id),
                    graph.ids_ok() ==> (forall|ka: int, kb: int|
                        0 <= ka < kb < seconds@.len() ==> (#[trigger] seconds@[ka]).1@.id != (
                        #[trigger] seconds@[kb]).1@.id),
                    graph.ids_ok() ==> (forall|ka: int, kb: int|
                        0 <= ka < kb < solutions@.len() ==> (#[trigger] solutions@[ka])@ != (
                        #[trigger] solutions@[kb])@),
                    graph.ids_ok() ==> (forall|k: int|
                        0 <= k < solutions@.len() ==> ((exists|m: int|
                            0 <= m < k1 && ((#[trigger] solutions@[k])@).ticket_ids.0
                                == firsts@[m].1@.id) || (((#[trigger] solutions@[k])@).ticket_ids.0
                            == firsts@[k1 as int].1@.id && (exists|m2: int|
                            0 <= m2 < k2 && ((solutions@[k])@).ticket_ids.1
                                == seconds@[m2].1@.id)))),
                decreases seconds@.len() - k2,
            {
                let tgt = seconds[k2].0;
                let second = &seconds[k2].1;
                proof {
                    assert(outgoing_entry_ok(*graph, mid, seconds@[k2 as int]));
                }
                let dep2 = second.departure_time as i128;
                let arr1 = first.arrival_time as i128;
                let ghost old_solutions = solutions@;
                if tgt == goal_h && dep2 > arr1 + (MIN_LAYOVER_SECONDS as i128) && dep2 < arr1
                    + (MAX_LAYOVER_SECONDS as i128) {
                    let sol = Solution {
                        ticket_ids: (first.id.clone(), second.id.clone()),
                        price: first.price as u128 + second.price as u128,
                    };
                    proof {
                        // justify the new solution by a witness pair
                        let i = choose|i: int|
                            0 <= i < ts.len() && graph.node_of((#[trigger] ts[i]).origin) == Some(
                                start_h,
                            ) && graph.node_of(ts[i].dest) == Some(firsts@[k1 as int].0)
                                && firsts@[k1 as int].1@ == edge_of(ts[i]);
                        let j = choose|j: int|
                            0 <= j < ts.len() && graph.node_of((#[trigger] ts[j]).origin) == Some(
                                mid,
                            ) && graph.node_of(ts[j].dest) == Some(seconds@[k2 as int].0)
                                && seconds@[k2 as int].1@ == edge_of(ts[j]);
                        graph.lemma_node_of_injective(ts[i].origin, p.origin);
                        graph.lemma_node_of_injective(ts[j].origin, ts[i].dest);
                        graph.lemma_node_of_injective(ts[j].dest, p.dest);
                        if ts[i].dest == p.dest {
                            assert(graph.node_of(ts[i].dest) == Some(goal_h));
                        }
                        assert(valid_pair(ts, p, i, j));
                        assert(sol@ == sol_of(ts, i, j));
                    }
                    solutions.push(sol);
                }
                proof {
                    let svs = solutions@.map_values(|s: Solution| s@);
                    let old_svs = old_solutions.map_values(|s: Solution| s@);
                    assert forall|k: int| 0 <= k < old_svs.len() implies svs[k] == old_svs[k] by {}
                    // everything once emitted stays emitted
                    assert forall|x: SolutionView| old_svs.contains(x) implies svs.contains(x) by {
                        let kx = choose|kx: int| 0 <= kx < old_svs.len() && old_svs[kx] == x;
                        assert(svs[kx] == x);
                    }
                    // pairs listed up to k2 + 1 are emitted
                    assert forall|i: int, j: int|
                        #[trigger] valid_pair(ts, p, i, j) && (listed_before(
                            *graph,
                            firsts@,
                            k1 as int,
                            i,
                        ) || (matches_first(*graph, firsts@, k1 as int, i) && listed_before(
                            *graph,
                            seconds@,
                            k2 as int + 1,
                            j,
                        ))) implies svs.contains(sol_of(ts, i, j)) by {
                        if listed_before(*graph, firsts@, k1 as int, i) {
                            assert(old_svs.contains(sol_of(ts, i, j)));
                        } else if matches_first(*graph, firsts@, k1 as int, i) && listed_before(
                            *graph,
                            seconds@,
                            k2 as int + 1,
                            j,
                        ) {
                            if listed_before(*graph, seconds@, k2 as int, j) {
                                assert(old_svs.contains(sol_of(ts, i, j)));
                            } else {
                                // j is listed exactly at position k2
                                let kj = choose|kj: int|
                                    0 <= kj < k2 as int + 1 && graph.node_of(ts[j].dest) == Some(
                                        (#[trigger] seconds@[kj]).0,
                                    ) && seconds@[kj].1@ == edge_of(ts[j]);
                                assert(kj == k2 as int);
                                assert(ts[i].departure_time == first@.departure_time);
                                assert(ts[i].arrival_time == first@.arrival_time);
                                assert(graph.node_of(ts[j].dest) == Some(goal_h));
                                assert(tgt == goal_h && layover_ok(
                                    ts[i].arrival_time,
                                    ts[j].departure_time,
                                ));
                                assert(solutions@.len() == old_solutions.len() + 1);
                                assert(svs[old_svs.len() as int] == sol_of(ts, i, j));
                            }
                        }
                    }
                    // under the seen-set discipline nothing is emitted twice
                    if graph.ids_ok() {
                        if solutions@.len() == old_solutions.len() + 1 {
                            let nk = old_solutions.len() as int;
                            let x = (solutions@[nk])@;
                            assert(x.ticket_ids.0 == firsts@[k1 as int].1@.id);
                            assert(x.ticket_ids.1 == seconds@[k2 as int].1@.id);
                            assert forall|ka: int, kb: int|
                                0 <= ka < kb < solutions@.len() implies (
                            #[trigger] solutions@[ka])@ != (#[trigger] solutions@[kb])@ by {
                                if kb == nk {
                                    let y = (old_solutions[ka])@;
                                    assert((solutions@[ka])@ == y);
                                    if exists|m: int|
                                        0 <= m < k1 && ((#[trigger] old_solutions[ka])@).ticket_ids.0
                                            == firsts@[m].1@.id {
                                        let m = choose|m: int|
                                            0 <= m < k1 && ((#[trigger] old_solutions[ka])@)
                                                .ticket_ids.0 == firsts@[m].1@.id;
                                        assert(firsts@[m].1@.id != firsts@[k1 as int].1@.id);
                                        assert(y.ticket_ids.0 != x.ticket_ids.0);
                                    } else {
                                        let m2 = choose|m2: int|
                                            0 <= m2 < k2 && ((old_solutions[ka])@).ticket_ids.1
                                                == seconds@[m2].1@.id;
                                        assert(seconds@[m2].1@.id != seconds@[k2 as int].1@.id);
                                        assert(y.ticket_ids.1 != x.ticket_ids.1);
                                    }
                                } else {
                                    assert((solutions@[ka])@ == (old_solutions[ka])@);
                                    assert((solutions@[kb])@ == (old_solutions[kb])@);
                                }
                            }
                        }
                        assert forall|k: int|
                            0 <= k < solutions@.len() implies ((exists|m: int|
                            0 <= m < k1 && ((#[trigger] solutions@[k])@).ticket_ids.0
                                == firsts@[m].1@.id) || (((solutions@[k])@).ticket_ids.0
                            == firsts@[k1 as int].1@.id && (exists|m2: int|
                            0 <= m2 < k2 as int + 1 && ((solutions@[k])@).ticket_ids.1
                                == seconds@[m2].1@.id))) by {
                            if k < old_solutions.len() {
                                assert((solutions@[k])@ == (old_solutions[k])@);
                                if !(exists|m: int|
                                    0 <= m < k1 && ((#[trigger] old_solutions[k])@).ticket_ids.0
                                        == firsts@[m].1@.id) {
                                    let m2 = choose|m2: int|
                                        0 <= m2 < k2 && ((old_solutions[k])@).ticket_ids.1
                                            == seconds@[m2].1@.id;
                                    assert(0 <= m2 < k2 as int + 1 && ((solutions@[k])@)
                                        .ticket_ids.1 == seconds@[m2].1@.id);
                                }
                            } else {
                                assert(((solutions@[k])@).ticket_ids.1
                                    == seconds@[k2 as int].1@.id);
                            }
                        }
                    }
                }
                k2 = k2 + 1;
            }
            proof {
                // after the inner loop, every pair whose first leg matches
                // this entry has been emitted
                assert forall|i: int, j: int|
                    #[trigger] valid_pair(ts, p, i, j) && listed_before(
                        *graph,
                        firsts@,
                        k1 as int + 1,
                        i,
                    ) implies solutions@.map_values(|s: Solution| s@).contains(
                    sol_of(ts, i, j),
                ) by {
                    if !listed_before(*graph, firsts@, k1 as int, i) {
                        let ki = choose|ki: int|
                            0 <= ki < k1 as int + 1 && graph.node_of(ts[i].dest) == Some(
                                (#[trigger] firsts@[ki]).0,
                            ) && firsts@[ki].1@ == edge_of(ts[i]);
                        assert(ki == k1 as int);
                        assert(matches_first(*graph, firsts@, k1 as int, i));
                        assert(graph.node_of((ts[j]).origin) == Some(mid));
                        assert(outgoing_lists(*graph, seconds@, j));
                        assert(listed_before(*graph, seconds@, seconds@.len() as int, j));
                    }
                }
                if graph.ids_ok() {
                    assert forall|k: int|
                        0 <= k < solutions@.len() implies (exists|m: int|
                        0 <= m < k1 as int + 1 && ((#[trigger] solutions@[k])@).ticket_ids.0
                            == firsts@[m].1@.id) by {
                        if !(exists|m: int|
                            0 <= m < k1 && ((#[trigger] solutions@[k])@).ticket_ids.0
                                == firsts@[m].1@.id) {
                            assert(((solutions@[k])@).ticket_ids.0 == firsts@[k1 as int].1@.id);
                        }
                    }
                }
            }
        } else {
            proof {
                // a first leg this entry rejects can serve no valid pair
                assert forall|i: int, j: int|
                    #[trigger] valid_pair(ts, p, i, j) && listed_before(
                        *graph,
                        firsts@,
                        k1 as int + 1,
                        i,
                    ) implies solutions@.map_values(|s: Solution| s@).contains(
                    sol_of(ts, i, j),
                ) by {
                    if !listed_before(*graph, firsts@, k1 as int, i) {
                        let ki = choose|ki: int|
                            0 <= ki < k1 as int + 1 && graph.node_of(ts[i].dest) == Some(
                                (#[trigger] firsts@[ki]).0,
                            ) && firsts@[ki].1@ == edge_of(ts[i]);
                        assert(ki == k1 as int);
                        assert(ts[i].departure_time == first@.departure_time);
                        if mid == goal_h {
                            graph.lemma_node_of_injective(ts[i].dest, p.dest);
                        }
                        assert(false);
                    }
                }
                if graph.ids_ok() {
                    assert forall|k: int|
                        0 <= k < solutions@.len() implies (exists|m: int|
                        0 <= m < k1 as int + 1 && ((#[trigger] solutions@[k])@).ticket_ids.0
                            == firsts@[m].1@.id) by {
                        let m = choose|m: int|
                            0 <= m < k1 && ((solutions@[k])@).ticket_ids.0 == firsts@[m].1@.id;
                        assert(0 <= m < k1 as int + 1);
                    }
                }
            }
        }
        k1 = k1 + 1;
    }
    proof {
        // every valid pair's first leg is listed somewhere in `firsts`
        assert forall|i: int, j: int| #[trigger] valid_pair(ts, p, i, j) implies solutions@
            .map_values(|s: Solution| s@).contains(sol_of(ts, i, j)) by {
            assert(graph.node_of(ts[i].origin) == Some(start_h));
            assert(outgoing_lists(*graph, firsts@, i));
            assert(listed_before(*graph, firsts@, firsts@.len() as int, i));
        }
        if graph.ids_ok() {
            let svs = solutions@.map_values(|s: Solution| s@);
            assert forall|a: int, b: int|
                0 <= a < svs.len() && 0 <= b < svs.len() && a != b implies svs[a] != svs[b] by {
                if a < b {
                    assert((solutions@[a])@ != (solutions@[b])@);
                } else {
                    assert((solutions@[b])@ != (solutions@[a])@);
                }
            }
            assert(svs.no_duplicates());
        }
    }
    let r = Solutions { solutions };
    r
}

/// Under pairwise distinct ticket identifiers a solution names its pair:
/// two valid pairs that yield the same solution are the same pair. A
/// duplicate-free, sound and complete result therefore holds exactly one
/// solution per valid pair.
pub proof fn lemma_solution_pins_pair(
    ts: Seq<TicketView>,
    p: SearchParamsView,
    i: int,
    j: int,
    i2: int,
    j2: int,
)
    requires
        forall|a: int, b: int|
            0 <= a < b < ts.len() ==> (#[trigger] ts[a]).id != (#[trigger] ts[b]).id,
        valid_pair(ts, p, i, j),
        valid_pair(ts, p, i2, j2),
        sol_of(ts, i, j) == sol_of(ts, i2, j2),
    ensures
        i == i2 && j == j2,
{
    if i < i2 {
        assert(ts[i].id != ts[i2].id);
    } else if i2 < i {
        assert(ts[i2].id != ts[i].id);
    }
    if j < j2 {
        assert(ts[j].id != ts[j2].id);
    } else if j2 < j {
        assert(ts[j2].id != ts[j].id);
    }
}

/// The inclusive window property at the output: under pairwise distinct
/// ticket identifiers, a first leg departing outside the window contributes
/// no solution (the inclusion of in-window legs is search's completeness
/// clause itself).
pub proof fn lemma_out_of_window_first_leg_excluded(
    ts: Seq<TicketView>,
    p: SearchParamsView,
    sols: Seq<SolutionView>,
    i: int,
)
    requires
        search_ok(ts, p, sols),
        forall|a: int, b: int|
            0 <= a < b < ts.len() ==> (#[trigger] ts[a]).id != (#[trigger] ts[b]).id,
        0 <= i < ts.len(),
        !departure_in_window(ts[i].departure_time, p.start, p.end),
    ensures
        forall|k: int| 0 <= k < sols.len() ==> (#[trigger] sols[k]).ticket_ids.0 != ts[i].id,
{
    assert forall|k: int|
        0 <= k < sols.len() implies (#[trigger] sols[k]).ticket_ids.0 != ts[i].id by {
        assert(sol_justified(ts, p, sols[k]));
        let (i2, j2) = choose|i2: int, j2: int|
            #[trigger] valid_pair(ts, p, i2, j2) && sols[k] == sol_of(ts, i2, j2);
        if sols[k].ticket_ids.0 == ts[i].id {
            if i2 < i {
                assert(ts[i2].id != ts[i].id);
            } else if i < i2 {
                assert(ts[i].id != ts[i2].id);
            }
            assert(i2 == i);
            assert(departure_in_window(ts[i].departure_time, p.start, p.end));
        }
    }
}

/// The exclusive layover property at the output: under pairwise distinct
/// ticket identifiers, a pair whose second leg departs exactly at the
/// minimum or maximum wait after the first leg's arrival is never emitted.
pub proof fn lemma_boundary_layover_excluded(
    ts: Seq<TicketView>,
    p: SearchParamsView,
    sols: Seq<SolutionView>,
    i: int,
    j: int,
)
    requires
        search_ok(ts, p, sols),
        forall|a: int, b: int|
            0 <= a < b < ts.len() ==> (#[trigger] ts[a]).id != (#[trigger] ts[b]).id,
        0 <= i < ts.len(),
        0 <= j < ts.len(),
        ts[j].departure_time == ts[i].arrival_time + MIN_LAYOVER_SECONDS || ts[j].departure_time
            == ts[i].arrival_time + MAX_LAYOVER_SECONDS,
    ensures
        forall|k: int|
            0 <= k < sols.len() ==> !((#[trigger] sols[k]).ticket_ids.0 == ts[i].id
                && sols[k].ticket_ids.1 == ts[j].id),
{
    assert forall|k: int|
        0 <= k < sols.len() implies !((#[trigger] sols[k]).ticket_ids.0 == ts[i].id
            && sols[k].ticket_ids.1 == ts[j].id) by {
        assert(sol_justified(ts, p, sols[k]));
        let (i2, j2) = choose|i2: int, j2: int|
            #[trigger] valid_pair(ts, p, i2, j2) && sols[k] == sol_of(ts, i2, j2);
        if sols[k].ticket_ids.0 == ts[i].id && sols[k].ticket_ids.1 == ts[j].id {
            if i2 < i {
                assert(ts[i2].id != ts[i].id);
            } else if i < i2 {
                assert(ts[i].id != ts[i2].id);
            }
            if j2 < j {
                assert(ts[j2].id != ts[j].id);
            } else if j < j2 {
                assert(ts[j].id != ts[j2].id);
            }
            assert(i2 == i && j2 == j);
            assert(layover_ok(ts[i].arrival_time, ts[j].departure_time));
        }
    }
}

/// A valid itinerary's first leg never lands on the requested destination:
/// a direct flight is excluded from two-leg results even when it exists.
pub proof fn lemma_no_direct_first_leg(ts: Seq<TicketView>, p: SearchParamsView, i: int, j: int)
    requires
        valid_pair(ts, p, i, j),
    ensures
        ts[i].dest != p.dest,
{
}

/// The departure window is inclusive on both ends: a first leg departing
/// exactly at the window's start or end qualifies; one departing one unit
/// before the start or after the end does not.
pub proof fn lemma_window_inclusive(start: int, end: int)
    requires
        start <= end,
    ensures
        departure_in_window(start, start, end),
        departure_in_window(end, start, end),
        !departure_in_window(start - 1, start, end),
        !departure_in_window(end + 1, start, end),
{
}

/// The layover window is exclusive on both ends: a second leg departing
/// exactly at the minimum or maximum wait after the first leg's arrival
/// does not qualify; one departing one second inside either bound does.
pub proof fn lemma_layover_exclusive(arrival: int)
    ensures
        !layover_ok(arrival, arrival + MIN_LAYOVER_SECONDS),
        !layover_ok(arrival, arrival + MAX_LAYOVER_SECONDS),
        layover_ok(arrival, arrival + MIN_LAYOVER_SECONDS + 1),
        layover_ok(arrival, arrival + MAX_LAYOVER_SECONDS - 1),
{
}

/// A search whose origin or destination no indexed ticket touches admits no
/// valid pair: an unknown endpoint yields the empty solution set, never an
/// error.
pub proof fn lemma_unknown_endpoint(ts: Seq<TicketView>, p: SearchParamsView, unknown: Seq<char>)
    requires
        unknown == p.origin || unknown == p.dest,
        forall|i: int|
            0 <= i < ts.len() ==> (#[trigger] ts[i]).origin != unknown && ts[i].dest != unknown,
    ensures
        forall|i: int, j: int| !valid_pair(ts, p, i, j),
{
    assert forall|i: int, j: int| !valid_pair(ts, p, i, j) by {
        if valid_pair(ts, p, i, j) {
            assert(ts[i].origin != unknown && ts[j].dest != unknown);
        }
    }
}


} // verus!
