//! The concurrent store: one ticket graph behind a shared-read /
//! exclusive-write lock, with the idempotent batch-insertion protocol.
//! Multiple searches may run in parallel; an insertion batch holds the
//! write lock for its whole duration, so no partial batch is observable.

use vstd::prelude::*;
use vstd::rwlock::{RwLock, RwLockPredicate};

use crate::graph::{TicketGraph, CAPACITY_LIMIT};
use crate::search::{search_ok, SearchParams, Solutions};
use crate::ticket::{Ticket, TicketView};

verus! {

/// What the store's lock protects: a consistent graph under the seen-set
/// discipline.
pub struct StoreInv {}

impl RwLockPredicate<TicketGraph> for StoreInv {
    open spec fn inv(self, g: TicketGraph) -> bool {
        g.wf() && g.ids_ok()
    }
}

/// In-memory storage with shared-read / exclusive-write access to one
/// ticket graph. All reads and writes pass through it.
pub struct NaiveStorage {
    graph: RwLock<TicketGraph, StoreInv>,
}

/// The mathematical values of a batch of tickets, in batch order.
pub open spec fn views(batch: Seq<Ticket>) -> Seq<TicketView> {
    batch.map_values(|t: Ticket| t@)
}

/// Whether some ticket of `ts` bears the identifier `id`.
pub open spec fn has_id(ts: Seq<TicketView>, id: Seq<char>) -> bool {
    exists|i: int| 0 <= i < ts.len() && (#[trigger] ts[i]).id == id
}

/// The tickets indexed after a batch is inserted into `ts`: each record
/// whose identifier is new is appended once, in batch order; the rest are
/// silently dropped (first write wins).
pub open spec fn tickets_after(ts: Seq<TicketView>, batch: Seq<TicketView>) -> Seq<TicketView>
    decreases batch.len(),
{
    if batch.len() == 0 {
        ts
    } else if has_id(ts, batch[0].id) {
        tickets_after(ts, batch.drop_first())
    } else {
        tickets_after(ts.push(batch[0]), batch.drop_first())
    }
}

/// The node codes present after a batch is inserted: both endpoints of each
/// newly indexed ticket, created lazily.
pub open spec fn codes_after(
    cs: Set<Seq<char>>,
    ts: Seq<TicketView>,
    batch: Seq<TicketView>,
) -> Set<Seq<char>>
    decreases batch.len(),
{
    if batch.len() == 0 {
        cs
    } else if has_id(ts, batch[0].id) {
        codes_after(cs, ts, batch.drop_first())
    } else {
        codes_after(
            cs.insert(batch[0].origin).insert(batch[0].dest),
            ts.push(batch[0]),
            batch.drop_first(),
        )
    }
}

/// The insertion protocol, under exclusive access to the graph: skip seen
/// identifiers, register both endpoints, append the edge, mark the
/// identifier seen.
pub fn insert_all(graph: &mut TicketGraph, tickets: Vec<Ticket>)
    requires
        old(graph).wf(),
        old(graph).ids_ok(),
        old(graph).node_total() + 2 * tickets@.len() < CAPACITY_LIMIT as nat,
        old(graph).tickets().len() + tickets@.len() < CAPACITY_LIMIT as nat,
    ensures
        final(graph).wf(),
        final(graph).ids_ok(),
        final(graph).tickets() == tickets_after(old(graph).tickets(), views(tickets@)),
        final(graph).code_set() == codes_after(
            old(graph).code_set(),
            old(graph).tickets(),
            views(tickets@),
        ),
        forall|c: Seq<char>|
            old(graph).node_of(c).is_some() ==> final(graph).node_of(c) == old(graph).node_of(c),
        forall|h: usize| old(graph).has_handle(h) ==> final(graph).has_handle(h),
{
    let ghost old_ts = old(graph).tickets();
    let ghost old_cs = old(graph).code_set();
    let ghost old_nt = old(graph).node_total();
    let ghost bv = views(tickets@);
    let n = tickets.len();
    proof {
        assert(bv.skip(0) =~= bv);
    }
    let mut idx: usize = 0;
    while idx < n
        invariant
            graph.wf(),
            graph.ids_ok(),
            n == tickets@.len(),
            bv == views(tickets@),
            0 <= idx <= n,
            tickets_after(old_ts, bv) == tickets_after(graph.tickets(), bv.skip(idx as int)),
            codes_after(old_cs, old_ts, bv) == codes_after(
                graph.code_set(),
                graph.tickets(),
                bv.skip(idx as int),
            ),
            graph.tickets().len() <= old_ts.len() + idx,
            graph.node_total() <= old_nt + 2 * idx,
            forall|c: Seq<char>|
                old(graph).node_of(c).is_some() ==> graph.node_of(c) == old(graph).node_of(c),
            forall|h: usize| old(graph).has_handle(h) ==> graph.has_handle(h),
            old_nt + 2 * tickets@.len() < CAPACITY_LIMIT as nat,
            old_ts.len() + tickets@.len() < CAPACITY_LIMIT as nat,
        decreases n - idx,
    {
        let ghost pre = *graph;
        let t = tickets[idx].clone();
        proof {
            assert(t@ == bv[idx as int]);
            assert(bv.skip(idx as int)[0] == bv[idx as int]);
            assert(bv.skip(idx as int).drop_first() =~= bv.skip(idx as int + 1));
        }
        if !graph.contains_ticket(&t) {
            proof {
                graph.lemma_seen_iff_indexed(t.id@);
                assert(!has_id(graph.tickets(), t@.id));
            }
            let id = t.id.clone();
            let from = graph.add_node_if_needed(&t.departure_code);
            let to = graph.add_node_if_needed(&t.arrival_code);
            proof {
                if t.departure_code@ == t.arrival_code@ {
                    assert(graph.node_of(t.departure_code@) == Some(from));
                }
            }
            let ghost with_nodes = *graph;
            graph.add_ticket_edge(from, to, t);
            let ghost with_edge = *graph;
            graph.set_ticket_seen(id);
            proof {
                TicketGraph::lemma_ids_ok_extend(with_nodes, with_edge, *graph, bv[idx as int]);
                assert(graph.tickets() =~= pre.tickets().push(bv[idx as int]));
                assert(graph.code_set() =~= pre.code_set().insert(bv[idx as int].origin).insert(
                    bv[idx as int].dest,
                ));
            }
        } else {
            proof {
                graph.lemma_seen_iff_indexed(t.id@);
                assert(has_id(graph.tickets(), bv[idx as int].id));
            }
        }
        idx = idx + 1;
    }
    proof {
        assert(bv.skip(n as int) =~= Seq::<TicketView>::empty());
    }
}

impl NaiveStorage {
    /// Whether the lock was set up to protect the store's invariant.
    pub closed spec fn wf(self) -> bool {
        self.graph.pred() == (StoreInv {  })
    }

    /// A store holding one empty ticket graph.
    pub fn new() -> (s: Self)
        ensures
            s.wf(),
    {
        let g = TicketGraph::new();
        NaiveStorage { graph: RwLock::new(g, Ghost(StoreInv {  })) }
    }

    /// Inserts a batch under the exclusive write lock: every record whose
    /// identifier is new becomes exactly one edge and is marked seen;
    /// re-submitted identifiers are silently dropped. A batch that would
    /// overflow the index's capacity is refused whole.
    pub fn insert_tickets(&self, tickets: Vec<Ticket>)
        requires
            self.wf(),
    {
        let (mut g, handle) = self.graph.acquire_write();
        let nodes = g.node_count();
        let edges = g.edge_count();
        let n = tickets.len();
        if (nodes as u128) + 2 * (n as u128) < (CAPACITY_LIMIT as u128) && (edges as u128) + (
        n as u128) < (CAPACITY_LIMIT as u128) {
            insert_all(&mut g, tickets);
        }
        handle.release_write(g);
    }

    /// Runs a search under a shared read lock: the result is exact for the
    /// consistent graph state the lock admitted, and holds no duplicate
    /// solutions.
    pub fn search(&self, params: &SearchParams) -> (r: Solutions)
        requires
            self.wf(),
        ensures
            exists|g: TicketGraph|
                (#[trigger] g.wf()) && g.ids_ok() && search_ok(g.tickets(), params@, r@),
            r@.no_duplicates(),
    {
        let read_handle = self.graph.acquire_read();
        let g = read_handle.borrow();
        let r = crate::search::search(g, params);
        read_handle.release_read();
        r
    }
}

/// Identifiers only accumulate: an identifier present before an insertion
/// is still present after it.
proof fn lemma_ids_monotone(ts: Seq<TicketView>, batch: Seq<TicketView>, id: Seq<char>)
    requires
        has_id(ts, id),
    ensures
        has_id(tickets_after(ts, batch), id),
    decreases batch.len(),
{
    if batch.len() > 0 {
        if has_id(ts, batch[0].id) {
            lemma_ids_monotone(ts, batch.drop_first(), id);
        } else {
            let i = choose|i: int| 0 <= i < ts.len() && (#[trigger] ts[i]).id == id;
            assert(ts.push(batch[0])[i].id == id);
            assert(has_id(ts.push(batch[0]), id));
            lemma_ids_monotone(ts.push(batch[0]), batch.drop_first(), id);
        }
    }
}

/// After a batch is inserted, every identifier of the batch is present.
proof fn lemma_batch_ids_present(ts: Seq<TicketView>, batch: Seq<TicketView>)
    ensures
        forall|m: int|
            0 <= m < batch.len() ==> has_id(tickets_after(ts, batch), (#[trigger] batch[m]).id),
    decreases batch.len(),
{
    if batch.len() > 0 {
        let ts2 = if has_id(ts, batch[0].id) {
            ts
        } else {
            ts.push(batch[0])
        };
        if !has_id(ts, batch[0].id) {
            assert(ts.push(batch[0])[ts.len() as int].id == batch[0].id);
        }
        assert(has_id(ts2, batch[0].id));
        lemma_ids_monotone(ts2, batch.drop_first(), batch[0].id);
        lemma_batch_ids_present(ts2, batch.drop_first());
        assert(tickets_after(ts, batch) == tickets_after(ts2, batch.drop_first()));
        assert forall|m: int|
            0 <= m < batch.len() implies has_id(
            tickets_after(ts, batch),
            (#[trigger] batch[m]).id,
        ) by {
            if m > 0 {
                assert(batch.drop_first()[m - 1] == batch[m]);
            }
        }
    }
}

/// A batch whose identifiers are all already present inserts nothing.
proof fn lemma_insert_all_seen(ts: Seq<TicketView>, batch: Seq<TicketView>)
    requires
        forall|m: int| 0 <= m < batch.len() ==> has_id(ts, (#[trigger] batch[m]).id),
    ensures
        tickets_after(ts, batch) == ts,
    decreases batch.len(),
{
    if batch.len() > 0 {
        assert(has_id(ts, batch[0].id));
        assert forall|m: int|
            0 <= m < batch.drop_first().len() implies has_id(
            ts,
            (#[trigger] batch.drop_first()[m]).id,
        ) by {
            assert(batch.drop_first()[m] == batch[m + 1]);
        }
        lemma_insert_all_seen(ts, batch.drop_first());
    }
}

/// Insertion is idempotent: inserting the same batch a second time leaves
/// the indexed tickets exactly as they were, so in particular the edge
/// count does not change.
pub proof fn lemma_insert_idempotent(ts: Seq<TicketView>, batch: Seq<TicketView>)
    ensures
        tickets_after(tickets_after(ts, batch), batch) == tickets_after(ts, batch),
{
    lemma_batch_ids_present(ts, batch);
    lemma_insert_all_seen(tickets_after(ts, batch), batch);
}

} // verus!
