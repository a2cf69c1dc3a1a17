//! The ticket graph: a directed multigraph whose nodes are location codes
//! and whose edges are tickets. Adjacency lives in a petgraph stable graph;
//! the tickets themselves, the code-to-node index and the seen-set are held
//! beside it and tied to it by the well-formedness invariant [`TicketGraph::wf`].

use vstd::prelude::*;
use vstd::multiset::Multiset;

use crate::ticket::{Code, Id, Ticket, TicketView};

use petgraph::prelude::NodeIndex;
use petgraph::stable_graph::StableGraph;
use petgraph::visit::EdgeRef;
use petgraph::Directed;
use petgraph::Direction;

verus! {

/// Node and edge indices of the adjacency store are `u32`-backed, so the
/// graph refuses to grow past this many nodes or edges.
pub const CAPACITY_LIMIT: usize = 0xFFFF_FFFE;

#[verifier::external_type_specification]
#[verifier::external_body]
#[verifier::reject_recursive_types(N)]
#[verifier::reject_recursive_types(E)]
#[verifier::reject_recursive_types(Ty)]
#[verifier::reject_recursive_types(Ix)]
pub struct ExStableGraph<N, E, Ty, Ix>(StableGraph<N, E, Ty, Ix>);

#[verifier::external_type_specification]
#[verifier::external_body]
pub struct ExDirected(Directed);

/// The adjacency store. Node weights carry nothing; an edge's weight is the
/// position of its ticket in the owning [`TicketGraph`]'s edge list.
pub type Adjacency = StableGraph<(), usize, Directed, u32>;

/// The indices of the nodes present in `g`, each as handed out by
/// petgraph's `add_node`.
pub uninterp spec fn adj_nodes(g: Adjacency) -> Set<usize>;

/// The edges present in `g`, with multiplicity (parallel edges are kept):
/// one (source index, target index, weight) triple per edge.
pub uninterp spec fn adj_edges(g: Adjacency) -> Multiset<(usize, usize, usize)>;

/// Relies on petgraph's `StableGraph::with_capacity`: a fresh graph holds
/// no nodes and no edges.
#[verifier::external_body]
fn adj_new() -> (g: Adjacency)
    ensures
        adj_nodes(g) == Set::<usize>::empty(),
        adj_edges(g) == Multiset::<(usize, usize, usize)>::empty(),
{
    StableGraph::with_capacity(0, 0)
}

/// Relies on petgraph's `StableGraph::add_node`: it returns the index of a
/// new node, distinct from every node present, and touches no edge. It can
/// only panic when the index type is exhausted, which the bound on the node
/// count rules out.
#[verifier::external_body]
fn adj_add_node(g: &mut Adjacency) -> (n: usize)
    requires
        adj_nodes(*old(g)).finite(),
        adj_nodes(*old(g)).len() < CAPACITY_LIMIT as nat,
    ensures
        !adj_nodes(*old(g)).contains(n),
        adj_nodes(*final(g)) == adj_nodes(*old(g)).insert(n),
        adj_edges(*final(g)) == adj_edges(*old(g)),
{
    g.add_node(()).index()
}

/// Relies on petgraph's `StableGraph::add_edge`: it adds one edge from `a`
/// to `b` carrying `w`, keeping parallel edges. It panics only when an
/// endpoint is absent or the edge index type is exhausted; the requires rule
/// both out.
#[verifier::external_body]
fn adj_add_edge(g: &mut Adjacency, a: usize, b: usize, w: usize)
    requires
        adj_nodes(*old(g)).contains(a),
        adj_nodes(*old(g)).contains(b),
        adj_edges(*old(g)).len() < CAPACITY_LIMIT as nat,
    ensures
        adj_nodes(*final(g)) == adj_nodes(*old(g)),
        adj_edges(*final(g)) == adj_edges(*old(g)).insert((a, b, w)),
{
    g.add_edge(NodeIndex::new(a), NodeIndex::new(b), w);
}

/// Relies on petgraph's `StableGraph::edges_directed` with
/// `Direction::Outgoing`: it yields exactly the edges whose source is `a`,
/// each as a (target index, weight) pair, in an unspecified order.
#[verifier::external_body]
fn adj_outgoing(g: &Adjacency, a: usize) -> (v: Vec<(usize, usize)>)
    requires
        adj_nodes(*g).contains(a),
    ensures
        forall|t: usize, w: usize|
            #[trigger] v@.to_multiset().count((t, w)) == adj_edges(*g).count((a, t, w)),
{
    g.edges_directed(NodeIndex::new(a), Direction::Outgoing).map(
        |e| (e.target().index(), *e.weight()),
    ).collect()
}

/// The payload carried on one edge: the ticket's identity, times and price.
/// The endpoints live in the graph structure itself.
#[derive(Debug)]
pub struct TicketEdge {
    pub id: Id,
    pub departure_time: i64,
    pub arrival_time: i64,
    pub price: u64,
}

/// The mathematical value of a [`TicketEdge`].
pub ghost struct TicketEdgeView {
    pub id: Seq<char>,
    pub departure_time: int,
    pub arrival_time: int,
    pub price: int,
}

impl View for TicketEdge {
    type V = TicketEdgeView;

    open spec fn view(&self) -> TicketEdgeView {
        TicketEdgeView {
            id: self.id@,
            departure_time: self.departure_time as int,
            arrival_time: self.arrival_time as int,
            price: self.price as int,
        }
    }
}

impl Clone for TicketEdge {
    fn clone(&self) -> (r: Self)
        ensures
            r@ == self@,
    {
        TicketEdge {
            id: self.id.clone(),
            departure_time: self.departure_time,
            arrival_time: self.arrival_time,
            price: self.price,
        }
    }
}

impl From<Ticket> for TicketEdge {
    fn from(ticket: Ticket) -> (r: TicketEdge) {
        TicketEdge {
            id: ticket.id,
            departure_time: ticket.departure_time,
            arrival_time: ticket.arrival_time,
            price: ticket.price,
        }
    }
}

impl vstd::std_specs::convert::FromSpecImpl<Ticket> for TicketEdge {
    open spec fn obeys_from_spec() -> bool {
        true
    }

    open spec fn from_spec(ticket: Ticket) -> TicketEdge {
        TicketEdge {
            id: ticket.id,
            departure_time: ticket.departure_time,
            arrival_time: ticket.arrival_time,
            price: ticket.price,
        }
    }
}

/// The edge payload a ticket carries.
pub open spec fn edge_of(t: TicketView) -> TicketEdgeView {
    TicketEdgeView {
        id: t.id,
        departure_time: t.departure_time,
        arrival_time: t.arrival_time,
        price: t.price,
    }
}

/// One entry of an outgoing-edge listing for `node` is justified: some
/// indexed ticket leaves `node`, lands on the entry's target handle and
/// carries the entry's payload.
pub open spec fn outgoing_entry_ok(g: TicketGraph, node: usize, e: (usize, TicketEdge)) -> bool {
    &&& (exists|i: int|
        0 <= i < g.tickets().len() && g.node_of((#[trigger] g.tickets()[i]).origin) == Some(node)
            && g.node_of(g.tickets()[i].dest) == Some(e.0) && e.1@ == edge_of(g.tickets()[i]))
    &&& g.has_handle(e.0)
}

/// The ticket at position `i` appears in the outgoing-edge listing `r`:
/// some entry lands on the ticket's destination handle and carries its
/// payload.
pub open spec fn outgoing_lists(g: TicketGraph, r: Seq<(usize, TicketEdge)>, i: int) -> bool {
    exists|k: int|
        0 <= k < r.len() && g.node_of(g.tickets()[i].dest) == Some((#[trigger] r[k]).0) && r[k].1@
            == edge_of(g.tickets()[i])
}

/// One stored edge: its endpoints' node handles and the full ticket.
struct EdgeRec {
    from: usize,
    to: usize,
    ticket: Ticket,
}

/// The first handle registered for `code`, if any.
pub open spec fn lookup(s: Seq<(Code, usize)>, code: Seq<char>) -> Option<usize>
    decreases s.len(),
{
    if s.len() == 0 {
        None
    } else if s[0].0@ == code {
        Some(s[0].1)
    } else {
        lookup(s.drop_first(), code)
    }
}

/// A lookup succeeds exactly when some entry bears the code, and then it
/// returns a handle of such an entry.
proof fn lemma_lookup_some(s: Seq<(Code, usize)>, code: Seq<char>)
    ensures
        lookup(s, code).is_some() <==> exists|k: int| 0 <= k < s.len() && s[k].0@ == code,
        lookup(s, code).is_some() ==> exists|k: int|
            0 <= k < s.len() && s[k].0@ == code && s[k].1 == lookup(s, code).unwrap(),
    decreases s.len(),
{
    if s.len() > 0 && s[0].0@ != code {
        lemma_lookup_some(s.drop_first(), code);
        if lookup(s, code).is_some() {
            let k = choose|k: int|
                0 <= k < s.drop_first().len() && s.drop_first()[k].0@ == code && s.drop_first()[k].1
                    == lookup(s.drop_first(), code).unwrap();
            assert(s[k + 1].0@ == code && s[k + 1].1 == lookup(s, code).unwrap());
        }
        if exists|k: int| 0 <= k < s.len() && s[k].0@ == code {
            let k = choose|k: int| 0 <= k < s.len() && s[k].0@ == code;
            assert(s.drop_first()[k - 1].0@ == code);
        }
    }
}

/// Appending an entry changes no lookup that already succeeded, and serves
/// exactly the new code among those that failed.
proof fn lemma_lookup_push(s: Seq<(Code, usize)>, code: Seq<char>, p: (Code, usize))
    ensures
        lookup(s, code).is_some() ==> lookup(s.push(p), code) == lookup(s, code),
        lookup(s, code).is_none() && p.0@ == code ==> lookup(s.push(p), code) == Some(p.1),
        lookup(s, code).is_none() && p.0@ != code ==> lookup(s.push(p), code) == None::<usize>,
    decreases s.len(),
{
    if s.len() == 0 {
        assert(s.push(p)[0] == p);
        assert(s.push(p).len() == 1);
        assert(s.push(p).drop_first() =~= Seq::<(Code, usize)>::empty());
        assert(lookup(Seq::<(Code, usize)>::empty(), code) == None::<usize>);
    } else {
        assert(s.push(p)[0] == s[0]);
        assert(s.push(p).drop_first() =~= s.drop_first().push(p));
        lemma_lookup_push(s.drop_first(), code, p);
        if s[0].0@ == code {
            assert(lookup(s, code) == Some(s[0].1));
            assert(lookup(s.push(p), code) == Some(s[0].1));
        } else {
            assert(lookup(s, code) == lookup(s.drop_first(), code));
            assert(lookup(s.push(p), code) == lookup(s.drop_first().push(p), code));
        }
    }
}

/// A directed multigraph of tickets: nodes are location codes, created
/// lazily and never removed; edges are tickets, deduplicated by identifier
/// through the seen-set.
pub struct TicketGraph {
    graph: Adjacency,
    edges: Vec<EdgeRec>,
    code_to_indx: Vec<(Code, usize)>,
    tickets_seen: Vec<Id>,
}

impl TicketGraph {
    /// The tickets indexed so far, in insertion order.
    pub closed spec fn tickets(self) -> Seq<TicketView> {
        self.edges@.map_values(|e: EdgeRec| e.ticket@)
    }

    /// The identifiers marked as seen, in the order they were first marked.
    pub closed spec fn seen(self) -> Seq<Seq<char>> {
        self.tickets_seen@.map_values(|id: Id| id@)
    }

    /// The location codes that own a node.
    pub closed spec fn code_set(self) -> Set<Seq<char>> {
        self.code_to_indx@.map_values(|p: (Code, usize)| p.0@).to_set()
    }

    /// How many nodes the graph holds.
    pub closed spec fn node_total(self) -> nat {
        self.code_to_indx@.len()
    }

    /// The node handle registered for a code, if any.
    pub closed spec fn node_of(self, code: Seq<char>) -> Option<usize> {
        lookup(self.code_to_indx@, code)
    }

    /// Whether `h` is the handle of a node present in the adjacency store.
    pub closed spec fn has_handle(self, h: usize) -> bool {
        adj_nodes(self.graph).contains(h)
    }

    /// Internal consistency: codes and handles are registered at most once,
    /// every registered handle is a node, the adjacency store carries
    /// exactly one edge per stored ticket (weighted by its position), and
    /// every edge's endpoints are registered under the ticket's own codes.
    pub closed spec fn wf(self) -> bool {
        let m = self.code_to_indx@;
        let es = self.edges@;
        &&& (forall|k1: int, k2: int|
            0 <= k1 < k2 < m.len() ==> m[k1].0@ != m[k2].0@ && m[k1].1 != m[k2].1)
        &&& (forall|k: int| 0 <= k < m.len() ==> adj_nodes(self.graph).contains(#[trigger] m[k].1))
        &&& adj_nodes(self.graph).finite()
        &&& adj_nodes(self.graph).len() == m.len()
        &&& (forall|a: usize, t: usize, w: usize|
            #[trigger] adj_edges(self.graph).count((a, t, w)) == if 0 <= w < es.len() && es[w as int].from
                == a && es[w as int].to == t {
                1nat
            } else {
                0nat
            })
        &&& adj_edges(self.graph).len() == es.len()
        &&& (forall|i: int|
            0 <= i < es.len() ==> lookup(m, #[trigger] es[i].ticket@.origin) == Some(es[i].from)
                && lookup(m, es[i].ticket@.dest) == Some(es[i].to))
    }

    /// The seen-set discipline: the identifiers marked seen are exactly the
    /// indexed tickets' identifiers, in order and without repetition.
    pub closed spec fn ids_ok(self) -> bool {
        &&& self.seen() == self.tickets().map_values(|t: TicketView| t.id)
        &&& self.seen().no_duplicates()
    }

    /// Creates an empty ticket graph.
    pub fn new() -> (g: Self)
        ensures
            g.wf(),
            g.ids_ok(),
            g.tickets() == Seq::<TicketView>::empty(),
            g.seen() == Seq::<Seq<char>>::empty(),
            g.code_set() == Set::<Seq<char>>::empty(),
            g.node_total() == 0,
            forall|c: Seq<char>| g.node_of(c) == None::<usize>,
    {
        let g = TicketGraph {
            graph: adj_new(),
            edges: Vec::new(),
            code_to_indx: Vec::new(),
            tickets_seen: Vec::new(),
        };
        proof {
            assert(g.tickets() =~= Seq::<TicketView>::empty());
            assert(g.seen() =~= Seq::<Seq<char>>::empty());
            assert(g.tickets().map_values(|t: TicketView| t.id) =~= Seq::<Seq<char>>::empty());
            assert(g.code_to_indx@.map_values(|p: (Code, usize)| p.0@) =~= Seq::<Seq<char>>::empty());
            assert(g.code_set() =~= Set::<Seq<char>>::empty());
        }
        g
    }

    /// Looks `code` up in the node index, without creating anything.
    pub fn get_node_indx_by_code(&self, code: &Code) -> (r: Option<usize>)
        requires
            self.wf(),
        ensures
            r == self.node_of(code@),
            r.is_some() ==> self.has_handle(r.unwrap()),
    {
        let m_len = self.code_to_indx.len();
        proof {
            assert(self.code_to_indx@.skip(0) =~= self.code_to_indx@);
        }
        let mut k: usize = 0;
        while k < m_len
            invariant
                self.wf(),
                m_len == self.code_to_indx@.len(),
                0 <= k <= m_len,
                lookup(self.code_to_indx@, code@) == lookup(
                    self.code_to_indx@.skip(k as int),
                    code@,
                ),
            decreases m_len - k,
        {
            let entry_code = &self.code_to_indx[k].0;
            proof {
                assert(self.code_to_indx@.skip(k as int)[0] == self.code_to_indx@[k as int]);
            }
            if entry_code == code {
                return Some(self.code_to_indx[k].1);
            }
            proof {
                assert(self.code_to_indx@.skip(k as int).drop_first() =~= self.code_to_indx@.skip(
                    k as int + 1,
                ));
            }
            k = k + 1;
        }
        proof {
            assert(self.code_to_indx@.skip(m_len as int) =~= Seq::<(Code, usize)>::empty());
        }
        None
    }

    /// Returns the node handle registered for `node_code`, creating and
    /// registering a fresh node when the code is new.
    pub fn add_node_if_needed(&mut self, node_code: &Code) -> (h: usize)
        requires
            old(self).wf(),
            old(self).node_total() + 1 < CAPACITY_LIMIT as nat,
        ensures
            final(self).wf(),
            final(self).node_of(node_code@) == Some(h),
            final(self).has_handle(h),
            final(self).tickets() == old(self).tickets(),
            final(self).seen() == old(self).seen(),
            old(self).ids_ok() ==> final(self).ids_ok(),
            forall|c: Seq<char>| c != node_code@ ==> final(self).node_of(c) == old(self).node_of(c),
            final(self).code_set() == old(self).code_set().insert(node_code@),
            old(self).node_of(node_code@).is_some() ==> *final(self) == *old(self)
                && old(self).node_of(node_code@) == Some(h),
            old(self).node_of(node_code@).is_none() ==> final(self).node_total() == old(
                self,
            ).node_total() + 1,
            final(self).node_total() <= old(self).node_total() + 1,
            forall|h2: usize| old(self).has_handle(h2) ==> final(self).has_handle(h2),
    {
        let existing = self.get_node_indx_by_code(node_code);
        match existing {
            Some(h) => {
                proof {
                    let m = self.code_to_indx@;
                    lemma_lookup_some(m, node_code@);
                    let k = choose|k: int| 0 <= k < m.len() && m[k].0@ == node_code@;
                    let codes = m.map_values(|p: (Code, usize)| p.0@);
                    assert(codes[k] == node_code@);
                    assert(codes.contains(node_code@));
                    assert(self.code_set().insert(node_code@) =~= self.code_set());
                }
                h
            },
            None => {
                let n = adj_add_node(&mut self.graph);
                self.code_to_indx.push((node_code.clone(), n));
                proof {
                    let m = old(self).code_to_indx@;
                    let p = (self.code_to_indx@.last().0, n);
                    assert(self.code_to_indx@ =~= m.push(self.code_to_indx@.last()));
                    let m2 = self.code_to_indx@;
                    lemma_lookup_some(m, node_code@);
                    // no old entry bears the new code or the new handle
                    assert(forall|k: int| 0 <= k < m.len() ==> (#[trigger] m[k]).0@ != node_code@);
                    assert(forall|k: int|
                        0 <= k < m.len() ==> adj_nodes(old(self).graph).contains(
                            #[trigger] m[k].1,
                        ));
                    assert(forall|k: int| 0 <= k < m.len() ==> (#[trigger] m[k]).1 != n);
                    assert forall|c: Seq<char>| c != node_code@ implies #[trigger] lookup(m2, c)
                        == lookup(m, c) by {
                        lemma_lookup_push(m, c, m2.last());
                    }
                    lemma_lookup_push(m, node_code@, m2.last());
                    assert(lookup(m2, node_code@) == Some(n));
                    // every stored edge still finds its endpoints
                    assert forall|i: int| 0 <= i < self.edges@.len() implies lookup(
                        m2,
                        #[trigger] self.edges@[i].ticket@.origin,
                    ) == Some(self.edges@[i].from) && lookup(m2, self.edges@[i].ticket@.dest)
                        == Some(self.edges@[i].to) by {
                        lemma_lookup_push(m, self.edges@[i].ticket@.origin, m2.last());
                        lemma_lookup_push(m, self.edges@[i].ticket@.dest, m2.last());
                    }
                    // the code set gains exactly the new code
                    let codes = m.map_values(|p2: (Code, usize)| p2.0@);
                    let codes2 = m2.map_values(|p2: (Code, usize)| p2.0@);
                    assert(codes2 =~= codes + seq![node_code@]);
                    Seq::<Seq<char>>::lemma_to_set_insert_commutes(codes, node_code@);
                    assert(self.code_set() =~= old(self).code_set().insert(node_code@));
                    assert(self.tickets() =~= old(self).tickets());
                    assert(self.seen() =~= old(self).seen());
                }
                n
            },
        }
    }

    /// Scans the seen-set for an identifier.
    fn seen_contains(&self, id: &Id) -> (b: bool)
        ensures
            b == self.seen().contains(id@),
    {
        let n = self.tickets_seen.len();
        let mut k: usize = 0;
        while k < n
            invariant
                n == self.tickets_seen@.len(),
                0 <= k <= n,
                forall|k2: int| 0 <= k2 < k ==> (#[trigger] self.tickets_seen@[k2])@ != id@,
            decreases n - k,
        {
            if self.tickets_seen[k] == *id {
                proof {
                    assert(self.seen()[k as int] == id@);
                }
                return true;
            }
            k = k + 1;
        }
        proof {
            assert forall|i: int| 0 <= i < self.seen().len() implies #[trigger] self.seen()[i]
                != id@ by {
                assert(self.seen()[i] == self.tickets_seen@[i]@);
            }
        }
        false
    }

    /// Membership test against the seen-set. No side effect.
    pub fn contains_ticket(&self, ticket: &Ticket) -> (b: bool)
        ensures
            b == self.seen().contains(ticket.id@),
    {
        self.seen_contains(&ticket.id)
    }

    /// Marks an identifier as seen. Idempotent: marking an identifier that
    /// is already seen changes nothing.
    pub fn set_ticket_seen(&mut self, id: Id)
        ensures
            final(self).seen() == if old(self).seen().contains(id@) {
                old(self).seen()
            } else {
                old(self).seen().push(id@)
            },
            final(self).tickets() == old(self).tickets(),
            final(self).code_set() == old(self).code_set(),
            final(self).node_total() == old(self).node_total(),
            forall|c: Seq<char>| final(self).node_of(c) == old(self).node_of(c),
            forall|h: usize| final(self).has_handle(h) == old(self).has_handle(h),
            final(self).wf() == old(self).wf(),
    {
        if !self.seen_contains(&id) {
            let ghost id_view = id@;
            self.tickets_seen.push(id);
            proof {
                assert(self.seen() =~= old(self).seen().push(id_view));
            }
        }
    }

    /// Appends one parallel edge carrying `ticket` between two registered
    /// nodes. The seen-set is not consulted: that is the insertion
    /// protocol's duty (see the concurrent store).
    pub fn add_ticket_edge(&mut self, from: usize, to: usize, ticket: Ticket)
        requires
            old(self).wf(),
            old(self).node_of(ticket.departure_code@) == Some(from),
            old(self).node_of(ticket.arrival_code@) == Some(to),
            old(self).tickets().len() + 1 < CAPACITY_LIMIT as nat,
        ensures
            final(self).wf(),
            final(self).tickets() == old(self).tickets().push(ticket@),
            final(self).seen() == old(self).seen(),
            final(self).code_set() == old(self).code_set(),
            final(self).node_total() == old(self).node_total(),
            forall|c: Seq<char>| final(self).node_of(c) == old(self).node_of(c),
            forall|h: usize| final(self).has_handle(h) == old(self).has_handle(h),
    {
        proof {
            broadcast use vstd::multiset::group_multiset_axioms;

            let m = self.code_to_indx@;
            lemma_lookup_some(m, ticket.departure_code@);
            lemma_lookup_some(m, ticket.arrival_code@);
        }
        let w = self.edges.len();
        adj_add_edge(&mut self.graph, from, to, w);
        let ghost tv = ticket@;
        self.edges.push(EdgeRec { from, to, ticket });
        proof {
            broadcast use vstd::multiset::group_multiset_axioms;

            let es = old(self).edges@;
            let es2 = self.edges@;
            assert(es2 =~= es.push(es2.last()));
            assert(es2.last().ticket@ == tv);
            assert forall|a: usize, t: usize, w2: usize| #[trigger] adj_edges(
                self.graph,
            ).count((a, t, w2)) == if 0 <= w2 < es2.len() && es2[w2 as int].from == a
                && es2[w2 as int].to == t {
                1nat
            } else {
                0nat
            } by {
                assert(adj_edges(old(self).graph).count((a, t, w2)) == if 0 <= w2 < es.len()
                    && es[w2 as int].from == a && es[w2 as int].to == t {
                    1nat
                } else {
                    0nat
                });
            }
            assert(self.tickets() =~= old(self).tickets().push(tv));
        }
    }

    /// All edges leaving `node`, each as (target handle, edge payload), in
    /// no guaranteed order: exactly one entry per indexed ticket whose
    /// origin owns `node`.
    #[verifier::rlimit(100)]
    #[verifier::spinoff_prover]
    pub fn outgoing_edges(&self, node: usize) -> (r: Vec<(usize, TicketEdge)>)
        requires
            self.wf(),
            self.has_handle(node),
        ensures
            forall|k: int| 0 <= k < r@.len() ==> outgoing_entry_ok(*self, node, #[trigger] r@[k]),
            forall|i: int|
                0 <= i < self.tickets().len() && self.node_of(
                    (#[trigger] self.tickets()[i]).origin,
                ) == Some(node) ==> outgoing_lists(*self, r@, i),
            self.ids_ok() ==> (forall|k1: int, k2: int|
                0 <= k1 < k2 < r@.len() ==> (#[trigger] r@[k1]).1@.id != (#[trigger] r@[k2]).1@.id),
    {
        let raw = adj_outgoing(&self.graph, node);
        let mut r: Vec<(usize, TicketEdge)> = Vec::new();
        let mut k: usize = 0;
        while k < raw.len()
            invariant
                self.wf(),
                forall|t: usize, w: usize|
                    #[trigger] raw@.to_multiset().count((t, w)) == adj_edges(self.graph).count(
                        (node, t, w),
                    ),
                0 <= k <= raw@.len(),
                r@.len() == k,
                forall|k2: int|
                    0 <= k2 < k ==> (#[trigger] r@[k2]).0 == raw@[k2].0 && raw@[k2].1
                        < self.edges@.len() && self.edges@[raw@[k2].1 as int].from == node
                        && self.edges@[raw@[k2].1 as int].to == raw@[k2].0 && r@[k2].1@ == edge_of(
                        self.edges@[raw@[k2].1 as int].ticket@,
                    ),
            decreases raw@.len() - k,
        {
            let (t, w) = raw[k];
            proof {
                broadcast use vstd::seq_lib::group_to_multiset_ensures;

                assert(raw@[k as int] == (t, w));
                assert(raw@.contains((t, w)));
                assert(raw@.to_multiset().count((t, w)) > 0);
                assert(adj_edges(self.graph).count((node, t, w)) > 0);
            }
            let rec = &self.edges[w];
            let te = TicketEdge::from(rec.ticket.clone());
            r.push((t, te));
            k = k + 1;
        }
        let es_len = self.edges.len();
        proof {
            let m = self.code_to_indx@;
            let es = self.edges@;
            assert(es.len() == es_len);
            // every emitted pair is justified by the ticket at its weight
            assert forall|k2: int| 0 <= k2 < r@.len() implies outgoing_entry_ok(
                *self,
                node,
                #[trigger] r@[k2],
            ) by {
                assert(k == raw@.len());
                assert(r@.len() == k);
                assert(0 <= k2 < k);
                assert(r@[k2].0 == raw@[k2].0);
                assert(raw@[k2].1 < es.len());
                assert(es[raw@[k2].1 as int].from == node);
                assert(es[raw@[k2].1 as int].to == raw@[k2].0);
                assert(r@[k2].1@ == edge_of(es[raw@[k2].1 as int].ticket@));
                let i = raw@[k2].1 as int;
                assert(self.tickets()[i] == es[i].ticket@);
                assert(lookup(m, es[i].ticket@.origin) == Some(es[i].from));
                assert(lookup(m, es[i].ticket@.dest) == Some(es[i].to));
                lemma_lookup_some(m, es[i].ticket@.dest);
                assert(0 <= i < self.tickets().len() && self.node_of(self.tickets()[i].origin)
                    == Some(node) && self.node_of(self.tickets()[i].dest) == Some(r@[k2].0)
                    && r@[k2].1@ == edge_of(self.tickets()[i]));
                assert(outgoing_entry_ok(*self, node, r@[k2]));
            }
            // every ticket leaving `node` is emitted
            assert forall|i: int|
                0 <= i < self.tickets().len() && self.node_of(
                    (#[trigger] self.tickets()[i]).origin,
                ) == Some(node) implies outgoing_lists(*self, r@, i) by {
                broadcast use vstd::seq_lib::group_to_multiset_ensures;

                assert(k == raw@.len());
                assert(r@.len() == k);
                assert(0 <= i < es_len);
                assert(self.tickets()[i] == es[i].ticket@);
                assert(lookup(m, es[i].ticket@.origin) == Some(es[i].from));
                assert(es[i].from == node);
                let pair = (es[i].to, i as usize);
                assert(adj_edges(self.graph).count((node, es[i].to, i as usize)) == 1nat);
                assert(raw@.to_multiset().count(pair) > 0);
                assert(raw@.contains(pair));
                let k2 = choose|k2: int| 0 <= k2 < raw@.len() && raw@[k2] == pair;
                assert(r@[k2].0 == es[i].to);
                assert(r@[k2].1@ == edge_of(self.tickets()[i]));
                assert(outgoing_lists(*self, r@, i));
            }
            // under the seen-set discipline the listing holds one entry per
            // ticket: payload identifiers are pairwise distinct
            if self.ids_ok() {
                broadcast use vstd::seq_lib::group_to_multiset_ensures;

                self.lemma_ids_unique();
                assert forall|x: (usize, usize)| raw@.to_multiset().contains(x) implies raw@
                    .to_multiset().count(x) == 1 by {
                    let (t, w) = x;
                    assert(raw@.to_multiset().count((t, w)) == adj_edges(self.graph).count(
                        (node, t, w),
                    ));
                }
                raw@.lemma_multiset_has_no_duplicates_conv();
                assert forall|ka: int, kb: int| 0 <= ka < kb < r@.len() implies (
                #[trigger] r@[ka]).1@.id != (#[trigger] r@[kb]).1@.id by {
                    assert(r@[ka].1@ == edge_of(es[raw@[ka].1 as int].ticket@));
                    assert(r@[kb].1@ == edge_of(es[raw@[kb].1 as int].ticket@));
                    let wa = raw@[ka].1 as int;
                    let wb = raw@[kb].1 as int;
                    if r@[ka].1@.id == r@[kb].1@.id {
                        assert(self.tickets()[wa] == es[wa].ticket@);
                        assert(self.tickets()[wb] == es[wb].ticket@);
                        if wa < wb {
                            assert(self.tickets()[wa].id != self.tickets()[wb].id);
                        } else if wb < wa {
                            assert(self.tickets()[wb].id != self.tickets()[wa].id);
                        } else {
                            assert(raw@[ka] == (es[wa].to, raw@[ka].1));
                            assert(raw@[kb] == (es[wa].to, raw@[ka].1));
                            assert(raw@[ka] == raw@[kb]);
                        }
                        assert(false);
                    }
                }
            }
        }
        r
    }

    /// Every indexed ticket's endpoints are registered in the node index.
    pub proof fn lemma_edges_registered(self)
        requires
            self.wf(),
        ensures
            forall|i: int|
                0 <= i < self.tickets().len() ==> self.node_of(
                    (#[trigger] self.tickets()[i]).origin,
                ).is_some() && self.node_of(self.tickets()[i].dest).is_some(),
    {
        let es = self.edges@;
        assert forall|i: int|
            0 <= i < self.tickets().len() implies self.node_of(
            (#[trigger] self.tickets()[i]).origin,
        ).is_some() && self.node_of(self.tickets()[i].dest).is_some() by {
            assert(self.tickets()[i] == es[i].ticket@);
            assert(lookup(self.code_to_indx@, es[i].ticket@.origin) == Some(es[i].from));
            assert(lookup(self.code_to_indx@, es[i].ticket@.dest) == Some(es[i].to));
        }
    }

    /// Under the seen-set discipline an identifier is marked seen exactly
    /// when some indexed ticket bears it.
    pub proof fn lemma_seen_iff_indexed(self, id: Seq<char>)
        requires
            self.ids_ok(),
        ensures
            self.seen().contains(id) <==> exists|i: int|
                0 <= i < self.tickets().len() && (#[trigger] self.tickets()[i]).id == id,
    {
        let ids = self.tickets().map_values(|t: TicketView| t.id);
        if self.seen().contains(id) {
            let k = choose|k: int| 0 <= k < self.seen().len() && self.seen()[k] == id;
            assert(self.tickets()[k].id == id);
        }
        if exists|i: int| 0 <= i < self.tickets().len() && (#[trigger] self.tickets()[i]).id
            == id {
            let i = choose|i: int|
                0 <= i < self.tickets().len() && (#[trigger] self.tickets()[i]).id == id;
            assert(self.seen()[i] == id);
        }
    }

    /// Appending one unseen ticket and then marking its identifier keeps the
    /// seen-set discipline.
    pub proof fn lemma_ids_ok_extend(pre: TicketGraph, mid: TicketGraph, post: TicketGraph, t: TicketView)
        requires
            pre.ids_ok(),
            !pre.seen().contains(t.id),
            mid.tickets() == pre.tickets().push(t),
            mid.seen() == pre.seen(),
            post.tickets() == mid.tickets(),
            post.seen() == mid.seen().push(t.id),
        ensures
            post.ids_ok(),
    {
        let f = |tv: TicketView| tv.id;
        assert(post.tickets().map_values(f) =~= pre.tickets().map_values(f).push(t.id));
        assert(post.seen() =~= pre.seen().push(t.id));
        let sn = post.seen();
        assert forall|a: int, b: int|
            0 <= a < sn.len() && 0 <= b < sn.len() && a != b implies sn[a] != sn[b] by {
            if b == sn.len() - 1 {
                if sn[a] == t.id {
                    assert(pre.seen()[a] == t.id);
                    assert(pre.seen().contains(t.id));
                }
            } else if a == sn.len() - 1 {
                if sn[b] == t.id {
                    assert(pre.seen()[b] == t.id);
                    assert(pre.seen().contains(t.id));
                }
            } else {
                assert(pre.seen()[a] == sn[a] && pre.seen()[b] == sn[b]);
            }
        }
    }

    /// Each location code owns exactly one node: the node count equals the
    /// number of distinct codes.
    pub proof fn lemma_one_node_per_code(self)
        requires
            self.wf(),
        ensures
            self.node_total() == self.code_set().len(),
    {
        let codes = self.code_to_indx@.map_values(|p: (Code, usize)| p.0@);
        assert forall|a: int, b: int|
            0 <= a < codes.len() && 0 <= b < codes.len() && a != b implies codes[a] != codes[b] by {
            if a < b {
                assert(self.code_to_indx@[a].0@ != self.code_to_indx@[b].0@);
            } else {
                assert(self.code_to_indx@[b].0@ != self.code_to_indx@[a].0@);
            }
        }
        assert(codes.no_duplicates());
        codes.unique_seq_to_set();
    }

    /// A code owns a node exactly when it is in the code set.
    pub proof fn lemma_node_of_iff_code_set(self, c: Seq<char>)
        requires
            self.wf(),
        ensures
            self.node_of(c).is_some() <==> self.code_set().contains(c),
    {
        let m = self.code_to_indx@;
        let codes = m.map_values(|p: (Code, usize)| p.0@);
        lemma_lookup_some(m, c);
        if self.node_of(c).is_some() {
            let k = choose|k: int| 0 <= k < m.len() && m[k].0@ == c;
            assert(codes[k] == c);
            assert(codes.contains(c));
        }
        if self.code_set().contains(c) {
            let k = choose|k: int| 0 <= k < codes.len() && codes[k] == c;
            assert(m[k].0@ == c);
        }
    }

    /// Under the seen-set discipline, indexed tickets carry pairwise
    /// distinct identifiers.
    pub proof fn lemma_ids_unique(self)
        requires
            self.ids_ok(),
        ensures
            forall|a: int, b: int|
                0 <= a < b < self.tickets().len() ==> (#[trigger] self.tickets()[a]).id != (
                #[trigger] self.tickets()[b]).id,
    {
        assert forall|a: int, b: int|
            0 <= a < b < self.tickets().len() implies (#[trigger] self.tickets()[a]).id != (
        #[trigger] self.tickets()[b]).id by {
            assert(self.seen()[a] == self.tickets()[a].id);
            assert(self.seen()[b] == self.tickets()[b].id);
        }
    }

    /// Distinct codes never share a node handle.
    pub proof fn lemma_node_of_injective(self, c1: Seq<char>, c2: Seq<char>)
        requires
            self.wf(),
            self.node_of(c1).is_some(),
            self.node_of(c1) == self.node_of(c2),
        ensures
            c1 == c2,
    {
        let m = self.code_to_indx@;
        lemma_lookup_some(m, c1);
        lemma_lookup_some(m, c2);
        let k1 = choose|k: int| 0 <= k < m.len() && m[k].0@ == c1 && m[k].1 == lookup(m, c1).unwrap();
        let k2 = choose|k: int| 0 <= k < m.len() && m[k].0@ == c2 && m[k].1 == lookup(m, c2).unwrap();
        assert(m[k1].1 == m[k2].1);
        if k1 != k2 {
            assert(m[k1].1 != m[k2].1);
        }
    }

    /// How many nodes (distinct location codes) the graph holds.
    pub fn node_count(&self) -> (n: usize)
        ensures
            n == self.node_total(),
    {
        self.code_to_indx.len()
    }

    /// How many edges (indexed tickets) the graph holds.
    pub fn edge_count(&self) -> (n: usize)
        ensures
            n == self.tickets().len(),
    {
        self.edges.len()
    }
}

} // verus!
