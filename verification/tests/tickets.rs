use tickets_search::graph::TicketGraph;
use tickets_search::search::{search, SearchParams, Solution};
use tickets_search::storage::{insert_all, NaiveStorage};
use tickets_search::ticket::{Code, Id, Ticket};

fn tk(id: &str, from: &str, to: &str, dep: i64, arr: i64, price: u64) -> Ticket {
    Ticket {
        id: Id(id.to_string()),
        departure_code: Code(from.to_string()),
        arrival_code: Code(to.to_string()),
        departure_time: dep,
        arrival_time: arr,
        price,
    }
}

fn params(from: &str, to: &str, start: i64, end: i64) -> SearchParams {
    SearchParams {
        departure_code: Code(from.to_string()),
        arrival_code: Code(to.to_string()),
        departure_time_start: start,
        departure_time_end: end,
    }
}

fn has_solution(sols: &[Solution], first: &str, second: &str, price: u128) -> bool {
    sols.iter().any(|s| {
        s.ticket_ids.0 == Id(first.to_string()) && s.ticket_ids.1 == Id(second.to_string())
            && s.price == price
    })
}

// Times below are seconds since midnight: 10:00 is 36000, 12:00 is 43200,
// 15:00 is 54000, 15:01 is 54060, 20:00 is 72000, 20:01 is 72060.

#[test]
fn idempotent_insertion() {
    let mut g = TicketGraph::new();
    let batch = vec![
        tk("t1", "AAA", "BBB", 36000, 43200, 100),
        tk("t2", "BBB", "CCC", 54060, 61200, 50),
    ];
    insert_all(&mut g, batch);
    assert_eq!(g.edge_count(), 2);
    let again = vec![
        tk("t1", "AAA", "BBB", 36000, 43200, 100),
        tk("t2", "BBB", "CCC", 54060, 61200, 50),
    ];
    insert_all(&mut g, again);
    assert_eq!(g.edge_count(), 2);
    assert_eq!(g.node_count(), 3);
}

#[test]
fn duplicate_id_first_write_wins() {
    let mut g = TicketGraph::new();
    insert_all(&mut g, vec![tk("t1", "AAA", "BBB", 36000, 43200, 100)]);
    // same id, different fields: silently dropped
    insert_all(&mut g, vec![tk("t1", "AAA", "BBB", 36000, 43200, 999)]);
    insert_all(&mut g, vec![tk("t2", "BBB", "CCC", 54060, 61200, 50)]);
    assert_eq!(g.edge_count(), 2);
    let r = search(&g, &params("AAA", "CCC", 32400, 39600));
    assert_eq!(r.solutions.len(), 1);
    assert_eq!(r.solutions[0].price, 150u128);
}

#[test]
fn node_created_lazily_never_duplicated() {
    let mut g = TicketGraph::new();
    assert_eq!(g.node_count(), 0);
    insert_all(
        &mut g,
        vec![
            tk("t1", "AAA", "BBB", 36000, 43200, 100),
            tk("t2", "AAA", "CCC", 36000, 43200, 100),
        ],
    );
    // two tickets share the origin code: exactly one node for it
    assert_eq!(g.node_count(), 3);
}

#[test]
fn parallel_edges_are_kept() {
    let mut g = TicketGraph::new();
    insert_all(
        &mut g,
        vec![
            tk("t1", "AAA", "BBB", 36000, 43200, 100),
            tk("t2", "AAA", "BBB", 37000, 44000, 120),
        ],
    );
    assert_eq!(g.edge_count(), 2);
    assert_eq!(g.node_count(), 2);
}

#[test]
fn empty_batch_is_a_noop() {
    let mut g = TicketGraph::new();
    insert_all(&mut g, Vec::new());
    assert_eq!(g.edge_count(), 0);
    assert_eq!(g.node_count(), 0);
}

#[test]
fn concrete_scenario_one_connection() {
    let mut g = TicketGraph::new();
    insert_all(
        &mut g,
        vec![
            tk("t1", "AAA", "BBB", 36000, 43200, 100),
            // departs 15:01, strictly inside (arr + 3h, arr + 8h)
            tk("t2", "BBB", "CCC", 54060, 61200, 50),
        ],
    );
    let r = search(&g, &params("AAA", "CCC", 32400, 39600));
    assert_eq!(r.solutions.len(), 1);
    assert!(has_solution(&r.solutions, "t1", "t2", 150));
}

#[test]
fn concrete_scenario_no_connection() {
    let mut g = TicketGraph::new();
    insert_all(
        &mut g,
        vec![
            tk("t1", "AAA", "BBB", 36000, 43200, 100),
            // departs 20:01, after the 8-hour maximum wait (20:00)
            tk("t2", "BBB", "CCC", 72060, 79200, 50),
        ],
    );
    let r = search(&g, &params("AAA", "CCC", 32400, 39600));
    assert_eq!(r.solutions.len(), 0);
}

#[test]
fn direct_flight_is_never_a_first_leg() {
    let mut g = TicketGraph::new();
    insert_all(
        &mut g,
        vec![
            tk("t1", "AAA", "BBB", 36000, 43200, 100),
            tk("t2", "BBB", "CCC", 54060, 61200, 50),
            // a direct flight from origin to destination
            tk("t3", "AAA", "CCC", 36000, 43200, 10),
        ],
    );
    let r = search(&g, &params("AAA", "CCC", 32400, 39600));
    assert_eq!(r.solutions.len(), 1);
    assert!(has_solution(&r.solutions, "t1", "t2", 150));
}

#[test]
fn window_boundaries_are_inclusive() {
    let mut g = TicketGraph::new();
    insert_all(
        &mut g,
        vec![
            tk("at_start", "AAA", "BBB", 32400, 43200, 100),
            tk("at_end", "AAA", "BBB", 39600, 43200, 100),
            tk("before_start", "AAA", "BBB", 32399, 43200, 100),
            tk("after_end", "AAA", "BBB", 39601, 43200, 100),
            tk("leg2", "BBB", "CCC", 54060, 61200, 50),
        ],
    );
    let r = search(&g, &params("AAA", "CCC", 32400, 39600));
    assert_eq!(r.solutions.len(), 2);
    assert!(has_solution(&r.solutions, "at_start", "leg2", 150));
    assert!(has_solution(&r.solutions, "at_end", "leg2", 150));
}

#[test]
fn layover_boundaries_are_exclusive() {
    let mut g = TicketGraph::new();
    // first leg arrives at 12:00 (43200): layover window is (15:00, 20:00)
    insert_all(
        &mut g,
        vec![
            tk("t1", "AAA", "BBB", 36000, 43200, 100),
            tk("at_min", "BBB", "CCC", 54000, 61200, 50),
            tk("just_in_low", "BBB", "CCC", 54001, 61200, 50),
            tk("just_in_high", "BBB", "CCC", 71999, 79200, 50),
            tk("at_max", "BBB", "CCC", 72000, 79200, 50),
        ],
    );
    let r = search(&g, &params("AAA", "CCC", 32400, 39600));
    assert_eq!(r.solutions.len(), 2);
    assert!(has_solution(&r.solutions, "t1", "just_in_low", 150));
    assert!(has_solution(&r.solutions, "t1", "just_in_high", 150));
}

#[test]
fn unknown_endpoint_yields_empty_result() {
    let mut g = TicketGraph::new();
    insert_all(
        &mut g,
        vec![
            tk("t1", "AAA", "BBB", 36000, 43200, 100),
            tk("t2", "BBB", "CCC", 54060, 61200, 50),
        ],
    );
    let r = search(&g, &params("ZZZ", "CCC", 32400, 39600));
    assert_eq!(r.solutions.len(), 0);
    let r = search(&g, &params("AAA", "ZZZ", 32400, 39600));
    assert_eq!(r.solutions.len(), 0);
}

#[test]
fn inverted_window_yields_empty_result() {
    let mut g = TicketGraph::new();
    insert_all(
        &mut g,
        vec![
            tk("t1", "AAA", "BBB", 36000, 43200, 100),
            tk("t2", "BBB", "CCC", 54060, 61200, 50),
        ],
    );
    let r = search(&g, &params("AAA", "CCC", 39600, 32400));
    assert_eq!(r.solutions.len(), 0);
}

#[test]
fn empty_graph_search_is_empty() {
    let g = TicketGraph::new();
    let r = search(&g, &params("AAA", "CCC", 32400, 39600));
    assert_eq!(r.solutions.len(), 0);
}

#[test]
fn storage_insert_then_search() {
    let store = NaiveStorage::new();
    store.insert_tickets(vec![
        tk("t1", "AAA", "BBB", 36000, 43200, 100),
        tk("t2", "BBB", "CCC", 54060, 61200, 50),
    ]);
    let r = store.search(&params("AAA", "CCC", 32400, 39600));
    assert_eq!(r.solutions.len(), 1);
    assert!(has_solution(&r.solutions, "t1", "t2", 150));
}

#[test]
fn storage_insert_is_idempotent_across_calls() {
    let store = NaiveStorage::new();
    let batch = || {
        vec![
            tk("t1", "AAA", "BBB", 36000, 43200, 100),
            tk("t2", "BBB", "CCC", 54060, 61200, 50),
        ]
    };
    store.insert_tickets(batch());
    store.insert_tickets(batch());
    let r = store.search(&params("AAA", "CCC", 32400, 39600));
    assert_eq!(r.solutions.len(), 1);
}

#[test]
fn two_stop_choices_multiply() {
    let mut g = TicketGraph::new();
    insert_all(
        &mut g,
        vec![
            tk("f1", "AAA", "BBB", 36000, 43200, 100),
            tk("f2", "AAA", "BBB", 36100, 43200, 110),
            tk("s1", "BBB", "CCC", 54060, 61200, 50),
            tk("s2", "BBB", "CCC", 55000, 61200, 60),
        ],
    );
    let r = search(&g, &params("AAA", "CCC", 32400, 39600));
    assert_eq!(r.solutions.len(), 4);
    assert!(has_solution(&r.solutions, "f1", "s1", 150));
    assert!(has_solution(&r.solutions, "f1", "s2", 160));
    assert!(has_solution(&r.solutions, "f2", "s1", 160));
    assert!(has_solution(&r.solutions, "f2", "s2", 170));
}
