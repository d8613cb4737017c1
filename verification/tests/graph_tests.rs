use safe_regular_expression::graph::{DriverType, Edge, Graph, LexemeCategory, State, StateType};
use safe_regular_expression::ConstructionError;

fn sym(id: usize) -> (DriverType, usize) {
    (DriverType::CHAR, id)
}

/// `basic(Symbol(c))`: exactly two states and one edge, the start
/// non-accepting without a category, the end accepting without a
/// category, and the edge driven by the symbol.
#[test]
fn test_generate_basic_nfa() {
    let graph = Graph::generate_basic_nfa(DriverType::CHAR, 0);
    assert_eq!(graph.p_state_table.len(), 2);
    assert_eq!(graph.p_edge_table.len(), 1);
    let s0 = graph.p_state_table[0];
    let s1 = graph.p_state_table[1];
    assert_eq!(s0.state_id, 0);
    assert_eq!(s0.state_type, StateType::UNMATCH);
    assert_eq!(s0.category, LexemeCategory::EMPTY);
    assert_eq!(s1.state_id, 1);
    assert_eq!(s1.state_type, StateType::MATCH);
    assert_eq!(s1.category, LexemeCategory::EMPTY);
    let e = graph.p_edge_table[0];
    assert_eq!(e.from_state, 0);
    assert_eq!(e.next_state, 1);
    assert_eq!(e.driver_type, DriverType::CHAR);
    assert_eq!(e.driver_id, 0);
}

#[test]
fn test_union() {}

/// The union of two simple-form automata has
/// `(|s| - 2) + (|t| - 2) + 2` states.
#[test]
fn test_union_state_count() {
    let a = Graph::generate_basic_nfa(DriverType::CHAR, 1);
    let b = Graph::generate_basic_nfa(DriverType::CHAR, 2);
    let u = a.union(&b).unwrap();
    assert_eq!(u.p_state_table.len(), (2 - 2) + (2 - 2) + 2);

    // A larger simple-form operand: a·b has 3 states.
    let cat = a.product(&b).unwrap();
    assert_eq!(cat.p_state_table.len(), 3);
    let u2 = cat.union(&b).unwrap();
    assert_eq!(u2.p_state_table.len(), (3 - 2) + (2 - 2) + 2);
}

#[test]
fn test_union_language() {
    let a = Graph::generate_basic_nfa(DriverType::CHAR, 1);
    let b = Graph::generate_basic_nfa(DriverType::CHAR, 2);
    let u = a.union(&b).unwrap();
    assert!(u.accepts(&vec![sym(1)]));
    assert!(u.accepts(&vec![sym(2)]));
    assert!(!u.accepts(&vec![]));
    assert!(!u.accepts(&vec![sym(1), sym(2)]));
    assert!(!u.accepts(&vec![sym(3)]));
}

#[test]
fn test_product_language() {
    let a = Graph::generate_basic_nfa(DriverType::CHAR, 1);
    let b = Graph::generate_basic_nfa(DriverType::CHAR, 2);
    let cat = a.product(&b).unwrap();
    assert!(cat.accepts(&vec![sym(1), sym(2)]));
    assert!(!cat.accepts(&vec![sym(1)]));
    assert!(!cat.accepts(&vec![sym(2)]));
    assert!(!cat.accepts(&vec![]));
    assert!(!cat.accepts(&vec![sym(2), sym(1)]));
}

#[test]
fn test_closure_language() {
    let a = Graph::generate_basic_nfa(DriverType::CHAR, 1);
    let star = a.closure().unwrap();
    assert!(star.accepts(&vec![]));
    assert!(star.accepts(&vec![sym(1)]));
    assert!(star.accepts(&vec![sym(1), sym(1), sym(1)]));
    assert!(!star.accepts(&vec![sym(2)]));
    assert!(!star.accepts(&vec![sym(1), sym(2)]));
}

#[test]
fn test_plus_closure_language() {
    let a = Graph::generate_basic_nfa(DriverType::CHAR, 1);
    let plus = a.plus_closure().unwrap();
    assert!(!plus.accepts(&vec![]));
    assert!(plus.accepts(&vec![sym(1)]));
    assert!(plus.accepts(&vec![sym(1), sym(1)]));
    assert!(!plus.accepts(&vec![sym(2)]));
}

#[test]
fn test_zero_or_one_language() {
    let a = Graph::generate_basic_nfa(DriverType::CHAR, 1);
    let opt = a.zero_or_one().unwrap();
    assert!(opt.accepts(&vec![]));
    assert!(opt.accepts(&vec![sym(1)]));
    assert!(!opt.accepts(&vec![sym(1), sym(1)]));
    assert!(!opt.accepts(&vec![sym(2)]));
}

#[test]
fn test_composite_language() {
    // (1|2)·3⁺ over the symbols 1, 2, 3.
    let a = Graph::generate_basic_nfa(DriverType::CHAR, 1);
    let b = Graph::generate_basic_nfa(DriverType::CHAR, 2);
    let c = Graph::generate_basic_nfa(DriverType::CHAR, 3);
    let u = a.union(&b).unwrap();
    let cp = c.plus_closure().unwrap();
    let e = u.product(&cp).unwrap();
    assert!(e.accepts(&vec![sym(1), sym(3)]));
    assert!(e.accepts(&vec![sym(2), sym(3), sym(3)]));
    assert!(!e.accepts(&vec![sym(1)]));
    assert!(!e.accepts(&vec![sym(3)]));
    assert!(!e.accepts(&vec![sym(1), sym(2), sym(3)]));
}

/// Normalization gives the start state no incoming edge and the accepting
/// state no outgoing edge, and does nothing on a second run.
#[test]
fn test_equivalent_transform_idempotent() {
    let a = Graph::generate_basic_nfa(DriverType::CHAR, 1);
    // The one-or-more closure leaves a repeat edge, so its operand shape
    // is worth normalizing again after composing by hand.
    let mut g = Graph {
        graph_id: 0,
        num_of_states: 2,
        p_state_table: vec![
            State { state_id: 0, state_type: StateType::UNMATCH, category: LexemeCategory::EMPTY },
            State { state_id: 1, state_type: StateType::MATCH, category: LexemeCategory::EMPTY },
        ],
        p_edge_table: vec![
            Edge { from_state: 0, next_state: 1, driver_id: 1, driver_type: DriverType::CHAR },
            Edge { from_state: 1, next_state: 0, driver_id: 0, driver_type: DriverType::NULL },
        ],
    };
    g.equivalent_transform();
    assert_eq!(g.p_state_table.len(), 4);
    assert!(g.p_edge_table.iter().all(|e| e.next_state != 0));
    let last = g.p_state_table.len() - 1;
    assert!(g.p_edge_table.iter().all(|e| e.from_state != last));
    let before_states = g.p_state_table.clone();
    let before_edges = g.p_edge_table.clone();
    g.equivalent_transform();
    assert_eq!(g.p_state_table, before_states);
    assert_eq!(g.p_edge_table, before_edges);
    let _ = a;
}

/// A raw two-state loop accepting `1⁺`: its accepting state has an
/// outgoing edge and its start state an incoming one.
fn raw_one_plus() -> Graph {
    Graph {
        graph_id: 0,
        num_of_states: 2,
        p_state_table: vec![
            State { state_id: 0, state_type: StateType::UNMATCH, category: LexemeCategory::EMPTY },
            State { state_id: 1, state_type: StateType::MATCH, category: LexemeCategory::EMPTY },
        ],
        p_edge_table: vec![
            Edge { from_state: 0, next_state: 1, driver_id: 1, driver_type: DriverType::CHAR },
            Edge { from_state: 1, next_state: 0, driver_id: 0, driver_type: DriverType::NULL },
        ],
    }
}

#[test]
fn test_union_normalizes_raw_operand() {
    let raw = raw_one_plus();
    let b = Graph::generate_basic_nfa(DriverType::CHAR, 2);
    let u = raw.union(&b).unwrap();
    assert!(u.accepts(&vec![sym(1)]));
    assert!(u.accepts(&vec![sym(1), sym(1)]));
    assert!(u.accepts(&vec![sym(2)]));
    assert!(!u.accepts(&vec![]));
    assert!(!u.accepts(&vec![sym(1), sym(2)]));
}

#[test]
fn test_product_with_bridge() {
    // Both junction states are busy, so concatenation keeps them apart
    // with an epsilon bridge instead of fusing them.
    let s = raw_one_plus();
    let t = raw_one_plus();
    let cat = s.product(&t).unwrap();
    assert_eq!(cat.p_state_table.len(), 4);
    assert!(cat
        .p_edge_table
        .iter()
        .any(|e| e.from_state == 1 && e.next_state == 2 && e.driver_type == DriverType::NULL));
    assert!(cat.accepts(&vec![sym(1), sym(1)]));
    assert!(cat.accepts(&vec![sym(1), sym(1), sym(1)]));
    assert!(!cat.accepts(&vec![sym(1)]));
    assert!(!cat.accepts(&vec![]));
}

#[test]
fn test_union_rejects_small_graph() {
    let small = Graph {
        graph_id: 0,
        num_of_states: 1,
        p_state_table: vec![
            State { state_id: 0, state_type: StateType::MATCH, category: LexemeCategory::EMPTY },
        ],
        p_edge_table: vec![],
    };
    let b = Graph::generate_basic_nfa(DriverType::CHAR, 2);
    assert!(matches!(small.union(&b), Err(ConstructionError::InvalidGraph)));
    assert!(matches!(b.product(&small), Err(ConstructionError::InvalidGraph)));
    assert!(matches!(small.closure(), Err(ConstructionError::InvalidGraph)));
    assert!(matches!(small.plus_closure(), Err(ConstructionError::InvalidGraph)));
    assert!(matches!(small.zero_or_one(), Err(ConstructionError::InvalidGraph)));
}
