use safe_regular_expression::graph::{DriverType, Edge, Graph, LexemeCategory, State, StateType};
use safe_regular_expression::ConstructionError;

fn sym(id: usize) -> (DriverType, usize) {
    (DriverType::CHAR, id)
}

fn eps(from: usize, to: usize) -> Edge {
    Edge { from_state: from, next_state: to, driver_id: 0, driver_type: DriverType::NULL }
}

fn chr(from: usize, to: usize, id: usize) -> Edge {
    Edge { from_state: from, next_state: to, driver_id: id, driver_type: DriverType::CHAR }
}

fn plain(id: usize, ty: StateType) -> State {
    State { state_id: id, state_type: ty, category: LexemeCategory::EMPTY }
}

/// The textbook union shape: start 0 with epsilon edges into 1 and 2,
/// symbol edges 1 -'a'-> 3 and 2 -'b'-> 3, state 3 accepting.
fn union_shape(a: usize, b: usize) -> Graph {
    Graph {
        graph_id: 0,
        num_of_states: 4,
        p_state_table: vec![
            plain(0, StateType::UNMATCH),
            plain(1, StateType::UNMATCH),
            plain(2, StateType::UNMATCH),
            plain(3, StateType::MATCH),
        ],
        p_edge_table: vec![eps(0, 1), eps(0, 2), chr(1, 3, a), chr(2, 3, b)],
    }
}

#[test]
fn test_epsilon_closure_idempotent() {
    let g = union_shape(10, 11);
    let first = g.epsilon_closure(&vec![0]);
    assert_eq!(first, vec![0, 1, 2]);
    let second = g.epsilon_closure(&first);
    assert_eq!(second, first);
}

#[test]
fn test_epsilon_closure_order_independent() {
    let g = Graph {
        graph_id: 0,
        num_of_states: 4,
        p_state_table: vec![
            plain(0, StateType::UNMATCH),
            plain(1, StateType::UNMATCH),
            plain(2, StateType::UNMATCH),
            plain(3, StateType::MATCH),
        ],
        p_edge_table: vec![eps(0, 2), eps(1, 3), eps(2, 1)],
    };
    let one = g.epsilon_closure(&vec![0, 1]);
    let other = g.epsilon_closure(&vec![1, 0]);
    assert_eq!(one, other);
    assert_eq!(one, vec![0, 1, 2, 3]);
}

#[test]
fn test_move_transfer() {
    let g = union_shape(10, 11);
    let m = g.move_transfer(&vec![0, 1, 2], DriverType::CHAR, 10);
    assert_eq!(m, vec![3]);
    let none = g.move_transfer(&vec![0], DriverType::CHAR, 10);
    assert_eq!(none, Vec::<usize>::new());
}

/// The worked determinization scenario: from the four-state union shape,
/// `D0 = {0,1,2}` is non-accepting, and both symbols lead to the
/// accepting subset `{3}`.
#[test]
fn test_nfa_to_dfa_union_shape() {
    let nfa = union_shape(10, 11);
    let dfa = nfa.nfa_to_dfa().unwrap();
    assert_eq!(dfa.p_state_table.len(), 2);
    assert_eq!(dfa.p_state_table[0].state_type, StateType::UNMATCH);
    assert_eq!(dfa.p_state_table[1].state_type, StateType::MATCH);
    assert_eq!(dfa.p_edge_table.len(), 2);
    let e0 = dfa.p_edge_table[0];
    let e1 = dfa.p_edge_table[1];
    assert_eq!((e0.from_state, e0.next_state), (0, 1));
    assert_eq!((e0.driver_type, e0.driver_id), (DriverType::CHAR, 10));
    assert_eq!((e1.from_state, e1.next_state), (0, 1));
    assert_eq!((e1.driver_type, e1.driver_id), (DriverType::CHAR, 11));
}

#[test]
fn test_nfa_to_dfa_empty_graph() {
    let empty = Graph {
        graph_id: 0,
        num_of_states: 0,
        p_state_table: vec![],
        p_edge_table: vec![],
    };
    assert!(matches!(empty.nfa_to_dfa(), Err(ConstructionError::InvalidGraph)));
}

fn assert_deterministic(g: &Graph) {
    for i in 0..g.p_edge_table.len() {
        for j in (i + 1)..g.p_edge_table.len() {
            let a = g.p_edge_table[i];
            let b = g.p_edge_table[j];
            assert!(
                !(a.from_state == b.from_state && a.driver_type == b.driver_type && a.driver_id
                    == b.driver_id)
            );
        }
    }
}

fn assert_same_language(nfa: &Graph, dfa: &Graph, inputs: &[Vec<(DriverType, usize)>]) {
    for input in inputs {
        assert_eq!(nfa.accepts(input), dfa.accepts(input));
    }
}

#[test]
fn test_nfa_to_dfa_preserves_language() {
    // (1|2)·3* , determinized, agrees with the NFA over a batch of words.
    let a = Graph::generate_basic_nfa(DriverType::CHAR, 1);
    let b = Graph::generate_basic_nfa(DriverType::CHAR, 2);
    let c = Graph::generate_basic_nfa(DriverType::CHAR, 3);
    let u = a.union(&b).unwrap();
    let cs = c.closure().unwrap();
    let nfa = u.product(&cs).unwrap();
    let dfa = nfa.nfa_to_dfa().unwrap();
    assert_deterministic(&dfa);
    let inputs = vec![
        vec![],
        vec![sym(1)],
        vec![sym(2)],
        vec![sym(3)],
        vec![sym(1), sym(3)],
        vec![sym(2), sym(3), sym(3)],
        vec![sym(1), sym(2)],
        vec![sym(3), sym(1)],
        vec![sym(1), sym(3), sym(3), sym(3)],
        vec![sym(1), sym(3), sym(2)],
    ];
    assert_same_language(&nfa, &dfa, &inputs);
    assert!(dfa.accepts(&vec![sym(1)]));
    assert!(dfa.accepts(&vec![sym(2), sym(3)]));
    assert!(!dfa.accepts(&vec![sym(3)]));
}

#[test]
fn test_nfa_to_dfa_plus_closure() {
    let a = Graph::generate_basic_nfa(DriverType::CHAR, 7);
    let plus = a.plus_closure().unwrap();
    let dfa = plus.nfa_to_dfa().unwrap();
    assert_deterministic(&dfa);
    let inputs = vec![
        vec![],
        vec![sym(7)],
        vec![sym(7), sym(7)],
        vec![sym(7), sym(7), sym(7)],
        vec![sym(8)],
    ];
    assert_same_language(&plus, &dfa, &inputs);
    assert!(!dfa.accepts(&vec![]));
    assert!(dfa.accepts(&vec![sym(7), sym(7)]));
}
