//! The shared graph representation of NFAs and DFAs, and the Thompson-style
//! composition operators that build NFAs bottom-up.

use vstd::prelude::*;

use crate::ConstructionError;

verus! {

/// The lexeme class that a final accepting state can carry.  `EMPTY` marks a
/// structural state that carries no class.
#[allow(non_camel_case_types)]
#[derive(Clone, Copy, PartialEq, Eq, Structural, Debug)]
pub enum LexemeCategory {
    INTEGER_CONST,
    FLOAT_CONST,
    SCIENTIFIC_CONST,
    OPERATOR,
    NOTE,
    STRING_CONST,
    SPACE_CONST,
    COMPARE_OPERATOR,
    ID,
    LOGIC_OPERATOR,
    EMPTY,
}

/// What drives a transition: nothing (an epsilon edge), a single character,
/// or a character class.
#[allow(non_camel_case_types)]
#[derive(Clone, Copy, PartialEq, Eq, Structural, Debug)]
pub enum DriverType {
    NULL,
    CHAR,
    CHARSET,
}

/// Whether a state accepts (`MATCH`) or not (`UNMATCH`).
#[allow(non_camel_case_types)]
#[derive(Clone, Copy, PartialEq, Eq, Structural, Debug)]
pub enum StateType {
    MATCH,
    UNMATCH,
}

/// One automaton state.  Its id always equals its index in the state table.
#[derive(Clone, Copy, PartialEq, Eq, Structural, Debug)]
pub struct State {
    pub state_id: usize,
    pub state_type: StateType,
    pub category: LexemeCategory,
}

/// One transition edge between two state ids.  For an epsilon edge the
/// driver type is `NULL` and the driver id carries no information.
#[derive(Clone, Copy, PartialEq, Eq, Structural, Debug)]
pub struct Edge {
    pub from_state: usize,
    pub next_state: usize,
    pub driver_id: usize,
    pub driver_type: DriverType,
}

/// An automaton: an indexed table of states and a table of edges between
/// them.  The same representation serves NFAs and DFAs.
#[derive(Clone, Debug)]
pub struct Graph {
    pub graph_id: usize,
    pub num_of_states: usize,
    pub p_edge_table: Vec<Edge>,
    pub p_state_table: Vec<State>,
}

/// The mathematical value of a `Graph`: its two tables as sequences.
#[verifier::ext_equal]
pub struct GraphModel {
    pub states: Seq<State>,
    pub edges: Seq<Edge>,
}

impl View for Graph {
    type V = GraphModel;

    open spec fn view(&self) -> GraphModel {
        GraphModel { states: self.p_state_table.view(), edges: self.p_edge_table.view() }
    }
}

/// True of an epsilon edge: one that consumes no input symbol.
pub open spec fn is_epsilon(e: Edge) -> bool {
    e.driver_type == DriverType::NULL
}

impl GraphModel {
    /// Number of states, as a mathematical integer.
    pub open spec fn n(self) -> int {
        self.states.len() as int
    }

    /// Well-formedness: state ids are the contiguous integers `0..n-1`, in
    /// order, every edge endpoint names an existing state, and the state
    /// count stays within what one machine-sized table can hold.
    pub open spec fn wf(self) -> bool {
        &&& self.states.len() <= usize::MAX
        &&& forall|i: int|
            0 <= i < self.states.len() ==> (#[trigger] self.states[i]).state_id == i
        &&& forall|i: int|
            0 <= i < self.edges.len() ==> (#[trigger] self.edges[i]).from_state < self.states.len()
                && self.edges[i].next_state < self.states.len()
    }

    /// Does any edge enter the start state (id 0)?
    pub open spec fn start_has_edge_in(self) -> bool {
        exists|i: int| 0 <= i < self.edges.len() && (#[trigger] self.edges[i]).next_state == 0
    }

    /// Does any edge leave the state with the highest id?
    pub open spec fn end_has_edge_out(self) -> bool {
        exists|i: int|
            0 <= i < self.edges.len() && (#[trigger] self.edges[i]).from_state as int == self.n()
                - 1
    }

    /// The category carried by the state with the highest id.
    pub open spec fn end_category(self) -> LexemeCategory {
        self.states[self.n() - 1].category
    }

    /// The construction convention for NFAs under composition: the state
    /// with the highest id is the unique accepting state.
    pub open spec fn one_accepting(self) -> bool {
        &&& self.n() >= 1
        &&& self.states[self.n() - 1].state_type == StateType::MATCH
        &&& forall|i: int|
            0 <= i < self.n() - 1 ==> (#[trigger] self.states[i]).state_type == StateType::UNMATCH
    }

    /// Simple form: the shape every composition operator can consume
    /// directly.  The start state has no incoming edges, the unique
    /// accepting state has no outgoing edges and carries no category.
    pub open spec fn simple_form(self) -> bool {
        &&& self.wf()
        &&& self.n() >= 2
        &&& self.one_accepting()
        &&& !self.start_has_edge_in()
        &&& !self.end_has_edge_out()
        &&& self.end_category() == LexemeCategory::EMPTY
    }
}

impl Graph {
    /// The executable representation matches its model: ids are indices and
    /// the recorded state count is the table length.
    pub open spec fn inv(self) -> bool {
        &&& self@.wf()
        &&& self.num_of_states == self@.states.len()
    }
}

/// A state as it appears after every id has been shifted up by one.
pub open spec fn shift_state(s: State) -> State {
    State { state_id: (s.state_id + 1) as usize, ..s }
}

/// An edge as it appears after every state id has been shifted up by one.
pub open spec fn shift_edge(e: Edge) -> Edge {
    Edge {
        from_state: (e.from_state + 1) as usize,
        next_state: (e.next_state + 1) as usize,
        ..e
    }
}

/// The given state demoted from accepting to non-accepting.
pub open spec fn demote(s: State) -> State {
    State { state_type: StateType::UNMATCH, ..s }
}

/// The state sequence with every id shifted up by one.
pub open spec fn shifted_states(ss: Seq<State>) -> Seq<State> {
    Seq::new(ss.len(), |i: int| shift_state(ss[i]))
}

/// The edge sequence with every endpoint shifted up by one.
pub open spec fn shifted_edges(es: Seq<Edge>) -> Seq<Edge> {
    Seq::new(es.len(), |i: int| shift_edge(es[i]))
}

/// First normalization step: if the start state has an incoming edge, shift
/// every id up by one and put a fresh start state in front, joined to the
/// old start by an epsilon edge.
pub open spec fn norm_step1(m: GraphModel) -> GraphModel {
    if m.start_has_edge_in() {
        GraphModel {
            states: seq![
                (State { state_id: 0, state_type: StateType::UNMATCH, category: LexemeCategory::EMPTY }),
            ] + shifted_states(m.states),
            edges: seq![
                (Edge { from_state: 0, next_state: 1, driver_id: 0, driver_type: DriverType::NULL }),
            ] + shifted_edges(m.edges),
        }
    } else {
        m
    }
}

/// Second normalization step: if the accepting state has an outgoing edge or
/// carries a category, demote it and append a fresh accepting state, joined
/// to the old one by an epsilon edge.
pub open spec fn norm_step2(m: GraphModel) -> GraphModel {
    if m.end_has_edge_out() || m.end_category() != LexemeCategory::EMPTY {
        let n = m.n();
        GraphModel {
            states: m.states.update(n - 1, demote(m.states[n - 1])) + seq![
                (State {
                    state_id: n as usize,
                    state_type: StateType::MATCH,
                    category: LexemeCategory::EMPTY,
                }),
            ],
            edges: m.edges + seq![
                (Edge {
                    from_state: (n - 1) as usize,
                    next_state: n as usize,
                    driver_id: 0,
                    driver_type: DriverType::NULL,
                }),
            ],
        }
    } else {
        m
    }
}

/// The normalized (simple-form) equivalent of a graph.
pub open spec fn normalized(m: GraphModel) -> GraphModel {
    norm_step2(norm_step1(m))
}

/// Normalization changes nothing on a graph that is already in simple form;
/// in particular it is idempotent.
pub proof fn lemma_normalized_identity(m: GraphModel)
    requires
        m.simple_form(),
    ensures
        normalized(m) == m,
{
}

/// Normalization of any well-formed automaton with at least two states and a
/// single accepting state yields a simple-form automaton, growing it by one
/// state per normalization step that fires.
pub proof fn lemma_normalized_simple_form(m: GraphModel)
    requires
        m.wf(),
        m.n() >= 2,
        m.n() + 2 <= usize::MAX,
        m.one_accepting(),
    ensures
        normalized(m).simple_form(),
        normalized(m).n() == m.n() + (if m.start_has_edge_in() {
            1int
        } else {
            0int
        }) + (if norm_step1(m).end_has_edge_out() || norm_step1(m).end_category()
            != LexemeCategory::EMPTY {
            1int
        } else {
            0int
        }),
{
    let m1 = norm_step1(m);
    assert(m1.wf() && m1.n() >= 2 && m1.one_accepting() && !m1.start_has_edge_in()) by {
        if m.start_has_edge_in() {
            assert forall|i: int| 0 <= i < m1.states.len() implies (#[trigger] m1.states[i]).state_id
                == i by {
                if i > 0 {
                    assert(m1.states[i] == shift_state(m.states[i - 1]));
                }
            }
            assert forall|i: int| 0 <= i < m1.edges.len() implies (#[trigger] m1.edges[i]).from_state
                < m1.states.len() && m1.edges[i].next_state < m1.states.len() && m1.edges[i].next_state
                != 0 by {
                if i > 0 {
                    assert(m1.edges[i] == shift_edge(m.edges[i - 1]));
                }
            }
            assert forall|i: int| 0 <= i < m1.n() - 1 implies (#[trigger] m1.states[i]).state_type
                == StateType::UNMATCH by {
                if i > 0 {
                    assert(m1.states[i] == shift_state(m.states[i - 1]));
                }
            }
            assert(m1.states[m1.n() - 1] == shift_state(m.states[m.n() - 1]));
        }
    }
    let m2 = norm_step2(m1);
    if m1.end_has_edge_out() || m1.end_category() != LexemeCategory::EMPTY {
        assert forall|i: int| 0 <= i < m2.states.len() implies (#[trigger] m2.states[i]).state_id
            == i by {}
        assert(!m2.start_has_edge_in()) by {
            assert forall|i: int| 0 <= i < m2.edges.len() implies (#[trigger] m2.edges[i]).next_state
                != 0 by {
                if i < m1.edges.len() {
                    assert(m2.edges[i] == m1.edges[i]);
                }
            }
        }
        assert(!m2.end_has_edge_out()) by {
            assert forall|i: int| 0 <= i < m2.edges.len() implies (#[trigger] m2.edges[i]).from_state
                as int != m2.n() - 1 by {
                if i < m1.edges.len() {
                    assert(m2.edges[i] == m1.edges[i]);
                    assert(m1.edges[i].from_state < m1.states.len());
                }
            }
        }
    }
}

impl Graph {
    /// Appends a state under the next sequential id (one past the highest
    /// id present, or 0 in an empty graph) and returns that id.
    fn add_state(&mut self, state_type: StateType, category: LexemeCategory) -> (id: usize)
        requires
            old(self).inv(),
        ensures
            final(self).inv(),
            id == old(self)@.n(),
            final(self)@.states == old(self)@.states.push(
                State { state_id: id, state_type, category },
            ),
            final(self)@.edges == old(self)@.edges,
            final(self).graph_id == old(self).graph_id,
    {
        let id = self.p_state_table.len();
        self.p_state_table.push(State { state_id: id, state_type, category });
        self.num_of_states = self.p_state_table.len();
        id
    }

    /// Appends an edge.  The caller is responsible for handing in ids of
    /// existing states; this is an internal primitive.
    fn add_edge(
        &mut self,
        from_state: usize,
        next_state: usize,
        driver_type: DriverType,
        driver_id: usize,
    )
        requires
            old(self).inv(),
            from_state < old(self)@.n(),
            next_state < old(self)@.n(),
        ensures
            final(self).inv(),
            final(self)@.edges == old(self)@.edges.push(
                Edge { from_state, next_state, driver_id, driver_type },
            ),
            final(self)@.states == old(self)@.states,
            final(self).graph_id == old(self).graph_id,
            final(self).num_of_states == old(self).num_of_states,
    {
        self.p_edge_table.push(Edge { from_state, next_state, driver_id, driver_type });
    }

    /// Does any edge enter the start state?
    fn is_start_state_has_edge_in(&self) -> (r: bool)
        ensures
            r == self@.start_has_edge_in(),
    {
        let n = self.p_edge_table.len();
        let mut i: usize = 0;
        while i < n
            invariant
                i <= n,
                n == self.p_edge_table.len(),
                forall|j: int| 0 <= j < i ==> (#[trigger] self@.edges[j]).next_state != 0,
            decreases n - i,
        {
            if self.p_edge_table[i].next_state == 0 {
                return true;
            }
            i += 1;
        }
        false
    }

    /// Does any edge leave the state with the highest id?
    fn is_end_state_has_edge_out(&self) -> (r: bool)
        requires
            self@.n() >= 1,
        ensures
            r == self@.end_has_edge_out(),
    {
        let last = self.p_state_table.len() - 1;
        let n = self.p_edge_table.len();
        let mut i: usize = 0;
        while i < n
            invariant
                i <= n,
                n == self.p_edge_table.len(),
                last == self@.n() - 1,
                forall|j: int|
                    0 <= j < i ==> (#[trigger] self@.edges[j]).from_state as int != self@.n() - 1,
            decreases n - i,
        {
            if self.p_edge_table[i].from_state == last {
                return true;
            }
            i += 1;
        }
        false
    }

    /// Does the start state carry no category?
    fn is_start_state_category_empty(&self) -> (r: bool)
        requires
            self@.n() >= 1,
        ensures
            r == (self@.states[0].category == LexemeCategory::EMPTY),
    {
        self.p_state_table[0].category == LexemeCategory::EMPTY
    }

    /// Does the state with the highest id carry no category?
    fn is_end_state_category_empty(&self) -> (r: bool)
        requires
            self@.n() >= 1,
        ensures
            r == (self@.end_category() == LexemeCategory::EMPTY),
    {
        self.p_state_table[self.p_state_table.len() - 1].category == LexemeCategory::EMPTY
    }

    /// A fresh graph with the same states, edges and bookkeeping fields.
    fn duplicate(&self) -> (g: Graph)
        ensures
            g@ == self@,
            g.graph_id == self.graph_id,
            g.num_of_states == self.num_of_states,
    {
        let mut states: Vec<State> = Vec::new();
        let ns = self.p_state_table.len();
        let mut i: usize = 0;
        while i < ns
            invariant
                i <= ns,
                ns == self@.states.len(),
                states@ == self@.states.take(i as int),
            decreases ns - i,
        {
            states.push(self.p_state_table[i]);
            proof {
                assert(states@ =~= self@.states.take(i + 1));
            }
            i += 1;
        }
        let mut edges: Vec<Edge> = Vec::new();
        let ne = self.p_edge_table.len();
        let mut j: usize = 0;
        while j < ne
            invariant
                j <= ne,
                ne == self@.edges.len(),
                edges@ == self@.edges.take(j as int),
            decreases ne - j,
        {
            edges.push(self.p_edge_table[j]);
            proof {
                assert(edges@ =~= self@.edges.take(j + 1));
            }
            j += 1;
        }
        proof {
            assert(states@ =~= self@.states);
            assert(edges@ =~= self@.edges);
        }
        let g = Graph {
            graph_id: self.graph_id,
            num_of_states: self.num_of_states,
            p_edge_table: edges,
            p_state_table: states,
        };
        proof {
            assert(g@ =~= self@);
        }
        g
    }

    /// Reshapes this automaton in place into its simple-form equivalent:
    /// afterwards the start state has no incoming edge and the accepting
    /// state has no outgoing edge and carries no category.  A graph already
    /// in simple form is left unchanged.
    pub fn equivalent_transform(&mut self)
        requires
            old(self).inv(),
            old(self)@.n() >= 1,
            old(self)@.n() + 2 <= usize::MAX,
        ensures
            final(self).inv(),
            final(self)@ == normalized(old(self)@),
            final(self).graph_id == old(self).graph_id,
    {
        let ghost m0 = self@;
        let ghost gid = self.graph_id;
        if self.is_start_state_has_edge_in() {
            let n = self.p_state_table.len();
            let mut i: usize = 0;
            while i < n
                invariant
                    i <= n,
                    n == self.p_state_table.len(),
                    self@.edges == m0.edges,
                    m0.wf(),
                    n == m0.states.len(),
                    self.graph_id == gid,
                    forall|j: int| i <= j < n ==> self@.states[j] == m0.states[j],
                    forall|j: int| 0 <= j < i ==> self@.states[j] == shift_state(m0.states[j]),
                decreases n - i,
            {
                let s = self.p_state_table[i];
                proof {
                    assert(s == m0.states[i as int]);
                    assert(s.state_id == i);
                }
                self.p_state_table.set(
                    i,
                    State {
                        state_id: s.state_id + 1,
                        state_type: s.state_type,
                        category: s.category,
                    },
                );
                i += 1;
            }
            let ne = self.p_edge_table.len();
            let mut k: usize = 0;
            while k < ne
                invariant
                    k <= ne,
                    ne == self.p_edge_table.len(),
                    self@.states.len() == n,
                    m0.wf(),
                    ne == m0.edges.len(),
                    n == m0.states.len(),
                    self.graph_id == gid,
                    self@.states == Seq::new(m0.states.len(), |j: int| shift_state(m0.states[j])),
                    forall|j: int| k <= j < ne ==> self@.edges[j] == m0.edges[j],
                    forall|j: int| 0 <= j < k ==> self@.edges[j] == shift_edge(m0.edges[j]),
                decreases ne - k,
            {
                let e = self.p_edge_table[k];
                proof {
                    assert(e == m0.edges[k as int]);
                    assert(e.from_state < m0.states.len());
                    assert(e.next_state < m0.states.len());
                }
                self.p_edge_table.set(
                    k,
                    Edge {
                        from_state: e.from_state + 1,
                        next_state: e.next_state + 1,
                        driver_id: e.driver_id,
                        driver_type: e.driver_type,
                    },
                );
                k += 1;
            }
            let ghost pre_states = self@.states;
            let ghost pre_edges = self@.edges;
            let ghost new_start = State {
                state_id: 0,
                state_type: StateType::UNMATCH,
                category: LexemeCategory::EMPTY,
            };
            let ghost new_eps = Edge {
                from_state: 0,
                next_state: 1,
                driver_id: 0,
                driver_type: DriverType::NULL,
            };
            self.p_state_table.insert(
                0,
                State { state_id: 0, state_type: StateType::UNMATCH, category: LexemeCategory::EMPTY },
            );
            self.p_edge_table.insert(
                0,
                Edge { from_state: 0, next_state: 1, driver_id: 0, driver_type: DriverType::NULL },
            );
            proof {
                pre_states.insert_ensures(0, new_start);
                pre_edges.insert_ensures(0, new_eps);
                let s1 = norm_step1(m0);
                assert(self@.states =~= s1.states);
                assert(self@.edges.len() == 1 + m0.edges.len());
                assert forall|j: int| 1 <= j < self@.edges.len() implies self@.edges[j]
                    == s1.edges[j] by {
                    assert(self@.edges[j] == pre_edges.insert(0, new_eps)[j - 1 + 1]);
                    assert(pre_edges.insert(0, new_eps)[j - 1 + 1] == pre_edges[j - 1]);
                    assert(pre_edges[j - 1] == shift_edge(m0.edges[j - 1]));
                    assert(s1.edges[j] == shifted_edges(m0.edges)[j - 1]);
                    assert(shifted_edges(m0.edges)[j - 1] == shift_edge(m0.edges[j - 1]));
                }
                assert(self@.edges =~= s1.edges);
            }
        }
        let ghost m1 = norm_step1(m0);
        assert(self@ =~= m1);
        let n1 = self.p_state_table.len();
        let has_out = self.is_end_state_has_edge_out();
        let cat_empty = self.is_end_state_category_empty();
        if has_out || !cat_empty {
            let last = self.p_state_table[n1 - 1];
            self.p_state_table.set(
                n1 - 1,
                State {
                    state_id: last.state_id,
                    state_type: StateType::UNMATCH,
                    category: last.category,
                },
            );
            self.p_state_table.push(
                State { state_id: n1, state_type: StateType::MATCH, category: LexemeCategory::EMPTY },
            );
            self.p_edge_table.push(
                Edge {
                    from_state: n1 - 1,
                    next_state: n1,
                    driver_id: 0,
                    driver_type: DriverType::NULL,
                },
            );
            proof {
                assert(self@.states =~= norm_step2(m1).states);
                assert(self@.edges =~= norm_step2(m1).edges);
            }
        }
        self.num_of_states = self.p_state_table.len();
        proof {
            assert(self@ =~= normalized(m0));
            assert(self@.states.len() <= usize::MAX);
            assert(self@.wf()) by {
                assert forall|i: int| 0 <= i < self@.states.len() implies (#[trigger] self@.states[i]).state_id
                    == i by {
                    norm_states_id_helper(m0, i);
                }
                assert forall|i: int|
                    0 <= i < self@.edges.len() implies (#[trigger] self@.edges[i]).from_state
                    < self@.states.len() && self@.edges[i].next_state < self@.states.len() by {
                    norm_edges_bound_helper(m0, i);
                }
            }
        }
    }

    /// Builds the two-state automaton that accepts exactly one occurrence
    /// of the given symbol or symbol class: a non-accepting start state, an
    /// accepting end state, and one edge between them on the given driver.
    pub fn generate_basic_nfa(driver_type: DriverType, driver_id: usize) -> (g: Graph)
        ensures
            g.inv(),
            g@.simple_form(),
            g.graph_id == 0,
            g@.states == seq![
                (State { state_id: 0, state_type: StateType::UNMATCH, category: LexemeCategory::EMPTY }),
                (State { state_id: 1, state_type: StateType::MATCH, category: LexemeCategory::EMPTY }),
            ],
            g@.edges == seq![(Edge { from_state: 0, next_state: 1, driver_id, driver_type })],
    {
        let mut new_graph = Graph {
            graph_id: 0,
            num_of_states: 0,
            p_edge_table: Vec::new(),
            p_state_table: Vec::new(),
        };
        let from_state = new_graph.add_state(StateType::UNMATCH, LexemeCategory::EMPTY);
        let next_state = new_graph.add_state(StateType::MATCH, LexemeCategory::EMPTY);
        new_graph.add_edge(from_state, next_state, driver_type, driver_id);
        proof {
            assert(new_graph@.states =~= seq![
                (State { state_id: 0, state_type: StateType::UNMATCH, category: LexemeCategory::EMPTY }),
                (State { state_id: 1, state_type: StateType::MATCH, category: LexemeCategory::EMPTY }),
            ]);
            assert(new_graph@.edges =~= seq![
                (Edge { from_state: 0, next_state: 1, driver_id, driver_type }),
            ]);
        }
        new_graph
    }
}

/// Where a state id of the first union operand lands in the union result:
/// its accepting state fuses with the fresh end state, everything else
/// keeps its id.
pub open spec fn union_endpoint_s(ns: int, total: int, x: int) -> int {
    if x == ns - 1 {
        total - 1
    } else {
        x
    }
}

/// Where a state id of the second union operand lands in the union result:
/// its start fuses with the fresh start, its accepting state fuses with the
/// fresh end, and its interior shifts up behind the first operand's.
pub open spec fn union_endpoint_t(ns: int, nt: int, total: int, x: int) -> int {
    if x == 0 {
        0
    } else if x == nt - 1 {
        total - 1
    } else {
        x + ns - 2
    }
}

/// The state table of the union automaton built from two simple-form
/// operands: a shared start, the interiors of both operands renumbered
/// contiguously, and a shared accepting end.
pub open spec fn union_states(s: GraphModel, t: GraphModel) -> Seq<State> {
    let ns = s.n();
    let total = s.n() + t.n() - 2;
    Seq::new(
        (s.n() + t.n() - 2) as nat,
        |i: int|
            if i == 0 {
                State { state_id: 0, state_type: StateType::UNMATCH, category: LexemeCategory::EMPTY }
            } else if i < ns - 1 {
                State {
                    state_id: i as usize,
                    state_type: s.states[i].state_type,
                    category: s.states[i].category,
                }
            } else if i < total - 1 {
                State {
                    state_id: i as usize,
                    state_type: t.states[i - (ns - 2)].state_type,
                    category: t.states[i - (ns - 2)].category,
                }
            } else {
                State {
                    state_id: i as usize,
                    state_type: StateType::MATCH,
                    category: LexemeCategory::EMPTY,
                }
            },
    )
}

/// The edge table of the union automaton: both operands' edges with their
/// endpoints renumbered, and no edge added.
pub open spec fn union_edges(s: GraphModel, t: GraphModel) -> Seq<Edge> {
    let ns = s.n();
    let nt = t.n();
    let total = ns + nt - 2;
    Seq::new(
        s.edges.len() + t.edges.len(),
        |i: int|
            if i < s.edges.len() {
                let e = s.edges[i];
                Edge {
                    from_state: union_endpoint_s(ns, total, e.from_state as int) as usize,
                    next_state: union_endpoint_s(ns, total, e.next_state as int) as usize,
                    driver_id: e.driver_id,
                    driver_type: e.driver_type,
                }
            } else {
                let e = t.edges[i - s.edges.len()];
                Edge {
                    from_state: union_endpoint_t(ns, nt, total, e.from_state as int) as usize,
                    next_state: union_endpoint_t(ns, nt, total, e.next_state as int) as usize,
                    driver_id: e.driver_id,
                    driver_type: e.driver_type,
                }
            },
    )
}

/// The union automaton of two simple-form operands.
pub open spec fn union_model(s: GraphModel, t: GraphModel) -> GraphModel {
    GraphModel { states: union_states(s, t), edges: union_edges(s, t) }
}

/// The union of two simple-form automata is again simple-form, with
/// exactly the interiors of both operands between a shared start and a
/// shared accepting end.
pub proof fn lemma_union_simple_form(s: GraphModel, t: GraphModel)
    requires
        s.simple_form(),
        t.simple_form(),
        s.n() + t.n() - 2 <= usize::MAX,
    ensures
        union_model(s, t).simple_form(),
        union_model(s, t).n() == s.n() + t.n() - 2,
{
    let u = union_model(s, t);
    let ns = s.n();
    let nt = t.n();
    let total = ns + nt - 2;
    assert forall|i: int| 0 <= i < u.edges.len() implies {
        &&& (#[trigger] u.edges[i]).from_state < total
        &&& u.edges[i].next_state < total
        &&& u.edges[i].next_state != 0
        &&& u.edges[i].from_state as int != total - 1
    } by {
        if i < s.edges.len() {
            let e = s.edges[i];
            assert(e.from_state < ns && e.next_state < ns);
            assert(e.next_state != 0);
            assert(e.from_state as int != ns - 1);
        } else {
            let e = t.edges[i - s.edges.len()];
            assert(e.from_state < nt && e.next_state < nt);
            assert(e.next_state != 0);
            assert(e.from_state as int != nt - 1);
        }
    }
    assert(!u.start_has_edge_in());
    assert(!u.end_has_edge_out());
    assert(u.one_accepting());
}

/// Law: for simple-form operands `s` and `t`, the union automaton has
/// exactly `(|s| - 2) + (|t| - 2) + 2` states: the two interiors plus the
/// shared start and end.
pub proof fn lemma_union_state_count(s: GraphModel, t: GraphModel)
    requires
        s.simple_form(),
        t.simple_form(),
        s.n() + t.n() <= usize::MAX,
    ensures
        union_model(normalized(s), normalized(t)).states.len() == (s.states.len() - 2) + (
        t.states.len() - 2) + 2,
{
    lemma_normalized_identity(s);
    lemma_normalized_identity(t);
}

impl Graph {
    /// Thompson union: builds the automaton whose language is the union of
    /// the two operands' languages.  Operands that are not yet in simple
    /// form are normalized first (on private clones); the operands
    /// themselves are never changed.  Fails with `InvalidGraph` exactly
    /// when an operand has fewer than two states.
    pub fn union(&self, graph: &Graph) -> (r: Result<Graph, ConstructionError>)
        requires
            self.inv(),
            graph.inv(),
            self@.one_accepting(),
            graph@.one_accepting(),
            self@.n() + graph@.n() + 4 <= usize::MAX,
        ensures
            r is Ok <==> (self@.n() >= 2 && graph@.n() >= 2),
            r is Err ==> r->Err_0 == ConstructionError::InvalidGraph,
            r is Ok ==> (r->Ok_0).inv() && (r->Ok_0)@ == union_model(
                normalized(self@),
                normalized(graph@),
            ) && (r->Ok_0)@.simple_form() && (r->Ok_0).graph_id == 0,
    {
        if self.p_state_table.len() < 2 || graph.p_state_table.len() < 2 {
            return Err(ConstructionError::InvalidGraph);
        }
        let mut s = self.duplicate();
        let mut t = graph.duplicate();
        s.equivalent_transform();
        t.equivalent_transform();
        proof {
            lemma_normalized_simple_form(self@);
            lemma_normalized_simple_form(graph@);
        }
        let ghost sm = normalized(self@);
        let ghost tm = normalized(graph@);
        let ghost um = union_model(sm, tm);
        let ns = s.p_state_table.len();
        let nt = t.p_state_table.len();
        let total = ns + nt - 2;
        proof {
            lemma_union_simple_form(sm, tm);
        }
        let mut states: Vec<State> = Vec::new();
        states.push(
            State { state_id: 0, state_type: StateType::UNMATCH, category: LexemeCategory::EMPTY },
        );
        let mut i: usize = 1;
        while i < ns - 1
            invariant
                1 <= i <= ns - 1,
                ns == sm.states.len(),
                nt == tm.states.len(),
                total == ns + nt - 2,
                sm.simple_form(),
                tm.simple_form(),
                s@ == sm,
                um == union_model(sm, tm),
                states@.len() == i,
                forall|j: int| 0 <= j < i ==> states@[j] == um.states[j],
            decreases ns - 1 - i,
        {
            let st = s.p_state_table[i];
            proof {
                assert(st == sm.states[i as int]);
                assert(st.state_id == i);
            }
            states.push(st);
            i += 1;
        }
        let mut j: usize = 1;
        while j < nt - 1
            invariant
                1 <= j <= nt - 1,
                ns >= 2,
                ns == sm.states.len(),
                nt == tm.states.len(),
                total == ns + nt - 2,
                sm.simple_form(),
                tm.simple_form(),
                t@ == tm,
                um == union_model(sm, tm),
                states@.len() == ns - 2 + j,
                forall|k: int| 0 <= k < ns - 2 + j ==> states@[k] == um.states[k],
            decreases nt - 1 - j,
        {
            let st = t.p_state_table[j];
            states.push(State { state_id: ns - 2 + j, state_type: st.state_type, category: st.category });
            proof {
                assert(st == tm.states[j as int]);
                assert(um.states[(ns - 2 + j) as int] == State {
                    state_id: (ns - 2 + j) as usize,
                    state_type: st.state_type,
                    category: st.category,
                });
            }
            j += 1;
        }
        states.push(
            State {
                state_id: total - 1,
                state_type: StateType::MATCH,
                category: LexemeCategory::EMPTY,
            },
        );
        proof {
            assert(states@ =~= um.states);
        }
        let mut edges: Vec<Edge> = Vec::new();
        let nes = s.p_edge_table.len();
        let mut k: usize = 0;
        while k < nes
            invariant
                k <= nes,
                nes == sm.edges.len(),
                ns == sm.states.len(),
                nt == tm.states.len(),
                total == ns + nt - 2,
                sm.simple_form(),
                tm.simple_form(),
                s@ == sm,
                um == union_model(sm, tm),
                edges@.len() == k,
                forall|l: int| 0 <= l < k ==> edges@[l] == um.edges[l],
            decreases nes - k,
        {
            let e = s.p_edge_table[k];
            proof {
                assert(e == sm.edges[k as int]);
                assert(e.from_state < ns && e.next_state < ns);
            }
            let from = if e.from_state == ns - 1 {
                total - 1
            } else {
                e.from_state
            };
            let next = if e.next_state == ns - 1 {
                total - 1
            } else {
                e.next_state
            };
            edges.push(Edge { from_state: from, next_state: next, driver_id: e.driver_id, driver_type: e.driver_type });
            k += 1;
        }
        let net = t.p_edge_table.len();
        let mut l: usize = 0;
        while l < net
            invariant
                l <= net,
                net == tm.edges.len(),
                nes == sm.edges.len(),
                ns >= 2,
                ns == sm.states.len(),
                nt == tm.states.len(),
                total == ns + nt - 2,
                sm.simple_form(),
                tm.simple_form(),
                t@ == tm,
                um == union_model(sm, tm),
                edges@.len() == nes + l,
                forall|p: int| 0 <= p < nes + l ==> edges@[p] == um.edges[p],
            decreases net - l,
        {
            let e = t.p_edge_table[l];
            proof {
                assert(e == tm.edges[l as int]);
                assert(e.from_state < nt && e.next_state < nt);
            }
            let from = if e.from_state == 0 {
                0
            } else if e.from_state == nt - 1 {
                total - 1
            } else {
                e.from_state + ns - 2
            };
            let next = if e.next_state == 0 {
                0
            } else if e.next_state == nt - 1 {
                total - 1
            } else {
                e.next_state + ns - 2
            };
            edges.push(Edge { from_state: from, next_state: next, driver_id: e.driver_id, driver_type: e.driver_type });
            proof {
                assert(edges@[(nes + l) as int] == um.edges[(nes + l) as int]);
            }
            l += 1;
        }
        proof {
            assert(edges@ =~= um.edges);
        }
        let g = Graph {
            graph_id: 0,
            num_of_states: total,
            p_edge_table: edges,
            p_state_table: states,
        };
        proof {
            assert(g@ =~= um);
        }
        Ok(g)
    }
}

/// Concatenation must keep the two operands apart with an epsilon bridge
/// exactly when the first operand's accepting state has outgoing edges or
/// the second operand's start state has incoming edges; otherwise the two
/// states can be fused into one.
pub open spec fn concat_glue_needed(s: GraphModel, t: GraphModel) -> bool {
    s.end_has_edge_out() || t.start_has_edge_in()
}

/// The state table of the concatenation automaton: the first operand with
/// its accepting state demoted, then the second operand renumbered behind
/// it (its start state fused away when no bridge is needed).
pub open spec fn concat_states(s: GraphModel, t: GraphModel) -> Seq<State> {
    let ns = s.n();
    if concat_glue_needed(s, t) {
        Seq::new(
            (s.n() + t.n()) as nat,
            |i: int|
                if i < ns - 1 {
                    s.states[i]
                } else if i == ns - 1 {
                    demote(s.states[ns - 1])
                } else {
                    State {
                        state_id: i as usize,
                        state_type: t.states[i - ns].state_type,
                        category: t.states[i - ns].category,
                    }
                },
        )
    } else {
        Seq::new(
            (s.n() + t.n() - 1) as nat,
            |i: int|
                if i < ns - 1 {
                    s.states[i]
                } else if i == ns - 1 {
                    demote(s.states[ns - 1])
                } else {
                    State {
                        state_id: i as usize,
                        state_type: t.states[i - (ns - 1)].state_type,
                        category: t.states[i - (ns - 1)].category,
                    }
                },
        )
    }
}

/// The edge table of the concatenation automaton: the first operand's
/// edges unchanged, an epsilon bridge when one is needed, and the second
/// operand's edges with their endpoints shifted behind the first.
pub open spec fn concat_edges(s: GraphModel, t: GraphModel) -> Seq<Edge> {
    let ns = s.n();
    if concat_glue_needed(s, t) {
        Seq::new(
            s.edges.len() + 1 + t.edges.len(),
            |i: int|
                if i < s.edges.len() {
                    s.edges[i]
                } else if i == s.edges.len() {
                    Edge {
                        from_state: (ns - 1) as usize,
                        next_state: ns as usize,
                        driver_id: 0,
                        driver_type: DriverType::NULL,
                    }
                } else {
                    let e = t.edges[i - s.edges.len() - 1];
                    Edge {
                        from_state: (e.from_state + ns) as usize,
                        next_state: (e.next_state + ns) as usize,
                        driver_id: e.driver_id,
                        driver_type: e.driver_type,
                    }
                },
        )
    } else {
        Seq::new(
            s.edges.len() + t.edges.len(),
            |i: int|
                if i < s.edges.len() {
                    s.edges[i]
                } else {
                    let e = t.edges[i - s.edges.len()];
                    Edge {
                        from_state: (e.from_state + ns - 1) as usize,
                        next_state: (e.next_state + ns - 1) as usize,
                        driver_id: e.driver_id,
                        driver_type: e.driver_type,
                    }
                },
        )
    }
}

/// The concatenation automaton of two operands.
pub open spec fn concat_model(s: GraphModel, t: GraphModel) -> GraphModel {
    GraphModel { states: concat_states(s, t), edges: concat_edges(s, t) }
}

/// Concatenation keeps the tables well formed and keeps exactly one
/// accepting state: the second operand's.
pub proof fn lemma_concat_wf(s: GraphModel, t: GraphModel)
    requires
        s.wf(),
        t.wf(),
        s.one_accepting(),
        t.one_accepting(),
        t.n() >= 2,
        s.n() + t.n() <= usize::MAX,
    ensures
        concat_model(s, t).wf(),
        concat_model(s, t).one_accepting(),
        concat_model(s, t).n() == s.n() + t.n() - (if concat_glue_needed(s, t) {
            0int
        } else {
            1int
        }),
{
    let u = concat_model(s, t);
    let ns = s.n();
    assert forall|i: int| 0 <= i < u.edges.len() implies (#[trigger] u.edges[i]).from_state
        < u.states.len() && u.edges[i].next_state < u.states.len() by {
        if concat_glue_needed(s, t) {
            if i > s.edges.len() {
                let e = t.edges[i - s.edges.len() - 1];
                assert(e.from_state < t.n() && e.next_state < t.n());
            }
        } else {
            if i >= s.edges.len() {
                let e = t.edges[i - s.edges.len()];
                assert(e.from_state < t.n() && e.next_state < t.n());
            }
        }
    }
}

/// Concatenating two simple-form operands fuses their junction states and
/// yields a simple-form automaton again.
pub proof fn lemma_concat_simple_form(s: GraphModel, t: GraphModel)
    requires
        s.simple_form(),
        t.simple_form(),
        s.n() + t.n() <= usize::MAX,
    ensures
        !concat_glue_needed(s, t),
        concat_model(s, t).simple_form(),
        concat_model(s, t).n() == s.n() + t.n() - 1,
{
    lemma_concat_wf(s, t);
    let u = concat_model(s, t);
    let ns = s.n();
    let nt = t.n();
    assert forall|i: int| 0 <= i < u.edges.len() implies (#[trigger] u.edges[i]).next_state != 0
        && u.edges[i].from_state as int != u.n() - 1 by {
        if i < s.edges.len() {
            assert(u.edges[i] == s.edges[i]);
            assert(s.edges[i].next_state != 0);
            assert(s.edges[i].from_state as int != ns - 1);
            assert(s.edges[i].from_state < ns);
        } else {
            let e = t.edges[i - s.edges.len()];
            assert(e.next_state != 0);
            assert(e.from_state as int != nt - 1);
            assert(e.from_state < nt);
        }
    }
}

impl Graph {
    /// Thompson concatenation: builds the automaton whose language is
    /// every string of this automaton's language followed by one of the
    /// operand's.  The first operand's accepting state is demoted; the two
    /// junction states are fused unless either side still uses its own,
    /// in which case an epsilon bridge joins them.  Fails with
    /// `InvalidGraph` exactly when an operand has fewer than two states.
    pub fn product(&self, graph: &Graph) -> (r: Result<Graph, ConstructionError>)
        requires
            self.inv(),
            graph.inv(),
            self@.one_accepting(),
            graph@.one_accepting(),
            self@.n() + graph@.n() <= usize::MAX,
        ensures
            r is Ok <==> (self@.n() >= 2 && graph@.n() >= 2),
            r is Err ==> r->Err_0 == ConstructionError::InvalidGraph,
            r is Ok ==> (r->Ok_0).inv() && (r->Ok_0)@ == concat_model(self@, graph@) && (
            r->Ok_0)@.one_accepting() && (r->Ok_0).graph_id == 0,
            r is Ok && self@.simple_form() && graph@.simple_form() ==> (r->Ok_0)@.simple_form(),
    {
        if self.p_state_table.len() < 2 || graph.p_state_table.len() < 2 {
            return Err(ConstructionError::InvalidGraph);
        }
        proof {
            lemma_concat_wf(self@, graph@);
            if self@.simple_form() && graph@.simple_form() {
                lemma_concat_simple_form(self@, graph@);
            }
        }
        let ghost um = concat_model(self@, graph@);
        let ns = self.p_state_table.len();
        let nt = graph.p_state_table.len();
        let glue = self.is_end_state_has_edge_out() || graph.is_start_state_has_edge_in();
        let offset = if glue {
            ns
        } else {
            ns - 1
        };
        let mut states: Vec<State> = Vec::new();
        let mut i: usize = 0;
        while i < ns
            invariant
                i <= ns,
                ns == self@.states.len(),
                nt == graph@.states.len(),
                self.inv(),
                um == concat_model(self@, graph@),
                states@.len() == i,
                forall|j: int| 0 <= j < i && j < ns - 1 ==> states@[j] == self@.states[j],
                forall|j: int| 0 <= j < i && j == ns - 1 ==> states@[j] == demote(self@.states[j]),
            decreases ns - i,
        {
            let st = self.p_state_table[i];
            if i == ns - 1 {
                states.push(State { state_id: st.state_id, state_type: StateType::UNMATCH, category: st.category });
            } else {
                states.push(st);
            }
            i += 1;
        }
        let start_t: usize = if glue {
            0
        } else {
            1
        };
        let mut j: usize = start_t;
        while j < nt
            invariant
                start_t <= j <= nt,
                ns == self@.states.len(),
                nt == graph@.states.len(),
                self.inv(),
                graph.inv(),
                offset == if glue { ns as int } else { ns - 1 },
                start_t == if glue { 0int } else { 1int },
                glue == concat_glue_needed(self@, graph@),
                ns >= 2,
                nt >= 2,
                ns + nt <= usize::MAX,
                um == concat_model(self@, graph@),
                states@.len() == offset + j,
                forall|k: int| 0 <= k < offset + j ==> states@[k] == um.states[k],
            decreases nt - j,
        {
            let st = graph.p_state_table[j];
            proof {
                assert(st == graph@.states[j as int]);
                assert(st.state_id == j);
            }
            states.push(State { state_id: offset + j, state_type: st.state_type, category: st.category });
            j += 1;
        }
        proof {
            assert(states@ =~= um.states);
        }
        let mut edges: Vec<Edge> = Vec::new();
        let nes = self.p_edge_table.len();
        let mut k: usize = 0;
        while k < nes
            invariant
                k <= nes,
                nes == self@.edges.len(),
                um == concat_model(self@, graph@),
                self.inv(),
                edges@.len() == k,
                forall|l: int| 0 <= l < k ==> edges@[l] == self@.edges[l],
            decreases nes - k,
        {
            edges.push(self.p_edge_table[k]);
            k += 1;
        }
        if glue {
            edges.push(Edge { from_state: ns - 1, next_state: ns, driver_id: 0, driver_type: DriverType::NULL });
        }
        let ghost base = edges@.len() as int;
        let net = graph.p_edge_table.len();
        let mut l: usize = 0;
        while l < net
            invariant
                l <= net,
                net == graph@.edges.len(),
                nes == self@.edges.len(),
                ns == self@.states.len(),
                nt == graph@.states.len(),
                ns >= 2,
                nt >= 2,
                ns + nt <= usize::MAX,
                glue == concat_glue_needed(self@, graph@),
                offset == if glue { ns as int } else { ns - 1 },
                base == nes + if glue { 1int } else { 0int },
                graph.inv(),
                um == concat_model(self@, graph@),
                edges@.len() == base + l,
                forall|p: int| 0 <= p < base + l ==> edges@[p] == um.edges[p],
            decreases net - l,
        {
            let e = graph.p_edge_table[l];
            proof {
                assert(e == graph@.edges[l as int]);
                assert(e.from_state < nt && e.next_state < nt);
            }
            edges.push(Edge {
                from_state: e.from_state + offset,
                next_state: e.next_state + offset,
                driver_id: e.driver_id,
                driver_type: e.driver_type,
            });
            proof {
                assert(edges@[base + l] == um.edges[base + l]);
            }
            l += 1;
        }
        proof {
            assert(edges@ =~= um.edges);
        }
        let total = offset + nt;
        let g = Graph {
            graph_id: 0,
            num_of_states: total,
            p_edge_table: edges,
            p_state_table: states,
        };
        proof {
            assert(g@ =~= um);
        }
        Ok(g)
    }
}

/// The state table that wraps a simple-form operand between a fresh start
/// and a fresh accepting end, demoting the operand's own accepting state.
pub open spec fn wrap_states(m: GraphModel) -> Seq<State> {
    let n = m.n();
    Seq::new(
        (n + 2) as nat,
        |i: int|
            if i == 0 {
                State { state_id: 0, state_type: StateType::UNMATCH, category: LexemeCategory::EMPTY }
            } else if i < n + 1 {
                State {
                    state_id: i as usize,
                    state_type: if i == n {
                        StateType::UNMATCH
                    } else {
                        m.states[i - 1].state_type
                    },
                    category: m.states[i - 1].category,
                }
            } else {
                State {
                    state_id: (n + 1) as usize,
                    state_type: StateType::MATCH,
                    category: LexemeCategory::EMPTY,
                }
            },
    )
}

/// The edge table of a closure-style wrap: an epsilon edge from the fresh
/// start into the operand, the operand's edges shifted, optionally the
/// repeat edge back to the operand's start, the exit edge to the fresh
/// end, and optionally the skip edge that accepts the empty string.
pub open spec fn wrap_edges(m: GraphModel, repeat: bool, skip: bool) -> Seq<Edge> {
    let n = m.n();
    let enter = seq![(Edge { from_state: 0, next_state: 1, driver_id: 0, driver_type: DriverType::NULL })];
    let inner = shifted_edges(m.edges);
    let again = if repeat {
        seq![(Edge { from_state: n as usize, next_state: 1, driver_id: 0, driver_type: DriverType::NULL })]
    } else {
        Seq::<Edge>::empty()
    };
    let exit = seq![
        (Edge {
            from_state: n as usize,
            next_state: (n + 1) as usize,
            driver_id: 0,
            driver_type: DriverType::NULL,
        }),
    ];
    let over = if skip {
        seq![(Edge { from_state: 0, next_state: (n + 1) as usize, driver_id: 0, driver_type: DriverType::NULL })]
    } else {
        Seq::<Edge>::empty()
    };
    enter + inner + again + exit + over
}

/// The closure-style wrap of a simple-form operand.  With the repeat edge
/// and without the skip edge it is the one-or-more closure; with both it
/// is the Kleene closure; with only the skip edge it is zero-or-one.
pub open spec fn wrap_model(m: GraphModel, repeat: bool, skip: bool) -> GraphModel {
    GraphModel { states: wrap_states(m), edges: wrap_edges(m, repeat, skip) }
}

/// Wrapping a simple-form operand yields a simple-form automaton with two
/// more states.
pub proof fn lemma_wrap_simple_form(m: GraphModel, repeat: bool, skip: bool)
    requires
        m.simple_form(),
        m.n() + 2 <= usize::MAX,
    ensures
        wrap_model(m, repeat, skip).simple_form(),
        wrap_model(m, repeat, skip).n() == m.n() + 2,
{
    let u = wrap_model(m, repeat, skip);
    let n = m.n();
    assert forall|i: int| 0 <= i < u.edges.len() implies {
        &&& (#[trigger] u.edges[i]).from_state < u.states.len()
        &&& u.edges[i].next_state < u.states.len()
        &&& u.edges[i].next_state != 0
        &&& u.edges[i].from_state as int != u.n() - 1
    } by {
        let inner = shifted_edges(m.edges);
        if 1 <= i < 1 + inner.len() {
            assert(u.edges[i] == shift_edge(m.edges[i - 1]));
            assert(m.edges[i - 1].from_state < n && m.edges[i - 1].next_state < n);
        }
    }
    assert(!u.start_has_edge_in());
    assert(!u.end_has_edge_out());
}

impl Graph {
    /// Shared construction of the three closure-style operators: normalize
    /// a private clone of the operand, then wrap it with a fresh start and
    /// end, with or without the repeat and skip edges.
    fn wrap_closure(&self, repeat: bool, skip: bool) -> (r: Result<Graph, ConstructionError>)
        requires
            self.inv(),
            self@.one_accepting(),
            self@.n() + 4 <= usize::MAX,
        ensures
            r is Ok <==> self@.n() >= 2,
            r is Err ==> r->Err_0 == ConstructionError::InvalidGraph,
            r is Ok ==> (r->Ok_0).inv() && (r->Ok_0)@ == wrap_model(normalized(self@), repeat, skip)
                && (r->Ok_0)@.simple_form() && (r->Ok_0).graph_id == 0,
    {
        if self.p_state_table.len() < 2 {
            return Err(ConstructionError::InvalidGraph);
        }
        let mut s = self.duplicate();
        s.equivalent_transform();
        proof {
            lemma_normalized_simple_form(self@);
            lemma_wrap_simple_form(normalized(self@), repeat, skip);
        }
        let ghost sm = normalized(self@);
        let ghost um = wrap_model(sm, repeat, skip);
        let n = s.p_state_table.len();
        let mut states: Vec<State> = Vec::new();
        states.push(
            State { state_id: 0, state_type: StateType::UNMATCH, category: LexemeCategory::EMPTY },
        );
        let mut i: usize = 0;
        while i < n
            invariant
                i <= n,
                n == sm.states.len(),
                sm.simple_form(),
                n + 2 <= usize::MAX,
                s@ == sm,
                um == wrap_model(sm, repeat, skip),
                states@.len() == i + 1,
                forall|j: int| 0 <= j < i + 1 ==> states@[j] == um.states[j],
            decreases n - i,
        {
            let st = s.p_state_table[i];
            proof {
                assert(st == sm.states[i as int]);
                assert(st.state_id == i);
            }
            let ty = if i == n - 1 {
                StateType::UNMATCH
            } else {
                st.state_type
            };
            states.push(State { state_id: i + 1, state_type: ty, category: st.category });
            i += 1;
        }
        states.push(
            State {
                state_id: n + 1,
                state_type: StateType::MATCH,
                category: LexemeCategory::EMPTY,
            },
        );
        proof {
            assert(states@ =~= um.states);
        }
        let mut edges: Vec<Edge> = Vec::new();
        edges.push(Edge { from_state: 0, next_state: 1, driver_id: 0, driver_type: DriverType::NULL });
        let ne = s.p_edge_table.len();
        let mut k: usize = 0;
        while k < ne
            invariant
                k <= ne,
                ne == sm.edges.len(),
                n == sm.states.len(),
                sm.simple_form(),
                n + 2 <= usize::MAX,
                s@ == sm,
                edges@.len() == k + 1,
                edges@[0] == (Edge { from_state: 0, next_state: 1, driver_id: 0, driver_type: DriverType::NULL }),
                forall|l: int| 1 <= l < k + 1 ==> edges@[l] == shift_edge(sm.edges[l - 1]),
            decreases ne - k,
        {
            let e = s.p_edge_table[k];
            proof {
                assert(e == sm.edges[k as int]);
                assert(e.from_state < n && e.next_state < n);
            }
            edges.push(Edge {
                from_state: e.from_state + 1,
                next_state: e.next_state + 1,
                driver_id: e.driver_id,
                driver_type: e.driver_type,
            });
            k += 1;
        }
        if repeat {
            edges.push(Edge { from_state: n, next_state: 1, driver_id: 0, driver_type: DriverType::NULL });
        }
        edges.push(Edge { from_state: n, next_state: n + 1, driver_id: 0, driver_type: DriverType::NULL });
        if skip {
            edges.push(Edge { from_state: 0, next_state: n + 1, driver_id: 0, driver_type: DriverType::NULL });
        }
        proof {
            assert(edges@ =~= um.edges);
        }
        let g = Graph {
            graph_id: 0,
            num_of_states: n + 2,
            p_edge_table: edges,
            p_state_table: states,
        };
        proof {
            assert(g@ =~= um);
        }
        Ok(g)
    }

    /// One-or-more closure: the language of every string built from one or
    /// more repetitions of an operand string.  Fails with `InvalidGraph`
    /// exactly when the operand has fewer than two states.
    pub fn plus_closure(&self) -> (r: Result<Graph, ConstructionError>)
        requires
            self.inv(),
            self@.one_accepting(),
            self@.n() + 4 <= usize::MAX,
        ensures
            r is Ok <==> self@.n() >= 2,
            r is Err ==> r->Err_0 == ConstructionError::InvalidGraph,
            r is Ok ==> (r->Ok_0).inv() && (r->Ok_0)@ == wrap_model(normalized(self@), true, false)
                && (r->Ok_0)@.simple_form() && (r->Ok_0).graph_id == 0,
    {
        self.wrap_closure(true, false)
    }

    /// Kleene closure: the one-or-more closure together with the empty
    /// string, obtained by adding the skip edge from the fresh start to
    /// the fresh end.  Fails with `InvalidGraph` exactly when the operand
    /// has fewer than two states.
    pub fn closure(&self) -> (r: Result<Graph, ConstructionError>)
        requires
            self.inv(),
            self@.one_accepting(),
            self@.n() + 4 <= usize::MAX,
        ensures
            r is Ok <==> self@.n() >= 2,
            r is Err ==> r->Err_0 == ConstructionError::InvalidGraph,
            r is Ok ==> (r->Ok_0).inv() && (r->Ok_0)@ == wrap_model(normalized(self@), true, true)
                && (r->Ok_0)@.simple_form() && (r->Ok_0).graph_id == 0,
    {
        match self.plus_closure() {
            Ok(mut g) => {
                let end = g.p_state_table.len() - 1;
                g.p_edge_table.push(
                    Edge { from_state: 0, next_state: end, driver_id: 0, driver_type: DriverType::NULL },
                );
                proof {
                    let sm = normalized(self@);
                    lemma_normalized_simple_form(self@);
                    assert(g@.edges =~= wrap_edges(sm, true, true));
                    assert(g@ =~= wrap_model(sm, true, true));
                    lemma_wrap_simple_form(sm, true, true);
                }
                Ok(g)
            },
            Err(e) => Err(e),
        }
    }

    /// Zero-or-one: the operand's language together with the empty string,
    /// obtained by wrapping with the skip edge but without the repeat
    /// edge.  Fails with `InvalidGraph` exactly when the operand has fewer
    /// than two states.
    pub fn zero_or_one(&self) -> (r: Result<Graph, ConstructionError>)
        requires
            self.inv(),
            self@.one_accepting(),
            self@.n() + 4 <= usize::MAX,
        ensures
            r is Ok <==> self@.n() >= 2,
            r is Err ==> r->Err_0 == ConstructionError::InvalidGraph,
            r is Ok ==> (r->Ok_0).inv() && (r->Ok_0)@ == wrap_model(normalized(self@), false, true)
                && (r->Ok_0)@.simple_form() && (r->Ok_0).graph_id == 0,
    {
        self.wrap_closure(false, true)
    }
}

/// Every state of a normalized graph keeps an id equal to its index.
proof fn norm_states_id_helper(m: GraphModel, i: int)
    requires
        m.wf(),
        m.n() >= 1,
        m.n() + 2 <= usize::MAX,
        0 <= i < normalized(m).states.len(),
    ensures
        normalized(m).states[i].state_id == i,
{
    let m1 = norm_step1(m);
    assert forall|j: int| 0 <= j < m1.states.len() implies (#[trigger] m1.states[j]).state_id
        == j by {
        if m.start_has_edge_in() && j > 0 {
            assert(m1.states[j] == shift_state(m.states[j - 1]));
            assert(m.states[j - 1].state_id == j - 1);
        }
    }
    let m2 = norm_step2(m1);
    if m1.end_has_edge_out() || m1.end_category() != LexemeCategory::EMPTY {
        if i < m1.n() - 1 {
            assert(m2.states[i] == m1.states[i]);
        } else if i == m1.n() - 1 {
            assert(m2.states[i] == demote(m1.states[i]));
        }
    }
}

/// Every edge of a normalized graph points at states of that graph.
proof fn norm_edges_bound_helper(m: GraphModel, i: int)
    requires
        m.wf(),
        m.n() >= 1,
        m.n() + 2 <= usize::MAX,
        0 <= i < normalized(m).edges.len(),
    ensures
        normalized(m).edges[i].from_state < normalized(m).states.len(),
        normalized(m).edges[i].next_state < normalized(m).states.len(),
{
    let m1 = norm_step1(m);
    assert forall|j: int| 0 <= j < m1.edges.len() implies (#[trigger] m1.edges[j]).from_state
        < m1.states.len() && m1.edges[j].next_state < m1.states.len() by {
        if m.start_has_edge_in() && j > 0 {
            assert(m1.edges[j] == shift_edge(m.edges[j - 1]));
            assert(m.edges[j - 1].from_state < m.states.len());
            assert(m.edges[j - 1].next_state < m.states.len());
        }
    }
    let m2 = norm_step2(m1);
    if m1.end_has_edge_out() || m1.end_category() != LexemeCategory::EMPTY {
        if i < m1.edges.len() {
            assert(m2.edges[i] == m1.edges[i]);
        }
    }
}

} // verus!
