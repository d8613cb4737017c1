//! Subset construction: epsilon-closure, the move function, determinization
//! of an NFA into a DFA, the acceptance relation both share, and the proof
//! that determinization preserves the language.

use vstd::prelude::*;

use crate::ConstructionError;
use crate::graph::{
    DriverType, Edge, Graph, GraphModel, LexemeCategory, State, StateType, is_epsilon,
};

verus! {

/// The set of state ids named by a sequence of ids.
pub open spec fn to_int_set(s: Seq<usize>) -> Set<int> {
    Set::new(|v: int| exists|j: int| 0 <= j < s.len() && s[j] == v)
}

/// A strictly ascending sequence: the canonical way this module hands out
/// a set of state ids, so that two equal sets always print and compare as
/// the same sequence.
pub open spec fn strictly_increasing(s: Seq<usize>) -> bool {
    forall|j1: int, j2: int| 0 <= j1 < j2 < s.len() ==> s[j1] < s[j2]
}

/// Every id in the sequence is below the given state count.
pub open spec fn ids_below(s: Seq<usize>, n: int) -> bool {
    forall|j: int| 0 <= j < s.len() ==> (#[trigger] s[j]) < n
}

/// States reachable from the set `t` by at most `k` epsilon steps.
pub open spec fn eps_reach_k(m: GraphModel, t: Set<int>, v: int, k: nat) -> bool
    decreases k,
{
    if k == 0 {
        t.contains(v)
    } else {
        eps_reach_k(m, t, v, (k - 1) as nat) || exists|i: int|
            0 <= i < m.edges.len() && is_epsilon(#[trigger] m.edges[i]) && m.edges[i].next_state == v
                && eps_reach_k(m, t, m.edges[i].from_state as int, (k - 1) as nat)
    }
}

/// Reachability from `t` by any number of epsilon steps.
pub open spec fn eps_reaches(m: GraphModel, t: Set<int>, v: int) -> bool {
    exists|k: nat| eps_reach_k(m, t, v, k)
}

/// The epsilon-closure of a set of state ids: everything reachable from it
/// by zero or more epsilon edges, the set itself included.
pub open spec fn eclose(m: GraphModel, t: Set<int>) -> Set<int> {
    Set::new(|v: int| eps_reaches(m, t, v))
}

/// A set that already contains the target of every epsilon edge leaving it.
pub open spec fn eps_closed(m: GraphModel, r: Set<int>) -> bool {
    forall|i: int|
        0 <= i < m.edges.len() && is_epsilon(#[trigger] m.edges[i]) && r.contains(
            m.edges[i].from_state as int,
        ) ==> r.contains(m.edges[i].next_state as int)
}

/// The closure contains its seed.
pub proof fn lemma_eclose_seed(m: GraphModel, t: Set<int>)
    ensures
        t.subset_of(eclose(m, t)),
{
    assert forall|v: int| t.contains(v) implies eclose(m, t).contains(v) by {
        assert(eps_reach_k(m, t, v, 0));
    }
}

/// The closure is closed under epsilon edges.
pub proof fn lemma_eclose_closed(m: GraphModel, t: Set<int>)
    ensures
        eps_closed(m, eclose(m, t)),
{
    assert forall|i: int|
        0 <= i < m.edges.len() && is_epsilon(#[trigger] m.edges[i]) && eclose(m, t).contains(
            m.edges[i].from_state as int,
        ) implies eclose(m, t).contains(m.edges[i].next_state as int) by {
        let from = m.edges[i].from_state as int;
        let k = choose|k: nat| eps_reach_k(m, t, from, k);
        assert(eps_reach_k(m, t, m.edges[i].next_state as int, k + 1));
    }
}

/// Whatever the closure reaches by `k` steps lies in any epsilon-closed
/// superset of the seed.
proof fn lemma_eps_reach_in_closed(m: GraphModel, t: Set<int>, r: Set<int>, v: int, k: nat)
    requires
        t.subset_of(r),
        eps_closed(m, r),
        eps_reach_k(m, t, v, k),
    ensures
        r.contains(v),
    decreases k,
{
    if k == 0 {
    } else if eps_reach_k(m, t, v, (k - 1) as nat) {
        lemma_eps_reach_in_closed(m, t, r, v, (k - 1) as nat);
    } else {
        let i = choose|i: int|
            0 <= i < m.edges.len() && is_epsilon(#[trigger] m.edges[i]) && m.edges[i].next_state
                == v && eps_reach_k(m, t, m.edges[i].from_state as int, (k - 1) as nat);
        lemma_eps_reach_in_closed(m, t, r, m.edges[i].from_state as int, (k - 1) as nat);
    }
}

/// The closure is the least epsilon-closed superset of its seed.
pub proof fn lemma_eclose_minimal(m: GraphModel, t: Set<int>, r: Set<int>)
    requires
        t.subset_of(r),
        eps_closed(m, r),
    ensures
        eclose(m, t).subset_of(r),
{
    assert forall|v: int| eclose(m, t).contains(v) implies r.contains(v) by {
        let k = choose|k: nat| eps_reach_k(m, t, v, k);
        lemma_eps_reach_in_closed(m, t, r, v, k);
    }
}

/// Law: the epsilon-closure is idempotent — closing a closure adds nothing.
pub proof fn lemma_eclose_idempotent(m: GraphModel, t: Set<int>)
    ensures
        eclose(m, eclose(m, t)) == eclose(m, t),
{
    lemma_eclose_seed(m, eclose(m, t));
    lemma_eclose_closed(m, t);
    lemma_eclose_minimal(m, eclose(m, t), eclose(m, t));
    assert(eclose(m, eclose(m, t)) =~= eclose(m, t));
}

/// The empty set reaches nothing: its closure is empty.
pub proof fn lemma_eclose_empty(m: GraphModel)
    ensures
        eclose(m, Set::<int>::empty()) == Set::<int>::empty(),
{
    lemma_eclose_minimal(m, Set::<int>::empty(), Set::<int>::empty());
    assert(eclose(m, Set::<int>::empty()) =~= Set::<int>::empty());
}

/// In a strictly ascending sequence the last element is the largest.
proof fn lemma_strictly_increasing_last(s: Seq<usize>)
    requires
        strictly_increasing(s),
        s.len() > 0,
    ensures
        forall|j: int| 0 <= j < s.len() ==> (#[trigger] s[j]) <= s.last(),
{
}

/// Dropping the last element of a strictly ascending sequence removes
/// exactly that element from the set it names.
proof fn lemma_to_int_set_drop_last(s: Seq<usize>)
    requires
        strictly_increasing(s),
        s.len() > 0,
    ensures
        to_int_set(s.drop_last()) == to_int_set(s).remove(s.last() as int),
{
    let l = s.last() as int;
    assert forall|v: int| to_int_set(s.drop_last()).contains(v) implies to_int_set(s).remove(
        l,
    ).contains(v) by {
        let j = choose|j: int| 0 <= j < s.drop_last().len() && s.drop_last()[j] == v;
        assert(s[j] == v);
        assert(s[j] < s.last());
    }
    assert forall|v: int| to_int_set(s).remove(l).contains(v) implies to_int_set(
        s.drop_last(),
    ).contains(v) by {
        let j = choose|j: int| 0 <= j < s.len() && s[j] == v;
        assert(j != s.len() - 1);
        assert(s.drop_last()[j] == v);
    }
    assert(to_int_set(s.drop_last()) =~= to_int_set(s).remove(l));
}

/// Law: a set of state ids has exactly one strictly ascending listing, so
/// any procedure that returns its result in that canonical shape returns
/// the same sequence no matter in which order it discovered the elements.
pub proof fn lemma_canonical_unique(a: Seq<usize>, b: Seq<usize>)
    requires
        strictly_increasing(a),
        strictly_increasing(b),
        to_int_set(a) == to_int_set(b),
    ensures
        a == b,
    decreases a.len(),
{
    if a.len() == 0 {
        if b.len() > 0 {
            assert(to_int_set(b).contains(b[0] as int));
        }
        assert(a =~= b);
    } else {
        if b.len() == 0 {
            assert(to_int_set(a).contains(a[0] as int));
        }
        let la = a.last();
        let lb = b.last();
        assert(to_int_set(a).contains(la as int));
        assert(to_int_set(b).contains(lb as int));
        lemma_strictly_increasing_last(a);
        lemma_strictly_increasing_last(b);
        assert(la <= lb) by {
            let j = choose|j: int| 0 <= j < b.len() && b[j] == la as int;
            assert(b[j] <= lb);
        }
        assert(lb <= la) by {
            let j = choose|j: int| 0 <= j < a.len() && a[j] == lb as int;
            assert(a[j] <= la);
        }
        lemma_to_int_set_drop_last(a);
        lemma_to_int_set_drop_last(b);
        lemma_canonical_unique(a.drop_last(), b.drop_last());
        assert(a =~= a.drop_last().push(la));
        assert(b =~= b.drop_last().push(lb));
    }
}

/// How many entries of a boolean sequence are set.
spec fn count_trues(s: Seq<bool>) -> nat
    decreases s.len(),
{
    if s.len() == 0 {
        0
    } else {
        (if s.last() {
            1nat
        } else {
            0nat
        }) + count_trues(s.drop_last())
    }
}

proof fn lemma_count_trues_le(s: Seq<bool>)
    ensures
        count_trues(s) <= s.len(),
    decreases s.len(),
{
    if s.len() > 0 {
        lemma_count_trues_le(s.drop_last());
    }
}

proof fn lemma_count_trues_update(s: Seq<bool>, i: int)
    requires
        0 <= i < s.len(),
        !s[i],
    ensures
        count_trues(s.update(i, true)) == count_trues(s) + 1,
    decreases s.len(),
{
    let t = s.update(i, true);
    if i == s.len() - 1 {
        assert(t.drop_last() =~= s.drop_last());
    } else {
        assert(t.drop_last() =~= s.drop_last().update(i, true));
        lemma_count_trues_update(s.drop_last(), i);
    }
}

/// Does the sequence of ids contain the given id?
fn contains_id(v: &Vec<usize>, x: usize) -> (b: bool)
    ensures
        b == to_int_set(v@).contains(x as int),
{
    let n = v.len();
    let mut i: usize = 0;
    while i < n
        invariant
            i <= n,
            n == v@.len(),
            forall|j: int| 0 <= j < i ==> (#[trigger] v@[j]) != x,
        decreases n - i,
    {
        if v[i] == x {
            return true;
        }
        i += 1;
    }
    false
}

impl Graph {
    /// The set of states reachable from any state of `state_vec` by zero or
    /// more epsilon edges, returned as the canonical strictly ascending
    /// listing.  Because the result is canonical and the closure set is
    /// unique, the answer does not depend on the order in which the
    /// worklist inside happens to visit states.
    pub fn epsilon_closure(&self, state_vec: &Vec<usize>) -> (r: Vec<usize>)
        requires
            self.inv(),
            ids_below(state_vec@, self@.n()),
        ensures
            strictly_increasing(r@),
            ids_below(r@, self@.n()),
            to_int_set(r@) == eclose(self@, to_int_set(state_vec@)),
    {
        let ghost m = self@;
        let ghost t0 = to_int_set(state_vec@);
        let n = self.p_state_table.len();
        let mut visited: Vec<bool> = Vec::new();
        let mut z: usize = 0;
        while z < n
            invariant
                z <= n,
                visited@.len() == z,
                forall|j: int| 0 <= j < z ==> !(#[trigger] visited@[j]),
            decreases n - z,
        {
            visited.push(false);
            z += 1;
        }
        proof {
            assert(count_trues(visited@) == 0) by {
                lemma_count_all_false(visited@);
            }
        }
        let mut stack: Vec<usize> = Vec::new();
        let mut num_visited: usize = 0;
        let sl = state_vec.len();
        let mut si: usize = 0;
        while si < sl
            invariant
                si <= sl,
                sl == state_vec@.len(),
                self.inv(),
                m == self@,
                t0 == to_int_set(state_vec@),
                ids_below(state_vec@, m.n()),
                visited@.len() == n,
                n == m.states.len(),
                num_visited == count_trues(visited@),
                num_visited <= n,
                forall|j: int|
                    0 <= j < stack@.len() ==> (#[trigger] stack@[j]) < n && visited@[stack@[j] as int],
                forall|v: int|
                    0 <= v < n && (#[trigger] visited@[v]) ==> eclose(m, t0).contains(v),
                forall|v: int|
                    0 <= v < n && (#[trigger] visited@[v]) && !stack@.contains(v as usize)
                        ==> expanded(m, visited@, v),
                forall|j: int| 0 <= j < si ==> visited@[(#[trigger] state_vec@[j]) as int],
            decreases sl - si,
        {
            let v = state_vec[si];
            if !visited[v] {
                proof {
                    lemma_count_trues_update(visited@, v as int);
                    lemma_count_trues_le(visited@.update(v as int, true));
                    lemma_eclose_seed(m, t0);
                    assert(t0.contains(v as int));
                }
                let ghost pre_vis = visited@;
                let ghost pre_st = stack@;
                visited.set(v, true);
                stack.push(v);
                num_visited += 1;
                proof {
                    assert(stack@[pre_st.len() as int] == v);
                    assert(stack@.contains(v));
                    assert forall|x: int|
                        0 <= x < n && (#[trigger] visited@[x]) && !stack@.contains(x as usize) implies expanded(
                        m,
                        visited@,
                        x,
                    ) by {
                        assert(x != v as int);
                        assert(!pre_st.contains(x as usize)) by {
                            if pre_st.contains(x as usize) {
                                let j = choose|j: int|
                                    0 <= j < pre_st.len() && pre_st[j] == x as usize;
                                assert(stack@[j] == x as usize);
                            }
                        }
                        assert(pre_vis[x]);
                        assert(expanded(m, pre_vis, x));
                        assert forall|i: int|
                            0 <= i < m.edges.len() && is_epsilon(#[trigger] m.edges[i])
                                && m.edges[i].from_state as int == x implies visited@[m.edges[i].next_state as int] by {
                            assert(pre_vis[m.edges[i].next_state as int]);
                        }
                    }
                }
            }
            si += 1;
        }
        while stack.len() > 0
            invariant
                self.inv(),
                m == self@,
                t0 == to_int_set(state_vec@),
                ids_below(state_vec@, m.n()),
                visited@.len() == n,
                n == m.states.len(),
                num_visited == count_trues(visited@),
                num_visited <= n,
                forall|j: int|
                    0 <= j < stack@.len() ==> (#[trigger] stack@[j]) < n && visited@[stack@[j] as int],
                forall|v: int|
                    0 <= v < n && (#[trigger] visited@[v]) ==> eclose(m, t0).contains(v),
                forall|v: int|
                    0 <= v < n && (#[trigger] visited@[v]) && !stack@.contains(v as usize)
                        ==> expanded(m, visited@, v),
                forall|j: int|
                    0 <= j < state_vec@.len() ==> visited@[(#[trigger] state_vec@[j]) as int],
            decreases 2 * (n - num_visited) + stack@.len(),
        {
            let ghost pre_stack = stack@;
            let u = match stack.pop() {
                Some(value) => value,
                None => {
                    proof {
                        assert(false);
                    }
                    0
                },
            };
            proof {
                assert(u == pre_stack.last());
                assert(stack@ == pre_stack.subrange(0, pre_stack.len() - 1));
                assert forall|v: int|
                    0 <= v < n && visited@[v] && !stack@.contains(v as usize) && v
                        != u as int implies expanded(m, visited@, v) by {
                    assert(!pre_stack.contains(v as usize)) by {
                        if pre_stack.contains(v as usize) {
                            let j = choose|j: int|
                                0 <= j < pre_stack.len() && pre_stack[j] == v as usize;
                            assert(j < pre_stack.len() - 1);
                            assert(stack@[j] == v as usize);
                        }
                    }
                }
            }
            let ghost nv0 = num_visited as int;
            let ghost sl0 = stack@.len() as int;
            let ne = self.p_edge_table.len();
            let mut ei: usize = 0;
            while ei < ne
                invariant
                    ei <= ne,
                    ne == m.edges.len(),
                    self.inv(),
                    m == self@,
                    t0 == to_int_set(state_vec@),
                    ids_below(state_vec@, m.n()),
                    visited@.len() == n,
                    n == m.states.len(),
                    num_visited == count_trues(visited@),
                    num_visited <= n,
                    u < n,
                    visited@[u as int],
                    forall|j: int|
                        0 <= j < stack@.len() ==> (#[trigger] stack@[j]) < n && visited@[stack@[j] as int],
                    forall|v: int|
                        0 <= v < n && (#[trigger] visited@[v]) ==> eclose(m, t0).contains(v),
                    forall|v: int|
                        0 <= v < n && (#[trigger] visited@[v]) && !stack@.contains(v as usize) && v
                            != u as int ==> expanded(m, visited@, v),
                    forall|i: int|
                        0 <= i < ei && is_epsilon(#[trigger] m.edges[i]) && m.edges[i].from_state
                            == u ==> visited@[m.edges[i].next_state as int],
                    forall|j: int|
                        0 <= j < state_vec@.len() ==> visited@[(#[trigger] state_vec@[j]) as int],
                    2 * (n - num_visited) + stack@.len() <= 2 * (n - nv0) + sl0,
                decreases ne - ei,
            {
                let e = self.p_edge_table[ei];
                let is_eps = match e.driver_type {
                    DriverType::NULL => true,
                    _ => false,
                };
                if is_eps && e.from_state == u {
                    let w = e.next_state;
                    proof {
                        assert(e == m.edges[ei as int]);
                        assert(w < n);
                    }
                    if !visited[w] {
                        proof {
                            lemma_count_trues_update(visited@, w as int);
                            lemma_count_trues_le(visited@.update(w as int, true));
                            lemma_eclose_closed(m, t0);
                            assert(eclose(m, t0).contains(u as int));
                            assert(eclose(m, t0).contains(w as int));
                        }
                        let ghost pre_vis = visited@;
                        let ghost pre_st = stack@;
                        visited.set(w, true);
                        stack.push(w);
                        num_visited += 1;
                        proof {
                            assert(stack@[pre_st.len() as int] == w);
                            assert(stack@.contains(w));
                            assert forall|v: int|
                                0 <= v < n && visited@[v] && !stack@.contains(v as usize) && v
                                    != u as int implies expanded(m, visited@, v) by {
                                assert(v != w as int);
                                assert(!pre_st.contains(v as usize)) by {
                                    if pre_st.contains(v as usize) {
                                        let j = choose|j: int|
                                            0 <= j < pre_st.len() && pre_st[j] == v as usize;
                                        assert(stack@[j] == v as usize);
                                    }
                                }
                                assert(pre_vis[v]);
                                assert(expanded(m, pre_vis, v));
                                assert forall|i: int|
                                    0 <= i < m.edges.len() && is_epsilon(#[trigger] m.edges[i])
                                        && m.edges[i].from_state as int == v implies visited@[m.edges[i].next_state as int] by {
                                    assert(pre_vis[m.edges[i].next_state as int]);
                                }
                            }
                        }
                    }
                }
                ei += 1;
            }
            proof {
                assert(expanded(m, visited@, u as int));
                assert forall|v: int|
                    0 <= v < n && (#[trigger] visited@[v]) && !stack@.contains(v as usize) implies expanded(
                    m,
                    visited@,
                    v,
                ) by {
                    if v != u as int {
                    }
                }
            }
        }
        let ghost vset = Set::new(|x: int| 0 <= x < n && visited@[x]);
        proof {
            assert(t0.subset_of(vset)) by {
                assert forall|v: int| t0.contains(v) implies vset.contains(v) by {
                    let j = choose|j: int| 0 <= j < state_vec@.len() && state_vec@[j] == v;
                    assert(visited@[state_vec@[j] as int]);
                };
            }
            assert(eps_closed(m, vset)) by {
                assert forall|i: int|
                    0 <= i < m.edges.len() && is_epsilon(#[trigger] m.edges[i]) && vset.contains(
                        m.edges[i].from_state as int,
                    ) implies vset.contains(m.edges[i].next_state as int) by {
                    let v = m.edges[i].from_state as int;
                    assert(expanded(m, visited@, v));
                };
            }
            lemma_eclose_minimal(m, t0, vset);
            assert(eclose(m, t0).subset_of(vset));
            assert(vset.subset_of(eclose(m, t0)));
        }
        let mut r: Vec<usize> = Vec::new();
        let mut v: usize = 0;
        while v < n
            invariant
                v <= n,
                visited@.len() == n,
                strictly_increasing(r@),
                ids_below(r@, n as int),
                forall|j: int| 0 <= j < r@.len() ==> (#[trigger] r@[j]) < v,
                forall|x: int| to_int_set(r@).contains(x) <==> (0 <= x < v && visited@[x]),
            decreases n - v,
        {
            if visited[v] {
                let ghost rpre = r@;
                r.push(v);
                proof {
                    assert forall|x: int| to_int_set(r@).contains(x) <==> (0 <= x < v + 1
                        && visited@[x]) by {
                        assert(r@ == rpre.push(v));
                        if to_int_set(r@).contains(x) {
                            let j = choose|j: int| 0 <= j < r@.len() && r@[j] == x;
                            if j < rpre.len() {
                                assert(to_int_set(rpre).contains(x));
                            }
                        }
                        if 0 <= x < v + 1 && visited@[x] {
                            if x < v {
                                assert(to_int_set(rpre).contains(x));
                                let j = choose|j: int| 0 <= j < rpre.len() && rpre[j] == x;
                                assert(r@[j] == x);
                            } else {
                                assert(r@[rpre.len() as int] == v);
                            }
                        }
                    };
                }
            }
            v += 1;
        }
        proof {
            assert(to_int_set(r@) =~= vset);
            assert(to_int_set(r@) =~= eclose(m, t0));
        }
        r
    }
}

/// The set of state ids reachable from `t` by exactly one edge whose
/// driver is the given symbol or symbol class.
pub open spec fn move_set(m: GraphModel, t: Set<int>, driver_type: DriverType, driver_id: usize) -> Set<int> {
    Set::new(
        |v: int|
            exists|i: int|
                0 <= i < m.edges.len() && t.contains((#[trigger] m.edges[i]).from_state as int)
                    && m.edges[i].driver_type == driver_type && m.edges[i].driver_id == driver_id
                    && m.edges[i].next_state == v,
    )
}

impl Graph {
    /// The set of states reachable from any state of `state_vec` by exactly
    /// one edge on the given driver, as the canonical ascending listing.
    pub fn move_transfer(&self, state_vec: &Vec<usize>, driver_type: DriverType, driver_id: usize) -> (r: Vec<usize>)
        requires
            self.inv(),
            ids_below(state_vec@, self@.n()),
        ensures
            strictly_increasing(r@),
            ids_below(r@, self@.n()),
            to_int_set(r@) == move_set(self@, to_int_set(state_vec@), driver_type, driver_id),
    {
        let ghost m = self@;
        let ghost t0 = to_int_set(state_vec@);
        let n = self.p_state_table.len();
        let mut marks: Vec<bool> = Vec::new();
        let mut z: usize = 0;
        while z < n
            invariant
                z <= n,
                marks@.len() == z,
                forall|j: int| 0 <= j < z ==> !(#[trigger] marks@[j]),
            decreases n - z,
        {
            marks.push(false);
            z += 1;
        }
        let ne = self.p_edge_table.len();
        let mut ei: usize = 0;
        while ei < ne
            invariant
                ei <= ne,
                ne == m.edges.len(),
                self.inv(),
                m == self@,
                t0 == to_int_set(state_vec@),
                marks@.len() == n,
                n == m.states.len(),
                forall|x: int|
                    0 <= x < n ==> ((#[trigger] marks@[x]) <==> exists|i: int|
                        0 <= i < ei && t0.contains((#[trigger] m.edges[i]).from_state as int)
                            && m.edges[i].driver_type == driver_type && m.edges[i].driver_id
                            == driver_id && m.edges[i].next_state as int == x),
            decreases ne - ei,
        {
            let e = self.p_edge_table[ei];
            proof {
                assert(e == m.edges[ei as int]);
                assert(e.next_state < n);
            }
            let ghost pre = marks@;
            let same_type = e.driver_type == driver_type;
            if same_type && e.driver_id == driver_id && contains_id(state_vec, e.from_state) {
                marks.set(e.next_state, true);
            }
            proof {
                assert forall|x: int|
                    0 <= x < n implies ((#[trigger] marks@[x]) <==> exists|i: int|
                        0 <= i < ei + 1 && t0.contains((#[trigger] m.edges[i]).from_state as int)
                            && m.edges[i].driver_type == driver_type && m.edges[i].driver_id
                            == driver_id && m.edges[i].next_state as int == x) by {
                    if marks@[x] {
                        if pre[x] {
                            let i = choose|i: int|
                                0 <= i < ei && t0.contains(
                                    (#[trigger] m.edges[i]).from_state as int,
                                ) && m.edges[i].driver_type == driver_type && m.edges[i].driver_id
                                    == driver_id && m.edges[i].next_state as int == x;
                            assert(0 <= i < ei + 1 && t0.contains(m.edges[i].from_state as int)
                                && m.edges[i].driver_type == driver_type && m.edges[i].driver_id
                                == driver_id && m.edges[i].next_state as int == x);
                        } else {
                            assert(t0.contains(m.edges[ei as int].from_state as int)
                                && m.edges[ei as int].driver_type == driver_type
                                && m.edges[ei as int].driver_id == driver_id
                                && m.edges[ei as int].next_state as int == x);
                        }
                    }
                }
            }
            ei += 1;
        }
        let r = collect_marked(&marks);
        proof {
            assert forall|v: int| to_int_set(r@).contains(v) <==> move_set(
                m,
                t0,
                driver_type,
                driver_id,
            ).contains(v) by {
                if to_int_set(r@).contains(v) {
                    assert(0 <= v < n && marks@[v]);
                    let i = choose|i: int|
                        0 <= i < ne && t0.contains((#[trigger] m.edges[i]).from_state as int)
                            && m.edges[i].driver_type == driver_type && m.edges[i].driver_id
                            == driver_id && m.edges[i].next_state as int == v;
                    assert(move_set(m, t0, driver_type, driver_id).contains(v));
                }
                if move_set(m, t0, driver_type, driver_id).contains(v) {
                    let i = choose|i: int|
                        0 <= i < m.edges.len() && t0.contains(
                            (#[trigger] m.edges[i]).from_state as int,
                        ) && m.edges[i].driver_type == driver_type && m.edges[i].driver_id
                            == driver_id && m.edges[i].next_state == v;
                    assert(m.edges[i].next_state < n);
                    assert(marks@[v]);
                }
            }
            assert(to_int_set(r@) =~= move_set(m, t0, driver_type, driver_id));
        }
        r
    }
}

/// Lists the indices of the set entries of a boolean table, in ascending
/// order.
fn collect_marked(marks: &Vec<bool>) -> (r: Vec<usize>)
    ensures
        strictly_increasing(r@),
        ids_below(r@, marks@.len() as int),
        forall|x: int| to_int_set(r@).contains(x) <==> (0 <= x < marks@.len() && marks@[x]),
{
    let n = marks.len();
    let mut r: Vec<usize> = Vec::new();
    let mut v: usize = 0;
    while v < n
        invariant
            v <= n,
            marks@.len() == n,
            strictly_increasing(r@),
            ids_below(r@, n as int),
            forall|j: int| 0 <= j < r@.len() ==> (#[trigger] r@[j]) < v,
            forall|x: int| to_int_set(r@).contains(x) <==> (0 <= x < v && marks@[x]),
        decreases n - v,
    {
        if marks[v] {
            let ghost rpre = r@;
            r.push(v);
            proof {
                assert forall|x: int| to_int_set(r@).contains(x) <==> (0 <= x < v + 1
                    && marks@[x]) by {
                    assert(r@ == rpre.push(v));
                    if to_int_set(r@).contains(x) {
                        let j = choose|j: int| 0 <= j < r@.len() && r@[j] == x;
                        if j < rpre.len() {
                            assert(to_int_set(rpre).contains(x));
                        }
                    }
                    if 0 <= x < v + 1 && marks@[x] {
                        if x < v {
                            assert(to_int_set(rpre).contains(x));
                            let j = choose|j: int| 0 <= j < rpre.len() && rpre[j] == x;
                            assert(r@[j] == x);
                        } else {
                            assert(r@[rpre.len() as int] == v);
                        }
                    }
                };
            }
        }
        v += 1;
    }
    r
}

/// Every epsilon successor of state `v` is already marked visited.
pub open spec fn expanded(m: GraphModel, vis: Seq<bool>, v: int) -> bool {
    forall|i: int|
        0 <= i < m.edges.len() && is_epsilon(#[trigger] m.edges[i]) && m.edges[i].from_state as int
            == v ==> vis[m.edges[i].next_state as int]
}

/// The number named by a set of ids read as a binary bit mask.
spec fn bitmask(s: Seq<usize>) -> nat
    decreases s.len(),
{
    if s.len() == 0 {
        0
    } else {
        bitmask(s.drop_last()) + vstd::arithmetic::power2::pow2(s.last() as nat)
    }
}

proof fn lemma_pow2_le(e1: nat, e2: nat)
    requires
        e1 <= e2,
    ensures
        vstd::arithmetic::power2::pow2(e1) <= vstd::arithmetic::power2::pow2(e2),
{
    if e1 < e2 {
        vstd::arithmetic::power2::lemma_pow2_strictly_increases(e1, e2);
    }
}

/// The bit mask of a strictly ascending id listing lies between the power
/// of two of its largest id and the next power.
proof fn lemma_bitmask_range(s: Seq<usize>)
    requires
        strictly_increasing(s),
        s.len() > 0,
    ensures
        vstd::arithmetic::power2::pow2(s.last() as nat) <= bitmask(s) < vstd::arithmetic::power2::pow2(
            (s.last() + 1) as nat,
        ),
    decreases s.len(),
{
    vstd::arithmetic::power2::lemma_pow2_unfold((s.last() + 1) as nat);
    if s.len() == 1 {
        assert(bitmask(s.drop_last()) == 0);
        vstd::arithmetic::power2::lemma_pow2_pos(s.last() as nat);
    } else {
        let d = s.drop_last();
        assert(strictly_increasing(d)) by {
            assert forall|j1: int, j2: int| 0 <= j1 < j2 < d.len() implies d[j1] < d[j2] by {
                assert(s[j1] < s[j2]);
            }
        }
        lemma_bitmask_range(d);
        assert(d.last() == s[s.len() - 2]);
        assert(d.last() < s.last());
        lemma_pow2_le((d.last() + 1) as nat, s.last() as nat);
    }
}

/// Different strictly ascending listings have different bit masks.
proof fn lemma_bitmask_injective(a: Seq<usize>, b: Seq<usize>)
    requires
        strictly_increasing(a),
        strictly_increasing(b),
        a != b,
    ensures
        bitmask(a) != bitmask(b),
    decreases a.len() + b.len(),
{
    if a.len() == 0 {
        if b.len() == 0 {
            assert(a =~= b);
        }
        lemma_bitmask_range(b);
        vstd::arithmetic::power2::lemma_pow2_pos(b.last() as nat);
    } else if b.len() == 0 {
        lemma_bitmask_range(a);
        vstd::arithmetic::power2::lemma_pow2_pos(a.last() as nat);
    } else if a.last() == b.last() {
        let da = a.drop_last();
        let db = b.drop_last();
        assert(strictly_increasing(da) && strictly_increasing(db)) by {
            assert forall|j1: int, j2: int| 0 <= j1 < j2 < da.len() implies da[j1] < da[j2] by {
                assert(a[j1] < a[j2]);
            }
            assert forall|j1: int, j2: int| 0 <= j1 < j2 < db.len() implies db[j1] < db[j2] by {
                assert(b[j1] < b[j2]);
            }
        }
        if da == db {
            assert(a =~= da.push(a.last()));
            assert(b =~= db.push(b.last()));
        } else {
            lemma_bitmask_injective(da, db);
        }
    } else if a.last() < b.last() {
        lemma_bitmask_range(a);
        lemma_bitmask_range(b);
        lemma_pow2_le((a.last() + 1) as nat, b.last() as nat);
    } else {
        lemma_bitmask_range(a);
        lemma_bitmask_range(b);
        lemma_pow2_le((b.last() + 1) as nat, a.last() as nat);
    }
}

/// A family of pairwise different subsets of `n` states can have at most
/// `2^n` members: the reason the discovery worklist terminates.
proof fn lemma_distinct_canonical_bound(ds: Seq<Seq<usize>>, n: int)
    requires
        n >= 0,
        forall|q: int|
            0 <= q < ds.len() ==> strictly_increasing(#[trigger] ds[q]) && ids_below(ds[q], n),
        forall|q1: int, q2: int| 0 <= q1 < q2 < ds.len() ==> (#[trigger] ds[q1]) != (#[trigger] ds[q2]),
    ensures
        ds.len() <= vstd::arithmetic::power2::pow2(n as nat),
{
    let p = vstd::arithmetic::power2::pow2(n as nat) as int;
    let encs: Seq<int> = Seq::new(ds.len(), |q: int| bitmask(ds[q]) as int);
    assert(encs.no_duplicates()) by {
        assert forall|q1: int, q2: int|
            0 <= q1 < encs.len() && 0 <= q2 < encs.len() && q1 != q2 implies encs[q1]
            != encs[q2] by {
            if q1 < q2 {
                lemma_bitmask_injective(ds[q1], ds[q2]);
            } else {
                lemma_bitmask_injective(ds[q2], ds[q1]);
            }
        }
    }
    assert forall|q: int| 0 <= q < encs.len() implies 0 <= #[trigger] encs[q] < p by {
        if ds[q].len() == 0 {
            vstd::arithmetic::power2::lemma_pow2_pos(n as nat);
        } else {
            lemma_bitmask_range(ds[q]);
            assert(ds[q].last() < n);
            lemma_pow2_le((ds[q].last() + 1) as nat, n as nat);
        }
    }
    encs.unique_seq_to_set();
    vstd::set_lib::lemma_int_range(0, p);
    assert(encs.to_set().subset_of(vstd::set_lib::set_int_range(0, p))) by {
        assert forall|x: int| encs.to_set().contains(x) implies vstd::set_lib::set_int_range(
            0,
            p,
        ).contains(x) by {
            let q = choose|q: int| 0 <= q < encs.len() && encs[q] == x;
        }
    }
    vstd::set_lib::lemma_len_subset(encs.to_set(), vstd::set_lib::set_int_range(0, p));
}

/// Does the driver list already hold the given driver?
fn contains_driver(alphabet: &Vec<(DriverType, usize)>, driver_type: DriverType, driver_id: usize) -> (b: bool)
    ensures
        b == alphabet@.contains((driver_type, driver_id)),
{
    let n = alphabet.len();
    let mut i: usize = 0;
    while i < n
        invariant
            i <= n,
            n == alphabet@.len(),
            forall|j: int| 0 <= j < i ==> (#[trigger] alphabet@[j]) != (driver_type, driver_id),
        decreases n - i,
    {
        let d = alphabet[i];
        if d.0 == driver_type && d.1 == driver_id {
            proof {
                assert(alphabet@[i as int] == (driver_type, driver_id));
            }
            return true;
        }
        i += 1;
    }
    false
}

/// Do the two id listings hold the same ids in the same order?
fn same_ids(a: &Vec<usize>, b: &Vec<usize>) -> (r: bool)
    ensures
        r == (a@ == b@),
{
    if a.len() != b.len() {
        return false;
    }
    let n = a.len();
    let mut i: usize = 0;
    while i < n
        invariant
            i <= n,
            n == a@.len(),
            n == b@.len(),
            forall|j: int| 0 <= j < i ==> (#[trigger] a@[j]) == b@[j],
        decreases n - i,
    {
        if a[i] != b[i] {
            return false;
        }
        i += 1;
    }
    proof {
        assert(a@ =~= b@);
    }
    true
}

/// A fresh copy of an id listing.
fn copy_ids(v: &Vec<usize>) -> (r: Vec<usize>)
    ensures
        r@ == v@,
{
    let n = v.len();
    let mut r: Vec<usize> = Vec::new();
    let mut i: usize = 0;
    while i < n
        invariant
            i <= n,
            n == v@.len(),
            r@ == v@.take(i as int),
        decreases n - i,
    {
        r.push(v[i]);
        proof {
            assert(r@ =~= v@.take(i + 1));
        }
        i += 1;
    }
    proof {
        assert(r@ =~= v@);
    }
    r
}

/// The position of the given subset among the discovered subsets, if it
/// was discovered already.
fn find_subset(d_states: &Vec<Vec<usize>>, u: &Vec<usize>) -> (r: Option<usize>)
    ensures
        r is Some ==> (r->0 as int) < d_states@.len() && d_states@[r->0 as int]@ == u@,
        r is None ==> forall|j: int| 0 <= j < d_states@.len() ==> (#[trigger] d_states@[j])@ != u@,
{
    let n = d_states.len();
    let mut i: usize = 0;
    while i < n
        invariant
            i <= n,
            n == d_states@.len(),
            forall|j: int| 0 <= j < i ==> (#[trigger] d_states@[j])@ != u@,
        decreases n - i,
    {
        if same_ids(&d_states[i], u) {
            return Some(i);
        }
        i += 1;
    }
    None
}

/// Does the subset hold an accepting state of this automaton?
pub open spec fn has_match(m: GraphModel, s: Set<int>) -> bool {
    exists|v: int|
        s.contains(v) && 0 <= v < m.states.len() && (#[trigger] m.states[v]).state_type
            == StateType::MATCH
}

impl Graph {
    /// Does the listed subset of this automaton's states hold an accepting
    /// state?
    fn contains_match(&self, ids: &Vec<usize>) -> (r: bool)
        requires
            self.inv(),
            ids_below(ids@, self@.n()),
        ensures
            r == has_match(self@, to_int_set(ids@)),
    {
        let ghost m = self@;
        let n = ids.len();
        let mut i: usize = 0;
        while i < n
            invariant
                i <= n,
                n == ids@.len(),
                self.inv(),
                m == self@,
                ids_below(ids@, m.n()),
                forall|j: int|
                    0 <= j < i ==> (#[trigger] m.states[ids@[j] as int]).state_type
                        != StateType::MATCH,
            decreases n - i,
        {
            let v = ids[i];
            let st = self.p_state_table[v];
            let is_match = match st.state_type {
                StateType::MATCH => true,
                StateType::UNMATCH => false,
            };
            if is_match {
                proof {
                    assert(to_int_set(ids@).contains(v as int));
                    assert(m.states[v as int].state_type == StateType::MATCH);
                }
                return true;
            }
            i += 1;
        }
        proof {
            if has_match(m, to_int_set(ids@)) {
                let v = choose|v: int|
                    to_int_set(ids@).contains(v) && 0 <= v < m.states.len() && (
                    #[trigger] m.states[v]).state_type == StateType::MATCH;
                let j = choose|j: int| 0 <= j < ids@.len() && ids@[j] == v;
                assert(m.states[ids@[j] as int].state_type != StateType::MATCH);
            }
        }
        false
    }
}

/// All state ids of an automaton, as a set.
pub open spec fn state_ids(m: GraphModel) -> Set<int> {
    Set::new(|v: int| 0 <= v < m.states.len())
}

/// Is this driver one of the symbols or symbol classes that actually
/// appears on an edge of the automaton — its alphabet?
pub open spec fn in_alphabet(m: GraphModel, driver_type: DriverType, driver_id: usize) -> bool {
    driver_type != DriverType::NULL && exists|i: int|
        0 <= i < m.edges.len() && (#[trigger] m.edges[i]).driver_type == driver_type
            && m.edges[i].driver_id == driver_id
}

/// No state has two outgoing edges on the same driver.
pub open spec fn deterministic(m: GraphModel) -> bool {
    forall|i1: int, i2: int|
        0 <= i1 < i2 < m.edges.len() ==> !((#[trigger] m.edges[i1]).from_state == (
        #[trigger] m.edges[i2]).from_state && m.edges[i1].driver_type == m.edges[i2].driver_type
            && m.edges[i1].driver_id == m.edges[i2].driver_id)
}

/// DFA state `q`, standing for the NFA subset `sq`, already has its edge
/// for every alphabet driver on which the subset can move.
pub open spec fn q_processed(m: GraphModel, sq: Set<int>, q: int, es: Seq<Edge>) -> bool {
    forall|dt: DriverType, did: usize|
        #![trigger move_set(m, sq, dt, did)]
        in_alphabet(m, dt, did) && eclose(m, move_set(m, sq, dt, did)) != Set::<int>::empty()
            ==> exists|i: int|
            0 <= i < es.len() && (#[trigger] es[i]).from_state as int == q && es[i].driver_type
                == dt && es[i].driver_id == did
}

/// What it means for `dfa` to be the subset automaton of `nfa`: `subs`
/// lists, per DFA state, the non-empty set of NFA states it stands for.
/// The listed sets are pairwise different, state 0 stands for the
/// epsilon-closure of the NFA start state, every DFA edge goes from a
/// subset to the epsilon-closure of its move on an alphabet driver, every
/// such non-empty move has its edge, at most one edge leaves a state per
/// driver, and a DFA state accepts exactly when its subset holds an
/// accepting NFA state.
pub open spec fn is_subset_automaton(nfa: GraphModel, dfa: GraphModel, subs: Seq<Set<int>>) -> bool {
    &&& dfa.wf()
    &&& subs.len() == dfa.states.len()
    &&& dfa.states.len() >= 1
    &&& subs[0] == eclose(nfa, Set::<int>::empty().insert(0))
    &&& forall|q: int| 0 <= q < subs.len() ==> (#[trigger] subs[q]).subset_of(state_ids(nfa))
    &&& forall|q: int| 0 <= q < subs.len() ==> (#[trigger] subs[q]) != Set::<int>::empty()
    &&& forall|q1: int, q2: int|
        0 <= q1 < q2 < subs.len() ==> (#[trigger] subs[q1]) != (#[trigger] subs[q2])
    &&& forall|i: int|
        0 <= i < dfa.edges.len() ==> in_alphabet(
            nfa,
            (#[trigger] dfa.edges[i]).driver_type,
            dfa.edges[i].driver_id,
        )
    &&& forall|i: int|
        0 <= i < dfa.edges.len() ==> subs[(#[trigger] dfa.edges[i]).next_state as int] == eclose(
            nfa,
            move_set(
                nfa,
                subs[dfa.edges[i].from_state as int],
                dfa.edges[i].driver_type,
                dfa.edges[i].driver_id,
            ),
        )
    &&& deterministic(dfa)
    &&& forall|q: int| 0 <= q < subs.len() ==> q_processed(nfa, #[trigger] subs[q], q, dfa.edges)
    &&& forall|q: int|
        0 <= q < subs.len() ==> ((#[trigger] dfa.states[q]).state_type == StateType::MATCH
            <==> has_match(nfa, subs[q]))
    &&& forall|q: int|
        0 <= q < subs.len() ==> (#[trigger] dfa.states[q]).category == LexemeCategory::EMPTY
}

/// The driver list holds exactly the automaton's alphabet, each driver
/// once.
spec fn alpha_inv(m: GraphModel, al: Seq<(DriverType, usize)>) -> bool {
    &&& forall|j: int|
        0 <= j < al.len() ==> in_alphabet(m, (#[trigger] al[j]).0, al[j].1)
    &&& forall|j1: int, j2: int| 0 <= j1 < j2 < al.len() ==> (#[trigger] al[j1]) != (#[trigger] al[j2])
    &&& forall|dt: DriverType, did: usize| in_alphabet(m, dt, did) ==> al.contains((dt, did))
}

/// The discovered subsets and the DFA state table grow in lockstep: each
/// subset is canonical, non-empty, within range and pairwise different,
/// and each DFA state records its index and its accepting flag.
spec fn dtab_inv(m: GraphModel, ds: Seq<Vec<usize>>, dst: Seq<State>, n: int) -> bool {
    &&& ds.len() == dst.len()
    &&& 1 <= ds.len()
    &&& forall|q: int|
        0 <= q < ds.len() ==> strictly_increasing((#[trigger] ds[q])@) && ids_below(ds[q]@, n)
            && ds[q]@.len() > 0
    &&& forall|q1: int, q2: int|
        0 <= q1 < q2 < ds.len() ==> (#[trigger] ds[q1])@ != (#[trigger] ds[q2])@
    &&& to_int_set(ds[0]@) == eclose(m, Set::<int>::empty().insert(0))
    &&& forall|q: int|
        0 <= q < dst.len() ==> (#[trigger] dst[q]).state_id == q && dst[q].category
            == LexemeCategory::EMPTY && (dst[q].state_type == StateType::MATCH <==> has_match(
            m,
            to_int_set(ds[q]@),
        ))
}

/// Every DFA edge recorded so far is sound: endpoints within the table,
/// its driver in the alphabet, its target subset the closure of the move
/// of its source subset; and no two edges share a source and a driver.
spec fn dedge_inv(m: GraphModel, ds: Seq<Vec<usize>>, es: Seq<Edge>) -> bool {
    &&& forall|i: int|
        0 <= i < es.len() ==> (#[trigger] es[i]).from_state < ds.len() && es[i].next_state
            < ds.len() && in_alphabet(m, es[i].driver_type, es[i].driver_id) && to_int_set(
            ds[es[i].next_state as int]@,
        ) == eclose(
            m,
            move_set(m, to_int_set(ds[es[i].from_state as int]@), es[i].driver_type, es[i].driver_id),
        )
    &&& forall|i1: int, i2: int|
        0 <= i1 < i2 < es.len() ==> !((#[trigger] es[i1]).from_state == (#[trigger] es[i2]).from_state
            && es[i1].driver_type == es[i2].driver_type && es[i1].driver_id == es[i2].driver_id)
}

/// Every discovered subset is either still waiting on the stack or has
/// all its outgoing edges recorded.
spec fn pending_ok(m: GraphModel, ds: Seq<Vec<usize>>, es: Seq<Edge>, st: Seq<usize>) -> bool {
    forall|q: int|
        0 <= q < ds.len() && !st.contains(q as usize) ==> q_processed(
            m,
            to_int_set((#[trigger] ds[q])@),
            q,
            es,
        )
}

/// No recorded edge leaves a state that still waits on the stack.
spec fn froms_done(es: Seq<Edge>, st: Seq<usize>) -> bool {
    forall|i: int| 0 <= i < es.len() ==> !st.contains((#[trigger] es[i]).from_state)
}

/// Stack entries point into the subset table.
spec fn stack_ok(ds: Seq<Vec<usize>>, st: Seq<usize>) -> bool {
    forall|j: int| 0 <= j < st.len() ==> (#[trigger] st[j]) < ds.len()
}

impl Graph {
    /// Determinizes this NFA into an equivalent DFA by subset
    /// construction.  The result is deterministic, and some listing of
    /// non-empty NFA state subsets — one per DFA state, starting with the
    /// epsilon-closure of the NFA start state — ties every DFA state and
    /// edge to the subsets the construction discovered.  Fails with
    /// `InvalidGraph` exactly when this graph has no states at all.
    #[verifier::rlimit(100)]
    pub fn nfa_to_dfa(&self) -> (r: Result<Graph, ConstructionError>)
        requires
            self.inv(),
        ensures
            r is Ok <==> self@.n() >= 1,
            r is Err ==> r->Err_0 == ConstructionError::InvalidGraph,
            r is Ok ==> (r->Ok_0).inv() && (r->Ok_0).graph_id == self.graph_id && deterministic(
                (r->Ok_0)@,
            ) && exists|subs: Seq<Set<int>>| is_subset_automaton(self@, (r->Ok_0)@, subs),
    {
        let ghost m = self@;
        let n = self.p_state_table.len();
        if n == 0 {
            return Err(ConstructionError::InvalidGraph);
        }
        let mut alphabet: Vec<(DriverType, usize)> = Vec::new();
        let ne = self.p_edge_table.len();
        let mut ei: usize = 0;
        while ei < ne
            invariant
                ei <= ne,
                ne == m.edges.len(),
                self.inv(),
                m == self@,
                forall|j: int|
                    0 <= j < alphabet@.len() ==> in_alphabet(m, (#[trigger] alphabet@[j]).0, alphabet@[j].1),
                forall|j1: int, j2: int|
                    0 <= j1 < j2 < alphabet@.len() ==> (#[trigger] alphabet@[j1]) != (
                    #[trigger] alphabet@[j2]),
                forall|i: int|
                    0 <= i < ei && (#[trigger] m.edges[i]).driver_type != DriverType::NULL
                        ==> alphabet@.contains((m.edges[i].driver_type, m.edges[i].driver_id)),
            decreases ne - ei,
        {
            let e = self.p_edge_table[ei];
            proof {
                assert(e == m.edges[ei as int]);
            }
            let is_null = match e.driver_type {
                DriverType::NULL => true,
                _ => false,
            };
            if !is_null {
                let ghost pre_al = alphabet@;
                if !contains_driver(&alphabet, e.driver_type, e.driver_id) {
                    alphabet.push((e.driver_type, e.driver_id));
                    proof {
                        assert(alphabet@[pre_al.len() as int] == (e.driver_type, e.driver_id));
                        assert forall|i: int|
                            0 <= i < ei + 1 && (#[trigger] m.edges[i]).driver_type
                                != DriverType::NULL implies alphabet@.contains(
                            (m.edges[i].driver_type, m.edges[i].driver_id),
                        ) by {
                            if i < ei {
                                let j = choose|j: int|
                                    0 <= j < pre_al.len() && pre_al[j] == (
                                    m.edges[i].driver_type,
                                    m.edges[i].driver_id,
                                    );
                                assert(alphabet@[j] == (m.edges[i].driver_type, m.edges[i].driver_id));
                            }
                        }
                    }
                }
            }
            ei += 1;
        }
        proof {
            assert(alpha_inv(m, alphabet@)) by {
                assert forall|dt: DriverType, did: usize| in_alphabet(m, dt, did) implies alphabet@.contains(
                    (dt, did),
                ) by {
                    let i = choose|i: int|
                        0 <= i < m.edges.len() && (#[trigger] m.edges[i]).driver_type == dt
                            && m.edges[i].driver_id == did;
                }
            }
        }
        let mut seedv: Vec<usize> = Vec::new();
        seedv.push(0);
        proof {
            assert(to_int_set(seedv@) =~= Set::<int>::empty().insert(0)) by {
                assert(seedv@[0] == 0usize);
                assert forall|v: int| to_int_set(seedv@).contains(v) implies Set::<int>::empty().insert(
                    0,
                ).contains(v) by {
                    let j = choose|j: int| 0 <= j < seedv@.len() && seedv@[j] == v;
                }
            }
        }
        let d0 = self.epsilon_closure(&seedv);
        proof {
            lemma_eclose_seed(m, to_int_set(seedv@));
            assert(to_int_set(d0@).contains(0));
            if d0@.len() == 0 {
                let j = choose|j: int| 0 <= j < d0@.len() && d0@[j] == 0;
            }
            assert(d0@.len() > 0);
        }
        let ghost d0_view = d0@;
        let has0 = self.contains_match(&d0);
        let mut d_states: Vec<Vec<usize>> = Vec::new();
        d_states.push(d0);
        let mut stack: Vec<usize> = Vec::new();
        stack.push(0);
        let mut dstates: Vec<State> = Vec::new();
        dstates.push(
            State {
                state_id: 0,
                state_type: if has0 {
                    StateType::MATCH
                } else {
                    StateType::UNMATCH
                },
                category: LexemeCategory::EMPTY,
            },
        );
        let mut dedges: Vec<Edge> = Vec::new();
        proof {
            assert(d_states@[0]@ == d0_view);
            assert(d_states@.len() <= vstd::arithmetic::power2::pow2(n as nat)) by {
                vstd::arithmetic::power2::lemma_pow2_pos(n as nat);
            }
        }
        while stack.len() > 0
            invariant
                self.inv(),
                m == self@,
                n == m.states.len(),
                n >= 1,
                alpha_inv(m, alphabet@),
                dtab_inv(m, d_states@, dstates@, n as int),
                dedge_inv(m, d_states@, dedges@),
                pending_ok(m, d_states@, dedges@, stack@),
                froms_done(dedges@, stack@),
                stack_ok(d_states@, stack@),
                stack@.no_duplicates(),
                d_states@.len() <= vstd::arithmetic::power2::pow2(n as nat),
            decreases 2 * (vstd::arithmetic::power2::pow2(n as nat) - d_states@.len()) + stack@.len(),
        {
            let ghost pre_stack = stack@;
            let q = match stack.pop() {
                Some(value) => value,
                None => {
                    proof {
                        assert(false);
                    }
                    0
                },
            };
            proof {
                assert(q == pre_stack.last());
                assert(stack@ == pre_stack.subrange(0, pre_stack.len() - 1));
                assert(q < d_states@.len());
                assert forall|x: usize| stack@.contains(x) implies pre_stack.contains(x) by {
                    let j = choose|j: int| 0 <= j < stack@.len() && stack@[j] == x;
                    assert(pre_stack[j] == x);
                }
                assert(froms_done(dedges@, stack@));
                assert(stack@.no_duplicates()) by {
                    assert forall|j1: int, j2: int|
                        0 <= j1 < stack@.len() && 0 <= j2 < stack@.len() && j1 != j2 implies stack@[j1]
                        != stack@[j2] by {
                        assert(stack@[j1] == pre_stack[j1]);
                        assert(stack@[j2] == pre_stack[j2]);
                    }
                }
                assert(!stack@.contains(q)) by {
                    if stack@.contains(q) {
                        let j = choose|j: int| 0 <= j < stack@.len() && stack@[j] == q;
                        assert(pre_stack[j] == q);
                        assert(pre_stack[pre_stack.len() - 1] == q);
                    }
                }
                assert forall|qq: int|
                    0 <= qq < d_states@.len() && !stack@.contains(qq as usize) && qq
                        != q as int implies q_processed(
                    m,
                    to_int_set((#[trigger] d_states@[qq])@),
                    qq,
                    dedges@,
                ) by {
                    assert(!pre_stack.contains(qq as usize)) by {
                        if pre_stack.contains(qq as usize) {
                            let j = choose|j: int|
                                0 <= j < pre_stack.len() && pre_stack[j] == qq as usize;
                            assert(d_states.len() == d_states@.len());
                            assert((qq as usize) as int == qq);
                            assert(j < pre_stack.len() - 1);
                            assert(stack@[j] == qq as usize);
                        }
                    }
                }
            }
            let ghost ds0 = d_states@.len() as int;
            let ghost st0 = stack@.len() as int;
            let tvec = copy_ids(&d_states[q]);
            let ghost sq = to_int_set(tvec@);
            let na = alphabet.len();
            let mut ai: usize = 0;
            while ai < na
                invariant
                    ai <= na,
                    na == alphabet@.len(),
                    self.inv(),
                    m == self@,
                    n == m.states.len(),
                    n >= 1,
                    alpha_inv(m, alphabet@),
                    dtab_inv(m, d_states@, dstates@, n as int),
                    dedge_inv(m, d_states@, dedges@),
                    stack_ok(d_states@, stack@),
                    stack@.no_duplicates(),
                    d_states@.len() <= vstd::arithmetic::power2::pow2(n as nat),
                    q < d_states@.len(),
                    !stack@.contains(q),
                    tvec@ == d_states@[q as int]@,
                    sq == to_int_set(tvec@),
                    froms_done(dedges@, stack@),
                    forall|qq: int|
                        0 <= qq < d_states@.len() && !stack@.contains(qq as usize) && qq
                            != q as int ==> q_processed(
                            m,
                            to_int_set((#[trigger] d_states@[qq])@),
                            qq,
                            dedges@,
                        ),
                    forall|j: int|
                        0 <= j < ai && eclose(
                            m,
                            move_set(m, sq, (#[trigger] alphabet@[j]).0, alphabet@[j].1),
                        ) != Set::<int>::empty() ==> exists|i: int|
                            0 <= i < dedges@.len() && (#[trigger] dedges@[i]).from_state == q
                                && dedges@[i].driver_type == alphabet@[j].0 && dedges@[i].driver_id
                                == alphabet@[j].1,
                    forall|i: int|
                        0 <= i < dedges@.len() && (#[trigger] dedges@[i]).from_state == q
                            ==> exists|j: int|
                            0 <= j < ai && (#[trigger] alphabet@[j]) == (
                            dedges@[i].driver_type,
                            dedges@[i].driver_id,
                            ),
                    2 * (vstd::arithmetic::power2::pow2(n as nat) - d_states@.len())
                        + stack@.len() <= 2 * (vstd::arithmetic::power2::pow2(n as nat) - ds0)
                        + st0,
                decreases na - ai,
            {
                let ghost it_ds = d_states@;
                let ghost it_st = stack@;
                let ghost it_es = dedges@;
                let d = alphabet[ai];
                let mv = self.move_transfer(&tvec, d.0, d.1);
                let u = self.epsilon_closure(&mv);
                proof {
                    assert(to_int_set(u@) == eclose(m, move_set(m, sq, d.0, d.1)));
                }
                if u.len() > 0 {
                    proof {
                        assert(to_int_set(u@).contains(u@[0] as int));
                        assert(to_int_set(u@) != Set::<int>::empty());
                    }
                    let found = find_subset(&d_states, &u);
                    let ghost uview = u@;
                    let uj: usize;
                    match found {
                        Some(jj) => {
                            uj = jj;
                            proof {
                                assert(d_states@[uj as int]@ == uview);
                            }
                        },
                        None => {
                            uj = d_states.len();
                            let is_m = self.contains_match(&u);
                            let ghost pre_ds = d_states@;
                            let ghost pre_dst = dstates@;
                            let ghost pre_st = stack@;
                            d_states.push(u);
                            dstates.push(
                                State {
                                    state_id: uj,
                                    state_type: if is_m {
                                        StateType::MATCH
                                    } else {
                                        StateType::UNMATCH
                                    },
                                    category: LexemeCategory::EMPTY,
                                },
                            );
                            stack.push(uj);
                            proof {
                                assert(d_states@[uj as int]@ == uview);
                                assert(stack@[pre_st.len() as int] == uj);
                                assert(stack@.contains(uj));
                                assert forall|x: usize| stack@.contains(x) && x != uj implies pre_st.contains(
                                    x,
                                ) by {
                                    let j = choose|j: int| 0 <= j < stack@.len() && stack@[j] == x;
                                    assert(j < pre_st.len());
                                    assert(pre_st[j] == x);
                                }
                                assert forall|x: usize| pre_st.contains(x) implies stack@.contains(
                                    x,
                                ) by {
                                    let j = choose|j: int| 0 <= j < pre_st.len() && pre_st[j] == x;
                                    assert(stack@[j] == x);
                                }
                                assert(!pre_st.contains(uj)) by {
                                    if pre_st.contains(uj) {
                                        let j = choose|j: int|
                                            0 <= j < pre_st.len() && pre_st[j] == uj;
                                        assert(pre_st[j] < pre_ds.len());
                                    }
                                }
                                assert(stack@.no_duplicates()) by {
                                    assert forall|j1: int, j2: int|
                                        0 <= j1 < stack@.len() && 0 <= j2 < stack@.len() && j1
                                            != j2 implies stack@[j1] != stack@[j2] by {
                                        if j1 < pre_st.len() && j2 < pre_st.len() {
                                            assert(stack@[j1] == pre_st[j1]);
                                            assert(stack@[j2] == pre_st[j2]);
                                        } else if j1 < pre_st.len() {
                                            assert(stack@[j1] == pre_st[j1]);
                                            assert(pre_st[j1] < pre_ds.len());
                                        } else {
                                            assert(stack@[j2] == pre_st[j2]);
                                            assert(pre_st[j2] < pre_ds.len());
                                        }
                                    }
                                }
                                assert(dtab_inv(m, d_states@, dstates@, n as int)) by {
                                    assert forall|q1: int, q2: int|
                                        0 <= q1 < q2 < d_states@.len() implies (
                                    #[trigger] d_states@[q1])@ != (#[trigger] d_states@[q2])@ by {
                                        if q2 == uj as int {
                                            assert(d_states@[q1]@ == pre_ds[q1]@);
                                        }
                                    }
                                    assert(d_states@[0]@ == pre_ds[0]@);
                                }
                                let seqs = Seq::new(
                                    d_states@.len(),
                                    |qq: int| d_states@[qq]@,
                                );
                                assert forall|q1: int, q2: int|
                                    0 <= q1 < q2 < seqs.len() implies (#[trigger] seqs[q1]) != (
                                #[trigger] seqs[q2]) by {
                                    assert(seqs[q1] == d_states@[q1]@);
                                    assert(seqs[q2] == d_states@[q2]@);
                                }
                                lemma_distinct_canonical_bound(seqs, n as int);
                                assert(seqs.len() == d_states@.len());
                                assert(froms_done(dedges@, stack@)) by {
                                    assert forall|i: int|
                                        0 <= i < dedges@.len() implies !stack@.contains(
                                        (#[trigger] dedges@[i]).from_state,
                                    ) by {
                                        assert(dedges@[i].from_state < pre_ds.len());
                                        assert(dedges@[i].from_state != uj);
                                    }
                                }
                            }
                        },
                    }
                    let ghost pre_es = dedges@;
                    dedges.push(
                        Edge { from_state: q, next_state: uj, driver_id: d.1, driver_type: d.0 },
                    );
                    proof {
                        assert(dedges@[pre_es.len() as int] == (Edge {
                            from_state: q,
                            next_state: uj,
                            driver_id: d.1,
                            driver_type: d.0,
                        }));
                        assert(alphabet@[ai as int] == d);
                        assert(in_alphabet(m, d.0, d.1));
                        assert(dedge_inv(m, d_states@, dedges@)) by {
                            assert forall|i1: int, i2: int|
                                0 <= i1 < i2 < dedges@.len() implies !((
                            #[trigger] dedges@[i1]).from_state == (#[trigger] dedges@[i2]).from_state
                                && dedges@[i1].driver_type == dedges@[i2].driver_type
                                && dedges@[i1].driver_id == dedges@[i2].driver_id) by {
                                if i2 == pre_es.len() as int {
                                    if dedges@[i1].from_state == q {
                                        let j = choose|j: int|
                                            0 <= j < ai && (#[trigger] alphabet@[j]) == (
                                            pre_es[i1].driver_type,
                                            pre_es[i1].driver_id,
                                            );
                                        assert(alphabet@[j] != alphabet@[ai as int]);
                                    }
                                }
                            }
                        }
                        assert forall|i: int|
                            0 <= i < dedges@.len() && (#[trigger] dedges@[i]).from_state == q implies exists|j: int|
                            0 <= j < ai + 1 && (#[trigger] alphabet@[j]) == (
                            dedges@[i].driver_type,
                            dedges@[i].driver_id,
                            ) by {
                            if i < pre_es.len() {
                                let j = choose|j: int|
                                    0 <= j < ai && (#[trigger] alphabet@[j]) == (
                                    pre_es[i].driver_type,
                                    pre_es[i].driver_id,
                                    );
                            } else {
                                assert(alphabet@[ai as int] == (
                                    dedges@[i].driver_type,
                                    dedges@[i].driver_id,
                                ));
                            }
                        }
                        assert forall|j: int|
                            0 <= j < ai + 1 && eclose(
                                m,
                                move_set(m, sq, (#[trigger] alphabet@[j]).0, alphabet@[j].1),
                            ) != Set::<int>::empty() implies exists|i: int|
                            0 <= i < dedges@.len() && (#[trigger] dedges@[i]).from_state == q
                                && dedges@[i].driver_type == alphabet@[j].0 && dedges@[i].driver_id
                                == alphabet@[j].1 by {
                            if j < ai {
                                let i = choose|i: int|
                                    0 <= i < pre_es.len() && (#[trigger] pre_es[i]).from_state == q
                                        && pre_es[i].driver_type == alphabet@[j].0
                                        && pre_es[i].driver_id == alphabet@[j].1;
                                assert(dedges@[i] == pre_es[i]);
                            } else {
                                assert(dedges@[pre_es.len() as int].from_state == q);
                            }
                        }
                        assert forall|qq: int|
                            0 <= qq < d_states@.len() && !stack@.contains(qq as usize) && qq
                                != q as int implies q_processed(
                            m,
                            to_int_set((#[trigger] d_states@[qq])@),
                            qq,
                            dedges@,
                        ) by {
                            assert(!it_st.contains(qq as usize)) by {
                                if it_st.contains(qq as usize) {
                                    let j = choose|j: int|
                                        0 <= j < it_st.len() && it_st[j] == qq as usize;
                                    assert(stack@[j] == qq as usize);
                                }
                            }
                            assert(qq < it_ds.len());
                            assert(q_processed(m, to_int_set(it_ds[qq]@), qq, it_es));
                            assert(d_states@[qq]@ == it_ds[qq]@);
                            assert forall|dt: DriverType, did: usize|
                                in_alphabet(m, dt, did) && eclose(
                                    m,
                                    #[trigger] move_set(m, to_int_set(d_states@[qq]@), dt, did),
                                ) != Set::<int>::empty() implies exists|i: int|
                                0 <= i < dedges@.len() && (#[trigger] dedges@[i]).from_state as int
                                    == qq && dedges@[i].driver_type == dt && dedges@[i].driver_id
                                    == did by {
                                let i = choose|i: int|
                                    0 <= i < it_es.len() && (#[trigger] it_es[i]).from_state as int
                                        == qq && it_es[i].driver_type == dt && it_es[i].driver_id
                                        == did;
                                assert(dedges@[i] == it_es[i]);
                            }
                        }
                    }
                } else {
                    proof {
                        assert forall|v: int| !to_int_set(u@).contains(v) by {
                            if to_int_set(u@).contains(v) {
                                let j = choose|j: int| 0 <= j < u@.len() && u@[j] == v;
                            }
                        }
                        assert(to_int_set(u@) =~= Set::<int>::empty());
                        assert(eclose(m, move_set(m, sq, d.0, d.1)) == Set::<int>::empty());
                        assert(alphabet@[ai as int] == d);
                    }
                }
                ai += 1;
            }
            proof {
                assert(q_processed(m, to_int_set(d_states@[q as int]@), q as int, dedges@)) by {
                    assert forall|dt: DriverType, did: usize|
                        in_alphabet(m, dt, did) && eclose(
                            m,
                            #[trigger] move_set(m, sq, dt, did),
                        ) != Set::<int>::empty() implies exists|i: int|
                        0 <= i < dedges@.len() && (#[trigger] dedges@[i]).from_state as int
                            == q as int && dedges@[i].driver_type == dt && dedges@[i].driver_id
                            == did by {
                        assert(alphabet@.contains((dt, did)));
                        let j = choose|j: int| 0 <= j < alphabet@.len() && alphabet@[j] == (dt, did);
                        assert(eclose(m, move_set(m, sq, alphabet@[j].0, alphabet@[j].1))
                            != Set::<int>::empty());
                        let i = choose|i: int|
                            0 <= i < dedges@.len() && (#[trigger] dedges@[i]).from_state == q
                                && dedges@[i].driver_type == alphabet@[j].0 && dedges@[i].driver_id
                                == alphabet@[j].1;
                    }
                }
                assert(pending_ok(m, d_states@, dedges@, stack@)) by {
                    assert forall|qq: int|
                        0 <= qq < d_states@.len() && !stack@.contains(qq as usize) implies q_processed(
                        m,
                        to_int_set((#[trigger] d_states@[qq])@),
                        qq,
                        dedges@,
                    ) by {
                        if qq != q as int {
                        }
                    }
                }
            }
        }
        let total = dstates.len();
        let dfa = Graph {
            graph_id: self.graph_id,
            num_of_states: total,
            p_edge_table: dedges,
            p_state_table: dstates,
        };
        proof {
            let ghost subs = Seq::new(d_states@.len(), |q: int| to_int_set(d_states@[q]@));
            assert(is_subset_automaton(m, dfa@, subs)) by {
                assert(dfa@.wf()) by {
                    assert forall|i: int|
                        0 <= i < dfa@.edges.len() implies (#[trigger] dfa@.edges[i]).from_state
                        < dfa@.states.len() && dfa@.edges[i].next_state < dfa@.states.len() by {}
                }
                assert(subs[0] == eclose(m, Set::<int>::empty().insert(0)));
                assert forall|q: int| 0 <= q < subs.len() implies (#[trigger] subs[q]).subset_of(
                    state_ids(m),
                ) by {
                    assert forall|v: int| subs[q].contains(v) implies state_ids(m).contains(v) by {
                        let j = choose|j: int|
                            0 <= j < d_states@[q]@.len() && d_states@[q]@[j] == v;
                    }
                }
                assert forall|q: int| 0 <= q < subs.len() implies (#[trigger] subs[q])
                    != Set::<int>::empty() by {
                    assert(subs[q].contains(d_states@[q]@[0] as int));
                }
                assert forall|q1: int, q2: int| 0 <= q1 < q2 < subs.len() implies (
                #[trigger] subs[q1]) != (#[trigger] subs[q2]) by {
                    if subs[q1] == subs[q2] {
                        lemma_canonical_unique(d_states@[q1]@, d_states@[q2]@);
                    }
                }
            }
            assert(exists|subs: Seq<Set<int>>| is_subset_automaton(m, dfa@, subs));
        }
        Ok(dfa)
    }
}

/// The subset of states an automaton can be in after reading the first
/// `k` drivers of the input, starting from the epsilon-closure of state 0.
pub open spec fn run_set(m: GraphModel, input: Seq<(DriverType, usize)>, k: int) -> Set<int>
    decreases k,
{
    if k <= 0 {
        eclose(m, Set::<int>::empty().insert(0))
    } else {
        eclose(m, move_set(m, run_set(m, input, k - 1), input[k - 1].0, input[k - 1].1))
    }
}

/// Acceptance by subset simulation: the automaton accepts the input when
/// the set of states it can be in after the whole input holds an
/// accepting state.
pub open spec fn accepts_model(m: GraphModel, input: Seq<(DriverType, usize)>) -> bool {
    has_match(m, run_set(m, input, input.len() as int))
}

/// A proper symbol sequence: no entry is the epsilon marker.
pub open spec fn symbol_input(input: Seq<(DriverType, usize)>) -> bool {
    forall|k: int| 0 <= k < input.len() ==> (#[trigger] input[k]).0 != DriverType::NULL
}

impl Graph {
    /// Runs this automaton over the given driver sequence and reports
    /// whether it accepts: the verified simulator behind the language
    /// claims of the composition operators and of determinization.
    pub fn accepts(&self, input: &Vec<(DriverType, usize)>) -> (b: bool)
        requires
            self.inv(),
            self@.n() >= 1,
        ensures
            b == accepts_model(self@, input@),
    {
        let ghost m = self@;
        let mut seedv: Vec<usize> = Vec::new();
        seedv.push(0);
        proof {
            assert(to_int_set(seedv@) =~= Set::<int>::empty().insert(0)) by {
                assert(seedv@[0] == 0usize);
                assert forall|v: int| to_int_set(seedv@).contains(v) implies Set::<int>::empty().insert(
                    0,
                ).contains(v) by {
                    let j = choose|j: int| 0 <= j < seedv@.len() && seedv@[j] == v;
                }
            }
        }
        let mut cur = self.epsilon_closure(&seedv);
        let nl = input.len();
        let mut k: usize = 0;
        while k < nl
            invariant
                k <= nl,
                nl == input@.len(),
                self.inv(),
                m == self@,
                strictly_increasing(cur@),
                ids_below(cur@, m.n()),
                to_int_set(cur@) == run_set(m, input@, k as int),
            decreases nl - k,
        {
            let d = input[k];
            let mv = self.move_transfer(&cur, d.0, d.1);
            cur = self.epsilon_closure(&mv);
            proof {
                assert(d == input@[k as int]);
            }
            k += 1;
        }
        self.contains_match(&cur)
    }
}

/// In an automaton without epsilon edges the closure changes nothing.
proof fn lemma_eclose_no_eps(m: GraphModel, s: Set<int>)
    requires
        forall|i: int| 0 <= i < m.edges.len() ==> !is_epsilon(#[trigger] m.edges[i]),
    ensures
        eclose(m, s) == s,
{
    lemma_eclose_seed(m, s);
    lemma_eclose_minimal(m, s, s);
    assert(eclose(m, s) =~= s);
}

/// Nothing moves out of the empty subset.
pub(crate) proof fn lemma_move_empty(m: GraphModel, driver_type: DriverType, driver_id: usize)
    ensures
        move_set(m, Set::<int>::empty(), driver_type, driver_id) == Set::<int>::empty(),
{
    assert(move_set(m, Set::<int>::empty(), driver_type, driver_id) =~= Set::<int>::empty());
}

/// After any prefix of a symbol input, the DFA is either stuck together
/// with the NFA, or sits in the single state that stands for exactly the
/// NFA's current subset.
proof fn lemma_run_set_corresponds(
    nfa: GraphModel,
    dfa: GraphModel,
    subs: Seq<Set<int>>,
    input: Seq<(DriverType, usize)>,
    k: int,
)
    requires
        is_subset_automaton(nfa, dfa, subs),
        symbol_input(input),
        0 <= k <= input.len(),
    ensures
        run_set(nfa, input, k) == Set::<int>::empty() ==> run_set(dfa, input, k)
            == Set::<int>::empty(),
        run_set(nfa, input, k) != Set::<int>::empty() ==> exists|q: int|
            0 <= q < subs.len() && #[trigger] subs[q] == run_set(nfa, input, k) && run_set(
                dfa,
                input,
                k,
            ) == Set::<int>::empty().insert(q),
    decreases k,
{
    assert forall|i: int| 0 <= i < dfa.edges.len() implies !is_epsilon(#[trigger] dfa.edges[i]) by {
        assert(in_alphabet(nfa, dfa.edges[i].driver_type, dfa.edges[i].driver_id));
    }
    if k <= 0 {
        assert(run_set(nfa, input, k) == subs[0]);
        lemma_eclose_no_eps(dfa, Set::<int>::empty().insert(0));
        assert(run_set(dfa, input, k) == Set::<int>::empty().insert(0));
        assert(subs[0] != Set::<int>::empty());
    } else {
        lemma_run_set_corresponds(nfa, dfa, subs, input, k - 1);
        let rn0 = run_set(nfa, input, k - 1);
        let rd0 = run_set(dfa, input, k - 1);
        let dt = input[k - 1].0;
        let did = input[k - 1].1;
        let rn = run_set(nfa, input, k);
        let rd = run_set(dfa, input, k);
        assert(rn == eclose(nfa, move_set(nfa, rn0, dt, did)));
        assert(rd == eclose(dfa, move_set(dfa, rd0, dt, did)));
        lemma_eclose_no_eps(dfa, move_set(dfa, rd0, dt, did));
        if rn0 == Set::<int>::empty() {
            lemma_move_empty(nfa, dt, did);
            lemma_eclose_empty(nfa);
            lemma_move_empty(dfa, dt, did);
            assert(rd0 == Set::<int>::empty());
            assert(rn == Set::<int>::empty());
            assert(rd == Set::<int>::empty());
        } else {
            let q = choose|q: int|
                0 <= q < subs.len() && #[trigger] subs[q] == rn0 && rd0 == Set::<int>::empty().insert(
                    q,
                );
            if rn == Set::<int>::empty() {
                assert(move_set(dfa, rd0, dt, did) =~= Set::<int>::empty()) by {
                    assert forall|v: int| !move_set(dfa, rd0, dt, did).contains(v) by {
                        if move_set(dfa, rd0, dt, did).contains(v) {
                            let i = choose|i: int|
                                0 <= i < dfa.edges.len() && rd0.contains(
                                    (#[trigger] dfa.edges[i]).from_state as int,
                                ) && dfa.edges[i].driver_type == dt && dfa.edges[i].driver_id
                                    == did && dfa.edges[i].next_state == v;
                            assert(dfa.edges[i].from_state as int == q);
                            assert(subs[dfa.edges[i].next_state as int] == eclose(
                                nfa,
                                move_set(nfa, subs[q], dt, did),
                            ));
                            assert(subs[dfa.edges[i].next_state as int] != Set::<int>::empty());
                        }
                    }
                }
                assert(rd == Set::<int>::empty());
            } else {
                assert(in_alphabet(nfa, dt, did)) by {
                    assert(dt != DriverType::NULL);
                    let mset = move_set(nfa, rn0, dt, did);
                    assert(mset != Set::<int>::empty()) by {
                        if mset == Set::<int>::empty() {
                            lemma_eclose_empty(nfa);
                        }
                    }
                    assert(exists|v: int| mset.contains(v)) by {
                        if !(exists|v: int| mset.contains(v)) {
                            assert(mset =~= Set::<int>::empty());
                        }
                    }
                    let v = choose|v: int| mset.contains(v);
                    let i = choose|i: int|
                        0 <= i < nfa.edges.len() && rn0.contains(
                            (#[trigger] nfa.edges[i]).from_state as int,
                        ) && nfa.edges[i].driver_type == dt && nfa.edges[i].driver_id == did
                            && nfa.edges[i].next_state == v;
                    assert(nfa.edges[i].driver_type == dt && nfa.edges[i].driver_id == did);
                }
                assert(q_processed(nfa, subs[q], q, dfa.edges));
                assert(eclose(nfa, move_set(nfa, subs[q], dt, did)) != Set::<int>::empty());
                let i = choose|i: int|
                    0 <= i < dfa.edges.len() && (#[trigger] dfa.edges[i]).from_state as int == q
                        && dfa.edges[i].driver_type == dt && dfa.edges[i].driver_id == did;
                let qn = dfa.edges[i].next_state as int;
                assert(subs[qn] == rn);
                assert(0 <= qn < subs.len());
                assert(move_set(dfa, rd0, dt, did) =~= Set::<int>::empty().insert(qn)) by {
                    assert forall|v: int| move_set(dfa, rd0, dt, did).contains(v) implies v
                        == qn by {
                        let i2 = choose|i2: int|
                            0 <= i2 < dfa.edges.len() && rd0.contains(
                                (#[trigger] dfa.edges[i2]).from_state as int,
                            ) && dfa.edges[i2].driver_type == dt && dfa.edges[i2].driver_id == did
                                && dfa.edges[i2].next_state == v;
                        assert(dfa.edges[i2].from_state as int == q);
                        if i2 < i {
                            assert(false);
                        } else if i < i2 {
                            assert(false);
                        }
                    }
                    assert(rd0.contains(dfa.edges[i].from_state as int));
                    assert(move_set(dfa, rd0, dt, did).contains(qn));
                }
                assert(rd == Set::<int>::empty().insert(qn));
            }
        }
    }
}

/// Law: determinization preserves the language.  A DFA that stands in the
/// subset-automaton relation to an NFA accepts exactly the symbol
/// sequences the NFA accepts.
pub proof fn lemma_subset_automaton_preserves_language(
    nfa: GraphModel,
    dfa: GraphModel,
    subs: Seq<Set<int>>,
    input: Seq<(DriverType, usize)>,
)
    requires
        is_subset_automaton(nfa, dfa, subs),
        symbol_input(input),
    ensures
        accepts_model(dfa, input) == accepts_model(nfa, input),
{
    let k = input.len() as int;
    lemma_run_set_corresponds(nfa, dfa, subs, input, k);
    let rn = run_set(nfa, input, k);
    let rd = run_set(dfa, input, k);
    if rn == Set::<int>::empty() {
        assert(!has_match(nfa, rn));
        assert(!has_match(dfa, rd));
    } else {
        let q = choose|q: int|
            0 <= q < subs.len() && #[trigger] subs[q] == rn && rd == Set::<int>::empty().insert(q);
        assert(has_match(dfa, rd) <==> dfa.states[q].state_type == StateType::MATCH) by {
            if has_match(dfa, rd) {
                let v = choose|v: int|
                    rd.contains(v) && 0 <= v < dfa.states.len() && (#[trigger] dfa.states[v]).state_type
                        == StateType::MATCH;
                assert(v == q);
            }
            if dfa.states[q].state_type == StateType::MATCH {
                assert(rd.contains(q));
            }
        }
        assert(dfa.states[q].state_type == StateType::MATCH <==> has_match(nfa, subs[q]));
    }
}

/// A sequence of `false` entries has no set entry.
proof fn lemma_count_all_false(s: Seq<bool>)
    requires
        forall|j: int| 0 <= j < s.len() ==> !(#[trigger] s[j]),
    ensures
        count_trues(s) == 0,
    decreases s.len(),
{
    if s.len() > 0 {
        lemma_count_all_false(s.drop_last());
    }
}

/// The closure never leaves the automaton's state ids.
pub(crate) proof fn lemma_eclose_range(m: GraphModel, t: Set<int>)
    requires
        m.wf(),
        t.subset_of(state_ids(m)),
    ensures
        eclose(m, t).subset_of(state_ids(m)),
{
    assert(eps_closed(m, state_ids(m)));
    lemma_eclose_minimal(m, t, state_ids(m));
}

/// Where no edge enters the start state, the closure holds state 0 only
/// when its seed does.
pub(crate) proof fn lemma_eclose_zero(m: GraphModel, t: Set<int>)
    requires
        !m.start_has_edge_in(),
    ensures
        eclose(m, t).contains(0) <==> t.contains(0),
{
    lemma_eclose_seed(m, t);
    if eclose(m, t).contains(0) {
        let k = choose|k: nat| eps_reach_k(m, t, 0, k);
        lemma_reach_zero(m, t, k);
    }
}

/// Without edges into state 0, any reach of state 0 starts there.
proof fn lemma_reach_zero(m: GraphModel, t: Set<int>, k: nat)
    requires
        !m.start_has_edge_in(),
        eps_reach_k(m, t, 0, k),
    ensures
        t.contains(0),
    decreases k,
{
    if k > 0 {
        if eps_reach_k(m, t, 0, (k - 1) as nat) {
            lemma_reach_zero(m, t, (k - 1) as nat);
        } else {
            let i = choose|i: int|
                0 <= i < m.edges.len() && is_epsilon(#[trigger] m.edges[i])
                    && m.edges[i].next_state == 0 && eps_reach_k(
                    m,
                    t,
                    m.edges[i].from_state as int,
                    (k - 1) as nat,
                );
        }
    }
}

/// A larger seed closes to a larger set.
pub(crate) proof fn lemma_eclose_mono(m: GraphModel, t1: Set<int>, t2: Set<int>)
    requires
        t1.subset_of(t2),
    ensures
        eclose(m, t1).subset_of(eclose(m, t2)),
{
    lemma_eclose_seed(m, t2);
    lemma_eclose_closed(m, t2);
    lemma_eclose_minimal(m, t1, eclose(m, t2));
}

/// The closure distributes over a union of seeds.
pub(crate) proof fn lemma_eclose_union(m: GraphModel, t1: Set<int>, t2: Set<int>)
    ensures
        eclose(m, t1.union(t2)) == eclose(m, t1).union(eclose(m, t2)),
{
    lemma_eclose_mono(m, t1, t1.union(t2));
    lemma_eclose_mono(m, t2, t1.union(t2));
    lemma_eclose_seed(m, t1);
    lemma_eclose_seed(m, t2);
    lemma_eclose_closed(m, t1);
    lemma_eclose_closed(m, t2);
    assert(eps_closed(m, eclose(m, t1).union(eclose(m, t2)))) by {
        assert forall|i: int|
            0 <= i < m.edges.len() && is_epsilon(#[trigger] m.edges[i]) && eclose(m, t1).union(
                eclose(m, t2),
            ).contains(m.edges[i].from_state as int) implies eclose(m, t1).union(
            eclose(m, t2),
        ).contains(m.edges[i].next_state as int) by {}
    }
    lemma_eclose_minimal(m, t1.union(t2), eclose(m, t1).union(eclose(m, t2)));
    assert(eclose(m, t1.union(t2)) =~= eclose(m, t1).union(eclose(m, t2)));
}

/// Whatever the closure of a seed set reaches is reached from one single
/// seed element.
pub(crate) proof fn lemma_eclose_single(m: GraphModel, t: Set<int>, v: int)
    requires
        eclose(m, t).contains(v),
    ensures
        exists|x: int|
            #[trigger] t.contains(x) && eclose(m, Set::<int>::empty().insert(x)).contains(v),
{
    let k = choose|k: nat| eps_reach_k(m, t, v, k);
    lemma_eclose_single_reach(m, t, v, k);
}

proof fn lemma_eclose_single_reach(m: GraphModel, t: Set<int>, v: int, k: nat)
    requires
        eps_reach_k(m, t, v, k),
    ensures
        exists|x: int|
            #[trigger] t.contains(x) && eclose(m, Set::<int>::empty().insert(x)).contains(v),
    decreases k,
{
    if k == 0 {
        lemma_eclose_seed(m, Set::<int>::empty().insert(v));
        assert(t.contains(v) && eclose(m, Set::<int>::empty().insert(v)).contains(v));
    } else if eps_reach_k(m, t, v, (k - 1) as nat) {
        lemma_eclose_single_reach(m, t, v, (k - 1) as nat);
    } else {
        let i = choose|i: int|
            0 <= i < m.edges.len() && is_epsilon(#[trigger] m.edges[i]) && m.edges[i].next_state
                == v && eps_reach_k(m, t, m.edges[i].from_state as int, (k - 1) as nat);
        lemma_eclose_single_reach(m, t, m.edges[i].from_state as int, (k - 1) as nat);
        let x = choose|x: int|
            #[trigger] t.contains(x) && eclose(m, Set::<int>::empty().insert(x)).contains(
                m.edges[i].from_state as int,
            );
        lemma_eclose_closed(m, Set::<int>::empty().insert(x));
        assert(eclose(m, Set::<int>::empty().insert(x)).contains(v));
    }
}

/// A run only reads the input it has consumed: cutting the input behind
/// the prefix changes nothing.
pub(crate) proof fn lemma_run_set_take(m: GraphModel, input: Seq<(DriverType, usize)>, j: int, k: int)
    requires
        0 <= k <= j <= input.len(),
    ensures
        run_set(m, input.take(j), k) == run_set(m, input, k),
    decreases k,
{
    if k > 0 {
        lemma_run_set_take(m, input, j, k - 1);
        assert(input.take(j)[k - 1] == input[k - 1]);
    }
}

/// A run never leaves the automaton's state ids.
pub(crate) proof fn lemma_run_set_range(m: GraphModel, input: Seq<(DriverType, usize)>, k: int)
    requires
        m.wf(),
        m.n() >= 1,
        0 <= k,
    ensures
        run_set(m, input, k).subset_of(state_ids(m)),
    decreases k,
{
    if k <= 0 {
        lemma_eclose_range(m, Set::<int>::empty().insert(0));
    } else {
        lemma_run_set_range(m, input, k - 1);
        let mm = move_set(m, run_set(m, input, k - 1), input[k - 1].0, input[k - 1].1);
        assert(mm.subset_of(state_ids(m))) by {
            assert forall|v: int| mm.contains(v) implies state_ids(m).contains(v) by {
                let i = choose|i: int|
                    0 <= i < m.edges.len() && run_set(m, input, k - 1).contains(
                        (#[trigger] m.edges[i]).from_state as int,
                    ) && m.edges[i].driver_type == input[k - 1].0 && m.edges[i].driver_id
                        == input[k - 1].1 && m.edges[i].next_state == v;
            }
        }
        lemma_eclose_range(m, mm);
    }
}

} // verus!

