//! The language laws of the Thompson composition operators, proved over
//! the acceptance relation that the whole library shares: what the union,
//! concatenation, closure, one-or-more closure and zero-or-one automata
//! accept, stated against the languages of their operands.

use vstd::prelude::*;

use crate::dfa::{
    accepts_model, eclose, eps_closed, eps_reach_k, has_match, lemma_eclose_closed,
    lemma_eclose_empty, lemma_eclose_minimal, lemma_eclose_mono, lemma_eclose_range,
    lemma_eclose_seed, lemma_eclose_single, lemma_eclose_union, lemma_eclose_zero,
    lemma_move_empty, lemma_run_set_range, lemma_run_set_take, move_set, run_set, state_ids,
    symbol_input,
};
use crate::graph::{
    DriverType, Edge, GraphModel, StateType, concat_model, is_epsilon, lemma_concat_simple_form,
    lemma_union_simple_form, lemma_wrap_simple_form, shift_edge, union_endpoint_s,
    union_endpoint_t, union_model, wrap_model,
};

verus! {

/// Where the first union operand's states land in the union automaton.
pub open spec fn s_image(ns: int, total: int, set0: Set<int>) -> Set<int> {
    Set::new(
        |v: int|
            exists|x: int|
                #[trigger] set0.contains(x) && 0 <= x < ns && v == union_endpoint_s(ns, total, x),
    )
}

/// Where the second union operand's states land in the union automaton.
pub open spec fn t_image(ns: int, nt: int, total: int, set0: Set<int>) -> Set<int> {
    Set::new(
        |v: int|
            exists|x: int|
                #[trigger] set0.contains(x) && 0 <= x < nt && v == union_endpoint_t(
                    ns,
                    nt,
                    total,
                    x,
                ),
    )
}

/// Every epsilon path of the first operand maps to an epsilon path of the
/// union automaton.
proof fn lemma_union_reach_s(
    s: GraphModel,
    t: GraphModel,
    ts: Set<int>,
    tu: Set<int>,
    x: int,
    k: nat,
)
    requires
        s.simple_form(),
        t.simple_form(),
        s.n() + t.n() - 2 <= usize::MAX,
        ts.subset_of(state_ids(s)),
        forall|y: int|
            #[trigger] ts.contains(y) ==> tu.contains(union_endpoint_s(s.n(), s.n() + t.n() - 2, y)),
        eps_reach_k(s, ts, x, k),
        0 <= x < s.n(),
    ensures
        eps_reach_k(union_model(s, t), tu, union_endpoint_s(s.n(), s.n() + t.n() - 2, x), k),
    decreases k,
{
    let ns = s.n();
    let total = ns + t.n() - 2;
    let u = union_model(s, t);
    if k == 0 {
    } else if eps_reach_k(s, ts, x, (k - 1) as nat) {
        lemma_union_reach_s(s, t, ts, tu, x, (k - 1) as nat);
    } else {
        let i = choose|i: int|
            0 <= i < s.edges.len() && is_epsilon(#[trigger] s.edges[i]) && s.edges[i].next_state
                == x && eps_reach_k(s, ts, s.edges[i].from_state as int, (k - 1) as nat);
        let a = s.edges[i].from_state as int;
        lemma_union_reach_s(s, t, ts, tu, a, (k - 1) as nat);
        assert(u.edges[i] == (Edge {
            from_state: union_endpoint_s(ns, total, a) as usize,
            next_state: union_endpoint_s(ns, total, x) as usize,
            driver_id: s.edges[i].driver_id,
            driver_type: s.edges[i].driver_type,
        }));
        assert(is_epsilon(u.edges[i]));
        assert(eps_reach_k(u, tu, union_endpoint_s(ns, total, x), k));
    }
}

/// Every epsilon path of the second operand maps to an epsilon path of
/// the union automaton.
proof fn lemma_union_reach_t(
    s: GraphModel,
    t: GraphModel,
    tt: Set<int>,
    tu: Set<int>,
    x: int,
    k: nat,
)
    requires
        s.simple_form(),
        t.simple_form(),
        s.n() + t.n() - 2 <= usize::MAX,
        tt.subset_of(state_ids(t)),
        forall|y: int|
            #[trigger] tt.contains(y) ==> tu.contains(
                union_endpoint_t(s.n(), t.n(), s.n() + t.n() - 2, y),
            ),
        eps_reach_k(t, tt, x, k),
        0 <= x < t.n(),
    ensures
        eps_reach_k(
            union_model(s, t),
            tu,
            union_endpoint_t(s.n(), t.n(), s.n() + t.n() - 2, x),
            k,
        ),
    decreases k,
{
    let ns = s.n();
    let nt = t.n();
    let total = ns + nt - 2;
    let u = union_model(s, t);
    if k == 0 {
    } else if eps_reach_k(t, tt, x, (k - 1) as nat) {
        lemma_union_reach_t(s, t, tt, tu, x, (k - 1) as nat);
    } else {
        let i = choose|i: int|
            0 <= i < t.edges.len() && is_epsilon(#[trigger] t.edges[i]) && t.edges[i].next_state
                == x && eps_reach_k(t, tt, t.edges[i].from_state as int, (k - 1) as nat);
        let a = t.edges[i].from_state as int;
        lemma_union_reach_t(s, t, tt, tu, a, (k - 1) as nat);
        let iu = s.edges.len() + i;
        assert(u.edges[iu] == (Edge {
            from_state: union_endpoint_t(ns, nt, total, a) as usize,
            next_state: union_endpoint_t(ns, nt, total, x) as usize,
            driver_id: t.edges[i].driver_id,
            driver_type: t.edges[i].driver_type,
        }));
        assert(is_epsilon(u.edges[iu]));
        assert(eps_reach_k(u, tu, union_endpoint_t(ns, nt, total, x), k));
    }
}

/// The union of the two operands' images is closed under the union
/// automaton's epsilon edges whenever both halves are closed and agree on
/// holding the shared start state.
proof fn lemma_union_image_closed(s: GraphModel, t: GraphModel, es: Set<int>, et: Set<int>)
    requires
        s.simple_form(),
        t.simple_form(),
        s.n() + t.n() - 2 <= usize::MAX,
        es.subset_of(state_ids(s)),
        et.subset_of(state_ids(t)),
        eps_closed(s, es),
        eps_closed(t, et),
        es.contains(0) <==> et.contains(0),
    ensures
        eps_closed(
            union_model(s, t),
            s_image(s.n(), s.n() + t.n() - 2, es).union(
                t_image(s.n(), t.n(), s.n() + t.n() - 2, et),
            ),
        ),
{
    let ns = s.n();
    let nt = t.n();
    let total = ns + nt - 2;
    let u = union_model(s, t);
    let r = s_image(ns, total, es).union(t_image(ns, nt, total, et));
    assert forall|i: int|
        0 <= i < u.edges.len() && is_epsilon(#[trigger] u.edges[i]) && r.contains(
            u.edges[i].from_state as int,
        ) implies r.contains(u.edges[i].next_state as int) by {
        if i < s.edges.len() {
            let a = s.edges[i].from_state as int;
            assert(a < ns);
            assert(a as int != ns - 1);
            assert(u.edges[i].from_state as int == union_endpoint_s(ns, total, a));
            assert(is_epsilon(s.edges[i]));
            assert(es.contains(a)) by {
                if s_image(ns, total, es).contains(u.edges[i].from_state as int) {
                    let x = choose|x: int|
                        #[trigger] es.contains(x) && 0 <= x < ns && union_endpoint_s(ns, total, a)
                            == union_endpoint_s(ns, total, x);
                    assert(x == a);
                } else {
                    let x = choose|x: int|
                        #[trigger] et.contains(x) && 0 <= x < nt && union_endpoint_s(ns, total, a)
                            == union_endpoint_t(ns, nt, total, x);
                    assert(a == 0 && x == 0);
                }
            }
            let b = s.edges[i].next_state as int;
            assert(es.contains(b));
            assert(u.edges[i].next_state as int == union_endpoint_s(ns, total, b));
            assert(s_image(ns, total, es).contains(union_endpoint_s(ns, total, b)));
        } else {
            let it = i - s.edges.len();
            let a = t.edges[it].from_state as int;
            assert(a < nt);
            assert(a as int != nt - 1);
            assert(u.edges[i].from_state as int == union_endpoint_t(ns, nt, total, a));
            assert(is_epsilon(t.edges[it]));
            assert(et.contains(a)) by {
                if t_image(ns, nt, total, et).contains(u.edges[i].from_state as int) {
                    let x = choose|x: int|
                        #[trigger] et.contains(x) && 0 <= x < nt && union_endpoint_t(
                            ns,
                            nt,
                            total,
                            a,
                        ) == union_endpoint_t(ns, nt, total, x);
                    assert(x == a);
                } else {
                    let x = choose|x: int|
                        #[trigger] es.contains(x) && 0 <= x < ns && union_endpoint_t(
                            ns,
                            nt,
                            total,
                            a,
                        ) == union_endpoint_s(ns, total, x);
                    assert(a == 0 && x == 0);
                }
            }
            let b = t.edges[it].next_state as int;
            assert(et.contains(b));
            assert(u.edges[i].next_state as int == union_endpoint_t(ns, nt, total, b));
            assert(t_image(ns, nt, total, et).contains(union_endpoint_t(ns, nt, total, b)));
        }
    }
}

/// The epsilon-closure of the union automaton is the union of the images
/// of the operands' closures.
proof fn lemma_union_eclose(s: GraphModel, t: GraphModel, ts: Set<int>, tt: Set<int>)
    requires
        s.simple_form(),
        t.simple_form(),
        s.n() + t.n() - 2 <= usize::MAX,
        ts.subset_of(state_ids(s)),
        tt.subset_of(state_ids(t)),
        ts.contains(0) <==> tt.contains(0),
    ensures
        eclose(
            union_model(s, t),
            s_image(s.n(), s.n() + t.n() - 2, ts).union(
                t_image(s.n(), t.n(), s.n() + t.n() - 2, tt),
            ),
        ) == s_image(s.n(), s.n() + t.n() - 2, eclose(s, ts)).union(
            t_image(s.n(), t.n(), s.n() + t.n() - 2, eclose(t, tt)),
        ),
{
    let ns = s.n();
    let nt = t.n();
    let total = ns + nt - 2;
    let u = union_model(s, t);
    let tu = s_image(ns, total, ts).union(t_image(ns, nt, total, tt));
    let r = s_image(ns, total, eclose(s, ts)).union(t_image(ns, nt, total, eclose(t, tt)));
    assert forall|v: int| r.contains(v) implies eclose(u, tu).contains(v) by {
        if s_image(ns, total, eclose(s, ts)).contains(v) {
            let x = choose|x: int|
                #[trigger] eclose(s, ts).contains(x) && 0 <= x < ns && v == union_endpoint_s(
                    ns,
                    total,
                    x,
                );
            let k = choose|k: nat| eps_reach_k(s, ts, x, k);
            lemma_union_reach_s(s, t, ts, tu, x, k);
        } else {
            let x = choose|x: int|
                #[trigger] eclose(t, tt).contains(x) && 0 <= x < nt && v == union_endpoint_t(
                    ns,
                    nt,
                    total,
                    x,
                );
            let k = choose|k: nat| eps_reach_k(t, tt, x, k);
            lemma_union_reach_t(s, t, tt, tu, x, k);
        }
    }
    assert(eclose(u, tu).subset_of(r)) by {
        lemma_eclose_seed(s, ts);
        lemma_eclose_seed(t, tt);
        assert(tu.subset_of(r)) by {
            assert forall|v: int| tu.contains(v) implies r.contains(v) by {
                if s_image(ns, total, ts).contains(v) {
                    let x = choose|x: int|
                        #[trigger] ts.contains(x) && 0 <= x < ns && v == union_endpoint_s(
                            ns,
                            total,
                            x,
                        );
                    assert(eclose(s, ts).contains(x));
                } else {
                    let x = choose|x: int|
                        #[trigger] tt.contains(x) && 0 <= x < nt && v == union_endpoint_t(
                            ns,
                            nt,
                            total,
                            x,
                        );
                    assert(eclose(t, tt).contains(x));
                }
            }
        }
        lemma_eclose_closed(s, ts);
        lemma_eclose_closed(t, tt);
        lemma_eclose_range(s, ts);
        lemma_eclose_range(t, tt);
        lemma_eclose_zero(s, ts);
        lemma_eclose_zero(t, tt);
        lemma_union_image_closed(s, t, eclose(s, ts), eclose(t, tt));
        lemma_eclose_minimal(u, tu, r);
    }
    assert(eclose(u, tu) =~= r);
}

/// The move of the union automaton is the union of the images of the
/// operands' moves.
proof fn lemma_union_move(
    s: GraphModel,
    t: GraphModel,
    ss: Set<int>,
    st: Set<int>,
    dt: DriverType,
    did: usize,
)
    requires
        s.simple_form(),
        t.simple_form(),
        s.n() + t.n() - 2 <= usize::MAX,
        ss.subset_of(state_ids(s)),
        st.subset_of(state_ids(t)),
        ss.contains(0) <==> st.contains(0),
    ensures
        move_set(
            union_model(s, t),
            s_image(s.n(), s.n() + t.n() - 2, ss).union(
                t_image(s.n(), t.n(), s.n() + t.n() - 2, st),
            ),
            dt,
            did,
        ) == s_image(s.n(), s.n() + t.n() - 2, move_set(s, ss, dt, did)).union(
            t_image(s.n(), t.n(), s.n() + t.n() - 2, move_set(t, st, dt, did)),
        ),
{
    let ns = s.n();
    let nt = t.n();
    let total = ns + nt - 2;
    let u = union_model(s, t);
    let su0 = s_image(ns, total, ss).union(t_image(ns, nt, total, st));
    let lhs = move_set(u, su0, dt, did);
    let rhs = s_image(ns, total, move_set(s, ss, dt, did)).union(
        t_image(ns, nt, total, move_set(t, st, dt, did)),
    );
    assert forall|v: int| lhs.contains(v) implies rhs.contains(v) by {
        let i = choose|i: int|
            0 <= i < u.edges.len() && su0.contains((#[trigger] u.edges[i]).from_state as int)
                && u.edges[i].driver_type == dt && u.edges[i].driver_id == did
                && u.edges[i].next_state == v;
        if i < s.edges.len() {
            let a = s.edges[i].from_state as int;
            let b = s.edges[i].next_state as int;
            assert(a < ns && b < ns);
            assert(a as int != ns - 1);
            assert(u.edges[i].from_state as int == union_endpoint_s(ns, total, a));
            assert(ss.contains(a)) by {
                if s_image(ns, total, ss).contains(u.edges[i].from_state as int) {
                    let x = choose|x: int|
                        #[trigger] ss.contains(x) && 0 <= x < ns && union_endpoint_s(ns, total, a)
                            == union_endpoint_s(ns, total, x);
                    assert(x == a);
                } else {
                    let x = choose|x: int|
                        #[trigger] st.contains(x) && 0 <= x < nt && union_endpoint_s(ns, total, a)
                            == union_endpoint_t(ns, nt, total, x);
                    assert(a == 0 && x == 0);
                }
            }
            assert(move_set(s, ss, dt, did).contains(b));
            assert(v == union_endpoint_s(ns, total, b));
            assert(s_image(ns, total, move_set(s, ss, dt, did)).contains(v));
        } else {
            let it = i - s.edges.len();
            let a = t.edges[it].from_state as int;
            let b = t.edges[it].next_state as int;
            assert(a < nt && b < nt);
            assert(a as int != nt - 1);
            assert(u.edges[i].from_state as int == union_endpoint_t(ns, nt, total, a));
            assert(st.contains(a)) by {
                if t_image(ns, nt, total, st).contains(u.edges[i].from_state as int) {
                    let x = choose|x: int|
                        #[trigger] st.contains(x) && 0 <= x < nt && union_endpoint_t(
                            ns,
                            nt,
                            total,
                            a,
                        ) == union_endpoint_t(ns, nt, total, x);
                    assert(x == a);
                } else {
                    let x = choose|x: int|
                        #[trigger] ss.contains(x) && 0 <= x < ns && union_endpoint_t(
                            ns,
                            nt,
                            total,
                            a,
                        ) == union_endpoint_s(ns, total, x);
                    assert(a == 0 && x == 0);
                }
            }
            assert(move_set(t, st, dt, did).contains(b));
            assert(v == union_endpoint_t(ns, nt, total, b));
            assert(t_image(ns, nt, total, move_set(t, st, dt, did)).contains(v));
        }
    }
    assert forall|v: int| rhs.contains(v) implies lhs.contains(v) by {
        if s_image(ns, total, move_set(s, ss, dt, did)).contains(v) {
            let x = choose|x: int|
                #[trigger] move_set(s, ss, dt, did).contains(x) && 0 <= x < ns && v
                    == union_endpoint_s(ns, total, x);
            let i = choose|i: int|
                0 <= i < s.edges.len() && ss.contains((#[trigger] s.edges[i]).from_state as int)
                    && s.edges[i].driver_type == dt && s.edges[i].driver_id == did
                    && s.edges[i].next_state == x;
            let a = s.edges[i].from_state as int;
            assert(u.edges[i] == (Edge {
                from_state: union_endpoint_s(ns, total, a) as usize,
                next_state: union_endpoint_s(ns, total, x) as usize,
                driver_id: s.edges[i].driver_id,
                driver_type: s.edges[i].driver_type,
            }));
            assert(s_image(ns, total, ss).contains(union_endpoint_s(ns, total, a)));
            assert(su0.contains(u.edges[i].from_state as int));
            assert(u.edges[i].next_state == v);
        } else {
            let x = choose|x: int|
                #[trigger] move_set(t, st, dt, did).contains(x) && 0 <= x < nt && v
                    == union_endpoint_t(ns, nt, total, x);
            let i = choose|i: int|
                0 <= i < t.edges.len() && st.contains((#[trigger] t.edges[i]).from_state as int)
                    && t.edges[i].driver_type == dt && t.edges[i].driver_id == did
                    && t.edges[i].next_state == x;
            let a = t.edges[i].from_state as int;
            let iu = s.edges.len() + i;
            assert(u.edges[iu] == (Edge {
                from_state: union_endpoint_t(ns, nt, total, a) as usize,
                next_state: union_endpoint_t(ns, nt, total, x) as usize,
                driver_id: t.edges[i].driver_id,
                driver_type: t.edges[i].driver_type,
            }));
            assert(t_image(ns, nt, total, st).contains(union_endpoint_t(ns, nt, total, a)));
            assert(su0.contains(u.edges[iu].from_state as int));
            assert(u.edges[iu].next_state == v);
        }
    }
    assert(lhs =~= rhs);
}

/// After any prefix of the input, the union automaton's subset is exactly
/// the two operands' subsets mapped into it.
proof fn lemma_union_run_sets(s: GraphModel, t: GraphModel, input: Seq<(DriverType, usize)>, k: int)
    requires
        s.simple_form(),
        t.simple_form(),
        s.n() + t.n() - 2 <= usize::MAX,
        0 <= k <= input.len(),
    ensures
        run_set(union_model(s, t), input, k) == s_image(
            s.n(),
            s.n() + t.n() - 2,
            run_set(s, input, k),
        ).union(t_image(s.n(), t.n(), s.n() + t.n() - 2, run_set(t, input, k))),
        run_set(s, input, k).subset_of(state_ids(s)),
        run_set(t, input, k).subset_of(state_ids(t)),
        run_set(s, input, k).contains(0) <==> run_set(t, input, k).contains(0),
    decreases k,
{
    let ns = s.n();
    let nt = t.n();
    let total = ns + nt - 2;
    let u = union_model(s, t);
    let seed = Set::<int>::empty().insert(0);
    if k <= 0 {
        assert(seed.subset_of(state_ids(s)));
        assert(seed.subset_of(state_ids(t)));
        lemma_union_eclose(s, t, seed, seed);
        assert(s_image(ns, total, seed).union(t_image(ns, nt, total, seed)) =~= seed) by {
            assert(seed.contains(0) && 0 <= 0 < ns && 0 == union_endpoint_s(ns, total, 0));
            assert(s_image(ns, total, seed).contains(0));
            assert forall|v: int| s_image(ns, total, seed).contains(v) implies v == 0 by {
                let x = choose|x: int|
                    #[trigger] seed.contains(x) && 0 <= x < ns && v == union_endpoint_s(
                        ns,
                        total,
                        x,
                    );
            }
            assert forall|v: int| t_image(ns, nt, total, seed).contains(v) implies v == 0 by {
                let x = choose|x: int|
                    #[trigger] seed.contains(x) && 0 <= x < nt && v == union_endpoint_t(
                        ns,
                        nt,
                        total,
                        x,
                    );
            }
        }
        lemma_eclose_seed(s, seed);
        lemma_eclose_seed(t, seed);
        lemma_eclose_range(s, seed);
        lemma_eclose_range(t, seed);
    } else {
        lemma_union_run_sets(s, t, input, k - 1);
        let rs = run_set(s, input, k - 1);
        let rt = run_set(t, input, k - 1);
        let dt = input[k - 1].0;
        let did = input[k - 1].1;
        lemma_union_move(s, t, rs, rt, dt, did);
        let ms = move_set(s, rs, dt, did);
        let mt = move_set(t, rt, dt, did);
        assert(ms.subset_of(state_ids(s))) by {
            assert forall|v: int| ms.contains(v) implies state_ids(s).contains(v) by {
                let i = choose|i: int|
                    0 <= i < s.edges.len() && rs.contains((#[trigger] s.edges[i]).from_state as int)
                        && s.edges[i].driver_type == dt && s.edges[i].driver_id == did
                        && s.edges[i].next_state == v;
            }
        }
        assert(mt.subset_of(state_ids(t))) by {
            assert forall|v: int| mt.contains(v) implies state_ids(t).contains(v) by {
                let i = choose|i: int|
                    0 <= i < t.edges.len() && rt.contains((#[trigger] t.edges[i]).from_state as int)
                        && t.edges[i].driver_type == dt && t.edges[i].driver_id == did
                        && t.edges[i].next_state == v;
            }
        }
        assert(!ms.contains(0)) by {
            if ms.contains(0) {
                let i = choose|i: int|
                    0 <= i < s.edges.len() && rs.contains((#[trigger] s.edges[i]).from_state as int)
                        && s.edges[i].driver_type == dt && s.edges[i].driver_id == did
                        && s.edges[i].next_state == 0;
            }
        }
        assert(!mt.contains(0)) by {
            if mt.contains(0) {
                let i = choose|i: int|
                    0 <= i < t.edges.len() && rt.contains((#[trigger] t.edges[i]).from_state as int)
                        && t.edges[i].driver_type == dt && t.edges[i].driver_id == did
                        && t.edges[i].next_state == 0;
            }
        }
        lemma_union_eclose(s, t, ms, mt);
        lemma_eclose_range(s, ms);
        lemma_eclose_range(t, mt);
        lemma_eclose_zero(s, ms);
        lemma_eclose_zero(t, mt);
    }
}

/// Law: the union automaton of two simple-form operands accepts exactly
/// the inputs that either operand accepts.
pub proof fn lemma_union_language(s: GraphModel, t: GraphModel, input: Seq<(DriverType, usize)>)
    requires
        s.simple_form(),
        t.simple_form(),
        s.n() + t.n() - 2 <= usize::MAX,
    ensures
        accepts_model(union_model(s, t), input) == (accepts_model(s, input) || accepts_model(
            t,
            input,
        )),
{
    let ns = s.n();
    let nt = t.n();
    let total = ns + nt - 2;
    let u = union_model(s, t);
    let k = input.len() as int;
    lemma_union_run_sets(s, t, input, k);
    lemma_union_simple_form(s, t);
    let ru = run_set(u, input, k);
    let rs = run_set(s, input, k);
    let rt = run_set(t, input, k);
    assert(has_match(u, ru) <==> ru.contains(total - 1)) by {
        if has_match(u, ru) {
            let v = choose|v: int|
                ru.contains(v) && 0 <= v < u.states.len() && (#[trigger] u.states[v]).state_type
                    == StateType::MATCH;
            assert(v == total - 1);
        }
        if ru.contains(total - 1) {
            assert(u.states[total - 1].state_type == StateType::MATCH);
        }
    }
    assert(has_match(s, rs) <==> rs.contains(ns - 1)) by {
        if has_match(s, rs) {
            let v = choose|v: int|
                rs.contains(v) && 0 <= v < s.states.len() && (#[trigger] s.states[v]).state_type
                    == StateType::MATCH;
            assert(v == ns - 1);
        }
        if rs.contains(ns - 1) {
            assert(s.states[ns - 1].state_type == StateType::MATCH);
        }
    }
    assert(has_match(t, rt) <==> rt.contains(nt - 1)) by {
        if has_match(t, rt) {
            let v = choose|v: int|
                rt.contains(v) && 0 <= v < t.states.len() && (#[trigger] t.states[v]).state_type
                    == StateType::MATCH;
            assert(v == nt - 1);
        }
        if rt.contains(nt - 1) {
            assert(t.states[nt - 1].state_type == StateType::MATCH);
        }
    }
    assert(ru.contains(total - 1) <==> (rs.contains(ns - 1) || rt.contains(nt - 1))) by {
        if ru.contains(total - 1) {
            if s_image(ns, total, rs).contains(total - 1) {
                let x = choose|x: int|
                    #[trigger] rs.contains(x) && 0 <= x < ns && total - 1 == union_endpoint_s(
                        ns,
                        total,
                        x,
                    );
                assert(x == ns - 1);
            } else {
                let x = choose|x: int|
                    #[trigger] rt.contains(x) && 0 <= x < nt && total - 1 == union_endpoint_t(
                        ns,
                        nt,
                        total,
                        x,
                    );
                assert(x == nt - 1);
            }
        }
        if rs.contains(ns - 1) {
            assert(s_image(ns, total, rs).contains(union_endpoint_s(ns, total, ns - 1)));
        }
        if rt.contains(nt - 1) {
            assert(t_image(ns, nt, total, rt).contains(union_endpoint_t(ns, nt, total, nt - 1)));
        }
    }
}

/// Where the second operand's states land in the concatenation: shifted
/// behind the first operand, its start fused with the first operand's
/// demoted accepting state.
pub open spec fn cat_image(ns: int, nt: int, set0: Set<int>) -> Set<int> {
    Set::new(
        |v: int| exists|x: int| #[trigger] set0.contains(x) && 0 <= x < nt && v == x + ns - 1,
    )
}

/// The second operand's run over the input suffix that starts after the
/// first `j` symbols.
pub open spec fn suffix_run(t: GraphModel, input: Seq<(DriverType, usize)>, j: int, k: int) -> Set<
    int,
> {
    run_set(t, input.subrange(j, input.len() as int), k - j)
}

/// The states the second operand can be in after `k` symbols of the whole
/// input, over every split at which the first operand has accepted the
/// prefix.
pub open spec fn cat_tpart(
    s: GraphModel,
    t: GraphModel,
    input: Seq<(DriverType, usize)>,
    k: int,
) -> Set<int> {
    Set::new(
        |v: int|
            exists|j: int|
                0 <= j <= k && run_set(s, input, j).contains(s.n() - 1) && (#[trigger] suffix_run(
                    t,
                    input,
                    j,
                    k,
                )).contains(v),
    )
}

/// Every epsilon path of the first operand is an epsilon path of the
/// concatenation, on the same state ids.
proof fn lemma_cat_reach_s(
    s: GraphModel,
    t: GraphModel,
    a: Set<int>,
    tu: Set<int>,
    x: int,
    k: nat,
)
    requires
        s.simple_form(),
        t.simple_form(),
        s.n() + t.n() <= usize::MAX,
        forall|y: int| #[trigger] a.contains(y) ==> eclose(concat_model(s, t), tu).contains(y),
        eps_reach_k(s, a, x, k),
        0 <= x < s.n(),
    ensures
        eclose(concat_model(s, t), tu).contains(x),
    decreases k,
{
    let u = concat_model(s, t);
    if k == 0 {
    } else if eps_reach_k(s, a, x, (k - 1) as nat) {
        lemma_cat_reach_s(s, t, a, tu, x, (k - 1) as nat);
    } else {
        let i = choose|i: int|
            0 <= i < s.edges.len() && is_epsilon(#[trigger] s.edges[i]) && s.edges[i].next_state
                == x && eps_reach_k(s, a, s.edges[i].from_state as int, (k - 1) as nat);
        lemma_cat_reach_s(s, t, a, tu, s.edges[i].from_state as int, (k - 1) as nat);
        assert(u.edges[i] == s.edges[i]);
        lemma_eclose_closed(u, tu);
    }
}

/// Every epsilon path of the second operand maps to an epsilon path of
/// the concatenation, shifted behind the first operand.
proof fn lemma_cat_reach_t(
    s: GraphModel,
    t: GraphModel,
    b: Set<int>,
    tu: Set<int>,
    x: int,
    k: nat,
)
    requires
        s.simple_form(),
        t.simple_form(),
        s.n() + t.n() <= usize::MAX,
        forall|y: int|
            #[trigger] b.contains(y) ==> eclose(concat_model(s, t), tu).contains(y + s.n() - 1),
        eps_reach_k(t, b, x, k),
        0 <= x < t.n(),
    ensures
        eclose(concat_model(s, t), tu).contains(x + s.n() - 1),
    decreases k,
{
    let u = concat_model(s, t);
    let ns = s.n();
    if k == 0 {
    } else if eps_reach_k(t, b, x, (k - 1) as nat) {
        lemma_cat_reach_t(s, t, b, tu, x, (k - 1) as nat);
    } else {
        let i = choose|i: int|
            0 <= i < t.edges.len() && is_epsilon(#[trigger] t.edges[i]) && t.edges[i].next_state
                == x && eps_reach_k(t, b, t.edges[i].from_state as int, (k - 1) as nat);
        let a0 = t.edges[i].from_state as int;
        lemma_cat_reach_t(s, t, b, tu, a0, (k - 1) as nat);
        let iu = s.edges.len() + i;
        assert(u.edges[iu] == (Edge {
            from_state: (a0 + ns - 1) as usize,
            next_state: (x + ns - 1) as usize,
            driver_id: t.edges[i].driver_id,
            driver_type: t.edges[i].driver_type,
        }));
        assert(is_epsilon(u.edges[iu]));
        lemma_eclose_closed(u, tu);
    }
}

/// The closure inside the concatenation splits into the first operand's
/// closure and the second operand's closure, which additionally starts
/// whenever the first operand's closure reaches its accepting state.
proof fn lemma_cat_eclose(s: GraphModel, t: GraphModel, a: Set<int>, b: Set<int>)
    requires
        s.simple_form(),
        t.simple_form(),
        s.n() + t.n() <= usize::MAX,
        a.subset_of(state_ids(s)),
        b.subset_of(state_ids(t)),
    ensures
        ({
            let bb = if eclose(s, a).contains(s.n() - 1) {
                b.insert(0)
            } else {
                b
            };
            eclose(concat_model(s, t), a.union(cat_image(s.n(), t.n(), b))) == eclose(
                s,
                a,
            ).union(cat_image(s.n(), t.n(), eclose(t, bb)))
        }),
{
    let ns = s.n();
    let nt = t.n();
    let u = concat_model(s, t);
    let bb = if eclose(s, a).contains(ns - 1) {
        b.insert(0)
    } else {
        b
    };
    let tu = a.union(cat_image(ns, nt, b));
    let r = eclose(s, a).union(cat_image(ns, nt, eclose(t, bb)));
    lemma_eclose_seed(s, a);
    lemma_eclose_seed(t, bb);
    lemma_eclose_range(s, a);
    lemma_eclose_range(t, bb);
    assert forall|v: int| r.contains(v) implies eclose(u, tu).contains(v) by {
        assert forall|y: int| #[trigger] a.contains(y) implies eclose(u, tu).contains(y) by {
            lemma_eclose_seed(u, tu);
        }
        if eclose(s, a).contains(v) {
            let k = choose|k: nat| eps_reach_k(s, a, v, k);
            lemma_cat_reach_s(s, t, a, tu, v, k);
        } else {
            let x = choose|x: int|
                #[trigger] eclose(t, bb).contains(x) && 0 <= x < nt && v == x + ns - 1;
            assert forall|y: int| #[trigger] bb.contains(y) implies eclose(u, tu).contains(
                y + ns - 1,
            ) by {
                if b.contains(y) {
                    lemma_eclose_seed(u, tu);
                    assert(cat_image(ns, nt, b).contains(y + ns - 1));
                } else {
                    assert(y == 0 && eclose(s, a).contains(ns - 1));
                    let xacc: int = ns - 1;
                    let k0 = choose|k0: nat| eps_reach_k(s, a, xacc, k0);
                    lemma_cat_reach_s(s, t, a, tu, xacc, k0);
                }
            }
            let k = choose|k: nat| eps_reach_k(t, bb, x, k);
            lemma_cat_reach_t(s, t, bb, tu, x, k);
        }
    }
    assert(eclose(u, tu).subset_of(r)) by {
        assert(tu.subset_of(r)) by {
            assert forall|v: int| tu.contains(v) implies r.contains(v) by {
                if !a.contains(v) {
                    let x = choose|x: int|
                        #[trigger] b.contains(x) && 0 <= x < nt && v == x + ns - 1;
                    assert(bb.contains(x));
                    assert(eclose(t, bb).contains(x));
                }
            }
        }
        assert(eps_closed(u, r)) by {
            lemma_eclose_closed(s, a);
            lemma_eclose_closed(t, bb);
            assert forall|i: int|
                0 <= i < u.edges.len() && is_epsilon(#[trigger] u.edges[i]) && r.contains(
                    u.edges[i].from_state as int,
                ) implies r.contains(u.edges[i].next_state as int) by {
                if i < s.edges.len() {
                    assert(u.edges[i] == s.edges[i]);
                    let a0 = s.edges[i].from_state as int;
                    assert(a0 < ns);
                    assert(a0 != ns - 1);
                    assert(eclose(s, a).contains(a0)) by {
                        if cat_image(ns, nt, eclose(t, bb)).contains(a0) {
                            let x = choose|x: int|
                                #[trigger] eclose(t, bb).contains(x) && 0 <= x < nt && a0 == x + ns
                                    - 1;
                            assert(a0 == ns - 1);
                        }
                    }
                    assert(is_epsilon(s.edges[i]));
                    assert(eclose(s, a).contains(s.edges[i].next_state as int));
                } else {
                    let it = i - s.edges.len();
                    let a0 = t.edges[it].from_state as int;
                    assert(a0 < nt);
                    assert(a0 != nt - 1);
                    assert(u.edges[i] == (Edge {
                        from_state: (a0 + ns - 1) as usize,
                        next_state: (t.edges[it].next_state + ns - 1) as usize,
                        driver_id: t.edges[it].driver_id,
                        driver_type: t.edges[it].driver_type,
                    }));
                    assert(is_epsilon(t.edges[it]));
                    assert(eclose(t, bb).contains(a0)) by {
                        if eclose(s, a).contains(a0 + ns - 1) {
                            lemma_eclose_range(s, a);
                            assert(a0 + ns - 1 < ns);
                            assert(a0 == 0);
                            assert(eclose(s, a).contains(ns - 1));
                            assert(bb.contains(0));
                            lemma_eclose_seed(t, bb);
                        } else {
                            let x = choose|x: int|
                                #[trigger] eclose(t, bb).contains(x) && 0 <= x < nt && a0 + ns - 1
                                    == x + ns - 1;
                        }
                    }
                    assert(eclose(t, bb).contains(t.edges[it].next_state as int));
                    assert(cat_image(ns, nt, eclose(t, bb)).contains(
                        t.edges[it].next_state + ns - 1,
                    ));
                }
            }
        }
        lemma_eclose_minimal(u, tu, r);
    }
    assert(eclose(u, tu) =~= r);
}

/// The move inside the concatenation splits into the operands' moves.
proof fn lemma_cat_move(
    s: GraphModel,
    t: GraphModel,
    a: Set<int>,
    b: Set<int>,
    dt: DriverType,
    did: usize,
)
    requires
        s.simple_form(),
        t.simple_form(),
        s.n() + t.n() <= usize::MAX,
        a.subset_of(state_ids(s)),
        b.subset_of(state_ids(t)),
        a.contains(s.n() - 1) <==> b.contains(0),
    ensures
        move_set(concat_model(s, t), a.union(cat_image(s.n(), t.n(), b)), dt, did) == move_set(
            s,
            a,
            dt,
            did,
        ).union(cat_image(s.n(), t.n(), move_set(t, b, dt, did))),
{
    let ns = s.n();
    let nt = t.n();
    let u = concat_model(s, t);
    let s0 = a.union(cat_image(ns, nt, b));
    let lhs = move_set(u, s0, dt, did);
    let rhs = move_set(s, a, dt, did).union(cat_image(ns, nt, move_set(t, b, dt, did)));
    assert forall|v: int| lhs.contains(v) implies rhs.contains(v) by {
        let i = choose|i: int|
            0 <= i < u.edges.len() && s0.contains((#[trigger] u.edges[i]).from_state as int)
                && u.edges[i].driver_type == dt && u.edges[i].driver_id == did
                && u.edges[i].next_state == v;
        if i < s.edges.len() {
            assert(u.edges[i] == s.edges[i]);
            let a0 = s.edges[i].from_state as int;
            assert(a0 < ns && a0 != ns - 1);
            assert(a.contains(a0)) by {
                if cat_image(ns, nt, b).contains(a0) {
                    let x = choose|x: int|
                        #[trigger] b.contains(x) && 0 <= x < nt && a0 == x + ns - 1;
                    assert(a0 == ns - 1);
                }
            }
            assert(move_set(s, a, dt, did).contains(v));
        } else {
            let it = i - s.edges.len();
            let a0 = t.edges[it].from_state as int;
            assert(a0 < nt && a0 != nt - 1);
            assert(u.edges[i] == (Edge {
                from_state: (a0 + ns - 1) as usize,
                next_state: (t.edges[it].next_state + ns - 1) as usize,
                driver_id: t.edges[it].driver_id,
                driver_type: t.edges[it].driver_type,
            }));
            assert(b.contains(a0)) by {
                if a.contains(a0 + ns - 1) {
                    assert(a0 + ns - 1 < ns);
                    assert(a0 == 0);
                    assert(a.contains(ns - 1));
                } else {
                    let x = choose|x: int|
                        #[trigger] b.contains(x) && 0 <= x < nt && a0 + ns - 1 == x + ns - 1;
                }
            }
            assert(move_set(t, b, dt, did).contains(t.edges[it].next_state as int));
            assert(v == t.edges[it].next_state + ns - 1);
            assert(cat_image(ns, nt, move_set(t, b, dt, did)).contains(v));
        }
    }
    assert forall|v: int| rhs.contains(v) implies lhs.contains(v) by {
        if move_set(s, a, dt, did).contains(v) {
            let i = choose|i: int|
                0 <= i < s.edges.len() && a.contains((#[trigger] s.edges[i]).from_state as int)
                    && s.edges[i].driver_type == dt && s.edges[i].driver_id == did
                    && s.edges[i].next_state == v;
            assert(u.edges[i] == s.edges[i]);
            assert(s0.contains(u.edges[i].from_state as int));
        } else {
            let x = choose|x: int|
                #[trigger] move_set(t, b, dt, did).contains(x) && 0 <= x < nt && v == x + ns - 1;
            let i = choose|i: int|
                0 <= i < t.edges.len() && b.contains((#[trigger] t.edges[i]).from_state as int)
                    && t.edges[i].driver_type == dt && t.edges[i].driver_id == did
                    && t.edges[i].next_state == x;
            let a0 = t.edges[i].from_state as int;
            let iu = s.edges.len() + i;
            assert(u.edges[iu] == (Edge {
                from_state: (a0 + ns - 1) as usize,
                next_state: (x + ns - 1) as usize,
                driver_id: t.edges[i].driver_id,
                driver_type: t.edges[i].driver_type,
            }));
            assert(s0.contains(u.edges[iu].from_state as int)) by {
                if a0 == 0 {
                    assert(b.contains(0));
                    assert(a.contains(ns - 1));
                } else {
                    assert(cat_image(ns, nt, b).contains(a0 + ns - 1));
                }
            }
            assert(u.edges[iu].next_state as int == v);
        }
    }
    assert(lhs =~= rhs);
}

/// The second operand's part holds its start state exactly while the
/// first operand's run holds its accepting state.
proof fn lemma_cat_tpart_zero(s: GraphModel, t: GraphModel, input: Seq<(DriverType, usize)>, k: int)
    requires
        s.simple_form(),
        t.simple_form(),
        0 <= k <= input.len(),
    ensures
        cat_tpart(s, t, input, k).contains(0) <==> run_set(s, input, k).contains(s.n() - 1),
{
    if run_set(s, input, k).contains(s.n() - 1) {
        assert(suffix_run(t, input, k, k).contains(0)) by {
            lemma_eclose_seed(t, Set::<int>::empty().insert(0));
        }
        assert(cat_tpart(s, t, input, k).contains(0));
    }
    if cat_tpart(s, t, input, k).contains(0) {
        let j = choose|j: int|
            0 <= j <= k && run_set(s, input, j).contains(s.n() - 1) && (#[trigger] suffix_run(
                t,
                input,
                j,
                k,
            )).contains(0);
        if j < k {
            let sfx = input.subrange(j, input.len() as int);
            let mm = move_set(t, run_set(t, sfx, k - j - 1), sfx[k - j - 1].0, sfx[k - j - 1].1);
            lemma_eclose_zero(t, mm);
            assert(mm.contains(0));
            let i = choose|i: int|
                0 <= i < t.edges.len() && run_set(t, sfx, k - j - 1).contains(
                    (#[trigger] t.edges[i]).from_state as int,
                ) && t.edges[i].driver_type == sfx[k - j - 1].0 && t.edges[i].driver_id
                    == sfx[k - j - 1].1 && t.edges[i].next_state == 0;
        }
    }
}

/// All states of the second operand's part are its own.
proof fn lemma_cat_tpart_range(s: GraphModel, t: GraphModel, input: Seq<(DriverType, usize)>, k: int)
    requires
        t.wf(),
        t.n() >= 1,
        0 <= k <= input.len(),
    ensures
        cat_tpart(s, t, input, k).subset_of(state_ids(t)),
{
    assert forall|v: int| cat_tpart(s, t, input, k).contains(v) implies state_ids(t).contains(
        v,
    ) by {
        let j = choose|j: int|
            0 <= j <= k && run_set(s, input, j).contains(s.n() - 1) && (#[trigger] suffix_run(
                t,
                input,
                j,
                k,
            )).contains(v);
        lemma_run_set_range(t, input.subrange(j, input.len() as int), k - j);
    }
}

/// One step of the second operand's part: move it on the symbol, and let
/// it start over exactly when the first operand has accepted the longer
/// prefix.
proof fn lemma_cat_tpart_step(s: GraphModel, t: GraphModel, input: Seq<(DriverType, usize)>, k: int)
    requires
        s.simple_form(),
        t.simple_form(),
        1 <= k <= input.len(),
    ensures
        cat_tpart(s, t, input, k) == eclose(
            t,
            move_set(t, cat_tpart(s, t, input, k - 1), input[k - 1].0, input[k - 1].1).union(
                if run_set(s, input, k).contains(s.n() - 1) {
                    Set::<int>::empty().insert(0)
                } else {
                    Set::<int>::empty()
                },
            ),
        ),
{
    let dt = input[k - 1].0;
    let did = input[k - 1].1;
    let tp0 = cat_tpart(s, t, input, k - 1);
    let mm = move_set(t, tp0, dt, did);
    let s0 = if run_set(s, input, k).contains(s.n() - 1) {
        Set::<int>::empty().insert(0)
    } else {
        Set::<int>::empty()
    };
    let rhs = eclose(t, mm.union(s0));
    lemma_eclose_union(t, mm, s0);
    assert forall|v: int| cat_tpart(s, t, input, k).contains(v) implies rhs.contains(v) by {
        let j = choose|j: int|
            0 <= j <= k && run_set(s, input, j).contains(s.n() - 1) && (#[trigger] suffix_run(
                t,
                input,
                j,
                k,
            )).contains(v);
        if j == k {
            assert(suffix_run(t, input, k, k) == eclose(t, Set::<int>::empty().insert(0)));
            assert(s0.contains(0));
            lemma_eclose_mono(t, Set::<int>::empty().insert(0), s0);
            assert(eclose(t, s0).contains(v));
        } else {
            let sfx = input.subrange(j, input.len() as int);
            assert(sfx[k - j - 1] == input[k - 1]);
            let rj = run_set(t, sfx, k - j - 1);
            assert(suffix_run(t, input, j, k) == eclose(t, move_set(t, rj, dt, did)));
            assert(rj.subset_of(tp0)) by {
                assert forall|w: int| rj.contains(w) implies tp0.contains(w) by {
                    assert(suffix_run(t, input, j, k - 1).contains(w));
                }
            }
            assert(move_set(t, rj, dt, did).subset_of(mm)) by {
                assert forall|w: int| move_set(t, rj, dt, did).contains(w) implies mm.contains(
                    w,
                ) by {
                    let i = choose|i: int|
                        0 <= i < t.edges.len() && rj.contains(
                            (#[trigger] t.edges[i]).from_state as int,
                        ) && t.edges[i].driver_type == dt && t.edges[i].driver_id == did
                            && t.edges[i].next_state == w;
                }
            }
            lemma_eclose_mono(t, move_set(t, rj, dt, did), mm);
            assert(eclose(t, mm).contains(v));
        }
    }
    assert forall|v: int| rhs.contains(v) implies cat_tpart(s, t, input, k).contains(v) by {
        if eclose(t, s0).contains(v) {
            assert(s0.contains(0)) by {
                if s0 == Set::<int>::empty() {
                    lemma_eclose_empty(t);
                }
            }
            assert(run_set(s, input, k).contains(s.n() - 1));
            assert(s0 =~= Set::<int>::empty().insert(0));
            assert(suffix_run(t, input, k, k).contains(v));
            assert(cat_tpart(s, t, input, k).contains(v));
        } else {
            assert(eclose(t, mm).contains(v));
            lemma_eclose_single(t, mm, v);
            let w0 = choose|w0: int|
                #[trigger] mm.contains(w0) && eclose(t, Set::<int>::empty().insert(w0)).contains(
                    v,
                );
            let i = choose|i: int|
                0 <= i < t.edges.len() && tp0.contains((#[trigger] t.edges[i]).from_state as int)
                    && t.edges[i].driver_type == dt && t.edges[i].driver_id == did
                    && t.edges[i].next_state == w0;
            let x0 = t.edges[i].from_state as int;
            let j = choose|j: int|
                0 <= j <= k - 1 && run_set(s, input, j).contains(s.n() - 1) && (
                #[trigger] suffix_run(t, input, j, k - 1)).contains(x0);
            let sfx = input.subrange(j, input.len() as int);
            assert(sfx[k - j - 1] == input[k - 1]);
            let rj = run_set(t, sfx, k - j - 1);
            assert(move_set(t, rj, dt, did).contains(w0));
            lemma_eclose_mono(t, Set::<int>::empty().insert(w0), move_set(t, rj, dt, did));
            assert(suffix_run(t, input, j, k) == eclose(t, move_set(t, rj, dt, did)));
            assert(suffix_run(t, input, j, k).contains(v));
            assert(cat_tpart(s, t, input, k).contains(v));
        }
    }
    assert(cat_tpart(s, t, input, k) =~= rhs);
}

/// After any prefix, the concatenation's subset is the first operand's
/// subset together with the image of the second operand's part.
proof fn lemma_cat_run_sets(s: GraphModel, t: GraphModel, input: Seq<(DriverType, usize)>, k: int)
    requires
        s.simple_form(),
        t.simple_form(),
        s.n() + t.n() <= usize::MAX,
        0 <= k <= input.len(),
    ensures
        run_set(concat_model(s, t), input, k) == run_set(s, input, k).union(
            cat_image(s.n(), t.n(), cat_tpart(s, t, input, k)),
        ),
    decreases k,
{
    let ns = s.n();
    let nt = t.n();
    let u = concat_model(s, t);
    let seed = Set::<int>::empty().insert(0);
    if k <= 0 {
        assert(seed.subset_of(state_ids(s)));
        assert(Set::<int>::empty().subset_of(state_ids(t)));
        lemma_cat_eclose(s, t, seed, Set::<int>::empty());
        assert(seed.union(cat_image(ns, nt, Set::<int>::empty())) =~= seed) by {
            assert forall|v: int|
                !cat_image(ns, nt, Set::<int>::empty()).contains(v) by {
                if cat_image(ns, nt, Set::<int>::empty()).contains(v) {
                    let x = choose|x: int|
                        #[trigger] Set::<int>::empty().contains(x) && 0 <= x < nt && v == x + ns
                            - 1;
                }
            }
        }
        let bb = if eclose(s, seed).contains(ns - 1) {
            Set::<int>::empty().insert(0)
        } else {
            Set::<int>::empty()
        };
        assert(bb =~= (if eclose(s, seed).contains(ns - 1) {
            Set::<int>::empty().insert(0)
        } else {
            Set::<int>::empty()
        }));
        assert(eclose(t, bb) =~= cat_tpart(s, t, input, 0)) by {
            if eclose(s, seed).contains(ns - 1) {
                assert forall|v: int| eclose(t, bb).contains(v) implies cat_tpart(
                    s,
                    t,
                    input,
                    0,
                ).contains(v) by {
                    assert(suffix_run(t, input, 0, 0).contains(v)) by {
                        assert(input.subrange(0, input.len() as int) =~= input);
                        assert(bb =~= Set::<int>::empty().insert(0));
                    }
                }
                assert forall|v: int| cat_tpart(s, t, input, 0).contains(v) implies eclose(
                    t,
                    bb,
                ).contains(v) by {
                    let j = choose|j: int|
                        0 <= j <= 0 && run_set(s, input, j).contains(ns - 1) && (
                        #[trigger] suffix_run(t, input, j, 0)).contains(v);
                    assert(input.subrange(0, input.len() as int) =~= input);
                    assert(bb =~= Set::<int>::empty().insert(0));
                }
            } else {
                lemma_eclose_empty(t);
                assert forall|v: int| !cat_tpart(s, t, input, 0).contains(v) by {
                    if cat_tpart(s, t, input, 0).contains(v) {
                        let j = choose|j: int|
                            0 <= j <= 0 && run_set(s, input, j).contains(ns - 1) && (
                            #[trigger] suffix_run(t, input, j, 0)).contains(v);
                    }
                }
            }
        }
    } else {
        lemma_cat_run_sets(s, t, input, k - 1);
        let dt = input[k - 1].0;
        let did = input[k - 1].1;
        let rs0 = run_set(s, input, k - 1);
        let tp0 = cat_tpart(s, t, input, k - 1);
        lemma_run_set_range(s, input, k - 1);
        lemma_cat_tpart_range(s, t, input, k - 1);
        lemma_cat_tpart_zero(s, t, input, k - 1);
        lemma_cat_move(s, t, rs0, tp0, dt, did);
        let ms = move_set(s, rs0, dt, did);
        let mt = move_set(t, tp0, dt, did);
        assert(ms.subset_of(state_ids(s))) by {
            assert forall|v: int| ms.contains(v) implies state_ids(s).contains(v) by {
                let i = choose|i: int|
                    0 <= i < s.edges.len() && rs0.contains((#[trigger] s.edges[i]).from_state as int)
                        && s.edges[i].driver_type == dt && s.edges[i].driver_id == did
                        && s.edges[i].next_state == v;
            }
        }
        assert(mt.subset_of(state_ids(t))) by {
            assert forall|v: int| mt.contains(v) implies state_ids(t).contains(v) by {
                let i = choose|i: int|
                    0 <= i < t.edges.len() && tp0.contains((#[trigger] t.edges[i]).from_state as int)
                        && t.edges[i].driver_type == dt && t.edges[i].driver_id == did
                        && t.edges[i].next_state == v;
            }
        }
        lemma_cat_eclose(s, t, ms, mt);
        lemma_cat_tpart_step(s, t, input, k);
        let bb = if eclose(s, ms).contains(ns - 1) {
            mt.insert(0)
        } else {
            mt
        };
        assert(run_set(s, input, k) == eclose(s, ms));
        assert(bb =~= mt.union(
            if run_set(s, input, k).contains(ns - 1) {
                Set::<int>::empty().insert(0)
            } else {
                Set::<int>::empty()
            },
        ));
        assert(cat_tpart(s, t, input, k) == eclose(t, bb));
        assert(run_set(u, input, k) == eclose(u, move_set(u, run_set(u, input, k - 1), dt, did)));
        assert(move_set(u, run_set(u, input, k - 1), dt, did) == ms.union(cat_image(ns, nt, mt)));
        assert(run_set(u, input, k) == eclose(s, ms).union(cat_image(ns, nt, eclose(t, bb))));
    }
}

/// Law: the concatenation automaton of two simple-form operands accepts
/// exactly the inputs that split into a first-operand word followed by a
/// second-operand word.
pub proof fn lemma_concat_language(s: GraphModel, t: GraphModel, input: Seq<(DriverType, usize)>)
    requires
        s.simple_form(),
        t.simple_form(),
        s.n() + t.n() <= usize::MAX,
    ensures
        accepts_model(concat_model(s, t), input) <==> exists|j: int|
            0 <= j <= input.len() && accepts_model(s, #[trigger] input.take(j)) && accepts_model(
                t,
                input.skip(j),
            ),
{
    let ns = s.n();
    let nt = t.n();
    let u = concat_model(s, t);
    let len = input.len() as int;
    lemma_concat_simple_form(s, t);
    lemma_cat_run_sets(s, t, input, len);
    let ru = run_set(u, input, len);
    let rs = run_set(s, input, len);
    let tp = cat_tpart(s, t, input, len);
    lemma_run_set_range(s, input, len);
    assert(has_match(u, ru) <==> ru.contains(ns + nt - 2)) by {
        if has_match(u, ru) {
            let v = choose|v: int|
                ru.contains(v) && 0 <= v < u.states.len() && (#[trigger] u.states[v]).state_type
                    == StateType::MATCH;
            assert(v == u.n() - 1);
        }
        if ru.contains(ns + nt - 2) {
            assert(u.states[u.n() - 1].state_type == StateType::MATCH);
        }
    }
    assert(ru.contains(ns + nt - 2) <==> tp.contains(nt - 1)) by {
        if ru.contains(ns + nt - 2) {
            if rs.contains(ns + nt - 2) {
                assert(ns + nt - 2 < ns);
            } else {
                let x = choose|x: int|
                    #[trigger] tp.contains(x) && 0 <= x < nt && ns + nt - 2 == x + ns - 1;
                assert(x == nt - 1);
            }
        }
        if tp.contains(nt - 1) {
            assert(cat_image(ns, nt, tp).contains(nt - 1 + ns - 1));
        }
    }
    assert forall|j: int| 0 <= j <= len implies ((accepts_model(s, #[trigger] input.take(j))
        && accepts_model(t, input.skip(j))) <==> (run_set(s, input, j).contains(ns - 1)
        && suffix_run(t, input, j, len).contains(nt - 1))) by {
        lemma_run_set_take(s, input, j, j);
        assert(input.take(j).len() == j);
        assert(accepts_model(s, input.take(j)) == has_match(s, run_set(s, input, j)));
        lemma_run_set_range(s, input, j);
        assert(has_match(s, run_set(s, input, j)) <==> run_set(s, input, j).contains(ns - 1)) by {
            if has_match(s, run_set(s, input, j)) {
                let v = choose|v: int|
                    run_set(s, input, j).contains(v) && 0 <= v < s.states.len() && (
                    #[trigger] s.states[v]).state_type == StateType::MATCH;
                assert(v == ns - 1);
            }
            if run_set(s, input, j).contains(ns - 1) {
                assert(s.states[ns - 1].state_type == StateType::MATCH);
            }
        }
        assert(input.skip(j) =~= input.subrange(j, len));
        assert(input.skip(j).len() == len - j);
        assert(accepts_model(t, input.skip(j)) == has_match(t, suffix_run(t, input, j, len)));
        lemma_run_set_range(t, input.subrange(j, len), len - j);
        assert(has_match(t, suffix_run(t, input, j, len)) <==> suffix_run(t, input, j, len).contains(
            nt - 1,
        )) by {
            if has_match(t, suffix_run(t, input, j, len)) {
                let v = choose|v: int|
                    suffix_run(t, input, j, len).contains(v) && 0 <= v < t.states.len() && (
                    #[trigger] t.states[v]).state_type == StateType::MATCH;
                assert(v == nt - 1);
            }
            if suffix_run(t, input, j, len).contains(nt - 1) {
                assert(t.states[nt - 1].state_type == StateType::MATCH);
            }
        }
    }
    assert(tp.contains(nt - 1) <==> exists|j: int|
        0 <= j <= len && accepts_model(s, #[trigger] input.take(j)) && accepts_model(
            t,
            input.skip(j),
        )) by {
        if tp.contains(nt - 1) {
            let j = choose|j: int|
                0 <= j <= len && run_set(s, input, j).contains(ns - 1) && (#[trigger] suffix_run(
                    t,
                    input,
                    j,
                    len,
                )).contains(nt - 1);
            assert(accepts_model(s, input.take(j)) && accepts_model(t, input.skip(j)));
        }
        if exists|j: int|
            0 <= j <= len && accepts_model(s, #[trigger] input.take(j)) && accepts_model(
                t,
                input.skip(j),
            ) {
            let j = choose|j: int|
                0 <= j <= len && accepts_model(s, #[trigger] input.take(j)) && accepts_model(
                    t,
                    input.skip(j),
                );
            assert(run_set(s, input, j).contains(ns - 1) && suffix_run(t, input, j, len).contains(
                nt - 1,
            ));
            assert(tp.contains(nt - 1));
        }
    }
}

/// The operand with the repeat edge folded in: one more epsilon edge from
/// its accepting state back to its start.  The middle part of a closure
/// wrap behaves exactly like this automaton.
pub open spec fn augmented(m: GraphModel) -> GraphModel {
    GraphModel {
        states: m.states,
        edges: m.edges.push(
            Edge {
                from_state: (m.n() - 1) as usize,
                next_state: 0,
                driver_id: 0,
                driver_type: DriverType::NULL,
            },
        ),
    }
}

/// Closing under the repeat edge adds the operand's start closure exactly
/// when the operand's own closure reaches its accepting state.
proof fn lemma_aug_eclose(m: GraphModel, s0: Set<int>)
    requires
        m.simple_form(),
        m.n() + 2 <= usize::MAX,
        s0.subset_of(state_ids(m)),
    ensures
        eclose(augmented(m), s0) == eclose(m, s0).union(
            if eclose(m, s0).contains(m.n() - 1) {
                eclose(m, Set::<int>::empty().insert(0))
            } else {
                Set::<int>::empty()
            },
        ),
{
    let n = m.n();
    let aug = augmented(m);
    let seed = Set::<int>::empty().insert(0);
    let b = if eclose(m, s0).contains(n - 1) {
        eclose(m, seed)
    } else {
        Set::<int>::empty()
    };
    let r = eclose(m, s0).union(b);
    assert(aug.edges[m.edges.len() as int] == (Edge {
        from_state: (n - 1) as usize,
        next_state: 0,
        driver_id: 0,
        driver_type: DriverType::NULL,
    }));
    assert forall|i: int| 0 <= i < m.edges.len() implies aug.edges[i] == m.edges[i] by {}
    assert forall|v: int| r.contains(v) implies eclose(aug, s0).contains(v) by {
        lemma_eclose_seed(aug, s0);
        if eclose(m, s0).contains(v) {
            let k = choose|k: nat| eps_reach_k(m, s0, v, k);
            lemma_aug_reach(m, s0, s0, v, k);
        } else {
            assert(eclose(m, s0).contains(n - 1));
            let xacc: int = n - 1;
            let k0 = choose|k0: nat| eps_reach_k(m, s0, xacc, k0);
            lemma_aug_reach(m, s0, s0, xacc, k0);
            lemma_eclose_closed(aug, s0);
            assert(is_epsilon(aug.edges[m.edges.len() as int]));
            assert(eclose(aug, s0).contains(0));
            let k = choose|k: nat| eps_reach_k(m, seed, v, k);
            assert forall|y: int| #[trigger] seed.contains(y) implies eclose(aug, s0).contains(
                y,
            ) by {}
            lemma_aug_reach(m, seed, s0, v, k);
        }
    }
    assert(eclose(aug, s0).subset_of(r)) by {
        lemma_eclose_seed(m, s0);
        assert(eps_closed(aug, r)) by {
            lemma_eclose_closed(m, s0);
            lemma_eclose_closed(m, seed);
            assert forall|i: int|
                0 <= i < aug.edges.len() && is_epsilon(#[trigger] aug.edges[i]) && r.contains(
                    aug.edges[i].from_state as int,
                ) implies r.contains(aug.edges[i].next_state as int) by {
                if i < m.edges.len() {
                    assert(aug.edges[i] == m.edges[i]);
                } else {
                    assert(aug.edges[i].from_state as int == n - 1);
                    assert(eclose(m, s0).contains(n - 1) || b.contains(n - 1));
                    if !eclose(m, s0).contains(n - 1) {
                        assert(b == Set::<int>::empty());
                    }
                    assert(b == eclose(m, seed));
                    lemma_eclose_seed(m, seed);
                    assert(b.contains(0));
                }
            }
        }
        lemma_eclose_minimal(aug, s0, r);
    }
    assert(eclose(aug, s0) =~= r);
}

/// Epsilon paths of the operand are epsilon paths of the augmented
/// operand.
proof fn lemma_aug_reach(m: GraphModel, tm: Set<int>, tu: Set<int>, x: int, k: nat)
    requires
        forall|y: int| #[trigger] tm.contains(y) ==> eclose(augmented(m), tu).contains(y),
        eps_reach_k(m, tm, x, k),
    ensures
        eclose(augmented(m), tu).contains(x),
    decreases k,
{
    let aug = augmented(m);
    if k == 0 {
    } else if eps_reach_k(m, tm, x, (k - 1) as nat) {
        lemma_aug_reach(m, tm, tu, x, (k - 1) as nat);
    } else {
        let i = choose|i: int|
            0 <= i < m.edges.len() && is_epsilon(#[trigger] m.edges[i]) && m.edges[i].next_state
                == x && eps_reach_k(m, tm, m.edges[i].from_state as int, (k - 1) as nat);
        lemma_aug_reach(m, tm, tu, m.edges[i].from_state as int, (k - 1) as nat);
        assert(aug.edges[i] == m.edges[i]);
        lemma_eclose_closed(aug, tu);
    }
}

/// On a proper symbol the augmented operand moves exactly as the operand
/// does: the repeat edge is an epsilon edge.
proof fn lemma_aug_move(m: GraphModel, s0: Set<int>, dt: DriverType, did: usize)
    requires
        dt != DriverType::NULL,
    ensures
        move_set(augmented(m), s0, dt, did) == move_set(m, s0, dt, did),
{
    let aug = augmented(m);
    assert forall|v: int| move_set(aug, s0, dt, did).contains(v) implies move_set(
        m,
        s0,
        dt,
        did,
    ).contains(v) by {
        let i = choose|i: int|
            0 <= i < aug.edges.len() && s0.contains((#[trigger] aug.edges[i]).from_state as int)
                && aug.edges[i].driver_type == dt && aug.edges[i].driver_id == did
                && aug.edges[i].next_state == v;
        assert(i < m.edges.len());
        assert(aug.edges[i] == m.edges[i]);
    }
    assert forall|v: int| move_set(m, s0, dt, did).contains(v) implies move_set(
        aug,
        s0,
        dt,
        did,
    ).contains(v) by {
        let i = choose|i: int|
            0 <= i < m.edges.len() && s0.contains((#[trigger] m.edges[i]).from_state as int)
                && m.edges[i].driver_type == dt && m.edges[i].driver_id == did
                && m.edges[i].next_state == v;
        assert(augmented(m).edges[i] == m.edges[i]);
    }
    assert(move_set(aug, s0, dt, did) =~= move_set(m, s0, dt, did));
}

/// The edge layout of a closure wrap with the repeat edge: the entry
/// edge, then the shifted edges of the augmented operand — the repeat
/// edge is the shifted image of the augmented operand's extra edge —
/// then the exit edge, then the skip edge if one was asked for.
proof fn lemma_star_edges(m: GraphModel, skip: bool)
    requires
        m.n() + 2 <= usize::MAX,
        m.n() >= 1,
    ensures
        wrap_model(m, true, skip).edges.len() == augmented(m).edges.len() + 2 + (if skip {
            1int
        } else {
            0int
        }),
        wrap_model(m, true, skip).edges[0] == (Edge {
            from_state: 0,
            next_state: 1,
            driver_id: 0,
            driver_type: DriverType::NULL,
        }),
        forall|i: int|
            1 <= i < 1 + augmented(m).edges.len() ==> wrap_model(m, true, skip).edges[i]
                == shift_edge(augmented(m).edges[i - 1]),
        wrap_model(m, true, skip).edges[1 + augmented(m).edges.len() as int] == (Edge {
            from_state: m.n() as usize,
            next_state: (m.n() + 1) as usize,
            driver_id: 0,
            driver_type: DriverType::NULL,
        }),
        skip ==> wrap_model(m, true, skip).edges[2 + augmented(m).edges.len() as int] == (Edge {
            from_state: 0,
            next_state: (m.n() + 1) as usize,
            driver_id: 0,
            driver_type: DriverType::NULL,
        }),
{
    assert forall|i: int|
        1 <= i < 1 + augmented(m).edges.len() implies wrap_model(m, true, skip).edges[i]
        == shift_edge(augmented(m).edges[i - 1]) by {
        if i - 1 < m.edges.len() {
            assert(augmented(m).edges[i - 1] == m.edges[i - 1]);
        } else {
            assert(augmented(m).edges[i - 1] == (Edge {
                from_state: (m.n() - 1) as usize,
                next_state: 0,
                driver_id: 0,
                driver_type: DriverType::NULL,
            }));
        }
    }
}

/// Epsilon paths of the augmented operand map into the closure wrap.
proof fn lemma_star_reach(
    m: GraphModel,
    skip: bool,
    tm: Set<int>,
    tu: Set<int>,
    x: int,
    k: nat,
)
    requires
        m.simple_form(),
        m.n() + 2 <= usize::MAX,
        tm.subset_of(state_ids(m)),
        forall|y: int|
            #[trigger] tm.contains(y) ==> eclose(wrap_model(m, true, skip), tu).contains(y + 1),
        eps_reach_k(augmented(m), tm, x, k),
        0 <= x < m.n(),
    ensures
        eclose(wrap_model(m, true, skip), tu).contains(x + 1),
    decreases k,
{
    let u = wrap_model(m, true, skip);
    let aug = augmented(m);
    lemma_star_edges(m, skip);
    if k == 0 {
    } else if eps_reach_k(aug, tm, x, (k - 1) as nat) {
        lemma_star_reach(m, skip, tm, tu, x, (k - 1) as nat);
    } else {
        let i = choose|i: int|
            0 <= i < aug.edges.len() && is_epsilon(#[trigger] aug.edges[i])
                && aug.edges[i].next_state == x && eps_reach_k(
                aug,
                tm,
                aug.edges[i].from_state as int,
                (k - 1) as nat,
            );
        let a = aug.edges[i].from_state as int;
        assert(a < m.n()) by {
            if i < m.edges.len() {
                assert(aug.edges[i] == m.edges[i]);
            }
        }
        lemma_star_reach(m, skip, tm, tu, a, (k - 1) as nat);
        assert(u.edges[1 + i] == shift_edge(aug.edges[i]));
        assert(is_epsilon(u.edges[1 + i]));
        assert(u.edges[1 + i].from_state as int == a + 1);
        assert(u.edges[1 + i].next_state as int == x + 1);
        lemma_eclose_closed(u, tu);
    }
}

/// The closure of a shifted subset inside a closure wrap: the shifted
/// closure of the augmented operand, plus the fresh end exactly when that
/// closure reaches the operand's accepting state.
proof fn lemma_star_eclose(m: GraphModel, skip: bool, tm: Set<int>)
    requires
        m.simple_form(),
        m.n() + 2 <= usize::MAX,
        tm.subset_of(state_ids(m)),
    ensures
        eclose(wrap_model(m, true, skip), shift1_image(m.n(), tm)) == shift1_image(
            m.n(),
            eclose(augmented(m), tm),
        ).union(wrap_end_extra(m, eclose(augmented(m), tm))),
{
    let n = m.n();
    let u = wrap_model(m, true, skip);
    let aug = augmented(m);
    lemma_star_edges(m, skip);
    let tu = shift1_image(n, tm);
    let ea = eclose(aug, tm);
    let r = shift1_image(n, ea).union(wrap_end_extra(m, ea));
    lemma_eclose_seed(aug, tm);
    assert(ea.subset_of(state_ids(m))) by {
        assert(aug.wf()) by {
            assert forall|i: int|
                0 <= i < aug.edges.len() implies (#[trigger] aug.edges[i]).from_state
                < aug.states.len() && aug.edges[i].next_state < aug.states.len() by {
                if i < m.edges.len() {
                    assert(aug.edges[i] == m.edges[i]);
                }
            }
        }
        lemma_eclose_range(aug, tm);
    }
    assert forall|v: int| r.contains(v) implies eclose(u, tu).contains(v) by {
        assert forall|y: int| #[trigger] tm.contains(y) implies eclose(u, tu).contains(y + 1) by {
            lemma_eclose_seed(u, tu);
            assert(tu.contains(y + 1));
        }
        if shift1_image(n, ea).contains(v) {
            let x = choose|x: int| #[trigger] ea.contains(x) && 0 <= x < n && v == x + 1;
            let k = choose|k: nat| eps_reach_k(aug, tm, x, k);
            lemma_star_reach(m, skip, tm, tu, x, k);
        } else {
            assert(ea.contains(n - 1));
            let xacc: int = n - 1;
            let k = choose|k: nat| eps_reach_k(aug, tm, xacc, k);
            lemma_star_reach(m, skip, tm, tu, xacc, k);
            assert(eclose(u, tu).contains(n));
            lemma_eclose_closed(u, tu);
            assert(is_epsilon(u.edges[1 + aug.edges.len() as int]));
            assert(eclose(u, tu).contains(v));
        }
    }
    assert(eclose(u, tu).subset_of(r)) by {
        assert(tu.subset_of(r)) by {
            assert forall|v: int| tu.contains(v) implies r.contains(v) by {
                let x = choose|x: int| #[trigger] tm.contains(x) && 0 <= x < n && v == x + 1;
                assert(ea.contains(x));
            }
        }
        assert(eps_closed(u, r)) by {
            lemma_eclose_closed(aug, tm);
            assert forall|i: int|
                0 <= i < u.edges.len() && is_epsilon(#[trigger] u.edges[i]) && r.contains(
                    u.edges[i].from_state as int,
                ) implies r.contains(u.edges[i].next_state as int) by {
                assert(!r.contains(0)) by {
                    if shift1_image(n, ea).contains(0) {
                        let x = choose|x: int| #[trigger] ea.contains(x) && 0 <= x < n && 0 == x + 1;
                    }
                }
                if i == 0 || (skip && i == 2 + aug.edges.len()) {
                } else if i == 1 + aug.edges.len() {
                    assert(u.edges[i].from_state as int == n);
                    assert(shift1_image(n, ea).contains(n)) by {
                        if wrap_end_extra(m, ea).contains(n) {
                        }
                    }
                    let x = choose|x: int| #[trigger] ea.contains(x) && 0 <= x < n && n == x + 1;
                    assert(x == n - 1);
                    assert(wrap_end_extra(m, ea).contains(n + 1));
                } else {
                    let a = aug.edges[i - 1].from_state as int;
                    let b = aug.edges[i - 1].next_state as int;
                    assert(u.edges[i] == shift_edge(aug.edges[i - 1]));
                    assert(is_epsilon(aug.edges[i - 1]));
                    assert(a < n && b < n) by {
                        if i - 1 < m.edges.len() {
                            assert(aug.edges[i - 1] == m.edges[i - 1]);
                        }
                    }
                    assert(ea.contains(a)) by {
                        assert(u.edges[i].from_state as int == a + 1);
                        if wrap_end_extra(m, ea).contains(a + 1) {
                            assert(a == n);
                        }
                        let x = choose|x: int|
                            #[trigger] ea.contains(x) && 0 <= x < n && a + 1 == x + 1;
                    }
                    assert(ea.contains(b));
                    assert(shift1_image(n, ea).contains(b + 1));
                }
            }
        }
        lemma_eclose_minimal(u, tu, r);
    }
    assert(eclose(u, tu) =~= r);
}

/// The start subset of a closure wrap: the fresh start, the fresh end if
/// the skip edge accepts the empty string or the operand itself accepts
/// it, and the shifted start closure.
proof fn lemma_star_seed(m: GraphModel, skip: bool)
    requires
        m.simple_form(),
        m.n() + 2 <= usize::MAX,
    ensures
        eclose(wrap_model(m, true, skip), Set::<int>::empty().insert(0))
            == Set::<int>::empty().insert(0).union(
            if skip {
                Set::<int>::empty().insert(m.n() + 1)
            } else {
                Set::<int>::empty()
            },
        ).union(shift1_image(m.n(), eclose(augmented(m), Set::<int>::empty().insert(0)))).union(
            wrap_end_extra(m, eclose(augmented(m), Set::<int>::empty().insert(0))),
        ),
{
    let n = m.n();
    let u = wrap_model(m, true, skip);
    let aug = augmented(m);
    lemma_star_edges(m, skip);
    let seed = Set::<int>::empty().insert(0);
    let ea = eclose(aug, seed);
    let r = Set::<int>::empty().insert(0).union(
        if skip {
            Set::<int>::empty().insert(n + 1)
        } else {
            Set::<int>::empty()
        },
    ).union(shift1_image(n, ea)).union(wrap_end_extra(m, ea));
    lemma_eclose_seed(aug, seed);
    assert(ea.subset_of(state_ids(m))) by {
        assert(aug.wf()) by {
            assert forall|i: int|
                0 <= i < aug.edges.len() implies (#[trigger] aug.edges[i]).from_state
                < aug.states.len() && aug.edges[i].next_state < aug.states.len() by {
                if i < m.edges.len() {
                    assert(aug.edges[i] == m.edges[i]);
                }
            }
        }
        lemma_eclose_range(aug, seed);
    }
    lemma_eclose_seed(u, seed);
    assert forall|v: int| r.contains(v) implies eclose(u, seed).contains(v) by {
        assert(eclose(u, seed).contains(0));
        lemma_eclose_closed(u, seed);
        assert(is_epsilon(u.edges[0]));
        assert(eclose(u, seed).contains(1));
        if skip {
            assert(is_epsilon(u.edges[2 + aug.edges.len() as int]));
            assert(eclose(u, seed).contains(n + 1));
        }
        assert forall|y: int| #[trigger] seed.contains(y) implies eclose(u, seed).contains(
            y + 1,
        ) by {}
        if shift1_image(n, ea).contains(v) {
            let x = choose|x: int| #[trigger] ea.contains(x) && 0 <= x < n && v == x + 1;
            let k = choose|k: nat| eps_reach_k(aug, seed, x, k);
            lemma_star_reach(m, skip, seed, seed, x, k);
        }
        if wrap_end_extra(m, ea).contains(v) {
            assert(ea.contains(n - 1));
            let xacc: int = n - 1;
            let k = choose|k: nat| eps_reach_k(aug, seed, xacc, k);
            lemma_star_reach(m, skip, seed, seed, xacc, k);
            assert(eclose(u, seed).contains(n));
            assert(is_epsilon(u.edges[1 + aug.edges.len() as int]));
            assert(eclose(u, seed).contains(n + 1));
        }
    }
    assert(eclose(u, seed).subset_of(r)) by {
        assert(eps_closed(u, r)) by {
            lemma_eclose_closed(aug, seed);
            assert forall|i: int|
                0 <= i < u.edges.len() && is_epsilon(#[trigger] u.edges[i]) && r.contains(
                    u.edges[i].from_state as int,
                ) implies r.contains(u.edges[i].next_state as int) by {
                if i == 0 {
                    assert(ea.contains(0));
                    assert(shift1_image(n, ea).contains(1));
                } else if skip && i == 2 + aug.edges.len() {
                } else if i == 1 + aug.edges.len() {
                    assert(u.edges[i].from_state as int == n);
                    assert(shift1_image(n, ea).contains(n)) by {
                        if wrap_end_extra(m, ea).contains(n) {
                        }
                    }
                    let x = choose|x: int| #[trigger] ea.contains(x) && 0 <= x < n && n == x + 1;
                    assert(x == n - 1);
                    assert(wrap_end_extra(m, ea).contains(n + 1));
                } else {
                    let a = aug.edges[i - 1].from_state as int;
                    let b = aug.edges[i - 1].next_state as int;
                    assert(u.edges[i] == shift_edge(aug.edges[i - 1]));
                    assert(is_epsilon(aug.edges[i - 1]));
                    assert(a < n && b < n) by {
                        if i - 1 < m.edges.len() {
                            assert(aug.edges[i - 1] == m.edges[i - 1]);
                        }
                    }
                    assert(ea.contains(a)) by {
                        assert(u.edges[i].from_state as int == a + 1);
                        let x = choose|x: int|
                            #[trigger] ea.contains(x) && 0 <= x < n && a + 1 == x + 1;
                    }
                    assert(ea.contains(b));
                    assert(shift1_image(n, ea).contains(b + 1));
                }
            }
        }
        lemma_eclose_minimal(u, seed, r);
    }
    assert(eclose(u, seed) =~= r);
}

/// On a proper symbol, a closure wrap moves exactly as the shifted
/// augmented operand does.
proof fn lemma_star_move(
    m: GraphModel,
    skip: bool,
    rm: Set<int>,
    x0: Set<int>,
    dt: DriverType,
    did: usize,
)
    requires
        m.simple_form(),
        m.n() + 2 <= usize::MAX,
        rm.subset_of(state_ids(m)),
        dt != DriverType::NULL,
        forall|v: int| #[trigger] x0.contains(v) ==> v == 0 || v == m.n() + 1,
    ensures
        move_set(wrap_model(m, true, skip), shift1_image(m.n(), rm).union(x0), dt, did)
            == shift1_image(m.n(), move_set(augmented(m), rm, dt, did)),
{
    let n = m.n();
    let u = wrap_model(m, true, skip);
    let aug = augmented(m);
    lemma_star_edges(m, skip);
    lemma_aug_move(m, rm, dt, did);
    let s0 = shift1_image(n, rm).union(x0);
    let lhs = move_set(u, s0, dt, did);
    let rhs = shift1_image(n, move_set(aug, rm, dt, did));
    assert forall|v: int| lhs.contains(v) implies rhs.contains(v) by {
        let i = choose|i: int|
            0 <= i < u.edges.len() && s0.contains((#[trigger] u.edges[i]).from_state as int)
                && u.edges[i].driver_type == dt && u.edges[i].driver_id == did
                && u.edges[i].next_state == v;
        assert(i != 0 && i != 1 + aug.edges.len() && !(skip && i == 2 + aug.edges.len()));
        assert(u.edges[i] == shift_edge(aug.edges[i - 1]));
        assert(i - 1 < m.edges.len()) by {
            if i - 1 == m.edges.len() {
                assert(aug.edges[i - 1].driver_type == DriverType::NULL);
            }
        }
        assert(aug.edges[i - 1] == m.edges[i - 1]);
        let a = m.edges[i - 1].from_state as int;
        let b = m.edges[i - 1].next_state as int;
        assert(a < n && b < n);
        assert(rm.contains(a)) by {
            assert(u.edges[i].from_state as int == a + 1);
            if x0.contains(a + 1) {
                assert(a + 1 == n + 1);
            }
            let x = choose|x: int| #[trigger] rm.contains(x) && 0 <= x < n && a + 1 == x + 1;
        }
        assert(move_set(m, rm, dt, did).contains(b));
        assert(v == b + 1);
    }
    assert forall|v: int| rhs.contains(v) implies lhs.contains(v) by {
        let x = choose|x: int|
            #[trigger] move_set(aug, rm, dt, did).contains(x) && 0 <= x < n && v == x + 1;
        let i = choose|i: int|
            0 <= i < m.edges.len() && rm.contains((#[trigger] m.edges[i]).from_state as int)
                && m.edges[i].driver_type == dt && m.edges[i].driver_id == did
                && m.edges[i].next_state == x;
        let a = m.edges[i].from_state as int;
        assert(aug.edges[i] == m.edges[i]);
        assert(u.edges[1 + i] == shift_edge(aug.edges[i]));
        assert(shift1_image(n, rm).contains(a + 1));
        assert(s0.contains(u.edges[1 + i].from_state as int));
        assert(u.edges[1 + i].next_state as int == v);
    }
    assert(lhs =~= rhs);
}

/// After a non-empty prefix of a symbol input, a closure wrap's subset is
/// the shifted subset of the augmented operand, plus the fresh end
/// exactly when the augmented operand has accepted the prefix.
proof fn lemma_star_run_sets(
    m: GraphModel,
    skip: bool,
    input: Seq<(DriverType, usize)>,
    k: int,
)
    requires
        m.simple_form(),
        m.n() + 2 <= usize::MAX,
        symbol_input(input),
        1 <= k <= input.len(),
    ensures
        run_set(wrap_model(m, true, skip), input, k) == shift1_image(
            m.n(),
            run_set(augmented(m), input, k),
        ).union(wrap_end_extra(m, run_set(augmented(m), input, k))),
        run_set(augmented(m), input, k).subset_of(state_ids(m)),
    decreases k,
{
    let n = m.n();
    let u = wrap_model(m, true, skip);
    let aug = augmented(m);
    assert(aug.wf() && aug.n() >= 1) by {
        assert forall|i: int|
            0 <= i < aug.edges.len() implies (#[trigger] aug.edges[i]).from_state
            < aug.states.len() && aug.edges[i].next_state < aug.states.len() by {
            if i < m.edges.len() {
                assert(aug.edges[i] == m.edges[i]);
            }
        }
    }
    let dt = input[k - 1].0;
    let did = input[k - 1].1;
    let rm = run_set(aug, input, k - 1);
    let seed = Set::<int>::empty().insert(0);
    lemma_run_set_range(aug, input, k - 1);
    assert(state_ids(aug) =~= state_ids(m));
    if k == 1 {
        lemma_star_seed(m, skip);
        let x0 = Set::<int>::empty().insert(0).union(
            if skip {
                Set::<int>::empty().insert(n + 1)
            } else {
                Set::<int>::empty()
            },
        ).union(wrap_end_extra(m, rm));
        assert(run_set(u, input, 0) =~= shift1_image(n, rm).union(x0));
        assert forall|v: int| #[trigger] x0.contains(v) implies v == 0 || v == n + 1 by {}
        lemma_star_move(m, skip, rm, x0, dt, did);
    } else {
        lemma_star_run_sets(m, skip, input, k - 1);
        assert forall|v: int| #[trigger] wrap_end_extra(m, rm).contains(v) implies v == 0 || v == n
            + 1 by {}
        lemma_star_move(m, skip, rm, wrap_end_extra(m, rm), dt, did);
    }
    let mm = move_set(aug, rm, dt, did);
    assert(mm.subset_of(state_ids(m))) by {
        assert forall|v: int| mm.contains(v) implies state_ids(m).contains(v) by {
            let i = choose|i: int|
                0 <= i < aug.edges.len() && rm.contains((#[trigger] aug.edges[i]).from_state as int)
                    && aug.edges[i].driver_type == dt && aug.edges[i].driver_id == did
                    && aug.edges[i].next_state == v;
            if i < m.edges.len() {
                assert(aug.edges[i] == m.edges[i]);
            }
        }
    }
    lemma_star_eclose(m, skip, mm);
    lemma_eclose_range(aug, mm);
}

/// A closure wrap accepts a symbol input exactly when the skip edge
/// accepts it as the empty string or the augmented operand accepts it.
proof fn lemma_star_accepts(m: GraphModel, skip: bool, input: Seq<(DriverType, usize)>)
    requires
        m.simple_form(),
        m.n() + 2 <= usize::MAX,
        symbol_input(input),
    ensures
        accepts_model(wrap_model(m, true, skip), input) == ((skip && input.len() == 0)
            || accepts_model(augmented(m), input)),
{
    let n = m.n();
    let u = wrap_model(m, true, skip);
    let aug = augmented(m);
    let k = input.len() as int;
    lemma_wrap_simple_form(m, true, skip);
    let ru = run_set(u, input, k);
    let rm = run_set(aug, input, k);
    assert(has_match(u, ru) <==> ru.contains(n + 1)) by {
        if has_match(u, ru) {
            let v = choose|v: int|
                ru.contains(v) && 0 <= v < u.states.len() && (#[trigger] u.states[v]).state_type
                    == StateType::MATCH;
            assert(v == n + 1);
        }
        if ru.contains(n + 1) {
            assert(u.states[n + 1].state_type == StateType::MATCH);
        }
    }
    let hm = (has_match(aug, rm) <==> rm.contains(n - 1));
    assert(hm) by {
        if has_match(aug, rm) {
            let v = choose|v: int|
                rm.contains(v) && 0 <= v < aug.states.len() && (#[trigger] aug.states[v]).state_type
                    == StateType::MATCH;
            assert(aug.states[v] == m.states[v]);
            assert(v == n - 1);
        }
        if rm.contains(n - 1) {
            assert(aug.states[n - 1].state_type == StateType::MATCH);
        }
    }
    if k == 0 {
        lemma_star_seed(m, skip);
        assert(ru.contains(n + 1) <==> (skip || rm.contains(n - 1))) by {
            if ru.contains(n + 1) && !skip {
                if shift1_image(n, rm).contains(n + 1) {
                    let x = choose|x: int| #[trigger] rm.contains(x) && 0 <= x < n && n + 1 == x + 1;
                }
            }
            if rm.contains(n - 1) {
                assert(wrap_end_extra(m, rm).contains(n + 1));
            }
        }
    } else {
        lemma_star_run_sets(m, skip, input, k);
        assert(ru.contains(n + 1) <==> rm.contains(n - 1)) by {
            if ru.contains(n + 1) {
                if shift1_image(n, rm).contains(n + 1) {
                    let x = choose|x: int| #[trigger] rm.contains(x) && 0 <= x < n && n + 1 == x + 1;
                }
            }
            if rm.contains(n - 1) {
                assert(wrap_end_extra(m, rm).contains(n + 1));
            }
        }
    }
}

/// The one-or-more iteration of an automaton's language: the input splits
/// into one or more pieces, each a word of the language.
pub open spec fn plus_lang(m: GraphModel, w: Seq<(DriverType, usize)>) -> bool
    decreases w.len(),
{
    accepts_model(m, w) || exists|j: int|
        1 <= j < w.len() && accepts_model(m, #[trigger] w.take(j)) && plus_lang(m, w.skip(j))
}

/// An automaton in simple form accepts exactly when its run ends holding
/// its accepting state.
proof fn lemma_accepts_is_acc(m: GraphModel, w: Seq<(DriverType, usize)>)
    requires
        m.simple_form(),
    ensures
        accepts_model(m, w) <==> run_set(m, w, w.len() as int).contains(m.n() - 1),
{
    let r = run_set(m, w, w.len() as int);
    lemma_run_set_range(m, w, w.len() as int);
    if has_match(m, r) {
        let v = choose|v: int|
            r.contains(v) && 0 <= v < m.states.len() && (#[trigger] m.states[v]).state_type
                == StateType::MATCH;
        assert(v == m.n() - 1);
    }
    if r.contains(m.n() - 1) {
        assert(m.states[m.n() - 1].state_type == StateType::MATCH);
    }
}

/// Splitting off the first piece or the last piece of an iterated word
/// comes to the same.
proof fn lemma_plus_last_piece(m: GraphModel, w: Seq<(DriverType, usize)>)
    ensures
        plus_lang(m, w) <==> (accepts_model(m, w) || exists|j: int|
            1 <= j < w.len() && plus_lang(m, #[trigger] w.take(j)) && accepts_model(m, w.skip(j))),
    decreases w.len(),
{
    if plus_lang(m, w) && !accepts_model(m, w) {
        let j1 = choose|j: int|
            1 <= j < w.len() && accepts_model(m, #[trigger] w.take(j)) && plus_lang(m, w.skip(j));
        let rest = w.skip(j1);
        lemma_plus_last_piece(m, rest);
        if accepts_model(m, rest) {
            assert(plus_lang(m, w.take(j1)));
            assert(1 <= j1 < w.len() && plus_lang(m, w.take(j1)) && accepts_model(m, w.skip(j1)));
        } else {
            let j2 = choose|j: int|
                1 <= j < rest.len() && plus_lang(m, #[trigger] rest.take(j)) && accepts_model(
                    m,
                    rest.skip(j),
                );
            let j = j1 + j2;
            assert(w.skip(j) =~= rest.skip(j2));
            assert(w.take(j).take(j1) =~= w.take(j1));
            assert(w.take(j).skip(j1) =~= rest.take(j2));
            assert(plus_lang(m, w.take(j))) by {
                assert(accepts_model(m, w.take(j).take(j1)));
                assert(plus_lang(m, w.take(j).skip(j1)));
                assert(1 <= j1 < w.take(j).len());
            }
            assert(1 <= j < w.len() && plus_lang(m, w.take(j)) && accepts_model(m, w.skip(j)));
        }
    }
    if !plus_lang(m, w) && !accepts_model(m, w) && (exists|j: int|
        1 <= j < w.len() && plus_lang(m, #[trigger] w.take(j)) && accepts_model(m, w.skip(j))) {
        let j = choose|j: int|
            1 <= j < w.len() && plus_lang(m, #[trigger] w.take(j)) && accepts_model(m, w.skip(j));
        if accepts_model(m, w.take(j)) {
            assert(plus_lang(m, w.skip(j)));
            assert(plus_lang(m, w)) by {
                assert(1 <= j < w.len() && accepts_model(m, w.take(j)) && plus_lang(m, w.skip(j)));
            }
        } else {
            let j1 = choose|j1: int|
                1 <= j1 < w.take(j).len() && accepts_model(m, #[trigger] w.take(j).take(j1))
                    && plus_lang(m, w.take(j).skip(j1));
            lemma_plus_last_piece(m, w.skip(j1));
            assert(w.skip(j1).take(j - j1) =~= w.take(j).skip(j1));
            assert(w.skip(j1).skip(j - j1) =~= w.skip(j));
            assert(plus_lang(m, w.skip(j1))) by {
                assert(1 <= j - j1 < w.skip(j1).len());
                assert(plus_lang(m, w.skip(j1).take(j - j1)));
                assert(accepts_model(m, w.skip(j1).skip(j - j1)));
            }
            assert(w.take(j).take(j1) =~= w.take(j1));
            assert(plus_lang(m, w)) by {
                assert(1 <= j1 < w.len() && accepts_model(m, w.take(j1)) && plus_lang(
                    m,
                    w.skip(j1),
                ));
            }
        }
    }
}

/// The states the operand can be in after `k` symbols, over every split
/// at which the input so far is one or more operand words — including
/// the run that never restarted.
pub open spec fn star_part(m: GraphModel, input: Seq<(DriverType, usize)>, k: int) -> Set<int> {
    Set::new(
        |v: int|
            exists|j: int|
                0 <= j <= k && (j == 0 || plus_lang(m, input.take(j))) && (#[trigger] suffix_run(
                    m,
                    input,
                    j,
                    k,
                )).contains(v),
    )
}

/// Before any symbol, the iterated run is just the operand's start
/// closure.
proof fn lemma_star_part_base(m: GraphModel, input: Seq<(DriverType, usize)>)
    ensures
        star_part(m, input, 0) == eclose(m, Set::<int>::empty().insert(0)),
{
    assert(input.subrange(0, input.len() as int) =~= input);
    assert forall|v: int| star_part(m, input, 0).contains(v) <==> eclose(
        m,
        Set::<int>::empty().insert(0),
    ).contains(v) by {
        if star_part(m, input, 0).contains(v) {
            let j = choose|j: int|
                0 <= j <= 0 && (j == 0 || plus_lang(m, input.take(j))) && (#[trigger] suffix_run(
                    m,
                    input,
                    j,
                    0,
                )).contains(v);
        }
        if eclose(m, Set::<int>::empty().insert(0)).contains(v) {
            assert(suffix_run(m, input, 0, 0).contains(v));
        }
    }
    assert(star_part(m, input, 0) =~= eclose(m, Set::<int>::empty().insert(0)));
}

/// One step of the iterated run: move on the symbol, and start over
/// exactly when the consumed prefix is one or more operand words.
proof fn lemma_star_part_step(m: GraphModel, input: Seq<(DriverType, usize)>, k: int)
    requires
        1 <= k <= input.len(),
    ensures
        star_part(m, input, k) == eclose(
            m,
            move_set(m, star_part(m, input, k - 1), input[k - 1].0, input[k - 1].1).union(
                if plus_lang(m, input.take(k)) {
                    Set::<int>::empty().insert(0)
                } else {
                    Set::<int>::empty()
                },
            ),
        ),
{
    let dt = input[k - 1].0;
    let did = input[k - 1].1;
    let tp0 = star_part(m, input, k - 1);
    let mm = move_set(m, tp0, dt, did);
    let s0 = if plus_lang(m, input.take(k)) {
        Set::<int>::empty().insert(0)
    } else {
        Set::<int>::empty()
    };
    let rhs = eclose(m, mm.union(s0));
    lemma_eclose_union(m, mm, s0);
    assert forall|v: int| star_part(m, input, k).contains(v) implies rhs.contains(v) by {
        let j = choose|j: int|
            0 <= j <= k && (j == 0 || plus_lang(m, input.take(j))) && (#[trigger] suffix_run(
                m,
                input,
                j,
                k,
            )).contains(v);
        if j == k {
            assert(suffix_run(m, input, k, k) == eclose(m, Set::<int>::empty().insert(0)));
            assert(s0.contains(0));
            lemma_eclose_mono(m, Set::<int>::empty().insert(0), s0);
            assert(eclose(m, s0).contains(v));
        } else {
            let sfx = input.subrange(j, input.len() as int);
            assert(sfx[k - j - 1] == input[k - 1]);
            let rj = run_set(m, sfx, k - j - 1);
            assert(suffix_run(m, input, j, k) == eclose(m, move_set(m, rj, dt, did)));
            assert(rj.subset_of(tp0)) by {
                assert forall|x: int| rj.contains(x) implies tp0.contains(x) by {
                    assert(suffix_run(m, input, j, k - 1).contains(x));
                }
            }
            assert(move_set(m, rj, dt, did).subset_of(mm)) by {
                assert forall|x: int| move_set(m, rj, dt, did).contains(x) implies mm.contains(
                    x,
                ) by {
                    let i = choose|i: int|
                        0 <= i < m.edges.len() && rj.contains(
                            (#[trigger] m.edges[i]).from_state as int,
                        ) && m.edges[i].driver_type == dt && m.edges[i].driver_id == did
                            && m.edges[i].next_state == x;
                }
            }
            lemma_eclose_mono(m, move_set(m, rj, dt, did), mm);
            assert(eclose(m, mm).contains(v));
        }
    }
    assert forall|v: int| rhs.contains(v) implies star_part(m, input, k).contains(v) by {
        if eclose(m, s0).contains(v) {
            assert(s0.contains(0)) by {
                if s0 == Set::<int>::empty() {
                    lemma_eclose_empty(m);
                }
            }
            assert(plus_lang(m, input.take(k)));
            assert(s0 =~= Set::<int>::empty().insert(0));
            assert(suffix_run(m, input, k, k).contains(v));
            assert(star_part(m, input, k).contains(v));
        } else {
            assert(eclose(m, mm).contains(v));
            lemma_eclose_single(m, mm, v);
            let w0 = choose|w0: int|
                #[trigger] mm.contains(w0) && eclose(m, Set::<int>::empty().insert(w0)).contains(
                    v,
                );
            let i = choose|i: int|
                0 <= i < m.edges.len() && tp0.contains((#[trigger] m.edges[i]).from_state as int)
                    && m.edges[i].driver_type == dt && m.edges[i].driver_id == did
                    && m.edges[i].next_state == w0;
            let x0 = m.edges[i].from_state as int;
            let j = choose|j: int|
                0 <= j <= k - 1 && (j == 0 || plus_lang(m, input.take(j))) && (
                #[trigger] suffix_run(m, input, j, k - 1)).contains(x0);
            let sfx = input.subrange(j, input.len() as int);
            assert(sfx[k - j - 1] == input[k - 1]);
            let rj = run_set(m, sfx, k - j - 1);
            assert(move_set(m, rj, dt, did).contains(w0));
            lemma_eclose_mono(m, Set::<int>::empty().insert(w0), move_set(m, rj, dt, did));
            assert(suffix_run(m, input, j, k) == eclose(m, move_set(m, rj, dt, did)));
            assert(suffix_run(m, input, j, k).contains(v));
            assert(star_part(m, input, k).contains(v));
        }
    }
    assert(star_part(m, input, k) =~= rhs);
}

/// The iterated run holds the accepting state exactly when the prefix
/// read so far is one or more operand words.
proof fn lemma_star_part_acc(m: GraphModel, input: Seq<(DriverType, usize)>, k: int)
    requires
        m.simple_form(),
        0 <= k <= input.len(),
    ensures
        star_part(m, input, k).contains(m.n() - 1) <==> plus_lang(m, input.take(k)),
{
    let n = m.n();
    lemma_plus_last_piece(m, input.take(k));
    if star_part(m, input, k).contains(n - 1) {
        let j = choose|j: int|
            0 <= j <= k && (j == 0 || plus_lang(m, input.take(j))) && (#[trigger] suffix_run(
                m,
                input,
                j,
                k,
            )).contains(n - 1);
        let sfx = input.subrange(j, input.len() as int);
        lemma_run_set_take(m, sfx, k - j, k - j);
        assert(sfx.take(k - j) =~= input.subrange(j, k));
        lemma_accepts_is_acc(m, sfx.take(k - j));
        assert(accepts_model(m, input.subrange(j, k)));
        if j == k && k >= 1 {
            assert(plus_lang(m, input.take(k)));
        } else if j == 0 {
            assert(input.subrange(0, k) =~= input.take(k));
            assert(plus_lang(m, input.take(k)));
        } else {
            assert(input.take(k).take(j) =~= input.take(j));
            assert(input.take(k).skip(j) =~= input.subrange(j, k));
            assert(1 <= j < input.take(k).len());
            assert(plus_lang(m, input.take(k).take(j)));
            assert(accepts_model(m, input.take(k).skip(j)));
            assert(plus_lang(m, input.take(k)));
        }
    }
    if plus_lang(m, input.take(k)) {
        if accepts_model(m, input.take(k)) {
            lemma_run_set_take(m, input, k, k);
            lemma_accepts_is_acc(m, input.take(k));
            assert(input.subrange(0, input.len() as int) =~= input);
            assert(suffix_run(m, input, 0, k).contains(n - 1)) by {
                assert(run_set(m, input, k).contains(n - 1));
            }
            assert(star_part(m, input, k).contains(n - 1));
        } else {
            let j = choose|j: int|
                1 <= j < input.take(k).len() && plus_lang(m, #[trigger] input.take(k).take(j))
                    && accepts_model(m, input.take(k).skip(j));
            assert(input.take(k).take(j) =~= input.take(j));
            assert(input.take(k).skip(j) =~= input.subrange(j, k));
            let sfx = input.subrange(j, input.len() as int);
            assert(sfx.take(k - j) =~= input.subrange(j, k));
            lemma_run_set_take(m, sfx, k - j, k - j);
            lemma_accepts_is_acc(m, sfx.take(k - j));
            assert(suffix_run(m, input, j, k).contains(n - 1));
            assert(star_part(m, input, k).contains(n - 1));
        }
    }
}

/// The augmented operand accepts exactly the iterated words of the
/// operand.
proof fn lemma_aug_language(m: GraphModel, input: Seq<(DriverType, usize)>, k: int)
    requires
        m.simple_form(),
        m.n() + 2 <= usize::MAX,
        symbol_input(input),
        0 <= k <= input.len(),
    ensures
        run_set(augmented(m), input, k) == star_part(m, input, k),
    decreases k,
{
    let n = m.n();
    let aug = augmented(m);
    let seed = Set::<int>::empty().insert(0);
    if k == 0 {
        assert(seed.subset_of(state_ids(m)));
        lemma_aug_eclose(m, seed);
        lemma_star_part_base(m, input);
        assert(run_set(aug, input, 0) =~= eclose(m, seed)) by {
            if eclose(m, seed).contains(n - 1) {
            }
        }
    } else {
        lemma_aug_language(m, input, k - 1);
        let dt = input[k - 1].0;
        let did = input[k - 1].1;
        let tp0 = star_part(m, input, k - 1);
        assert(tp0.subset_of(state_ids(m))) by {
            assert forall|v: int| tp0.contains(v) implies state_ids(m).contains(v) by {
                let j = choose|j: int|
                    0 <= j <= k - 1 && (j == 0 || plus_lang(m, input.take(j))) && (
                    #[trigger] suffix_run(m, input, j, k - 1)).contains(v);
                lemma_run_set_range(m, input.subrange(j, input.len() as int), k - 1 - j);
            }
        }
        lemma_aug_move(m, tp0, dt, did);
        let mm = move_set(m, tp0, dt, did);
        assert(mm.subset_of(state_ids(m))) by {
            assert forall|v: int| mm.contains(v) implies state_ids(m).contains(v) by {
                let i = choose|i: int|
                    0 <= i < m.edges.len() && tp0.contains((#[trigger] m.edges[i]).from_state as int)
                        && m.edges[i].driver_type == dt && m.edges[i].driver_id == did
                        && m.edges[i].next_state == v;
            }
        }
        lemma_aug_eclose(m, mm);
        lemma_star_part_step(m, input, k);
        lemma_eclose_union(
            m,
            mm,
            if plus_lang(m, input.take(k)) {
                Set::<int>::empty().insert(0)
            } else {
                Set::<int>::empty()
            },
        );
        let s0 = if plus_lang(m, input.take(k)) {
            Set::<int>::empty().insert(0)
        } else {
            Set::<int>::empty()
        };
        assert(star_part(m, input, k) == eclose(m, mm).union(eclose(m, s0)));
        lemma_star_part_acc(m, input, k);
        assert(eclose(m, mm).contains(n - 1) <==> plus_lang(m, input.take(k))) by {
            if eclose(m, mm).contains(n - 1) {
                assert(star_part(m, input, k).contains(n - 1));
            }
            if plus_lang(m, input.take(k)) {
                lemma_plus_last_piece(m, input.take(k));
                if accepts_model(m, input.take(k)) {
                    lemma_run_set_take(m, input, k, k);
                    lemma_accepts_is_acc(m, input.take(k));
                    assert(input.subrange(0, input.len() as int) =~= input);
                    let r0 = suffix_run(m, input, 0, k - 1);
                    assert(r0.subset_of(tp0)) by {
                        assert forall|x: int| r0.contains(x) implies tp0.contains(x) by {}
                    }
                    let mv0 = move_set(m, r0, dt, did);
                    assert(mv0.subset_of(mm)) by {
                        assert forall|x: int| mv0.contains(x) implies mm.contains(x) by {
                            let i = choose|i: int|
                                0 <= i < m.edges.len() && r0.contains(
                                    (#[trigger] m.edges[i]).from_state as int,
                                ) && m.edges[i].driver_type == dt && m.edges[i].driver_id == did
                                    && m.edges[i].next_state == x;
                        }
                    }
                    lemma_eclose_mono(m, mv0, mm);
                    assert(suffix_run(m, input, 0, k) == eclose(m, mv0));
                    assert(run_set(m, input, k).contains(n - 1));
                    assert(eclose(m, mm).contains(n - 1));
                } else {
                    let j = choose|j: int|
                        1 <= j < input.take(k).len() && plus_lang(
                            m,
                            #[trigger] input.take(k).take(j),
                        ) && accepts_model(m, input.take(k).skip(j));
                    assert(input.take(k).take(j) =~= input.take(j));
                    assert(input.take(k).skip(j) =~= input.subrange(j, k));
                    let sfx = input.subrange(j, input.len() as int);
                    assert(sfx.take(k - j) =~= input.subrange(j, k));
                    lemma_run_set_take(m, sfx, k - j, k - j);
                    lemma_accepts_is_acc(m, sfx.take(k - j));
                    assert(suffix_run(m, input, j, k).contains(n - 1));
                    let rj = suffix_run(m, input, j, k - 1);
                    assert(rj.subset_of(tp0)) by {
                        assert forall|x: int| rj.contains(x) implies tp0.contains(x) by {}
                    }
                    let mvj = move_set(m, rj, dt, did);
                    assert(mvj.subset_of(mm)) by {
                        assert forall|x: int| mvj.contains(x) implies mm.contains(x) by {
                            let i = choose|i: int|
                                0 <= i < m.edges.len() && rj.contains(
                                    (#[trigger] m.edges[i]).from_state as int,
                                ) && m.edges[i].driver_type == dt && m.edges[i].driver_id == did
                                    && m.edges[i].next_state == x;
                        }
                    }
                    lemma_eclose_mono(m, mvj, mm);
                    assert(sfx[k - j - 1] == input[k - 1]);
                    assert(suffix_run(m, input, j, k) == eclose(m, mvj));
                    assert(eclose(m, mm).contains(n - 1));
                }
            }
        }
        lemma_eclose_empty(m);
        assert(move_set(aug, run_set(aug, input, k - 1), dt, did) == mm);
        assert(run_set(aug, input, k) == eclose(aug, mm));
        assert(run_set(aug, input, k) =~= star_part(m, input, k));
    }
}

/// The augmented operand's acceptance, read as words: exactly the
/// iterated words of the operand.
proof fn lemma_aug_accepts_plus(m: GraphModel, input: Seq<(DriverType, usize)>)
    requires
        m.simple_form(),
        m.n() + 2 <= usize::MAX,
        symbol_input(input),
    ensures
        accepts_model(augmented(m), input) == plus_lang(m, input),
{
    let n = m.n();
    let aug = augmented(m);
    let k = input.len() as int;
    lemma_aug_language(m, input, k);
    lemma_star_part_acc(m, input, k);
    let rm = run_set(aug, input, k);
    assert(has_match(aug, rm) <==> rm.contains(n - 1)) by {
        assert forall|v: int| rm.contains(v) implies 0 <= v < n by {
            let j = choose|j: int|
                0 <= j <= k && (j == 0 || plus_lang(m, input.take(j))) && (#[trigger] suffix_run(
                    m,
                    input,
                    j,
                    k,
                )).contains(v);
            lemma_run_set_range(m, input.subrange(j, input.len() as int), k - j);
        }
        if has_match(aug, rm) {
            let v = choose|v: int|
                rm.contains(v) && 0 <= v < aug.states.len() && (#[trigger] aug.states[v]).state_type
                    == StateType::MATCH;
            assert(aug.states[v] == m.states[v]);
            assert(v == n - 1);
        }
        if rm.contains(n - 1) {
            assert(aug.states[n - 1].state_type == StateType::MATCH);
        }
    }
    assert(input.take(k) =~= input);
}

/// Law: the one-or-more closure automaton of a simple-form operand
/// accepts exactly the words built from one or more operand words.
pub proof fn lemma_plus_closure_language(m: GraphModel, input: Seq<(DriverType, usize)>)
    requires
        m.simple_form(),
        m.n() + 2 <= usize::MAX,
        symbol_input(input),
    ensures
        accepts_model(wrap_model(m, true, false), input) == plus_lang(m, input),
{
    lemma_star_accepts(m, false, input);
    lemma_aug_accepts_plus(m, input);
}

/// Law: the Kleene closure automaton of a simple-form operand accepts
/// exactly the empty string and the words built from one or more operand
/// words.
pub proof fn lemma_closure_language(m: GraphModel, input: Seq<(DriverType, usize)>)
    requires
        m.simple_form(),
        m.n() + 2 <= usize::MAX,
        symbol_input(input),
    ensures
        accepts_model(wrap_model(m, true, true), input) == (input.len() == 0 || plus_lang(
            m,
            input,
        )),
{
    lemma_star_accepts(m, true, input);
    lemma_aug_accepts_plus(m, input);
}

/// Where the operand's states land in a closure-style wrap: shifted up by
/// one behind the fresh start.
pub open spec fn shift1_image(n: int, set0: Set<int>) -> Set<int> {
    Set::new(|v: int| exists|x: int| #[trigger] set0.contains(x) && 0 <= x < n && v == x + 1)
}

/// The subset standing for the fresh accepting end of a wrap, present
/// exactly when the operand's run holds its own accepting state.
pub open spec fn wrap_end_extra(m: GraphModel, r: Set<int>) -> Set<int> {
    if r.contains(m.n() - 1) {
        Set::<int>::empty().insert(m.n() + 1)
    } else {
        Set::<int>::empty()
    }
}

/// The edge layout of the zero-or-one wrap: the entry edge, the shifted
/// operand edges, the exit edge, and the skip edge.
proof fn lemma_zo_edges(m: GraphModel)
    requires
        m.n() + 2 <= usize::MAX,
        m.n() >= 1,
    ensures
        wrap_model(m, false, true).edges.len() == m.edges.len() + 3,
        wrap_model(m, false, true).edges[0] == (Edge {
            from_state: 0,
            next_state: 1,
            driver_id: 0,
            driver_type: DriverType::NULL,
        }),
        forall|i: int|
            1 <= i < 1 + m.edges.len() ==> wrap_model(m, false, true).edges[i] == shift_edge(
                m.edges[i - 1],
            ),
        wrap_model(m, false, true).edges[1 + m.edges.len() as int] == (Edge {
            from_state: m.n() as usize,
            next_state: (m.n() + 1) as usize,
            driver_id: 0,
            driver_type: DriverType::NULL,
        }),
        wrap_model(m, false, true).edges[2 + m.edges.len() as int] == (Edge {
            from_state: 0,
            next_state: (m.n() + 1) as usize,
            driver_id: 0,
            driver_type: DriverType::NULL,
        }),
{
}

/// Every epsilon path of the operand maps to one of the wrap.
proof fn lemma_zo_reach(m: GraphModel, tm: Set<int>, tu: Set<int>, x: int, k: nat)
    requires
        m.simple_form(),
        m.n() + 2 <= usize::MAX,
        tm.subset_of(state_ids(m)),
        forall|y: int|
            #[trigger] tm.contains(y) ==> eclose(wrap_model(m, false, true), tu).contains(y + 1),
        eps_reach_k(m, tm, x, k),
        0 <= x < m.n(),
    ensures
        eclose(wrap_model(m, false, true), tu).contains(x + 1),
    decreases k,
{
    let u = wrap_model(m, false, true);
    lemma_zo_edges(m);
    if k == 0 {
    } else if eps_reach_k(m, tm, x, (k - 1) as nat) {
        lemma_zo_reach(m, tm, tu, x, (k - 1) as nat);
    } else {
        let i = choose|i: int|
            0 <= i < m.edges.len() && is_epsilon(#[trigger] m.edges[i]) && m.edges[i].next_state
                == x && eps_reach_k(m, tm, m.edges[i].from_state as int, (k - 1) as nat);
        let a = m.edges[i].from_state as int;
        lemma_zo_reach(m, tm, tu, a, (k - 1) as nat);
        assert(u.edges[1 + i] == shift_edge(m.edges[i]));
        assert(is_epsilon(u.edges[1 + i]));
        assert(u.edges[1 + i].from_state as int == a + 1);
        assert(u.edges[1 + i].next_state as int == x + 1);
        lemma_eclose_closed(u, tu);
    }
}

/// The closure of a shifted operand subset inside the zero-or-one wrap:
/// the shifted operand closure, plus the fresh end exactly when the
/// operand closure holds the operand's accepting state.
proof fn lemma_zo_eclose(m: GraphModel, tm: Set<int>)
    requires
        m.simple_form(),
        m.n() + 2 <= usize::MAX,
        tm.subset_of(state_ids(m)),
    ensures
        eclose(wrap_model(m, false, true), shift1_image(m.n(), tm)) == shift1_image(
            m.n(),
            eclose(m, tm),
        ).union(wrap_end_extra(m, eclose(m, tm))),
{
    let n = m.n();
    let u = wrap_model(m, false, true);
    lemma_zo_edges(m);
    let tu = shift1_image(n, tm);
    let r = shift1_image(n, eclose(m, tm)).union(wrap_end_extra(m, eclose(m, tm)));
    lemma_eclose_seed(m, tm);
    lemma_eclose_range(m, tm);
    assert forall|v: int| r.contains(v) implies eclose(u, tu).contains(v) by {
        lemma_eclose_seed(u, tu);
        if shift1_image(n, eclose(m, tm)).contains(v) {
            let x = choose|x: int|
                #[trigger] eclose(m, tm).contains(x) && 0 <= x < n && v == x + 1;
            let k = choose|k: nat| eps_reach_k(m, tm, x, k);
            assert forall|y: int| #[trigger] tm.contains(y) implies eclose(u, tu).contains(
                y + 1,
            ) by {
                assert(tu.contains(y + 1));
            }
            lemma_zo_reach(m, tm, tu, x, k);
        } else {
            assert(eclose(m, tm).contains(n - 1));
            let xacc: int = n - 1;
            let k = choose|k: nat| eps_reach_k(m, tm, xacc, k);
            assert forall|y: int| #[trigger] tm.contains(y) implies eclose(u, tu).contains(
                y + 1,
            ) by {
                assert(tu.contains(y + 1));
            }
            lemma_zo_reach(m, tm, tu, xacc, k);
            assert(eclose(u, tu).contains(n));
            lemma_eclose_closed(u, tu);
            assert(is_epsilon(u.edges[1 + m.edges.len() as int]));
            assert(eclose(u, tu).contains(v));
        }
    }
    assert(eclose(u, tu).subset_of(r)) by {
        assert(tu.subset_of(r)) by {
            assert forall|v: int| tu.contains(v) implies r.contains(v) by {
                let x = choose|x: int| #[trigger] tm.contains(x) && 0 <= x < n && v == x + 1;
                assert(eclose(m, tm).contains(x));
            }
        }
        assert(eps_closed(u, r)) by {
            lemma_eclose_closed(m, tm);
            assert forall|i: int|
                0 <= i < u.edges.len() && is_epsilon(#[trigger] u.edges[i]) && r.contains(
                    u.edges[i].from_state as int,
                ) implies r.contains(u.edges[i].next_state as int) by {
                assert(!r.contains(0)) by {
                    if shift1_image(n, eclose(m, tm)).contains(0) {
                        let x = choose|x: int|
                            #[trigger] eclose(m, tm).contains(x) && 0 <= x < n && 0 == x + 1;
                    }
                }
                if i == 0 || i == 2 + m.edges.len() {
                } else if i == 1 + m.edges.len() {
                    assert(u.edges[i].from_state as int == n);
                    assert(shift1_image(n, eclose(m, tm)).contains(n)) by {
                        if wrap_end_extra(m, eclose(m, tm)).contains(n) {
                        }
                    }
                    let x = choose|x: int|
                        #[trigger] eclose(m, tm).contains(x) && 0 <= x < n && n == x + 1;
                    assert(x == n - 1);
                    assert(wrap_end_extra(m, eclose(m, tm)).contains(n + 1));
                } else {
                    let a = m.edges[i - 1].from_state as int;
                    let b = m.edges[i - 1].next_state as int;
                    assert(u.edges[i] == shift_edge(m.edges[i - 1]));
                    assert(is_epsilon(m.edges[i - 1]));
                    assert(a < n && b < n);
                    assert(eclose(m, tm).contains(a)) by {
                        assert(u.edges[i].from_state as int == a + 1);
                        if wrap_end_extra(m, eclose(m, tm)).contains(a + 1) {
                            assert(a == n);
                        }
                        let x = choose|x: int|
                            #[trigger] eclose(m, tm).contains(x) && 0 <= x < n && a + 1 == x + 1;
                    }
                    assert(eclose(m, tm).contains(b));
                    assert(shift1_image(n, eclose(m, tm)).contains(b + 1));
                }
            }
        }
        lemma_eclose_minimal(u, tu, r);
    }
    assert(eclose(u, tu) =~= r);
}

/// The start subset of the zero-or-one wrap: the fresh start, the fresh
/// end — the empty string is accepted — and the shifted start closure of
/// the operand.
proof fn lemma_zo_seed(m: GraphModel)
    requires
        m.simple_form(),
        m.n() + 2 <= usize::MAX,
    ensures
        eclose(wrap_model(m, false, true), Set::<int>::empty().insert(0)) == Set::<int>::empty().insert(
            0,
        ).insert(m.n() + 1).union(
            shift1_image(m.n(), eclose(m, Set::<int>::empty().insert(0))),
        ),
{
    let n = m.n();
    let u = wrap_model(m, false, true);
    lemma_zo_edges(m);
    let seed = Set::<int>::empty().insert(0);
    let em = eclose(m, seed);
    let r = Set::<int>::empty().insert(0).insert(n + 1).union(shift1_image(n, em));
    lemma_eclose_seed(m, seed);
    lemma_eclose_range(m, seed);
    lemma_eclose_seed(u, seed);
    assert forall|v: int| r.contains(v) implies eclose(u, seed).contains(v) by {
        assert(eclose(u, seed).contains(0));
        lemma_eclose_closed(u, seed);
        assert(is_epsilon(u.edges[0]));
        assert(eclose(u, seed).contains(1));
        assert(is_epsilon(u.edges[2 + m.edges.len() as int]));
        assert(eclose(u, seed).contains(n + 1));
        if shift1_image(n, em).contains(v) {
            let x = choose|x: int| #[trigger] em.contains(x) && 0 <= x < n && v == x + 1;
            let k = choose|k: nat| eps_reach_k(m, seed, x, k);
            assert forall|y: int| #[trigger] seed.contains(y) implies eclose(u, seed).contains(
                y + 1,
            ) by {}
            lemma_zo_reach(m, seed, seed, x, k);
        }
    }
    assert(eclose(u, seed).subset_of(r)) by {
        assert(eps_closed(u, r)) by {
            lemma_eclose_closed(m, seed);
            assert forall|i: int|
                0 <= i < u.edges.len() && is_epsilon(#[trigger] u.edges[i]) && r.contains(
                    u.edges[i].from_state as int,
                ) implies r.contains(u.edges[i].next_state as int) by {
                if i == 0 {
                    assert(em.contains(0));
                    assert(shift1_image(n, em).contains(1));
                } else if i == 2 + m.edges.len() {
                } else if i == 1 + m.edges.len() {
                } else {
                    let a = m.edges[i - 1].from_state as int;
                    let b = m.edges[i - 1].next_state as int;
                    assert(u.edges[i] == shift_edge(m.edges[i - 1]));
                    assert(is_epsilon(m.edges[i - 1]));
                    assert(a < n && b < n);
                    assert(em.contains(a)) by {
                        assert(u.edges[i].from_state as int == a + 1);
                        let x = choose|x: int|
                            #[trigger] em.contains(x) && 0 <= x < n && a + 1 == x + 1;
                    }
                    assert(em.contains(b));
                    assert(shift1_image(n, em).contains(b + 1));
                }
            }
        }
        lemma_eclose_minimal(u, seed, r);
    }
    assert(eclose(u, seed) =~= r);
}

/// On a proper symbol, the wrap moves exactly as the shifted operand
/// does: the fresh start and end have no symbol edges.
proof fn lemma_zo_move(
    m: GraphModel,
    rm: Set<int>,
    x0: Set<int>,
    dt: DriverType,
    did: usize,
)
    requires
        m.simple_form(),
        m.n() + 2 <= usize::MAX,
        rm.subset_of(state_ids(m)),
        dt != DriverType::NULL,
        forall|v: int| #[trigger] x0.contains(v) ==> v == 0 || v == m.n() + 1,
    ensures
        move_set(wrap_model(m, false, true), shift1_image(m.n(), rm).union(x0), dt, did)
            == shift1_image(m.n(), move_set(m, rm, dt, did)),
{
    let n = m.n();
    let u = wrap_model(m, false, true);
    lemma_zo_edges(m);
    let s0 = shift1_image(n, rm).union(x0);
    let lhs = move_set(u, s0, dt, did);
    let rhs = shift1_image(n, move_set(m, rm, dt, did));
    assert forall|v: int| lhs.contains(v) implies rhs.contains(v) by {
        let i = choose|i: int|
            0 <= i < u.edges.len() && s0.contains((#[trigger] u.edges[i]).from_state as int)
                && u.edges[i].driver_type == dt && u.edges[i].driver_id == did
                && u.edges[i].next_state == v;
        assert(i != 0 && i != 1 + m.edges.len() && i != 2 + m.edges.len());
        assert(u.edges[i] == shift_edge(m.edges[i - 1]));
        let a = m.edges[i - 1].from_state as int;
        let b = m.edges[i - 1].next_state as int;
        assert(a < n && b < n);
        assert(rm.contains(a)) by {
            assert(u.edges[i].from_state as int == a + 1);
            if x0.contains(a + 1) {
                assert(a + 1 == n + 1);
            }
            let x = choose|x: int| #[trigger] rm.contains(x) && 0 <= x < n && a + 1 == x + 1;
        }
        assert(move_set(m, rm, dt, did).contains(b));
        assert(v == b + 1);
    }
    assert forall|v: int| rhs.contains(v) implies lhs.contains(v) by {
        let x = choose|x: int|
            #[trigger] move_set(m, rm, dt, did).contains(x) && 0 <= x < n && v == x + 1;
        let i = choose|i: int|
            0 <= i < m.edges.len() && rm.contains((#[trigger] m.edges[i]).from_state as int)
                && m.edges[i].driver_type == dt && m.edges[i].driver_id == did
                && m.edges[i].next_state == x;
        let a = m.edges[i].from_state as int;
        assert(u.edges[1 + i] == shift_edge(m.edges[i]));
        assert(shift1_image(n, rm).contains(a + 1));
        assert(s0.contains(u.edges[1 + i].from_state as int));
        assert(u.edges[1 + i].next_state as int == v);
    }
    assert(lhs =~= rhs);
}

/// After a non-empty prefix of a symbol input, the wrap's subset is the
/// shifted operand subset, plus the fresh end exactly when the operand
/// has accepted the prefix.
proof fn lemma_zo_run_sets(m: GraphModel, input: Seq<(DriverType, usize)>, k: int)
    requires
        m.simple_form(),
        m.n() + 2 <= usize::MAX,
        symbol_input(input),
        1 <= k <= input.len(),
    ensures
        run_set(wrap_model(m, false, true), input, k) == shift1_image(
            m.n(),
            run_set(m, input, k),
        ).union(wrap_end_extra(m, run_set(m, input, k))),
        run_set(m, input, k).subset_of(state_ids(m)),
    decreases k,
{
    let n = m.n();
    let u = wrap_model(m, false, true);
    let dt = input[k - 1].0;
    let did = input[k - 1].1;
    let rm = run_set(m, input, k - 1);
    let ru = run_set(u, input, k - 1);
    let seed = Set::<int>::empty().insert(0);
    if k == 1 {
        lemma_zo_seed(m);
        lemma_eclose_range(m, seed);
        assert(ru == Set::<int>::empty().insert(0).insert(n + 1).union(shift1_image(n, rm)));
        assert(ru =~= shift1_image(n, rm).union(
            Set::<int>::empty().insert(0).insert(n + 1),
        ));
        assert forall|v: int|
            #[trigger] Set::<int>::empty().insert(0).insert(n + 1).contains(v) implies v == 0 || v
            == n + 1 by {}
        lemma_zo_move(m, rm, Set::<int>::empty().insert(0).insert(n + 1), dt, did);
    } else {
        lemma_zo_run_sets(m, input, k - 1);
        assert forall|v: int| #[trigger] wrap_end_extra(m, rm).contains(v) implies v == 0 || v == n
            + 1 by {}
        lemma_zo_move(m, rm, wrap_end_extra(m, rm), dt, did);
    }
    let mm = move_set(m, rm, dt, did);
    assert(mm.subset_of(state_ids(m))) by {
        assert forall|v: int| mm.contains(v) implies state_ids(m).contains(v) by {
            let i = choose|i: int|
                0 <= i < m.edges.len() && rm.contains((#[trigger] m.edges[i]).from_state as int)
                    && m.edges[i].driver_type == dt && m.edges[i].driver_id == did
                    && m.edges[i].next_state == v;
        }
    }
    lemma_zo_eclose(m, mm);
    lemma_eclose_range(m, mm);
}

/// Law: the zero-or-one automaton of a simple-form operand accepts
/// exactly the empty string and the operand's own words.
pub proof fn lemma_zero_or_one_language(m: GraphModel, input: Seq<(DriverType, usize)>)
    requires
        m.simple_form(),
        m.n() + 2 <= usize::MAX,
        symbol_input(input),
    ensures
        accepts_model(wrap_model(m, false, true), input) == (input.len() == 0 || accepts_model(
            m,
            input,
        )),
{
    let n = m.n();
    let u = wrap_model(m, false, true);
    let k = input.len() as int;
    lemma_wrap_simple_form(m, false, true);
    let ru = run_set(u, input, k);
    let rm = run_set(m, input, k);
    assert(has_match(u, ru) <==> ru.contains(n + 1)) by {
        if has_match(u, ru) {
            let v = choose|v: int|
                ru.contains(v) && 0 <= v < u.states.len() && (#[trigger] u.states[v]).state_type
                    == StateType::MATCH;
            assert(v == n + 1);
        }
        if ru.contains(n + 1) {
            assert(u.states[n + 1].state_type == StateType::MATCH);
        }
    }
    if k == 0 {
        lemma_zo_seed(m);
        assert(ru.contains(n + 1));
    } else {
        lemma_zo_run_sets(m, input, k);
        assert(has_match(m, rm) <==> rm.contains(n - 1)) by {
            if has_match(m, rm) {
                let v = choose|v: int|
                    rm.contains(v) && 0 <= v < m.states.len() && (#[trigger] m.states[v]).state_type
                        == StateType::MATCH;
                assert(v == n - 1);
            }
            if rm.contains(n - 1) {
                assert(m.states[n - 1].state_type == StateType::MATCH);
            }
        }
        assert(ru.contains(n + 1) <==> rm.contains(n - 1)) by {
            if ru.contains(n + 1) {
                if shift1_image(n, rm).contains(n + 1) {
                    let x = choose|x: int|
                        #[trigger] rm.contains(x) && 0 <= x < n && n + 1 == x + 1;
                }
            }
            if rm.contains(n - 1) {
                assert(wrap_end_extra(m, rm).contains(n + 1));
            }
        }
    }
}

} // verus!
