//! Lookup and scope: every evaluation only adds cells, a lookup does not
//! depend on how deep it may search once the depth exceeds the heap's size,
//! a binding hides no other name, and a closure's body sees the environment
//! the closure kept.
use crate::data::Node;
use crate::prims::Prims;
use crate::semantics::{
    alloc_step, apply_rel, arith_out, assoc_of, bind_rel, car_of, cdr_of, closure_env, closure_step,
    eval_rel, evlist_rel, grows, lemma_grows_trans, list_rel, lookup, max_fuel, pair_step, prim_rel,
    reached, reduce_env, reduce_rel, two_evals, Snapshot,
};
use crate::store::arena_limit;
use vstd::prelude::*;

verus! {

proof fn lemma_alloc_grows(s: Snapshot, n: Node, t: Snapshot, k: u64)
    requires
        alloc_step(s, n, t, k),
    ensures
        grows(s, t),
{
}

proof fn lemma_pair_grows(s: Snapshot, a: u64, b: u64, e: u64, t: Snapshot, r: u64)
    requires
        pair_step(s, a, b, e, t, r),
    ensures
        grows(s, t),
{
    let (s1, p) = choose|s1: Snapshot, p: u64|
        alloc_step(s, Node::Cons(a, b), s1, p) && alloc_step(s1, Node::Cons(p, e), t, r);
    lemma_alloc_grows(s, Node::Cons(a, b), s1, p);
    lemma_alloc_grows(s1, Node::Cons(p, e), t, r);
    lemma_grows_trans(s, s1, t);
}

proof fn lemma_closure_grows(s: Snapshot, param: u64, body: u64, env: u64, t: Snapshot, r: u64)
    requires
        closure_step(s, param, body, env, t, r),
    ensures
        grows(s, t),
{
    let pe = closure_env(s, env);
    let (s1, g, s2, nw) = choose|s1: Snapshot, g: u64, s2: Snapshot, nw: u64|
        pair_step(s, param, body, pe, s1, g) && alloc_step(s1, Node::Cons(param, body), s2, nw)
            && alloc_step(s2, Node::Closure(nw, pe), t, r);
    lemma_pair_grows(s, param, body, pe, s1, g);
    lemma_alloc_grows(s1, Node::Cons(param, body), s2, nw);
    lemma_alloc_grows(s2, Node::Closure(nw, pe), t, r);
    lemma_grows_trans(s, s1, s2);
    lemma_grows_trans(s, s2, t);
}

proof fn lemma_bind_grows(f: nat, s: Snapshot, param: u64, values: u64, env: u64, t: Snapshot, r: u64)
    requires
        bind_rel(f, s, param, values, env, t, r),
    ensures
        grows(s, t),
    decreases f,
{
    if f > 0 && param != s.nil {
        if s.heap[param] is Cons {
            let (s1, p) = choose|s1: Snapshot, p: u64|
                reached(s1, p) && pair_step(s, car_of(s, param), car_of(s, values), env, s1, p) && bind_rel(
                    (f - 1) as nat,
                    s1,
                    cdr_of(s1, param),
                    cdr_of(s1, values),
                    p,
                    t,
                    r,
                );
            lemma_pair_grows(s, car_of(s, param), car_of(s, values), env, s1, p);
            lemma_bind_grows((f - 1) as nat, s1, cdr_of(s1, param), cdr_of(s1, values), p, t, r);
            lemma_grows_trans(s, s1, t);
        } else {
            lemma_pair_grows(s, param, values, env, t, r);
        }
    }
}

/// Evaluation only adds cells: every cell of the state before is in the
/// state after, unchanged, and the constant atoms stay.
pub proof fn lemma_eval_grows(f: nat, s: Snapshot, var: u64, env: u64, t: Snapshot, r: u64)
    requires
        eval_rel(f, s, var, env, t, r),
    ensures
        grows(s, t),
    decreases f, 0nat,
{
    if f > 0 {
        match s.heap[var] {
            Node::Cons(a, d) => {
                let (s1, v) = choose|s1: Snapshot, v: u64|
                    reached(s1, v) && eval_rel((f - 1) as nat, s, a, env, s1, v) && apply_rel(
                        (f - 1) as nat,
                        s1,
                        v,
                        d,
                        env,
                        t,
                        r,
                    );
                lemma_eval_grows((f - 1) as nat, s, a, env, s1, v);
                lemma_apply_grows((f - 1) as nat, s1, v, d, env, t, r);
                lemma_grows_trans(s, s1, t);
            },
            _ => {},
        }
    }
}

proof fn lemma_apply_grows(f: nat, s: Snapshot, c: u64, param: u64, env: u64, t: Snapshot, r: u64)
    requires
        apply_rel(f, s, c, param, env, t, r),
    ensures
        grows(s, t),
    decreases f, 0nat,
{
    if f > 0 {
        match s.heap[c] {
            Node::Prim(p) => lemma_prim_grows((f - 1) as nat, s, p, param, env, t, r),
            Node::Closure(_, _) => lemma_reduce_grows((f - 1) as nat, s, c, param, env, t, r),
            _ => {},
        }
    }
}

proof fn lemma_two_evals_grows(f: nat, s: Snapshot, a: u64, env: u64, s1: Snapshot, v1: u64, s2: Snapshot, v2: u64)
    requires
        two_evals(f, s, a, env, s1, v1, s2, v2),
    ensures
        grows(s, s1),
        grows(s1, s2),
        grows(s, s2),
    decreases f, 1nat,
{
    lemma_eval_grows((f - 1) as nat, s, car_of(s, a), env, s1, v1);
    lemma_eval_grows((f - 1) as nat, s1, car_of(s, cdr_of(s, a)), env, s2, v2);
    lemma_grows_trans(s, s1, s2);
}

proof fn lemma_list_grows(f: nat, s: Snapshot, a: u64, env: u64, t: Snapshot, r: u64)
    requires
        list_rel(f, s, a, env, t, r),
    ensures
        grows(s, t),
    decreases f, 0nat,
{
    if f > 0 && a != s.nil {
        let (s1, e, s2, rest) = choose|s1: Snapshot, e: u64, s2: Snapshot, rest: u64|
            reached(s1, e) && reached(s2, rest) && eval_rel((f - 1) as nat, s, car_of(s, a), env, s1, e) && list_rel(
                (f - 1) as nat,
                s1,
                cdr_of(s1, a),
                env,
                s2,
                rest,
            ) && alloc_step(s2, Node::Cons(e, rest), t, r);
        lemma_eval_grows((f - 1) as nat, s, car_of(s, a), env, s1, e);
        lemma_list_grows((f - 1) as nat, s1, cdr_of(s1, a), env, s2, rest);
        lemma_alloc_grows(s2, Node::Cons(e, rest), t, r);
        lemma_grows_trans(s, s1, s2);
        lemma_grows_trans(s, s2, t);
    }
}

proof fn lemma_evlist_grows(f: nat, s: Snapshot, var: u64, env: u64, t: Snapshot, r: u64)
    requires
        evlist_rel(f, s, var, env, t, r),
    ensures
        grows(s, t),
    decreases f, 0nat,
{
    if f > 0 {
        match s.heap[var] {
            Node::Cons(a, d) => {
                let (s1, e, s2, l) = choose|s1: Snapshot, e: u64, s2: Snapshot, l: u64|
                    reached(s1, e) && reached(s2, l) && eval_rel((f - 1) as nat, s, a, env, s1, e) && evlist_rel(
                        (f - 1) as nat,
                        s1,
                        d,
                        env,
                        s2,
                        l,
                    ) && alloc_step(s2, Node::Cons(e, l), t, r);
                lemma_eval_grows((f - 1) as nat, s, a, env, s1, e);
                lemma_evlist_grows((f - 1) as nat, s1, d, env, s2, l);
                lemma_alloc_grows(s2, Node::Cons(e, l), t, r);
                lemma_grows_trans(s, s1, s2);
                lemma_grows_trans(s, s2, t);
            },
            _ => {},
        }
    }
}

proof fn lemma_reduce_grows(f: nat, s: Snapshot, c: u64, param: u64, env: u64, t: Snapshot, r: u64)
    requires
        reduce_rel(f, s, c, param, env, t, r),
    ensures
        grows(s, t),
    decreases f, 0nat,
{
    if f > 0 {
        let body = cdr_of(s, car_of(s, c));
        let params = car_of(s, car_of(s, c));
        let (s1, vals, s2, e2) = choose|s1: Snapshot, vals: u64, s2: Snapshot, e2: u64|
            reached(s1, vals) && reached(s2, e2) && evlist_rel((f - 1) as nat, s, param, env, s1, vals) && bind_rel(
                (f - 1) as nat,
                s1,
                params,
                vals,
                reduce_env(s1, c),
                s2,
                e2,
            ) && eval_rel((f - 1) as nat, s2, body, e2, t, r);
        lemma_evlist_grows((f - 1) as nat, s, param, env, s1, vals);
        lemma_bind_grows((f - 1) as nat, s1, params, vals, reduce_env(s1, c), s2, e2);
        lemma_eval_grows((f - 1) as nat, s2, body, e2, t, r);
        lemma_grows_trans(s, s1, s2);
        lemma_grows_trans(s, s2, t);
    }
}

proof fn lemma_prim_grows(f: nat, s: Snapshot, p: Prims, a: u64, env: u64, t: Snapshot, r: u64)
    requires
        prim_rel(f, s, p, a, env, t, r),
    ensures
        grows(s, t),
    decreases f, 2nat,
{
    if f > 0 {
        let op1 = car_of(s, a);
        let op2 = car_of(s, cdr_of(s, a));
        if p == Prims::Add || p == Prims::Sub || p == Prims::Mul || p == Prims::Div || p == Prims::Mod {
            assert(exists|s1: Snapshot, v1: u64, s2: Snapshot, v2: u64|
                #![trigger reached(s1, v1), reached(s2, v2)]
                reached(s1, v1) && reached(s2, v2) && two_evals(f, s, a, env, s1, v1, s2, v2)
                    && arith_out(p, s2, v1, v2, t, r));
            let (s1, v1, s2, v2) = choose|s1: Snapshot, v1: u64, s2: Snapshot, v2: u64|
                reached(s1, v1) && reached(s2, v2) && two_evals(f, s, a, env, s1, v1, s2, v2)
                    && arith_out(p, s2, v1, v2, t, r);
            lemma_two_evals_grows(f, s, a, env, s1, v1, s2, v2);
            match (s2.heap[v1], s2.heap[v2]) {
                (Node::Number(x), Node::Number(y)) => {
                    match crate::semantics::arith(p, x, y) {
                        Some(z) => lemma_alloc_grows(s2, Node::Number(z), t, r),
                        None => {},
                    }
                },
                _ => {},
            }
            lemma_grows_trans(s, s2, t);
            return;
        }
        match p {
            Prims::Define => {
                let (s1, v, s2, g) = choose|s1: Snapshot, v: u64, s2: Snapshot, g: u64|
                    reached(s1, v) && reached(s2, g) && eval_rel((f - 1) as nat, s, op2, env, s1, v)
                        && pair_step(s1, op1, v, s1.env, s2, g) && t == s2.with_env(g) && r == op1;
                lemma_eval_grows((f - 1) as nat, s, op2, env, s1, v);
                lemma_pair_grows(s1, op1, v, s1.env, s2, g);
                lemma_grows_trans(s, s1, s2);
            },
            Prims::Lambda => lemma_closure_grows(s, op1, op2, env, t, r),
            Prims::Eq => {
                assert(exists|s1: Snapshot, v1: u64, s2: Snapshot, v2: u64|
                    #![trigger reached(s1, v1), reached(s2, v2)]
                    reached(s1, v1) && reached(s2, v2) && two_evals(f, s, a, env, s1, v1, s2, v2)
                        && t == s2 && r == (if s2.heap[v1] == s2.heap[v2] {
                        s.tru
                    } else {
                        s.nil
                    }));
                let (s1, v1, s2, v2) = choose|s1: Snapshot, v1: u64, s2: Snapshot, v2: u64|
                    reached(s1, v1) && reached(s2, v2) && two_evals(f, s, a, env, s1, v1, s2, v2)
                        && t == s2 && r == (if s2.heap[v1] == s2.heap[v2] {
                        s.tru
                    } else {
                        s.nil
                    });
                lemma_two_evals_grows(f, s, a, env, s1, v1, s2, v2);
            },
            Prims::If => {
                let (s1, c) = choose|s1: Snapshot, c: u64|
                    reached(s1, c) && eval_rel((f - 1) as nat, s, op1, env, s1, c) && if c != s1.nil {
                        eval_rel((f - 1) as nat, s1, op2, env, t, r)
                    } else {
                        eval_rel((f - 1) as nat, s1, car_of(s, cdr_of(s, cdr_of(s, a))), env, t, r)
                    };
                lemma_eval_grows((f - 1) as nat, s, op1, env, s1, c);
                if c != s1.nil {
                    lemma_eval_grows((f - 1) as nat, s1, op2, env, t, r);
                } else {
                    lemma_eval_grows((f - 1) as nat, s1, car_of(s, cdr_of(s, cdr_of(s, a))), env, t, r);
                }
                lemma_grows_trans(s, s1, t);
            },
            Prims::Eval => lemma_eval_grows((f - 1) as nat, s, a, env, t, r),
            Prims::Car => {
                let (s1, v) = choose|s1: Snapshot, v: u64|
                    reached(s1, v) && eval_rel((f - 1) as nat, s, op1, env, s1, v) && t == s1 && r == car_of(s1, v);
                lemma_eval_grows((f - 1) as nat, s, op1, env, s1, v);
            },
            Prims::Cdr => {
                let (s1, v) = choose|s1: Snapshot, v: u64|
                    reached(s1, v) && eval_rel((f - 1) as nat, s, op1, env, s1, v) && t == s1 && r == cdr_of(s1, v);
                lemma_eval_grows((f - 1) as nat, s, op1, env, s1, v);
            },
            Prims::Cons => {
                assert(exists|s1: Snapshot, v1: u64, s2: Snapshot, v2: u64|
                    #![trigger reached(s1, v1), reached(s2, v2)]
                    reached(s1, v1) && reached(s2, v2) && two_evals(f, s, a, env, s1, v1, s2, v2)
                        && alloc_step(s2, Node::Cons(v1, v2), t, r));
                let (s1, v1, s2, v2) = choose|s1: Snapshot, v1: u64, s2: Snapshot, v2: u64|
                    reached(s1, v1) && reached(s2, v2) && two_evals(f, s, a, env, s1, v1, s2, v2)
                        && alloc_step(s2, Node::Cons(v1, v2), t, r);
                lemma_two_evals_grows(f, s, a, env, s1, v1, s2, v2);
                lemma_alloc_grows(s2, Node::Cons(v1, v2), t, r);
                lemma_grows_trans(s, s2, t);
            },
            Prims::List => lemma_list_grows((f - 1) as nat, s, a, env, t, r),
            _ => {},
        }
    }
}


/// The environment reached from `e` after `k` steps along its chain.
pub open spec fn chain(s: Snapshot, e: u64, k: nat) -> u64
    decreases k,
{
    if k == 0 {
        e
    } else {
        chain(s, cdr_of(s, e), (k - 1) as nat)
    }
}

/// A lookup of `x` walks past `e`: a binding whose name is not `x`'s cell.
pub open spec fn passes(s: Snapshot, x: u64, e: u64) -> bool {
    s.heap[e] is Cons && s.heap[car_of(s, car_of(s, e))] != s.heap[x]
}

/// The first `n` environments of the chain from `e`.
pub open spec fn chain_set(s: Snapshot, e: u64, n: nat) -> Set<u64>
    decreases n,
{
    if n == 0 {
        Set::empty()
    } else {
        chain_set(s, e, (n - 1) as nat).insert(chain(s, e, (n - 1) as nat))
    }
}

proof fn lemma_chain_succ(s: Snapshot, e: u64, k: nat)
    ensures
        chain(s, e, k + 1) == cdr_of(s, chain(s, e, k)),
    decreases k,
{
    assert(chain(s, e, k + 1) == chain(s, cdr_of(s, e), k));
    if k > 0 {
        lemma_chain_succ(s, cdr_of(s, e), (k - 1) as nat);
        assert(chain(s, e, k) == chain(s, cdr_of(s, e), (k - 1) as nat));
    } else {
        assert(chain(s, cdr_of(s, e), 0) == cdr_of(s, e));
    }
}

proof fn lemma_grows_at(s: Snapshot, t: Snapshot, k: u64)
    requires
        grows(s, t),
        s.holds(k),
    ensures
        t.holds(k),
        t.heap[k] == s.heap[k],
{
    assert(s.heap.dom().contains(k));
}

proof fn lemma_chain_shift(s: Snapshot, e: u64, i: nat, j: nat, m: nat)
    requires
        chain(s, e, i) == chain(s, e, j),
    ensures
        chain(s, e, i + m) == chain(s, e, j + m),
    decreases m,
{
    if m > 0 {
        lemma_chain_shift(s, e, i, j, (m - 1) as nat);
        lemma_chain_succ(s, e, (i + m - 1) as nat);
        lemma_chain_succ(s, e, (j + m - 1) as nat);
    }
}

proof fn lemma_chain_held(s: Snapshot, x: u64, e: u64, k: nat)
    requires
        s.wf(),
        s.holds(e),
        forall|i: nat| i < k ==> #[trigger] passes(s, x, chain(s, e, i)),
    ensures
        s.holds(chain(s, e, k)),
    decreases k,
{
    if k > 0 {
        lemma_chain_held(s, x, e, (k - 1) as nat);
        lemma_chain_succ(s, e, (k - 1) as nat);
        assert(passes(s, x, chain(s, e, (k - 1) as nat)));
        assert(s.heap.contains_key(chain(s, e, (k - 1) as nat)));
    }
}

proof fn lemma_chain_set(s: Snapshot, e: u64, n: nat)
    ensures
        chain_set(s, e, n).finite(),
        forall|k: u64| chain_set(s, e, n).contains(k) ==> exists|i: nat| i < n && #[trigger] chain(s, e, i) == k,
        (forall|i: nat, j: nat| i < j < n ==> chain(s, e, i) != chain(s, e, j)) ==> chain_set(s, e, n).len() == n,
    decreases n,
{
    if n > 0 {
        let m = (n - 1) as nat;
        lemma_chain_set(s, e, m);
        if forall|i: nat, j: nat| i < j < n ==> chain(s, e, i) != chain(s, e, j) {
            assert(!chain_set(s, e, m).contains(chain(s, e, m))) by {
                if chain_set(s, e, m).contains(chain(s, e, m)) {
                    let i = choose|i: nat| i < m && #[trigger] chain(s, e, i) == chain(s, e, m);
                    assert(chain(s, e, i) != chain(s, e, m));
                }
            }
        }
        assert forall|k: u64| chain_set(s, e, n).contains(k) implies exists|i: nat| i < n && #[trigger] chain(s, e, i) == k by {
            if k == chain(s, e, m) {
                assert(chain(s, e, m) == k);
            } else {
                let i = choose|i: nat| i < m && #[trigger] chain(s, e, i) == k;
                assert(chain(s, e, i) == k);
            }
        }
    }
}

proof fn lemma_chain_repeats(s: Snapshot, x: u64, e: u64, n: nat)
    requires
        s.wf(),
        s.holds(e),
        forall|k: nat| k < n ==> #[trigger] passes(s, x, chain(s, e, k)),
        n > s.heap.len(),
    ensures
        exists|i: nat, j: nat| i < j < n && chain(s, e, i) == chain(s, e, j),
{
    lemma_chain_set(s, e, n);
    assert(chain_set(s, e, n).subset_of(s.heap.dom())) by {
        assert forall|k: u64| chain_set(s, e, n).contains(k) implies s.heap.dom().contains(k) by {
            let i = choose|i: nat| i < n && #[trigger] chain(s, e, i) == k;
            lemma_chain_held(s, x, e, i);
        }
    }
    if !(exists|i: nat, j: nat| i < j < n && chain(s, e, i) == chain(s, e, j)) {
        vstd::set_lib::lemma_len_subset(chain_set(s, e, n), s.heap.dom());
        assert(false);
    }
}

proof fn lemma_lookup_succ(n: nat, s: Snapshot, x: u64, e: u64)
    ensures
        lookup(n, s, x, e) != lookup(n + 1, s, x, e) ==> (forall|k: nat| k < n ==> #[trigger] passes(s, x, chain(s, e, k)))
            && !passes(s, x, chain(s, e, n)),
    decreases n,
{
    assert(chain(s, e, 0) == e);
    if n == 0 {
        assert(lookup(0, s, x, cdr_of(s, e)) == s.err);
    } else if passes(s, x, e) {
        let d = cdr_of(s, e);
        lemma_lookup_succ((n - 1) as nat, s, x, d);
        if lookup(n, s, x, e) != lookup(n + 1, s, x, e) {
            assert forall|k: nat| k < n implies #[trigger] passes(s, x, chain(s, e, k)) by {
                if k > 0 {
                    assert(chain(s, e, k) == chain(s, d, (k - 1) as nat));
                }
            }
            assert(chain(s, e, n) == chain(s, d, (n - 1) as nat));
        }
    }
}

proof fn lemma_lookup_stable(n: nat, s: Snapshot, x: u64, e: u64)
    requires
        s.wf(),
        s.holds(e),
        n > s.heap.len(),
    ensures
        lookup(n, s, x, e) == lookup(n + 1, s, x, e),
{
    lemma_lookup_succ(n, s, x, e);
    if lookup(n, s, x, e) != lookup(n + 1, s, x, e) {
        lemma_chain_repeats(s, x, e, n);
        let (i, j) = choose|i: nat, j: nat| i < j < n && chain(s, e, i) == chain(s, e, j);
        let m = (n - j) as nat;
        lemma_chain_shift(s, e, i, j, m);
        assert(j + m == n);
        assert(passes(s, x, chain(s, e, i + m)));
    }
}

/// A lookup that may search deeper than the heap has cells gives the same
/// answer at every such depth.
pub proof fn lemma_lookup_depth(n: nat, m: nat, s: Snapshot, x: u64, e: u64)
    requires
        s.wf(),
        s.holds(e),
        s.heap.len() < n <= m,
    ensures
        lookup(n, s, x, e) == lookup(m, s, x, e),
    decreases m - n,
{
    if n < m {
        lemma_lookup_stable(n, s, x, e);
        lemma_lookup_depth(n + 1, m, s, x, e);
    }
}

proof fn lemma_lookup_grows(n: nat, s: Snapshot, t: Snapshot, x: u64, e: u64)
    requires
        s.wf(),
        s.holds(e),
        s.holds(x),
        grows(s, t),
    ensures
        lookup(n, t, x, e) == lookup(n, s, x, e),
    decreases n,
{
    if n > 0 {
        lemma_grows_at(s, t, e);
        lemma_grows_at(s, t, x);
        match s.heap[e] {
            Node::Cons(c, rest) => {
                assert(s.heap.contains_key(e));
                assert(s.holds(c) && s.holds(rest));
                lemma_grows_at(s, t, c);
                let name = car_of(s, c);
                assert(car_of(t, c) == name);
                assert(s.holds(name)) by {
                    assert(s.heap.contains_key(c));
                }
                lemma_grows_at(s, t, name);
                assert(cdr_of(t, c) == cdr_of(s, c));
                assert(cdr_of(t, e) == rest);
                lemma_lookup_grows((n - 1) as nat, s, t, x, rest);
            },
            _ => {},
        }
    }
}

/// Looking up `x` in a binding `((y . v) . env)` built on a state `s` that
/// only added cells to `s0`: when `y`'s cell differs from `x`'s, it is the
/// lookup in `env` on `s0`.
proof fn lemma_frame_from(s0: Snapshot, s: Snapshot, y: u64, v: u64, env: u64, t: Snapshot, p: u64, x: u64)
    requires
        s0.wf(),
        s0.holds(env),
        s0.holds(x),
        grows(s0, s),
        s.holds(y),
        s.heap.dom().finite(),
        s.heap[y] != s.heap[x],
        pair_step(s, y, v, env, t, p),
        t.heap.len() < arena_limit(),
    ensures
        assoc_of(t, x, p) == assoc_of(s0, x, env),
{
    let (s1, c) = choose|s1: Snapshot, c: u64|
        alloc_step(s, Node::Cons(y, v), s1, c) && alloc_step(s1, Node::Cons(c, env), t, p);
    assert(s.heap.len() < arena_limit());
    assert(s1.heap.len() == s.heap.len() + 1);
    assert(s1.heap.len() < arena_limit());
    lemma_alloc_grows(s, Node::Cons(y, v), s1, c);
    lemma_alloc_grows(s1, Node::Cons(c, env), t, p);
    lemma_grows_trans(s0, s, s1);
    lemma_grows_trans(s0, s1, t);
    assert(t.heap[p] == Node::Cons(c, env));
    assert(t.heap[c] == Node::Cons(y, v));
    lemma_grows_at(s, t, y);
    lemma_grows_at(s0, t, x);
    lemma_grows_at(s0, s, x);
    let n = max_fuel();
    assert(lookup(n, t, x, p) == lookup((n - 1) as nat, t, x, env));
    lemma_lookup_grows((n - 1) as nat, s0, t, x, env);
    vstd::set_lib::lemma_len_subset(s0.heap.dom(), s.heap.dom());
    lemma_lookup_depth((n - 1) as nat, n, s0, x, env);
}

/// Frame law of lookup: binding a name `y` to a value in front of an
/// environment `env` (the pair `((y . v) . env)` that `define` and the
/// binding of parameters build) does not change what any variable whose cell
/// differs from `y`'s looks up to; so a name stays bound to its value after
/// any number of later bindings of other names. (When the arena has room
/// for the binding's two cells.)
pub proof fn lemma_lookup_frame(s: Snapshot, y: u64, v: u64, env: u64, t: Snapshot, p: u64, x: u64)
    requires
        s.wf(),
        s.holds(y),
        s.holds(env),
        s.holds(x),
        s.heap[y] != s.heap[x],
        pair_step(s, y, v, env, t, p),
        t.heap.len() < arena_limit(),
    ensures
        assoc_of(t, x, p) == assoc_of(s, x, env),
{
    lemma_frame_from(s, s, y, v, env, t, p, x);
}


/// Lexical scoping of closures: applying a closure `c` whose kept
/// environment `k` (the second field of the closure cell) is not `nil`
/// evaluates the arguments in the caller's environment, binds the closure's
/// parameters to their values in front of `k` (not in front of the global
/// environment), and evaluates the body in the environment that results.
pub proof fn lemma_closure_scoping(f: nat, s: Snapshot, c: u64, args: u64, env: u64, t: Snapshot, r: u64)
    requires
        f > 0,
        s.holds(c),
        s.heap[c] is Closure,
        cdr_of(s, c) != s.nil,
        reduce_rel(f, s, c, args, env, t, r),
    ensures
        exists|s1: Snapshot, vals: u64, s2: Snapshot, e2: u64|
            #![trigger reached(s1, vals), reached(s2, e2)]
            reached(s1, vals) && reached(s2, e2) && evlist_rel((f - 1) as nat, s, args, env, s1, vals) && bind_rel(
                (f - 1) as nat,
                s1,
                car_of(s, car_of(s, c)),
                vals,
                cdr_of(s, c),
                s2,
                e2,
            ) && eval_rel((f - 1) as nat, s2, cdr_of(s, car_of(s, c)), e2, t, r),
{
    let body = cdr_of(s, car_of(s, c));
    let params = car_of(s, car_of(s, c));
    let (s1, vals, s2, e2) = choose|s1: Snapshot, vals: u64, s2: Snapshot, e2: u64|
        reached(s1, vals) && reached(s2, e2) && evlist_rel((f - 1) as nat, s, args, env, s1, vals) && bind_rel(
            (f - 1) as nat,
            s1,
            params,
            vals,
            reduce_env(s1, c),
            s2,
            e2,
        ) && eval_rel((f - 1) as nat, s2, body, e2, t, r);
    lemma_evlist_grows((f - 1) as nat, s, args, env, s1, vals);
    lemma_grows_at(s, s1, c);
    assert(reduce_env(s1, c) == cdr_of(s, c));
    assert(reached(s1, vals) && reached(s2, e2));
}

/// A closure's body sees the names of the environment the closure kept:
/// when a closure of one parameter `(x)`, whose kept environment `k` is not
/// `nil`, is applied, its body is evaluated in an environment in which
/// every name whose cell differs from `x`'s looks up to what it looks up to
/// in `k`, whatever the global environment binds it to (when the arena had
/// room for the binding).
pub proof fn lemma_closure_sees_kept_names(
    f: nat,
    s: Snapshot,
    c: u64,
    args: u64,
    env: u64,
    t: Snapshot,
    r: u64,
    y: u64,
)
    requires
        f >= 3,
        s.wf(),
        s.holds(c),
        s.heap[c] is Closure,
        s.heap[car_of(s, car_of(s, c))] is Cons,
        cdr_of(s, car_of(s, car_of(s, c))) == s.nil,
        cdr_of(s, c) != s.nil,
        s.holds(y),
        s.heap[y] != s.heap[car_of(s, car_of(s, car_of(s, c)))],
        reduce_rel(f, s, c, args, env, t, r),
        t.wf(),
        t.heap.len() < arena_limit(),
    ensures
        exists|s2: Snapshot, e2: u64|
            #![trigger reached(s2, e2)]
            reached(s2, e2) && eval_rel((f - 1) as nat, s2, cdr_of(s, car_of(s, c)), e2, t, r)
                && assoc_of(s2, y, e2) == assoc_of(s, y, cdr_of(s, c)),
{
    let k = cdr_of(s, c);
    let lam = car_of(s, c);
    let params = car_of(s, lam);
    let name = car_of(s, params);
    let body = cdr_of(s, lam);
    lemma_closure_scoping(f, s, c, args, env, t, r);
    let (s1, vals, s2, e2) = choose|s1: Snapshot, vals: u64, s2: Snapshot, e2: u64|
        reached(s1, vals) && reached(s2, e2) && evlist_rel((f - 1) as nat, s, args, env, s1, vals) && bind_rel(
            (f - 1) as nat,
            s1,
            params,
            vals,
            k,
            s2,
            e2,
        ) && eval_rel((f - 1) as nat, s2, body, e2, t, r);
    assert(s.heap.contains_key(c));
    assert(s.holds(lam) && s.holds(k));
    assert(s.holds(params)) by {
        assert(s.heap.contains_key(lam));
    }
    assert(s.holds(name)) by {
        assert(s.heap.contains_key(params));
    }
    lemma_evlist_grows((f - 1) as nat, s, args, env, s1, vals);
    lemma_eval_grows((f - 1) as nat, s2, body, e2, t, r);
    lemma_bind_grows((f - 1) as nat, s1, params, vals, k, s2, e2);
    lemma_grows_trans(s1, s2, t);
    lemma_grows_at(s, s1, params);
    lemma_grows_at(s, s1, name);
    lemma_grows_at(s, s1, y);
    assert(params != s1.nil);
    let (s3, p) = choose|s3: Snapshot, p: u64|
        reached(s3, p) && pair_step(s1, car_of(s1, params), car_of(s1, vals), k, s3, p) && bind_rel(
            (f - 2) as nat,
            s3,
            cdr_of(s3, params),
            cdr_of(s3, vals),
            p,
            s2,
            e2,
        );
    assert(car_of(s1, params) == name);
    lemma_pair_grows(s1, name, car_of(s1, vals), k, s3, p);
    lemma_grows_trans(s, s1, s3);
    lemma_grows_at(s, s3, params);
    assert(cdr_of(s3, params) == s3.nil);
    assert(s2 == s3 && e2 == p);
    vstd::set_lib::lemma_len_subset(s1.heap.dom(), t.heap.dom());
    vstd::set_lib::lemma_len_subset(s3.heap.dom(), t.heap.dom());
    lemma_frame_from(s, s1, name, car_of(s1, vals), k, s3, p, y);
    assert(reached(s2, e2));
}

} // verus!
