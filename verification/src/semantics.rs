//! The mathematical model of the interpreter: the heap as a map from keys to
//! cells, and the evaluation relations that the executable code meets.
//!
//! Allocation picks a key that the heap did not hold; which one is not a
//! function of the heap's contents, so evaluation is stated as a relation
//! between the state before, the state after and the result. Every relation
//! carries a depth bound `f`: each nested call consumes one unit, and a call
//! that finds it spent answers `err`. The public entry points start from
//! `u64::MAX`, a depth that no run can reach before its stack is exhausted.
use crate::data::Node;
use crate::prims::Prims;
use crate::store::{arena_limit, key_of};
use vstd::prelude::*;

verus! {

/// The state of an interpreter: its heap and the keys of its four roots.
#[verifier::ext_equal]
pub struct Snapshot {
    pub heap: Map<u64, Node>,
    pub env: u64,
    pub nil: u64,
    pub err: u64,
    pub tru: u64,
}

/// The cells that a cell points to are held by the heap.
pub open spec fn children_in(h: Map<u64, Node>, n: Node) -> bool {
    match n {
        Node::Cons(a, b) => h.contains_key(a) && h.contains_key(b),
        Node::Closure(a, b) => h.contains_key(a) && h.contains_key(b),
        _ => true,
    }
}

/// A heap is finite, closed under the cells' pointers, and keyed by the
/// 64-bit forms of slot-map keys.
pub open spec fn heap_ok(h: Map<u64, Node>) -> bool {
    &&& h.dom().finite()
    &&& forall|k: u64| #[trigger] h.contains_key(k) ==> key_of(k) == k && children_in(h, h[k])
}

impl Snapshot {
    /// The state is well formed: the heap is closed and holds the four roots,
    /// and `nil`, `err` and `tru` are atoms.
    pub open spec fn wf(self) -> bool {
        &&& heap_ok(self.heap)
        &&& self.heap.contains_key(self.env)
        &&& self.heap.contains_key(self.nil)
        &&& self.heap.contains_key(self.err)
        &&& self.heap.contains_key(self.tru)
        &&& self.heap[self.nil] is Atom
        &&& self.heap[self.err] is Atom
        &&& self.heap[self.tru] is Atom
    }

    /// The same state with another global environment.
    pub open spec fn with_env(self, env: u64) -> Snapshot {
        Snapshot { heap: self.heap, env, nil: self.nil, err: self.err, tru: self.tru }
    }

    /// The same state with one more cell.
    pub open spec fn with_cell(self, k: u64, n: Node) -> Snapshot {
        Snapshot { heap: self.heap.insert(k, n), env: self.env, nil: self.nil, err: self.err, tru: self.tru }
    }

    /// A key that the heap holds.
    pub open spec fn holds(self, k: u64) -> bool {
        self.heap.contains_key(k)
    }
}

/// The heap only grows and the constant roots stay: every cell of `s` is in
/// `t`, unchanged.
pub open spec fn grows(s: Snapshot, t: Snapshot) -> bool {
    &&& s.heap.submap_of(t.heap)
    &&& s.nil == t.nil
    &&& s.err == t.err
    &&& s.tru == t.tru
}

/// A step from a well-formed state: the state after is well formed, the
/// heap only grew, and the answer is a cell of it.
pub open spec fn advances(s: Snapshot, t: Snapshot, r: u64) -> bool {
    &&& t.wf()
    &&& grows(s, t)
    &&& t.holds(r)
}

/// Growth is transitive.
pub proof fn lemma_grows_trans(a: Snapshot, b: Snapshot, c: Snapshot)
    requires
        grows(a, b),
        grows(b, c),
    ensures
        grows(a, c),
{
    assert forall|k: u64| #[trigger] a.heap.contains_key(k) implies c.heap.contains_key(k)
        && c.heap[k] == a.heap[k] by {
        assert(b.heap.contains_key(k));
    }
}

/// Storing the cell `n`: while the arena has room, `n` goes under a key `k`
/// that the heap did not hold; when it is full, nothing changes and the
/// answer is `err`.
pub open spec fn alloc_step(s: Snapshot, n: Node, t: Snapshot, k: u64) -> bool {
    if s.heap.len() < arena_limit() {
        &&& !s.heap.contains_key(k)
        &&& key_of(k) == k
        &&& t == s.with_cell(k, n)
    } else {
        t == s && k == s.err
    }
}

/// The first field of a pair or closure; `err` for any other cell.
pub open spec fn car_of(s: Snapshot, a: u64) -> u64 {
    match s.heap[a] {
        Node::Cons(x, _) => x,
        Node::Closure(x, _) => x,
        _ => s.err,
    }
}

/// The second field of a pair or closure; `err` for any other cell.
pub open spec fn cdr_of(s: Snapshot, a: u64) -> u64 {
    match s.heap[a] {
        Node::Cons(_, y) => y,
        Node::Closure(_, y) => y,
        _ => s.err,
    }
}

/// The depth bound that the public entry points start from.
pub open spec fn max_fuel() -> nat {
    u64::MAX as nat
}

/// Looking `var` up in the association list `env` (a chain of pairs whose
/// first fields are `(name . value)` pairs): the value of the first binding
/// whose name is a cell equal to `var`'s cell, `err` when the chain ends.
pub open spec fn lookup(f: nat, s: Snapshot, var: u64, env: u64) -> u64
    decreases f,
{
    if f == 0 {
        s.err
    } else {
        match s.heap[env] {
            Node::Cons(c, _) => if s.heap[car_of(s, c)] == s.heap[var] {
                cdr_of(s, c)
            } else {
                lookup((f - 1) as nat, s, var, cdr_of(s, env))
            },
            _ => s.err,
        }
    }
}

/// Lookup with the public depth bound.
pub open spec fn assoc_of(s: Snapshot, var: u64, env: u64) -> u64 {
    lookup(max_fuel(), s, var, env)
}

/// `pair(a, b, e)`: the pair `((a . b) . e)`, two cells.
pub open spec fn pair_step(s: Snapshot, a: u64, b: u64, e: u64, t: Snapshot, r: u64) -> bool {
    exists|s1: Snapshot, p: u64|
        #![trigger alloc_step(s, Node::Cons(a, b), s1, p)]
        alloc_step(s, Node::Cons(a, b), s1, p) && alloc_step(s1, Node::Cons(p, e), t, r)
}

/// The environment that a closure keeps: none (`nil`) when it is made in the
/// global environment.
pub open spec fn closure_env(s: Snapshot, env: u64) -> u64 {
    if s.env == env {
        s.nil
    } else {
        env
    }
}

/// `closure(param, body, env)`: a pair `pair(param, body, kept)` that nothing
/// keeps, then the pair `(param . body)` and the closure cell over it and the
/// kept environment.
pub open spec fn closure_step(s: Snapshot, param: u64, body: u64, env: u64, t: Snapshot, r: u64) -> bool {
    let pe = closure_env(s, env);
    exists|s1: Snapshot, g: u64, s2: Snapshot, nw: u64|
        #![trigger pair_step(s, param, body, pe, s1, g), alloc_step(s1, Node::Cons(param, body), s2, nw)]
        pair_step(s, param, body, pe, s1, g) && alloc_step(s1, Node::Cons(param, body), s2, nw)
            && alloc_step(s2, Node::Closure(nw, pe), t, r)
}

/// Binding a parameter list to a value list in front of `env`: each name is
/// paired with the matching value; a name in tail position takes the rest
/// of the values.
pub open spec fn bind_rel(f: nat, s: Snapshot, param: u64, values: u64, env: u64, t: Snapshot, r: u64) -> bool
    decreases f,
{
    if f == 0 {
        t == s && r == s.err
    } else if param == s.nil {
        t == s && r == env
    } else if s.heap[param] is Cons {
        exists|s1: Snapshot, p: u64|
            #![trigger reached(s1, p)]
            reached(s1, p) && pair_step(s, car_of(s, param), car_of(s, values), env, s1, p) && bind_rel(
                (f - 1) as nat,
                s1,
                cdr_of(s1, param),
                cdr_of(s1, values),
                p,
                t,
                r,
            )
    } else {
        pair_step(s, param, values, env, t, r)
    }
}

/// Integer arithmetic of the primitives; `None` where Rust's operator would
/// overflow or divide by zero.
pub open spec fn arith(p: Prims, x: isize, y: isize) -> Option<isize> {
    match p {
        Prims::Add => x.checked_add(y),
        Prims::Sub => x.checked_sub(y),
        Prims::Mul => x.checked_mul(y),
        Prims::Div => x.checked_div(y),
        _ => x.checked_rem(y),
    }
}

/// Whether a primitive is one of the five arithmetic ones.
pub open spec fn is_arith(p: Prims) -> bool {
    p == Prims::Add || p == Prims::Sub || p == Prims::Mul || p == Prims::Div || p == Prims::Mod
}

/// The answer of an arithmetic primitive on two evaluated operands: a new
/// number cell when both are numbers and the operation is defined, else `err`.
pub open spec fn arith_out(p: Prims, s: Snapshot, v1: u64, v2: u64, t: Snapshot, r: u64) -> bool {
    match (s.heap[v1], s.heap[v2]) {
        (Node::Number(x), Node::Number(y)) => match arith(p, x, y) {
            Some(z) => alloc_step(s, Node::Number(z), t, r),
            None => t == s && r == s.err,
        },
        _ => t == s && r == s.err,
    }
}

/// Marks an intermediate state and answer of a run. It holds of every pair;
/// the relations below name their intermediate steps with it, so that a proof
/// can point at the steps it took.
pub open spec fn reached(s: Snapshot, r: u64) -> bool {
    true
}

/// Evaluating `var` in `env`: an atom is looked up, a pair `(op . args)`
/// applies the value of `op` to the unevaluated `args`, anything else is its
/// own value.
pub open spec fn eval_rel(f: nat, s: Snapshot, var: u64, env: u64, t: Snapshot, r: u64) -> bool
    decreases f, 0nat,
{
    if f == 0 {
        t == s && r == s.err
    } else {
        match s.heap[var] {
            Node::Atom(_) => t == s && r == assoc_of(s, var, env),
            Node::Cons(a, d) => exists|s1: Snapshot, v: u64|
                #![trigger reached(s1, v)]
                reached(s1, v) && eval_rel((f - 1) as nat, s, a, env, s1, v) && apply_rel(
                    (f - 1) as nat,
                    s1,
                    v,
                    d,
                    env,
                    t,
                    r,
                ),
            _ => t == s && r == var,
        }
    }
}

/// Applying the value `c` to the unevaluated arguments `param`: a primitive
/// runs on them, a closure is reduced, anything else answers `err`.
pub open spec fn apply_rel(f: nat, s: Snapshot, c: u64, param: u64, env: u64, t: Snapshot, r: u64) -> bool
    decreases f, 0nat,
{
    if f == 0 {
        t == s && r == s.err
    } else {
        match s.heap[c] {
            Node::Prim(p) => prim_rel((f - 1) as nat, s, p, param, env, t, r),
            Node::Closure(_, _) => reduce_rel((f - 1) as nat, s, c, param, env, t, r),
            _ => t == s && r == s.err,
        }
    }
}

/// Evaluating each element of a list into a new list; an atom in tail
/// position is looked up, any other tail gives `nil`.
pub open spec fn evlist_rel(f: nat, s: Snapshot, var: u64, env: u64, t: Snapshot, r: u64) -> bool
    decreases f, 0nat,
{
    if f == 0 {
        t == s && r == s.err
    } else {
        match s.heap[var] {
            Node::Cons(a, d) => exists|s1: Snapshot, e: u64, s2: Snapshot, l: u64|
                #![trigger reached(s1, e), reached(s2, l)]
                reached(s1, e) && reached(s2, l) && eval_rel((f - 1) as nat, s, a, env, s1, e) && evlist_rel(
                    (f - 1) as nat,
                    s1,
                    d,
                    env,
                    s2,
                    l,
                ) && alloc_step(s2, Node::Cons(e, l), t, r),
            Node::Atom(_) => t == s && r == assoc_of(s, var, env),
            _ => t == s && r == s.nil,
        }
    }
}

/// Reducing the closure `c` on the arguments `param`: the arguments are
/// evaluated in `env`, bound to the closure's parameters in front of its
/// kept environment (the global one when it keeps none), and the body is
/// evaluated there.
pub open spec fn reduce_rel(f: nat, s: Snapshot, c: u64, param: u64, env: u64, t: Snapshot, r: u64) -> bool
    decreases f, 0nat,
{
    if f == 0 {
        t == s && r == s.err
    } else {
        let body = cdr_of(s, car_of(s, c));
        let params = car_of(s, car_of(s, c));
        exists|s1: Snapshot, vals: u64, s2: Snapshot, e2: u64|
            #![trigger reached(s1, vals), reached(s2, e2)]
            reached(s1, vals) && reached(s2, e2) && evlist_rel((f - 1) as nat, s, param, env, s1, vals) && bind_rel(
                (f - 1) as nat,
                s1,
                params,
                vals,
                reduce_env(s1, c),
                s2,
                e2,
            ) && eval_rel((f - 1) as nat, s2, body, e2, t, r)
    }
}

/// The environment a closure's body extends: the one it keeps, or the global
/// one when it keeps `nil`.
pub open spec fn reduce_env(s: Snapshot, c: u64) -> u64 {
    if cdr_of(s, c) == s.nil {
        s.env
    } else {
        cdr_of(s, c)
    }
}

/// Evaluating both operands `car(a)` and `car(cdr(a))`, in that order.
pub open spec fn two_evals(
    f: nat,
    s: Snapshot,
    a: u64,
    env: u64,
    s1: Snapshot,
    v1: u64,
    s2: Snapshot,
    v2: u64,
) -> bool
    decreases f, 1nat,
{
    f > 0 && eval_rel((f - 1) as nat, s, car_of(s, a), env, s1, v1) && eval_rel(
        (f - 1) as nat,
        s1,
        car_of(s, cdr_of(s, a)),
        env,
        s2,
        v2,
    )
}

/// What primitive `p` does with its unevaluated arguments `a`.
pub open spec fn prim_rel(f: nat, s: Snapshot, p: Prims, a: u64, env: u64, t: Snapshot, r: u64) -> bool
    decreases f, 2nat,
{
    if f == 0 {
        t == s && r == s.err
    } else {
        let op1 = car_of(s, a);
        let op2 = car_of(s, cdr_of(s, a));
        match p {
            Prims::Add | Prims::Sub | Prims::Mul | Prims::Div | Prims::Mod => exists|
                s1: Snapshot,
                v1: u64,
                s2: Snapshot,
                v2: u64,
            |
                #![trigger reached(s1, v1), reached(s2, v2)]
                reached(s1, v1) && reached(s2, v2) && two_evals(f, s, a, env, s1, v1, s2, v2)
                    && arith_out(p, s2, v1, v2, t, r),
            Prims::Define => exists|s1: Snapshot, v: u64, s2: Snapshot, g: u64|
                #![trigger reached(s1, v), reached(s2, g)]
                reached(s1, v) && reached(s2, g) && eval_rel((f - 1) as nat, s, op2, env, s1, v) && pair_step(s1, op1, v, s1.env, s2, g)
                    && t == s2.with_env(g) && r == op1,
            Prims::Lambda => closure_step(s, op1, op2, env, t, r),
            Prims::Quote => t == s && r == op1,
            Prims::Eq => exists|s1: Snapshot, v1: u64, s2: Snapshot, v2: u64|
                #![trigger reached(s1, v1), reached(s2, v2)]
                reached(s1, v1) && reached(s2, v2) && two_evals(f, s, a, env, s1, v1, s2, v2)
                    && t == s2 && r == (if s2.heap[v1]
                    == s2.heap[v2] {
                    s.tru
                } else {
                    s.nil
                }),
            Prims::If => exists|s1: Snapshot, c: u64|
                #![trigger reached(s1, c)]
                reached(s1, c) && eval_rel((f - 1) as nat, s, op1, env, s1, c) && if c != s1.nil {
                    eval_rel((f - 1) as nat, s1, op2, env, t, r)
                } else {
                    eval_rel((f - 1) as nat, s1, car_of(s, cdr_of(s, cdr_of(s, a))), env, t, r)
                },
            Prims::Eval => eval_rel((f - 1) as nat, s, a, env, t, r),
            Prims::Blink => t == s && r == s.err,
            Prims::Car => exists|s1: Snapshot, v: u64|
                #![trigger reached(s1, v)]
                reached(s1, v) && eval_rel((f - 1) as nat, s, op1, env, s1, v) && t == s1 && r == car_of(s1, v),
            Prims::Cdr => exists|s1: Snapshot, v: u64|
                #![trigger reached(s1, v)]
                reached(s1, v) && eval_rel((f - 1) as nat, s, op1, env, s1, v) && t == s1 && r == cdr_of(s1, v),
            Prims::Cons => exists|s1: Snapshot, v1: u64, s2: Snapshot, v2: u64|
                #![trigger reached(s1, v1), reached(s2, v2)]
                reached(s1, v1) && reached(s2, v2) && two_evals(f, s, a, env, s1, v1, s2, v2)
                    && alloc_step(s2, Node::Cons(v1, v2), t, r),
            Prims::List => list_rel((f - 1) as nat, s, a, env, t, r),
        }
    }
}

/// `(list e1 e2 ...)`: each element evaluated, in order, into a new list.
pub open spec fn list_rel(f: nat, s: Snapshot, a: u64, env: u64, t: Snapshot, r: u64) -> bool
    decreases f, 0nat,
{
    if f == 0 {
        t == s && r == s.err
    } else if a == s.nil {
        t == s && r == a
    } else {
        exists|s1: Snapshot, e: u64, s2: Snapshot, rest: u64|
            #![trigger reached(s1, e), reached(s2, rest)]
            reached(s1, e) && reached(s2, rest) && eval_rel((f - 1) as nat, s, car_of(s, a), env, s1, e) && list_rel(
                (f - 1) as nat,
                s1,
                cdr_of(s1, a),
                env,
                s2,
                rest,
            ) && alloc_step(s2, Node::Cons(e, rest), t, r)
    }
}

/// The cells that the cell `n` points to are in the set `m`.
pub open spec fn children_marked(n: Node, m: Set<u64>) -> bool {
    match n {
        Node::Cons(a, b) => m.contains(a) && m.contains(b),
        Node::Closure(a, b) => m.contains(a) && m.contains(b),
        _ => true,
    }
}

/// A set of keys closed under the heap's pointers: every cell of the set
/// that the heap holds points only into the set.
pub open spec fn closed_set(h: Map<u64, Node>, m: Set<u64>) -> bool {
    forall|k: u64| m.contains(k) && h.contains_key(k) ==> #[trigger] children_marked(h[k], m)
}

/// A set of keys closed under the heap's pointers everywhere but at the keys
/// of `old`: every cell of the set outside `old` points only into the set.
pub open spec fn closed_outside(h: Map<u64, Node>, m: Set<u64>, old: Set<u64>) -> bool {
    forall|k: u64| m.contains(k) && !old.contains(k) && h.contains_key(k) ==> #[trigger] children_marked(h[k], m)
}

/// The marks after walking from `node` with the marks `old`: `old` and the
/// keys reachable from `node` along pointers without entering a key of `old`
/// (those in every set that holds `old` and `node` and is closed outside `old`).
pub open spec fn marks_from(h: Map<u64, Node>, old: Set<u64>, node: u64) -> Set<u64> {
    Set::new(|k: u64| forall|m: Set<u64>| #[trigger] closed_outside(h, m, old) && old.subset_of(m) && m.contains(node) ==> m.contains(k))
}

/// The roots of a state: the global environment and the three atoms.
pub open spec fn roots(s: Snapshot) -> Set<u64> {
    set![s.env, s.nil, s.err, s.tru]
}

/// The keys reachable from `roots`: those in every closed set that holds
/// the roots.
pub open spec fn reachable(h: Map<u64, Node>, roots: Set<u64>) -> Set<u64> {
    Set::new(|k: u64| forall|m: Set<u64>| #[trigger] closed_set(h, m) && roots.subset_of(m) ==> m.contains(k))
}

} // verus!
