//! Cells of the Lisp heap, the interpreter's context, and the evaluator.
use crate::prims::{prim_name, prim_of, to_prim, Prims};
use crate::text::{decimal, push_decimal, push_str};
use crate::semantics::{
    alloc_step, apply_rel, assoc_of, bind_rel, car_of, cdr_of, children_in, closure_env,
    advances, closure_step, eval_rel, evlist_rel, grows, lemma_grows_trans,
    max_fuel, pair_step, reached, reduce_env, reduce_rel, Snapshot, children_marked, closed_outside, closed_set,
    marks_from,
    lookup, reachable, roots,
};
use crate::store::{
    arena_get, arena_insert, arena_len, arena_limit, arena_new, arena_retain, is_marked, key_of,
    key_debug_text, key_text, slot_cells, Arena,
};
use std::collections::HashSet;
use vstd::prelude::*;

verus! {

/// A reference to a cell of the heap: the 64-bit form of its slot-map key.
#[derive(Clone, Copy, PartialEq, Eq, Structural, Debug, Hash)]
pub struct Data {
    pub id: u64,
}

/// What a cell of the heap holds.
#[derive(Clone, Debug)]
pub enum DataImpl {
    Cons(Data, Data),
    Closure(Data, Data),
    Prim(Prims),
    Number(isize),
    Atomic(String),
}

/// The mathematical value of a cell: keys in place of references, the
/// characters of an atom's name in place of its `String`.
pub enum Node {
    Cons(u64, u64),
    Closure(u64, u64),
    Prim(Prims),
    Number(isize),
    Atom(Seq<char>),
}

impl View for DataImpl {
    type V = Node;

    open spec fn view(&self) -> Node {
        match self {
            DataImpl::Cons(a, b) => Node::Cons(a.id, b.id),
            DataImpl::Closure(a, b) => Node::Closure(a.id, b.id),
            DataImpl::Prim(p) => Node::Prim(*p),
            DataImpl::Number(n) => Node::Number(*n),
            DataImpl::Atomic(s) => Node::Atom(s@),
        }
    }
}

impl DataImpl {
    /// A copy of the cell.
    pub fn duplicate(&self) -> (r: DataImpl)
        ensures
            r@ == self@,
    {
        match self {
            DataImpl::Cons(a, b) => DataImpl::Cons(*a, *b),
            DataImpl::Closure(a, b) => DataImpl::Closure(*a, *b),
            DataImpl::Prim(p) => DataImpl::Prim(*p),
            DataImpl::Number(n) => DataImpl::Number(*n),
            DataImpl::Atomic(s) => DataImpl::Atomic(s.clone()),
        }
    }

    /// Whether two cells are equal: same variant, same fields, atoms with
    /// the same name.
    fn same(&self, other: &DataImpl) -> (r: bool)
        ensures
            r == (self@ == other@),
    {
        match (self, other) {
            (DataImpl::Cons(a, b), DataImpl::Cons(c, d)) => a.id == c.id && b.id == d.id,
            (DataImpl::Closure(a, b), DataImpl::Closure(c, d)) => a.id == c.id && b.id == d.id,
            (DataImpl::Prim(p), DataImpl::Prim(q)) => *p == *q,
            (DataImpl::Number(n), DataImpl::Number(m)) => *n == *m,
            (DataImpl::Atomic(s), DataImpl::Atomic(t)) => *s == *t,
            _ => false,
        }
    }
}

impl PartialEq for DataImpl {
    fn eq(&self, other: &DataImpl) -> (r: bool) {
        self.same(other)
    }
}

impl Eq for DataImpl {
}

impl vstd::std_specs::cmp::PartialEqSpecImpl for DataImpl {
    open spec fn obeys_eq_spec() -> bool {
        true
    }

    open spec fn eq_spec(&self, other: &DataImpl) -> bool {
        self@ == other@
    }
}

/// The interpreter's state: the arena of cells, the global environment and
/// the three constant atoms `err`, `nil` and `tru`.
pub struct LispContext {
    env: Data,
    nil: Data,
    err: Data,
    tru: Data,
    alloc: Arena,
}

impl View for LispContext {
    type V = Snapshot;

    closed spec fn view(&self) -> Snapshot {
        Snapshot {
            heap: slot_cells(self.alloc),
            env: self.env.id,
            nil: self.nil.id,
            err: self.err.id,
            tru: self.tru.id,
        }
    }
}

/// The arena's capacity, as a `usize`.
fn arena_capacity() -> (n: usize)
    ensures
        n == arena_limit(),
{
    (u32::MAX - 1) as usize
}

impl LispContext {
    /// Whether the context is well formed (see `Snapshot::wf`).
    pub open spec fn wf(&self) -> bool {
        self@.wf()
    }

    /// A new context: the atoms `err`, `nil` and `tru`, and a global
    /// environment `(nil . nil)`.
    pub fn new() -> (c: LispContext)
        ensures
            c.wf(),
            c@.heap.dom() == set![c@.err, c@.nil, c@.tru, c@.env],
            c@.heap[c@.err] == Node::Atom("err"@),
            c@.heap[c@.nil] == Node::Atom("nil"@),
            c@.heap[c@.tru] == Node::Atom("tru"@),
            c@.heap[c@.env] == Node::Cons(c@.nil, c@.nil),
            c@.err != c@.nil && c@.err != c@.tru && c@.err != c@.env,
            c@.nil != c@.tru && c@.nil != c@.env && c@.tru != c@.env,
    {
        broadcast use vstd::string::group_string_axioms;
        let mut alloc = arena_new();
        let err = arena_insert(&mut alloc, DataImpl::Atomic("err".to_string()));
        let nil = arena_insert(&mut alloc, DataImpl::Atomic("nil".to_string()));
        let tru = arena_insert(&mut alloc, DataImpl::Atomic("tru".to_string()));
        let env = arena_insert(&mut alloc, DataImpl::Cons(nil, nil));
        let c = LispContext { env, alloc, nil, err, tru };
        assert(c@.heap.dom() =~= set![c@.err, c@.nil, c@.tru, c@.env]);
        c
    }

    /// The global environment.
    pub fn get_env(&self) -> (r: Data)
        ensures
            r.id == self@.env,
    {
        self.env
    }

    /// Replaces the global environment.
    pub fn set_env(&mut self, env: Data)
        requires
            old(self).wf(),
            old(self)@.holds(env.id),
        ensures
            final(self).wf(),
            final(self)@ == old(self)@.with_env(env.id),
    {
        self.env = env;
    }

    /// The atom `tru`.
    pub fn get_tru(&self) -> (r: Data)
        ensures
            r.id == self@.tru,
    {
        self.tru
    }

    /// The atom `err`.
    pub fn get_err(&self) -> (r: Data)
        ensures
            r.id == self@.err,
    {
        self.err
    }

    /// The atom `nil`.
    pub fn nil(&self) -> (r: Data)
        ensures
            r.id == self@.nil,
    {
        self.nil
    }

    /// The atom `err`.
    pub fn err(&self) -> (r: Data)
        ensures
            r.id == self@.err,
    {
        self.err
    }

    /// Whether `a` is `nil`.
    pub fn not(&self, a: Data) -> (r: bool)
        ensures
            r == (a.id == self@.nil),
    {
        a == self.nil
    }

    /// The cell that `a` refers to.
    pub(crate) fn cell(&self, a: Data) -> (r: &DataImpl)
        requires
            self.wf(),
            self@.holds(a.id),
        ensures
            r@ == self@.heap[a.id],
    {
        let r = arena_get(&self.alloc, a);
        r.unwrap()
    }

    /// A copy of the cell that `a` refers to, if the heap holds one under
    /// that key (the key's version half is read as odd).
    pub fn get_impl(&self, a: Data) -> (r: Option<DataImpl>)
        ensures
            r is Some <==> self@.holds(key_of(a.id)),
            r is Some ==> r.unwrap()@ == self@.heap[key_of(a.id)],
    {
        match arena_get(&self.alloc, a) {
            Some(c) => Some(c.duplicate()),
            None => None,
        }
    }

    /// Stores a cell; when the arena is full, stores nothing and answers
    /// `err`.
    pub(crate) fn alloc_cell(&mut self, v: DataImpl) -> (r: Data)
        requires
            old(self).wf(),
            children_in(old(self)@.heap, v@),
        ensures
            final(self).wf(),
            grows(old(self)@, final(self)@),
            final(self)@.env == old(self)@.env,
            final(self)@.holds(r.id),
            alloc_step(old(self)@, v@, final(self)@, r.id),
    {
        if arena_len(&self.alloc) < arena_capacity() {
            let ghost s = self@;
            let ghost n = v@;
            let r = arena_insert(&mut self.alloc, v);
            assert(self@.heap == s.heap.insert(r.id, n));
            assert forall|k: u64| #[trigger] self@.heap.contains_key(k) implies key_of(k) == k
                && children_in(self@.heap, self@.heap[k]) by {
                if k != r.id {
                    assert(s.heap.contains_key(k));
                }
            }
            assert(self@ == s.with_cell(r.id, n));
            r
        } else {
            self.err
        }
    }

    /// A new pair `(car . cdr)`.
    pub fn cons(&mut self, car: Data, cdr: Data) -> (r: Data)
        requires
            old(self).wf(),
            old(self)@.holds(car.id),
            old(self)@.holds(cdr.id),
            old(self)@.heap.len() < arena_limit(),
        ensures
            final(self).wf(),
            alloc_step(old(self)@, Node::Cons(car.id, cdr.id), final(self)@, r.id),
    {
        self.alloc_cell(DataImpl::Cons(car, cdr))
    }

    /// A new number cell.
    pub fn number(&mut self, num: isize) -> (r: Data)
        requires
            old(self).wf(),
            old(self)@.heap.len() < arena_limit(),
        ensures
            final(self).wf(),
            alloc_step(old(self)@, Node::Number(num), final(self)@, r.id),
    {
        self.alloc_cell(DataImpl::Number(num))
    }

    /// A new atom named `sym`.
    pub fn atom(&mut self, sym: &str) -> (r: Data)
        requires
            old(self).wf(),
            old(self)@.heap.len() < arena_limit(),
        ensures
            final(self).wf(),
            alloc_step(old(self)@, Node::Atom(sym@), final(self)@, r.id),
    {
        broadcast use vstd::string::group_string_axioms;
        self.alloc_cell(DataImpl::Atomic(sym.to_string()))
    }

    /// The first field of a pair or closure; `err` for any other cell.
    pub fn car(&self, a: Data) -> (r: Data)
        requires
            self.wf(),
            self@.holds(a.id),
        ensures
            r.id == car_of(self@, a.id),
            self@.holds(r.id),
    {
        match self.cell(a) {
            DataImpl::Cons(car, _) => *car,
            DataImpl::Closure(car, _) => *car,
            _ => self.err,
        }
    }

    /// The second field of a pair or closure; `err` for any other cell.
    pub fn cdr(&self, a: Data) -> (r: Data)
        requires
            self.wf(),
            self@.holds(a.id),
        ensures
            r.id == cdr_of(self@, a.id),
            self@.holds(r.id),
    {
        match self.cell(a) {
            DataImpl::Cons(_, cdr) => *cdr,
            DataImpl::Closure(_, cdr) => *cdr,
            _ => self.err,
        }
    }

    /// Stores `((a . b) . env)`; each of the two cells is `err` when the
    /// arena is full.
    pub(crate) fn make_pair(&mut self, a: Data, b: Data, env: Data) -> (r: Data)
        requires
            old(self).wf(),
            old(self)@.holds(a.id),
            old(self)@.holds(b.id),
            old(self)@.holds(env.id),
        ensures
            final(self).wf(),
            grows(old(self)@, final(self)@),
            final(self)@.env == old(self)@.env,
            final(self)@.holds(r.id),
            pair_step(old(self)@, a.id, b.id, env.id, final(self)@, r.id),
    {
        let ghost s0 = self@;
        let p = self.alloc_cell(DataImpl::Cons(a, b));
        let ghost s1 = self@;
        let r = self.alloc_cell(DataImpl::Cons(p, env));
        proof {
            lemma_grows_trans(s0, s1, self@);
        }
        assert(alloc_step(s0, Node::Cons(a.id, b.id), s1, p.id));
        r
    }

    /// A new pair `((a . b) . env)`: a binding of `a` to `b` in front of `env`.
    pub fn pair(&mut self, a: Data, b: Data, env: Data) -> (r: Data)
        requires
            old(self).wf(),
            old(self)@.holds(a.id),
            old(self)@.holds(b.id),
            old(self)@.holds(env.id),
            old(self)@.heap.len() + 2 <= arena_limit(),
        ensures
            final(self).wf(),
            pair_step(old(self)@, a.id, b.id, env.id, final(self)@, r.id),
    {
        self.make_pair(a, b, env)
    }

    /// Stores a closure over `param` and `body` that keeps `env` (or nothing
    /// when `env` is the global environment).
    pub(crate) fn make_closure(&mut self, param: Data, body: Data, env: Data) -> (r: Data)
        requires
            old(self).wf(),
            old(self)@.holds(param.id),
            old(self)@.holds(body.id),
            old(self)@.holds(env.id),
        ensures
            final(self).wf(),
            grows(old(self)@, final(self)@),
            final(self)@.env == old(self)@.env,
            final(self)@.holds(r.id),
            closure_step(old(self)@, param.id, body.id, env.id, final(self)@, r.id),
    {
        let ghost s0 = self@;
        let pair_env = if self.env == env {
            self.nil()
        } else {
            env
        };
        let g = self.make_pair(param, body, pair_env);
        let ghost s1 = self@;
        let new = self.alloc_cell(DataImpl::Cons(param, body));
        let ghost s2 = self@;
        let r = self.alloc_cell(DataImpl::Closure(new, pair_env));
        proof {
            lemma_grows_trans(s0, s1, s2);
            lemma_grows_trans(s0, s2, self@);
        }
        assert(pair_env.id == closure_env(s0, env.id));
        assert(pair_step(s0, param.id, body.id, pair_env.id, s1, g.id)
            && alloc_step(s1, Node::Cons(param.id, body.id), s2, new.id));
        r
    }

    /// A new closure over `param` and `body`, keeping `env` (nothing when it
    /// is the global environment). It stores four cells.
    pub fn closure(&mut self, param: Data, body: Data, env: Data) -> (r: Data)
        requires
            old(self).wf(),
            old(self)@.holds(param.id),
            old(self)@.holds(body.id),
            old(self)@.holds(env.id),
            old(self)@.heap.len() + 4 <= arena_limit(),
        ensures
            final(self).wf(),
            closure_step(old(self)@, param.id, body.id, env.id, final(self)@, r.id),
    {
        self.make_closure(param, body, env)
    }

    /// Looks `var` up in the association list `env`.
    fn assoc(&self, var: Data, env: Data) -> (r: Data)
        requires
            self.wf(),
            self@.holds(var.id),
            self@.holds(env.id),
        ensures
            r.id == assoc_of(self@, var.id, env.id),
            self@.holds(r.id),
    {
        let mut env_cur = env;
        let mut fuel: u64 = u64::MAX;
        while fuel > 0
            invariant
                self.wf(),
                self@.holds(var.id),
                self@.holds(env_cur.id),
                lookup(fuel as nat, self@, var.id, env_cur.id) == assoc_of(self@, var.id, env.id),
            decreases fuel,
        {
            match self.cell(env_cur) {
                DataImpl::Cons(c, _) => {
                    let c = *c;
                    let name = self.car(c);
                    if self.cell(name).eq(self.cell(var)) {
                        return self.cdr(c);
                    }
                    env_cur = self.cdr(env_cur);
                    fuel = fuel - 1;
                },
                _ => {
                    return self.err;
                },
            }
        }
        self.err
    }

    /// Evaluates `var` in `env` with depth bound `fuel`.
    pub(crate) fn eval_fuel(&mut self, var: Data, env: Data, fuel: u64) -> (r: Data)
        requires
            old(self).wf(),
            old(self)@.holds(var.id),
            old(self)@.holds(env.id),
        ensures
            advances(old(self)@, final(self)@, r.id),
            eval_rel(fuel as nat, old(self)@, var.id, env.id, final(self)@, r.id),
        decreases fuel, 0nat,
    {
        if fuel == 0 {
            return self.err;
        }
        let ghost s0 = self@;
        match self.cell(var) {
            DataImpl::Atomic(_) => self.assoc(var, env),
            DataImpl::Cons(car, cdr) => {
                let car = *car;
                let cdr = *cdr;
                let v = self.eval_fuel(car, env, fuel - 1);
                let ghost s1 = self@;
                let r = self.apply(v, cdr, env, fuel - 1);
                proof {
                    lemma_grows_trans(s0, s1, self@);
                }
                assert(reached(s1, v.id) && eval_rel((fuel - 1) as nat, s0, car.id, env.id, s1, v.id));
                r
            },
            _ => var,
        }
    }

    /// Applies the value `clos` to the unevaluated arguments `param`.
    fn apply(&mut self, clos: Data, param: Data, env: Data, fuel: u64) -> (r: Data)
        requires
            old(self).wf(),
            old(self)@.holds(clos.id),
            old(self)@.holds(param.id),
            old(self)@.holds(env.id),
        ensures
            advances(old(self)@, final(self)@, r.id),
            apply_rel(fuel as nat, old(self)@, clos.id, param.id, env.id, final(self)@, r.id),
        decreases fuel, 0nat,
    {
        if fuel == 0 {
            return self.err;
        }
        match self.cell(clos) {
            DataImpl::Prim(prim) => {
                let prim = *prim;
                prim.eval_fuel(self, param, env, fuel - 1)
            },
            DataImpl::Closure(_, _) => self.reduce(clos, param, env, fuel - 1),
            _ => self.err,
        }
    }

    /// Evaluates each element of the list `var` into a new list.
    fn evlist_fuel(&mut self, var: Data, env: Data, fuel: u64) -> (r: Data)
        requires
            old(self).wf(),
            old(self)@.holds(var.id),
            old(self)@.holds(env.id),
        ensures
            advances(old(self)@, final(self)@, r.id),
            evlist_rel(fuel as nat, old(self)@, var.id, env.id, final(self)@, r.id),
        decreases fuel, 0nat,
    {
        if fuel == 0 {
            return self.err;
        }
        let ghost s0 = self@;
        match self.cell(var) {
            DataImpl::Cons(car, cdr) => {
                let car = *car;
                let cdr = *cdr;
                let eval_res = self.eval_fuel(car, env, fuel - 1);
                let ghost s1 = self@;
                let evlist_res = self.evlist_fuel(cdr, env, fuel - 1);
                let ghost s2 = self@;
                let r = self.alloc_cell(DataImpl::Cons(eval_res, evlist_res));
                proof {
                    lemma_grows_trans(s0, s1, s2);
                    lemma_grows_trans(s0, s2, self@);
                }
                assert(reached(s1, eval_res.id) && reached(s2, evlist_res.id));
                assert(eval_rel((fuel - 1) as nat, s0, car.id, env.id, s1, eval_res.id));
                assert(evlist_rel((fuel - 1) as nat, s1, cdr.id, env.id, s2, evlist_res.id));
                r
            },
            DataImpl::Atomic(_) => self.assoc(var, env),
            _ => self.nil,
        }
    }

    /// Binds the parameter list `param` to the value list `values` in front
    /// of `env`.
    fn bind(&mut self, param: Data, values: Data, env: Data, fuel: u64) -> (r: Data)
        requires
            old(self).wf(),
            old(self)@.holds(param.id),
            old(self)@.holds(values.id),
            old(self)@.holds(env.id),
        ensures
            advances(old(self)@, final(self)@, r.id),
            final(self)@.env == old(self)@.env,
            bind_rel(fuel as nat, old(self)@, param.id, values.id, env.id, final(self)@, r.id),
        decreases fuel,
    {
        if fuel == 0 {
            return self.err;
        }
        if self.not(param) {
            env
        } else {
            let is_cons = match self.cell(param) {
                DataImpl::Cons(_, _) => true,
                _ => false,
            };
            if is_cons {
                let ghost s0 = self@;
                let name = self.car(param);
                let value = self.car(values);
                let pair = self.make_pair(name, value, env);
                let ghost s1 = self@;
                let rest_param = self.cdr(param);
                let rest_values = self.cdr(values);
                let r = self.bind(rest_param, rest_values, pair, fuel - 1);
                proof {
                    lemma_grows_trans(s0, s1, self@);
                }
                assert(reached(s1, pair.id) && pair_step(s0, name.id, value.id, env.id, s1, pair.id));
                r
            } else {
                self.make_pair(param, values, env)
            }
        }
    }

    /// Reduces the closure `clos` on the unevaluated arguments `param`.
    fn reduce(&mut self, clos: Data, param: Data, env: Data, fuel: u64) -> (r: Data)
        requires
            old(self).wf(),
            old(self)@.holds(clos.id),
            old(self)@.holds(param.id),
            old(self)@.holds(env.id),
        ensures
            advances(old(self)@, final(self)@, r.id),
            reduce_rel(fuel as nat, old(self)@, clos.id, param.id, env.id, final(self)@, r.id),
        decreases fuel, 0nat,
    {
        if fuel == 0 {
            return self.err;
        }
        let ghost s0 = self@;
        let head = self.car(clos);
        let body = self.cdr(head);
        let params = self.car(head);
        let values = self.evlist_fuel(param, env, fuel - 1);
        let ghost s1 = self@;
        let kept = self.cdr(clos);
        let bound = if self.not(kept) {
            self.env
        } else {
            kept
        };
        assert(bound.id == reduce_env(s1, clos.id));
        let env2 = self.bind(params, values, bound, fuel - 1);
        let ghost s2 = self@;
        let r = self.eval_fuel(body, env2, fuel - 1);
        proof {
            lemma_grows_trans(s0, s1, s2);
            lemma_grows_trans(s0, s2, self@);
        }
        assert(reached(s1, values.id) && reached(s2, env2.id));
        assert(evlist_rel((fuel - 1) as nat, s0, param.id, env.id, s1, values.id));
        assert(bind_rel((fuel - 1) as nat, s1, params.id, values.id, reduce_env(s1, clos.id), s2, env2.id));
        r
    }

    /// Evaluates `var` in `env`.
    pub fn eval(&mut self, var: Data, env: Data) -> (r: Data)
        requires
            old(self).wf(),
            old(self)@.holds(var.id),
            old(self)@.holds(env.id),
        ensures
            advances(old(self)@, final(self)@, r.id),
            eval_rel(max_fuel(), old(self)@, var.id, env.id, final(self)@, r.id),
    {
        self.eval_fuel(var, env, u64::MAX)
    }

    /// Evaluates each element of the list `var` into a new list.
    pub fn evlist(&mut self, var: Data, env: Data) -> (r: Data)
        requires
            old(self).wf(),
            old(self)@.holds(var.id),
            old(self)@.holds(env.id),
        ensures
            advances(old(self)@, final(self)@, r.id),
            evlist_rel(max_fuel(), old(self)@, var.id, env.id, final(self)@, r.id),
    {
        self.evlist_fuel(var, env, u64::MAX)
    }

    // ====== Garbage collection ======

    /// Marks `node` and everything reachable from it that is not marked yet.
    fn walk_env(&self, node: Data, mark: &mut HashSet<u64>)
        requires
            self.wf(),
            self@.holds(node.id),
        ensures
            old(mark)@.subset_of(final(mark)@),
            final(mark)@.contains(node.id),
            forall|k: u64| #[trigger] final(mark)@.contains(k) ==> old(mark)@.contains(k) || (self@.holds(k)
                && children_marked(self@.heap[k], final(mark)@)),
            forall|m: Set<u64>| #[trigger] closed_outside(self@.heap, m, old(mark)@) && old(mark)@.subset_of(m)
                && m.contains(node.id) ==> final(mark)@.subset_of(m),
            final(mark)@ == marks_from(self@.heap, old(mark)@, node.id),
        decreases self@.heap.dom().difference(old(mark)@).len(),
    {
        broadcast use vstd::std_specs::hash::group_hash_axioms;
        broadcast use vstd::set::group_set_axioms;
        if !is_marked(mark, node.id) {
            let ghost m0 = mark@;
            mark.insert(node.id);
            let ghost m1 = mark@;
            let ghost dom = self@.heap.dom();
            proof {
                assert(dom.difference(m1) =~= dom.difference(m0).remove(node.id));
            }
            let (car, cdr) = match self.cell(node) {
                DataImpl::Cons(car, cdr) => (Some(*car), Some(*cdr)),
                DataImpl::Closure(car, cdr) => (Some(*car), Some(*cdr)),
                _ => (None, None),
            };
            match (car, cdr) {
                (Some(car), Some(cdr)) => {
                    self.walk_env(car, mark);
                    let ghost m2 = mark@;
                    proof {
                        assert(dom.difference(m2).subset_of(dom.difference(m1)));
                        vstd::set_lib::lemma_len_subset(dom.difference(m2), dom.difference(m1));
                    }
                    self.walk_env(cdr, mark);
                    let ghost m3 = mark@;
                    assert forall|m: Set<u64>| #[trigger] closed_outside(self@.heap, m, m0) && m0.subset_of(m)
                        && m.contains(node.id) implies m3.subset_of(m) by {
                        assert(children_marked(self@.heap[node.id], m));
                        assert(m1.subset_of(m));
                        assert(closed_outside(self@.heap, m, m1));
                        assert(m2.subset_of(m));
                        assert(closed_outside(self@.heap, m, m2));
                    }
                    assert forall|k: u64| #[trigger] m3.contains(k) implies m0.contains(k) || (self@.holds(k)
                        && children_marked(self@.heap[k], m3)) by {
                        if !m0.contains(k) && k != node.id {
                            if m2.contains(k) {
                                assert(children_marked(self@.heap[k], m2));
                            }
                        }
                    }
                },
                _ => {},
            }
        }
        proof {
            let h = self@.heap;
            let m0 = old(mark)@;
            assert(closed_outside(h, mark@, m0));
            assert forall|k: u64| #[trigger] mark@.contains(k) == marks_from(h, m0, node.id).contains(k) by {
                if mark@.contains(k) {
                    assert forall|m: Set<u64>| #[trigger] closed_outside(h, m, m0) && m0.subset_of(m)
                        && m.contains(node.id) implies m.contains(k) by {
                        assert(mark@.subset_of(m));
                    }
                }
            }
            assert(mark@ =~= marks_from(h, m0, node.id));
        }
    }

    /// The set of keys reachable from the roots.
    fn mark(&self) -> (m: HashSet<u64>)
        requires
            self.wf(),
        ensures
            m@ == reachable(self@.heap, roots(self@)),
            closed_set(self@.heap, m@),
    {
        broadcast use vstd::std_specs::hash::group_hash_axioms;
        let mut mark = HashSet::new();
        mark.insert(self.err.id);
        mark.insert(self.tru.id);
        mark.insert(self.nil.id);
        let ghost m0 = mark@;
        self.walk_env(self.env, &mut mark);
        let ghost h = self@.heap;
        let ghost r = roots(self@);
        assert(r.subset_of(mark@));
        assert forall|k: u64| mark@.contains(k) && h.contains_key(k) implies #[trigger] children_marked(h[k], mark@) by {
            if m0.contains(k) {
                assert(h[k] is Atom);
            }
        }
        assert forall|k: u64| #[trigger] mark@.contains(k) == reachable(h, r).contains(k) by {
            if mark@.contains(k) {
                assert forall|m: Set<u64>| #[trigger] closed_set(h, m) && r.subset_of(m) implies m.contains(k) by {
                    assert(m0.subset_of(m));
                    assert(closed_outside(h, m, m0));
                    assert(m.contains(self.env.id));
                }
            }
            if reachable(h, r).contains(k) {
                assert(closed_set(h, mark@) && r.subset_of(mark@));
            }
        }
        assert(mark@ =~= reachable(h, r));
        mark
    }

    /// Mark and sweep: keeps the cells reachable from the roots and drops the
    /// others. Answers the number of cells before and after.
    pub fn garbage_collection(&mut self) -> (sizes: (usize, usize))
        requires
            old(self).wf(),
        ensures
            final(self).wf(),
            final(self)@.heap == old(self)@.heap.restrict(reachable(old(self)@.heap, roots(old(self)@))),
            final(self)@.env == old(self)@.env,
            grows(final(self)@, old(self)@),
            sizes.0 == old(self)@.heap.len(),
            sizes.1 == final(self)@.heap.len(),
    {
        let before = arena_len(&self.alloc);
        let mark = self.mark();
        let ghost s0 = self@;
        arena_retain(&mut self.alloc, &mark);
        let ghost h = self@.heap;
        assert(h.dom().finite()) by {
            assert(h.dom() =~= s0.heap.dom().intersect(mark@));
        }
        assert forall|k: u64| #[trigger] h.contains_key(k) implies key_of(k) == k && children_in(h, h[k]) by {
            assert(s0.heap.contains_key(k) && mark@.contains(k));
            assert(children_marked(s0.heap[k], mark@));
        }
        assert(roots(s0).subset_of(mark@)) by {
            assert(roots(s0).subset_of(reachable(s0.heap, roots(s0))));
        }
        let after = arena_len(&self.alloc);
        (before, after)
    }

    /// A new cell for the primitive that `sym` names; `None`, storing
    /// nothing, when it names none.
    pub fn prim(&mut self, sym: &str) -> (r: Option<Data>)
        requires
            old(self).wf(),
            prim_of(sym@) is Some ==> old(self)@.heap.len() < arena_limit(),
        ensures
            final(self).wf(),
            match prim_of(sym@) {
                Some(p) => r is Some && alloc_step(old(self)@, Node::Prim(p), final(self)@, r.unwrap().id),
                None => r is None && final(self)@ == old(self)@,
            },
    {
        let c = to_prim(sym)?;
        Some(self.alloc_cell(DataImpl::Prim(c)))
    }
}

impl Data {
    /// A view of the cell `self` in `context`, for printing.
    pub fn debug(self, context: &LispContext) -> (r: DataDebug<'_>)
        ensures
            r@ == (self.id, context@.heap),
    {
        DataDebug { key: self, map: &context.alloc }
    }

    /// `self`, unchanged; the message is for tracing, which is off.
    pub fn dump(self, _context: &LispContext, _message: &str) -> (r: Data)
        ensures
            r == self,
    {
        self
    }
}

/// How `Debug` writes a key: the key type's name around the key data.
pub open spec fn key_label(id: u64) -> Seq<char> {
    "Data("@ + key_text(id) + ")"@
}

/// Appends how `Debug` writes the key `d`.
fn push_key(out: &mut String, d: Data)
    ensures
        final(out)@ == old(out)@ + key_label(d.id),
{
    push_str(out, "Data(");
    let t = key_debug_text(d);
    push_str(out, t.as_str());
    push_str(out, ")");
}

/// The text of a cell: a pair or closure by its two keys, a primitive by its
/// name, a number in decimal, an atom by its name.
pub open spec fn cell_text(n: Node) -> Seq<char> {
    match n {
        Node::Cons(a, b) => "( "@ + key_label(a) + " "@ + key_label(b) + " )"@,
        Node::Closure(a, b) => "( "@ + key_label(a) + " => "@ + key_label(b) + " )"@,
        Node::Prim(p) => prim_name(p),
        Node::Number(n) => decimal(n as int),
        Node::Atom(s) => s,
    }
}

impl DataImpl {
    /// The text of the cell (see `cell_text`).
    pub fn to_string(&self) -> (r: String)
        ensures
            r@ == cell_text(self@),
    {
        let mut out = String::new();
        match self {
            DataImpl::Cons(car, cdr) => {
                push_str(&mut out, "( ");
                push_key(&mut out, *car);
                push_str(&mut out, " ");
                push_key(&mut out, *cdr);
                push_str(&mut out, " )");
            },
            DataImpl::Closure(car, cdr) => {
                push_str(&mut out, "( ");
                push_key(&mut out, *car);
                push_str(&mut out, " => ");
                push_key(&mut out, *cdr);
                push_str(&mut out, " )");
            },
            DataImpl::Prim(prims) => {
                push_str(&mut out, prims.name());
            },
            DataImpl::Number(num) => {
                push_decimal(&mut out, *num);
            },
            DataImpl::Atomic(atom) => {
                push_str(&mut out, atom.as_str());
            },
        }
        proof {
            match self@ {
                Node::Prim(p) => assert(out@ =~= prim_name(p)),
                Node::Number(n) => assert(out@ =~= decimal(n as int)),
                Node::Atom(a) => assert(out@ =~= a),
                _ => {},
            }
        }
        out
    }
}

/// The text of the structure under key `k`: numbers, pairs and closures
/// spelled out with their parts, a key that the heap does not hold marked
/// invalid. `f` bounds the depth.
pub open spec fn render(h: Map<u64, Node>, k: u64, f: nat) -> Seq<char>
    decreases f,
{
    if f == 0 {
        Seq::empty()
    } else if !h.contains_key(key_of(k)) {
        "<invalid key "@ + key_label(k) + ">"@
    } else {
        match h[key_of(k)] {
            Node::Number(n) => "Number<"@ + decimal(n as int) + ">"@,
            Node::Cons(a, b) => "Cons<"@ + render(h, a, (f - 1) as nat) + ", "@ + render(
                h,
                b,
                (f - 1) as nat,
            ) + ">"@,
            Node::Closure(a, b) => "Closure<"@ + render(h, a, (f - 1) as nat) + ", "@ + render(
                h,
                b,
                (f - 1) as nat,
            ) + ">"@,
            Node::Prim(p) => "Prim<"@ + prim_name(p) + ">"@,
            Node::Atom(s) => "Atomic<"@ + s + ">"@,
        }
    }
}

/// A cell of a heap, for printing the whole structure under it.
pub struct DataDebug<'a> {
    key: Data,
    map: &'a Arena,
}

impl<'a> View for DataDebug<'a> {
    type V = (u64, Map<u64, Node>);

    closed spec fn view(&self) -> (u64, Map<u64, Node>) {
        (self.key.id, slot_cells(*self.map))
    }
}

impl<'a> DataDebug<'a> {
    /// The text of the structure (see `render`).
    pub fn to_string(&self) -> (r: String)
        ensures
            r@ == render(self@.1, self@.0, max_fuel()),
    {
        let mut out = String::new();
        self.fmt_inner(self.key, &mut out, u64::MAX);
        out
    }

    /// Appends the text of the structure under `key`, to depth `fuel`.
    fn fmt_inner(&self, key: Data, out: &mut String, fuel: u64)
        ensures
            final(out)@ == old(out)@ + render(self@.1, key.id, fuel as nat),
        decreases fuel,
    {
        if fuel == 0 {
            assert(old(out)@ =~= old(out)@ + render(self@.1, key.id, 0));
            return;
        }
        let val = match arena_get(self.map, key) {
            Some(val) => val,
            None => {
                push_str(out, "<invalid key ");
                push_key(out, key);
                push_str(out, ">");
                assert(final(out)@ =~= old(out)@ + render(self@.1, key.id, fuel as nat));
                return;
            },
        };
        let ghost s1 = out@;
        match val {
            DataImpl::Number(num) => {
                push_str(out, "Number<");
                push_decimal(out, *num);
                push_str(out, ">");
            },
            DataImpl::Cons(car, cdr) => {
                push_str(out, "Cons<");
                self.fmt_inner(*car, out, fuel - 1);
                push_str(out, ", ");
                self.fmt_inner(*cdr, out, fuel - 1);
                push_str(out, ">");
            },
            DataImpl::Closure(car, cdr) => {
                push_str(out, "Closure<");
                self.fmt_inner(*car, out, fuel - 1);
                push_str(out, ", ");
                self.fmt_inner(*cdr, out, fuel - 1);
                push_str(out, ">");
            },
            DataImpl::Prim(prim) => {
                push_str(out, "Prim<");
                push_str(out, prim.name());
                push_str(out, ">");
            },
            DataImpl::Atomic(atom) => {
                push_str(out, "Atomic<");
                push_str(out, atom.as_str());
                push_str(out, ">");
            },
        }
        assert(final(out)@ =~= old(out)@ + render(self@.1, key.id, fuel as nat));
    }
}

/// An interpreter: a context and evaluation in its global environment.
pub struct Lisp {
    context: LispContext,
}

impl View for Lisp {
    type V = Snapshot;

    closed spec fn view(&self) -> Snapshot {
        self.context@
    }
}

impl Lisp {
    /// Whether the interpreter is well formed.
    pub open spec fn wf(&self) -> bool {
        self@.wf()
    }

    /// A new interpreter over a new context (see `LispContext::new`).
    pub fn new() -> (l: Lisp)
        ensures
            l.wf(),
            l@.heap.dom() == set![l@.err, l@.nil, l@.tru, l@.env],
            l@.heap[l@.err] == Node::Atom("err"@),
            l@.heap[l@.nil] == Node::Atom("nil"@),
            l@.heap[l@.tru] == Node::Atom("tru"@),
            l@.heap[l@.env] == Node::Cons(l@.nil, l@.nil),
            l@.err != l@.nil && l@.err != l@.tru && l@.err != l@.env,
            l@.nil != l@.tru && l@.nil != l@.env && l@.tru != l@.env,
    {
        Lisp { context: LispContext::new() }
    }

    /// The context, to build and inspect cells.
    pub fn get_context_mut(&mut self) -> (r: &mut LispContext)
        ensures
            r@ == old(self)@,
            final(self)@ == final(r)@,
    {
        &mut self.context
    }

    /// Evaluates `code` in the global environment.
    pub fn eval(&mut self, code: Data) -> (r: Data)
        requires
            old(self).wf(),
            old(self)@.holds(code.id),
        ensures
            advances(old(self)@, final(self)@, r.id),
            eval_rel(max_fuel(), old(self)@, code.id, old(self)@.env, final(self)@, r.id),
    {
        let env = self.context.get_env();
        self.context.eval(code, env)
    }
}

} // verus!
