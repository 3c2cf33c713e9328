//! Properties of the interpreter that relate several of its operations.
use crate::data::{Data, Node};
use crate::env::Env;
use crate::line_editor::{is_erase, is_newline, key_step};
use crate::prims::{prim_of, Prims};
use crate::semantics::{
    alloc_step, apply_rel, arith, arith_out, assoc_of, bind_rel, car_of, cdr_of, children_marked, closed_set,
    eval_rel, grows, is_arith, lookup, max_fuel, pair_step, prim_rel, reachable, reached, roots,
    two_evals, Snapshot,
};
use crate::store::arena_limit;
use vstd::prelude::*;

verus! {

/// A new pair gives back its two parts: after `cons(a, b)` stored the pair
/// under `k`, `car` of `k` is `a` and `cdr` of `k` is `b`.
pub proof fn lemma_car_cdr_of_cons(s: Snapshot, a: u64, b: u64, t: Snapshot, k: u64)
    requires
        alloc_step(s, Node::Cons(a, b), t, k),
        s.heap.len() < arena_limit(),
    ensures
        car_of(t, k) == a,
        cdr_of(t, k) == b,
{
}

/// After `(define name expr)` has stored its binding (the arena did not run
/// full), looking up any atom equal to `name` in the global environment
/// gives the value that `expr` evaluated to.
pub proof fn lemma_define_then_lookup(f: nat, s: Snapshot, a: u64, env: u64, t: Snapshot, r: u64)
    requires
        s.wf(),
        f > 0,
        prim_rel(f, s, Prims::Define, a, env, t, r),
        t.heap.len() < arena_limit(),
    ensures
        exists|s1: Snapshot, v: u64|
            #![trigger reached(s1, v)]
            reached(s1, v) && eval_rel((f - 1) as nat, s, car_of(s, cdr_of(s, a)), env, s1, v)
                && forall|y: u64| #[trigger] t.heap[y] == t.heap[r] ==> assoc_of(t, y, t.env) == v,
{
    let op1 = car_of(s, a);
    let op2 = car_of(s, cdr_of(s, a));
    let (s1, v, s2, g) = choose|s1: Snapshot, v: u64, s2: Snapshot, g: u64|
        reached(s1, v) && reached(s2, g) && eval_rel((f - 1) as nat, s, op2, env, s1, v)
            && pair_step(s1, op1, v, s1.env, s2, g) && t == s2.with_env(g) && r == op1;
    let (s3, c) = choose|s3: Snapshot, c: u64|
        alloc_step(s1, Node::Cons(op1, v), s3, c) && alloc_step(s3, Node::Cons(c, s1.env), s2, g);
    assert(s1.heap.len() < arena_limit());
    assert(s3.heap.len() < arena_limit());
    assert(t.heap[t.env] == Node::Cons(c, s1.env));
    assert(t.heap[c] == Node::Cons(op1, v));
    assert forall|y: u64| #[trigger] t.heap[y] == t.heap[r] implies assoc_of(t, y, t.env) == v by {
        assert(car_of(t, c) == op1);
        assert(cdr_of(t, c) == v);
    }
    assert(reached(s1, v));
}

/// Binding a one-name parameter list `(x)` to a value list gives an
/// environment in which `x` (and any atom equal to it) is bound to the
/// first value, when the arena had room for the binding.
pub proof fn lemma_bind_then_lookup(f: nat, s: Snapshot, p: u64, vals: u64, env: u64, t: Snapshot, r: u64)
    requires
        s.wf(),
        f > 1,
        s.holds(p),
        s.heap[p] is Cons,
        cdr_of(s, p) == s.nil,
        bind_rel(f, s, p, vals, env, t, r),
        t.heap.len() < arena_limit(),
    ensures
        forall|y: u64| #[trigger] t.heap[y] == t.heap[car_of(s, p)] ==> assoc_of(t, y, r) == car_of(s, vals),
{
    assert(p != s.nil);
    let (s1, q) = choose|s1: Snapshot, q: u64|
        reached(s1, q) && pair_step(s, car_of(s, p), car_of(s, vals), env, s1, q) && bind_rel(
            (f - 1) as nat,
            s1,
            cdr_of(s1, p),
            cdr_of(s1, vals),
            q,
            t,
            r,
        );
    let (s2, c) = choose|s2: Snapshot, c: u64|
        alloc_step(s, Node::Cons(car_of(s, p), car_of(s, vals)), s2, c) && alloc_step(
            s2,
            Node::Cons(c, env),
            s1,
            q,
        );
    assert(cdr_of(s1, p) == s.nil);
    assert(t == s1 && r == q);
    assert(s.heap.len() < arena_limit());
    assert(s2.heap.len() < arena_limit());
    assert forall|y: u64| #[trigger] t.heap[y] == t.heap[car_of(s, p)] implies assoc_of(t, y, r) == car_of(s, vals) by {
        assert(t.heap[r] == Node::Cons(c, env));
        assert(t.heap[c] == Node::Cons(car_of(s, p), car_of(s, vals)));
        assert(car_of(t, c) == car_of(s, p));
    }
}

/// The reachable keys form a closed set.
proof fn lemma_reachable_closed(h: Map<u64, Node>, rs: Set<u64>)
    ensures
        closed_set(h, reachable(h, rs)),
{
    let rch = reachable(h, rs);
    assert forall|k: u64| rch.contains(k) && h.contains_key(k) implies #[trigger] children_marked(h[k], rch) by {
        match h[k] {
            Node::Cons(a, b) => {
                assert forall|m: Set<u64>| #[trigger] closed_set(h, m) && rs.subset_of(m) implies m.contains(a)
                    && m.contains(b) by {
                    assert(children_marked(h[k], m));
                }
            },
            Node::Closure(a, b) => {
                assert forall|m: Set<u64>| #[trigger] closed_set(h, m) && rs.subset_of(m) implies m.contains(a)
                    && m.contains(b) by {
                    assert(children_marked(h[k], m));
                }
            },
            _ => {},
        }
    }
}

/// The reachable keys of a well-formed state are keys of its heap, and
/// include its roots.
proof fn lemma_reachable_in_heap(s: Snapshot)
    requires
        s.wf(),
    ensures
        reachable(s.heap, roots(s)).subset_of(s.heap.dom()),
        roots(s).subset_of(reachable(s.heap, roots(s))),
{
    let d = s.heap.dom();
    assert(closed_set(s.heap, d)) by {
        assert forall|k: u64| d.contains(k) && s.heap.contains_key(k) implies #[trigger] children_marked(s.heap[k], d) by {
            assert(s.heap.contains_key(k));
        }
    }
    assert(roots(s).subset_of(d));
}

/// Lookups are the same in a heap and in the part of it that garbage
/// collection keeps, for a variable and an environment that it keeps.
proof fn lemma_lookup_after_collect(f: nat, s: Snapshot, t: Snapshot, var: u64, env: u64)
    requires
        s.wf(),
        t.heap == s.heap.restrict(reachable(s.heap, roots(s))),
        grows(t, s),
        t.holds(var),
        t.holds(env),
    ensures
        lookup(f, t, var, env) == lookup(f, s, var, env),
    decreases f,
{
    let rch = reachable(s.heap, roots(s));
    lemma_reachable_closed(s.heap, roots(s));
    lemma_reachable_in_heap(s);
    if f > 0 {
        assert(rch.contains(env));
        assert(children_marked(s.heap[env], rch));
        match s.heap[env] {
            Node::Cons(c, rest) => {
                assert(rch.contains(c) && s.holds(c));
                assert(children_marked(s.heap[c], rch));
                assert(t.heap[c] == s.heap[c]);
                let name = car_of(s, c);
                assert(rch.contains(name)) by {
                    if !(s.heap[c] is Cons || s.heap[c] is Closure) {
                        assert(roots(s).contains(s.err));
                    }
                }
                assert(car_of(t, c) == name);
                assert(t.heap[name] == s.heap[name]);
                assert(t.heap[var] == s.heap[var]);
                assert(rch.contains(rest));
                lemma_lookup_after_collect((f - 1) as nat, s, t, var, cdr_of(s, env));
            },
            _ => {},
        }
    }
}

/// Garbage collection keeps the meaning of names: a variable that it keeps
/// looks up to the same cell, in any environment that it keeps.
pub proof fn lemma_collect_keeps_lookup(s: Snapshot, t: Snapshot, var: u64, env: u64)
    requires
        s.wf(),
        t.heap == s.heap.restrict(reachable(s.heap, roots(s))),
        grows(t, s),
        t.holds(var),
        t.holds(env),
    ensures
        assoc_of(t, var, env) == assoc_of(s, var, env),
{
    lemma_lookup_after_collect(max_fuel(), s, t, var, env);
}

/// Collecting twice keeps what collecting once kept: after garbage
/// collection, every cell is reachable from the roots.
pub proof fn lemma_collect_idempotent(s: Snapshot, t: Snapshot)
    requires
        s.wf(),
        t.heap == s.heap.restrict(reachable(s.heap, roots(s))),
        t.env == s.env,
        grows(t, s),
    ensures
        t.heap.restrict(reachable(t.heap, roots(t))) == t.heap,
{
    let rs = reachable(s.heap, roots(s));
    let rt = reachable(t.heap, roots(t));
    lemma_reachable_closed(s.heap, roots(s));
    lemma_reachable_in_heap(s);
    assert(roots(t) == roots(s));
    assert forall|k: u64| t.heap.contains_key(k) implies #[trigger] rt.contains(k) by {
        assert forall|m: Set<u64>| #[trigger] closed_set(t.heap, m) && roots(t).subset_of(m) implies m.contains(k) by {
            let both = m.intersect(rs);
            assert(closed_set(s.heap, both)) by {
                assert forall|j: u64| both.contains(j) && s.heap.contains_key(j) implies #[trigger] children_marked(
                    s.heap[j],
                    both,
                ) by {
                    assert(t.heap.contains_key(j));
                    assert(children_marked(t.heap[j], m));
                    assert(children_marked(s.heap[j], rs));
                }
            }
            assert(roots(s).subset_of(both));
            assert(rs.contains(k));
        }
    }
    assert(t.heap.restrict(rt) =~= t.heap);
}

/// Each primitive has one name: two symbols that name the same primitive
/// are the same symbol.
pub proof fn lemma_prim_names_unique(a: Seq<char>, b: Seq<char>)
    requires
        prim_of(a) is Some,
        prim_of(a) == prim_of(b),
    ensures
        a == b,
{
}

/// The line after typing `cs`, one keystroke at a time, on the line `buf`.
pub open spec fn typed(buf: Seq<char>, cs: Seq<char>) -> Seq<char>
    decreases cs.len(),
{
    if cs.len() == 0 {
        buf
    } else {
        typed(key_step(buf, cs[0]).0, cs.drop_first())
    }
}

/// Typing characters that neither erase nor end the line appends them; the
/// newline that follows hands over the whole line and starts an empty one.
pub proof fn lemma_typed_line(buf: Seq<char>, cs: Seq<char>, nl: char)
    requires
        forall|i: int| 0 <= i < cs.len() ==> !is_erase(#[trigger] cs[i]) && !is_newline(cs[i]),
        is_newline(nl),
    ensures
        typed(buf, cs) == buf + cs,
        key_step(typed(buf, cs), nl) == (Seq::<char>::empty(), Some(buf + cs), Some("\r\n"@)),
    decreases cs.len(),
{
    if cs.len() > 0 {
        assert(!is_erase(cs[0]) && !is_newline(cs[0]));
        lemma_typed_line(buf.push(cs[0]), cs.drop_first(), nl);
        assert(buf.push(cs[0]) + cs.drop_first() =~= buf + cs);
    } else {
        assert(buf + cs =~= buf);
    }
}

/// Erasing undoes typing: a character that neither erases nor ends the
/// line, followed by an erase, leaves the line as it was.
pub proof fn lemma_erase_undoes_key(buf: Seq<char>, c: char, e: char)
    requires
        !is_erase(c),
        !is_newline(c),
        is_erase(e),
    ensures
        key_step(key_step(buf, c).0, e).0 == buf,
{
    assert(buf.push(c).drop_last() =~= buf);
}

/// What `Env::get` finds after `Env::set`: the table `after` that
/// `set(name, d)` leaves (its contract: `before`'s bindings with `name` bound
/// to `d`) has `name` bound to `d`, and every other name bound, or not, as in
/// `before`.
pub proof fn lemma_env_get_after_set(before: Env, after: Env, name: Seq<char>, d: Data, other: Seq<char>)
    requires
        after@ == before@.insert(name, d),
        other != name,
    ensures
        after@.contains_key(name),
        after@[name] == d,
        after@.contains_key(other) == before@.contains_key(other),
        before@.contains_key(other) ==> after@[other] == before@[other],
{
}

/// The position after the last newline among the first `i` keys of `cs`
/// (0 when there is none).
pub open spec fn line_start(cs: Seq<char>, i: int) -> int
    decreases i,
{
    if i <= 0 {
        0
    } else if is_newline(cs[i - 1]) {
        i
    } else {
        line_start(cs, i - 1)
    }
}

/// A line that holds no newline and no erase character.
pub open spec fn plain_line(l: Seq<char>) -> bool {
    forall|k: int| 0 <= k < l.len() ==> !is_newline(#[trigger] l[k]) && !is_erase(l[k])
}

proof fn lemma_typed_push(buf: Seq<char>, xs: Seq<char>, c: char)
    ensures
        typed(buf, xs.push(c)) == key_step(typed(buf, xs), c).0,
    decreases xs.len(),
{
    if xs.len() == 0 {
        assert(xs.push(c).drop_first() =~= Seq::<char>::empty());
        assert(xs.push(c)[0] == c);
        assert(typed(key_step(buf, c).0, Seq::<char>::empty()) == key_step(buf, c).0);
    } else {
        assert(xs.push(c).drop_first() =~= xs.drop_first().push(c));
        assert(xs.push(c)[0] == xs[0]);
        lemma_typed_push(key_step(buf, xs[0]).0, xs.drop_first(), c);
    }
}

proof fn lemma_typed_plain(buf: Seq<char>, xs: Seq<char>)
    requires
        plain_line(buf),
    ensures
        plain_line(typed(buf, xs)),
    decreases xs.len(),
{
    if xs.len() > 0 {
        let c = xs[0];
        let b2 = key_step(buf, c).0;
        assert(plain_line(b2)) by {
            if is_erase(c) {
                if buf.len() > 0 {
                    assert forall|k: int| 0 <= k < b2.len() implies !is_newline(#[trigger] b2[k]) && !is_erase(b2[k]) by {
                        assert(b2[k] == buf[k]);
                    }
                }
            } else if !is_newline(c) {
                assert forall|k: int| 0 <= k < b2.len() implies !is_newline(#[trigger] b2[k]) && !is_erase(b2[k]) by {
                    if k < buf.len() {
                        assert(b2[k] == buf[k]);
                    }
                }
            }
        }
        lemma_typed_plain(b2, xs.drop_first());
    }
}

proof fn lemma_line_so_far(cs: Seq<char>, i: int)
    requires
        0 <= i <= cs.len(),
    ensures
        0 <= line_start(cs, i) <= i,
        typed(Seq::empty(), cs.take(i)) == typed(Seq::empty(), cs.subrange(line_start(cs, i), i)),
    decreases i,
{
    if i > 0 {
        lemma_line_so_far(cs, i - 1);
        let e = Seq::<char>::empty();
        assert(cs.take(i) =~= cs.take(i - 1).push(cs[i - 1]));
        lemma_typed_push(e, cs.take(i - 1), cs[i - 1]);
        if is_newline(cs[i - 1]) {
            assert(cs.subrange(i, i) =~= e);
        } else {
            let ls = line_start(cs, i - 1);
            assert(cs.subrange(ls, i) =~= cs.subrange(ls, i - 1).push(cs[i - 1]));
            lemma_typed_push(e, cs.subrange(ls, i - 1), cs[i - 1]);
        }
    } else {
        assert(cs.take(0) =~= cs.subrange(0, 0));
    }
}

/// Keys typed one at a time into a new line editor (`StateMachine::new`,
/// then `next` on each key): after the first `i` keys the line being typed
/// is `typed` of them, and the key at `i`
/// - hands over a line exactly when it is a newline, and that line is what
///   the keys since the previous newline typed (ordinary keys appended, an
///   erase dropping the last character);
/// - never hands over a line that holds a newline or an erase character;
/// - is echoed as `"\r\n"` when it is a newline, as itself when it is an
///   ordinary key, and, when it erases, as backspace-space-backspace if
///   there was a character to erase and not at all otherwise.
pub proof fn lemma_key_stream(cs: Seq<char>, i: int)
    requires
        0 <= i < cs.len(),
    ensures
        ({
            let (buf, line, echo) = key_step(typed(Seq::empty(), cs.take(i)), cs[i]);
            &&& buf == typed(Seq::empty(), cs.take(i + 1))
            &&& plain_line(buf)
            &&& (line is Some <==> is_newline(cs[i]))
            &&& is_newline(cs[i]) ==> line == Some(typed(Seq::empty(), cs.subrange(line_start(cs, i), i)))
                && echo == Some("\r\n"@)
            &&& (line matches Some(l) ==> plain_line(l))
            &&& !is_newline(cs[i]) && !is_erase(cs[i]) ==> echo == Some(seq![cs[i]])
            &&& is_erase(cs[i]) ==> (echo is Some <==> typed(Seq::empty(), cs.take(i)).len() > 0)
                && (echo is Some ==> echo == Some("\x08 \x08"@))
        }),
{
    let e = Seq::<char>::empty();
    lemma_line_so_far(cs, i);
    assert(cs.take(i + 1) =~= cs.take(i).push(cs[i]));
    lemma_typed_push(e, cs.take(i), cs[i]);
    lemma_typed_plain(e, cs.take(i));
    lemma_typed_plain(e, cs.take(i + 1));
}

/// A cell that is neither an atom nor a pair evaluates to itself, and
/// evaluation stores nothing.
pub proof fn lemma_self_evaluating(f: nat, s: Snapshot, var: u64, env: u64, t: Snapshot, r: u64)
    requires
        f > 0,
        !(s.heap[var] is Atom),
        !(s.heap[var] is Cons),
        eval_rel(f, s, var, env, t, r),
    ensures
        t == s,
        r == var,
{
}

/// `(quote x)` answers `x` itself, unevaluated, and stores nothing.
pub proof fn lemma_quote_unevaluated(f: nat, s: Snapshot, a: u64, env: u64, t: Snapshot, r: u64)
    requires
        f > 0,
        prim_rel(f, s, Prims::Quote, a, env, t, r),
    ensures
        t == s,
        r == car_of(s, a),
{
}

/// An arithmetic primitive applied to two number cells computes on their
/// values: `(op x y)` stores a new number cell with the result, or answers
/// `err` where Rust's operator would overflow or divide by zero.
pub proof fn lemma_arith_on_numbers(
    f: nat,
    s: Snapshot,
    code: u64,
    env: u64,
    t: Snapshot,
    r: u64,
    op: u64,
    args: u64,
    rest: u64,
    x: u64,
    y: u64,
)
    requires
        f >= 4,
        s.heap[code] == Node::Cons(op, args),
        s.heap[op] matches Node::Prim(p) && is_arith(p),
        s.heap[args] == Node::Cons(x, rest),
        s.heap[rest] matches Node::Cons(yy, _) && yy == y,
        s.heap[x] is Number,
        s.heap[y] is Number,
        eval_rel(f, s, code, env, t, r),
    ensures
        ({
            let p = s.heap[op]->Prim_0;
            let a = s.heap[x]->Number_0;
            let b = s.heap[y]->Number_0;
            match arith(p, a, b) {
                Some(c) => alloc_step(s, Node::Number(c), t, r),
                None => t == s && r == s.err,
            }
        }),
{
    let p = s.heap[op]->Prim_0;
    let (s1, v) = choose|s1: Snapshot, v: u64|
        reached(s1, v) && eval_rel((f - 1) as nat, s, op, env, s1, v) && apply_rel(
            (f - 1) as nat,
            s1,
            v,
            args,
            env,
            t,
            r,
        );
    assert(s1 == s && v == op);
    assert(prim_rel((f - 2) as nat, s, p, args, env, t, r));
    let (s2, v1, s3, v2) = choose|s2: Snapshot, v1: u64, s3: Snapshot, v2: u64|
        reached(s2, v1) && reached(s3, v2) && two_evals((f - 2) as nat, s, args, env, s2, v1, s3, v2)
            && arith_out(p, s3, v1, v2, t, r);
    assert(eval_rel((f - 3) as nat, s, x, env, s2, v1));
    assert(s2 == s && v1 == x);
    assert(eval_rel((f - 3) as nat, s, y, env, s3, v2));
    assert(s3 == s && v2 == y);
}


/// Truncated division: `q` and `m` are the quotient and remainder of `x` by
/// `y` with the quotient rounded toward zero, so the remainder has the sign
/// of `x` and is smaller than `y` in size.
pub open spec fn truncated_div(x: int, y: int, q: int, m: int) -> bool {
    &&& q * y + m == x
    &&& (if m < 0 { -m } else { m }) < (if y < 0 { -y } else { y })
    &&& (m == 0 || (m < 0) == (x < 0))
}

proof fn lemma_pos_div(a: int, b: int)
    requires
        a > 0,
        b > 0,
    ensures
        (a / b) * b + a % b == a,
        0 <= a % b < b,
        0 <= a / b <= a,
{
    assert((a / b) * b + a % b == a && 0 <= a % b < b) by (nonlinear_arith)
        requires
            a > 0,
            b > 0,
    ;
    assert(0 <= a / b <= a) by (nonlinear_arith)
        requires
            a > 0,
            b > 0,
    ;
}

proof fn lemma_div_rem_exact(x: isize, y: isize)
    requires
        y != 0,
        !(x == isize::MIN && y == -1),
    ensures
        arith(Prims::Div, x, y) is Some,
        arith(Prims::Mod, x, y) is Some,
        truncated_div(x as int, y as int, arith(Prims::Div, x, y).unwrap() as int, arith(Prims::Mod, x, y).unwrap() as int),
{
    let xi = x as int;
    let yi = y as int;
    let a: int = if x < 0 { -xi } else { xi };
    let b: int = if y < 0 { -yi } else { yi };
    if x == 0 {
        assert(arith(Prims::Div, x, y) == Some(0isize));
        assert(arith(Prims::Mod, x, y) == Some(0isize));
        assert(truncated_div(xi, yi, 0, 0)) by (nonlinear_arith)
            requires
                xi == 0,
                yi != 0,
        ;
    } else {
        lemma_pos_div(a, b);
        let q0 = a / b;
        let m0 = a % b;
        assert(q0 * b <= a) by (nonlinear_arith)
            requires
                q0 * b + m0 == a,
                m0 >= 0,
        ;
        if x > 0 && y > 0 {
            assert(arith(Prims::Div, x, y) == Some(q0 as isize));
            assert(arith(Prims::Mod, x, y) == Some(m0 as isize));
        } else if x < 0 && y < 0 {
            assert(xi * -1 == a && yi * -1 == b);
            assert(q0 <= isize::MAX) by {
                if b == 1 {
                    assert(x != isize::MIN);
                    assert(q0 <= a) ;
                } else {
                    assert(q0 * 2 <= a) by (nonlinear_arith)
                        requires
                            q0 * b <= a,
                            b >= 2,
                            q0 >= 0,
                    ;
                }
            }
            assert(arith(Prims::Div, x, y) == Some(q0 as isize));
            assert(arith(Prims::Mod, x, y) == Some((-m0) as isize));
            assert(q0 * yi + (-m0) == xi) by (nonlinear_arith)
                requires
                    q0 * b + m0 == a,
                    b == -yi,
                    a == -xi,
            ;
        } else if x < 0 {
            assert(xi * -1 == a && yi == b);
            assert(arith(Prims::Div, x, y) == Some((q0 * -1) as isize));
            assert(arith(Prims::Mod, x, y) == Some((m0 * -1) as isize));
            assert((q0 * -1) * yi + (m0 * -1) == xi) by (nonlinear_arith)
                requires
                    q0 * b + m0 == a,
                    b == yi,
                    a == -xi,
            ;
        } else {
            assert(xi == a && yi * -1 == b);
            assert(arith(Prims::Div, x, y) == Some((q0 * -1) as isize));
            assert(arith(Prims::Mod, x, y) == Some(m0 as isize));
            assert((q0 * -1) * yi + m0 == xi) by (nonlinear_arith)
                requires
                    q0 * b + m0 == a,
                    b == -yi,
                    a == xi,
            ;
        }
    }
}

/// The arithmetic primitives compute on the integers. `+`, `-` and `*` give
/// the sum, difference and product of the two numbers whenever it fits in
/// `isize`, whatever their signs, and refuse only when it does not fit. `/`
/// and `mod` give the quotient rounded toward zero and the remainder that
/// goes with it, for every divisor but zero (and the one quotient,
/// `isize::MIN / -1`, that does not fit).
pub proof fn lemma_arith_exact(x: isize, y: isize)
    ensures
        isize::MIN <= x + y <= isize::MAX ==> arith(Prims::Add, x, y) == Some((x + y) as isize),
        !(isize::MIN <= x + y <= isize::MAX) ==> arith(Prims::Add, x, y) is None,
        isize::MIN <= x - y <= isize::MAX ==> arith(Prims::Sub, x, y) == Some((x - y) as isize),
        !(isize::MIN <= x - y <= isize::MAX) ==> arith(Prims::Sub, x, y) is None,
        isize::MIN <= x * y <= isize::MAX ==> arith(Prims::Mul, x, y) == Some((x * y) as isize),
        !(isize::MIN <= x * y <= isize::MAX) ==> arith(Prims::Mul, x, y) is None,
        y == 0 ==> arith(Prims::Div, x, y) is None && arith(Prims::Mod, x, y) is None,
        y != 0 && !(x == isize::MIN && y == -1) ==> arith(Prims::Div, x, y) is Some && arith(Prims::Mod, x, y) is Some
            && truncated_div(x as int, y as int, arith(Prims::Div, x, y).unwrap() as int, arith(Prims::Mod, x, y).unwrap() as int),
{
    if y != 0 && !(x == isize::MIN && y == -1) {
        lemma_div_rem_exact(x, y);
    }
}

/// Evaluating `(op x y)` for `+`, `-` or `*` on two number cells stores a new
/// number cell that holds the exact sum, difference or product whenever it
/// fits in `isize` (and the arena has room), for operands of any sign; it
/// answers `err`, storing nothing, only when the exact result does not fit.
pub proof fn lemma_ring_ops_on_numbers(
    f: nat,
    s: Snapshot,
    code: u64,
    env: u64,
    t: Snapshot,
    r: u64,
    op: u64,
    args: u64,
    rest: u64,
    x: u64,
    y: u64,
)
    requires
        f >= 4,
        s.heap[code] == Node::Cons(op, args),
        s.heap[op] == Node::Prim(Prims::Add) || s.heap[op] == Node::Prim(Prims::Sub) || s.heap[op] == Node::Prim(
            Prims::Mul,
        ),
        s.heap[args] == Node::Cons(x, rest),
        s.heap[rest] matches Node::Cons(yy, _) && yy == y,
        s.heap[x] is Number,
        s.heap[y] is Number,
        eval_rel(f, s, code, env, t, r),
    ensures
        ({
            let a = s.heap[x]->Number_0 as int;
            let b = s.heap[y]->Number_0 as int;
            let exact = if s.heap[op] == Node::Prim(Prims::Add) {
                a + b
            } else if s.heap[op] == Node::Prim(Prims::Sub) {
                a - b
            } else {
                a * b
            };
            &&& isize::MIN <= exact <= isize::MAX && s.heap.len() < arena_limit() ==> !s.heap.contains_key(r)
                && t.heap == s.heap.insert(r, Node::Number(exact as isize))
            &&& !(isize::MIN <= exact <= isize::MAX) ==> t == s && r == s.err
        }),
{
    lemma_arith_on_numbers(f, s, code, env, t, r, op, args, rest, x, y);
    lemma_arith_exact(s.heap[x]->Number_0, s.heap[y]->Number_0);
}

/// Evaluating `(eq? e1 e2)` compares the two values by content: after both
/// operands are evaluated, in order, the answer is `tru` when the two values
/// are equal cells (two atoms of the same name, two equal numbers, ...),
/// whatever keys hold them, and `nil` when they are not; nothing else changes.
pub proof fn lemma_eq_by_content(f: nat, s: Snapshot, code: u64, env: u64, t: Snapshot, r: u64, op: u64, args: u64)
    requires
        f >= 3,
        s.heap[code] == Node::Cons(op, args),
        s.heap[op] == Node::Prim(Prims::Eq),
        eval_rel(f, s, code, env, t, r),
    ensures
        exists|s1: Snapshot, v1: u64, s2: Snapshot, v2: u64|
            #![trigger reached(s1, v1), reached(s2, v2)]
            reached(s1, v1) && reached(s2, v2)
            && eval_rel((f - 3) as nat, s, car_of(s, args), env, s1, v1)
            && eval_rel((f - 3) as nat, s1, car_of(s, cdr_of(s, args)), env, s2, v2)
            && t == s2
            && (t.heap[v1] == t.heap[v2] ==> r == s.tru)
            && (t.heap[v1] != t.heap[v2] ==> r == s.nil),
{
    let (s1, v) = choose|s1: Snapshot, v: u64|
        reached(s1, v) && eval_rel((f - 1) as nat, s, op, env, s1, v) && apply_rel(
            (f - 1) as nat,
            s1,
            v,
            args,
            env,
            t,
            r,
        );
    assert(s1 == s && v == op);
    assert(prim_rel((f - 2) as nat, s, Prims::Eq, args, env, t, r));
    let (s2, v1, s3, v2) = choose|s2: Snapshot, v1: u64, s3: Snapshot, v2: u64|
        reached(s2, v1) && reached(s3, v2) && two_evals((f - 2) as nat, s, args, env, s2, v1, s3, v2)
            && t == s3 && r == (if s3.heap[v1] == s3.heap[v2] { s.tru } else { s.nil });
    assert(reached(s2, v1) && reached(s3, v2));
}

} // verus!
