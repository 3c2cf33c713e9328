//! The primitive operations of the interpreter.
use crate::data::{Data, DataImpl, LispContext, Node};
use crate::semantics::{
    advances, alloc_step, arith, arith_out, car_of, cdr_of, eval_rel, lemma_grows_trans, list_rel, reached,
    max_fuel, pair_step, prim_rel, two_evals, Snapshot,
};
use vstd::prelude::*;

verus! {

/// The built-in operations.
#[derive(Clone, Copy, PartialEq, Eq, Structural, Debug)]
pub enum Prims {
    Add,
    Sub,
    Mul,
    Div,
    Define,
    Lambda,
    Quote,
    If,
    Eq,
    Mod,
    Eval,
    Blink,
    Car,
    Cdr,
    Cons,
    List,
}

/// The primitive that a symbol names, if any.
pub open spec fn prim_of(s: Seq<char>) -> Option<Prims> {
    if s == "+"@ {
        Some(Prims::Add)
    } else if s == "-"@ {
        Some(Prims::Sub)
    } else if s == "*"@ {
        Some(Prims::Mul)
    } else if s == "/"@ {
        Some(Prims::Div)
    } else if s == "mod"@ {
        Some(Prims::Mod)
    } else if s == "if"@ {
        Some(Prims::If)
    } else if s == "eq?"@ {
        Some(Prims::Eq)
    } else if s == "define"@ {
        Some(Prims::Define)
    } else if s == "lambda"@ {
        Some(Prims::Lambda)
    } else if s == "quote"@ {
        Some(Prims::Quote)
    } else if s == "eval"@ {
        Some(Prims::Eval)
    } else if s == "blink"@ {
        Some(Prims::Blink)
    } else if s == "car"@ {
        Some(Prims::Car)
    } else if s == "cdr"@ {
        Some(Prims::Cdr)
    } else if s == "cons"@ {
        Some(Prims::Cons)
    } else if s == "list"@ {
        Some(Prims::List)
    } else {
        None
    }
}

/// The name that `Debug` gives a primitive.
pub open spec fn prim_name(p: Prims) -> Seq<char> {
    match p {
        Prims::Add => "Add"@,
        Prims::Sub => "Sub"@,
        Prims::Mul => "Mul"@,
        Prims::Div => "Div"@,
        Prims::Define => "Define"@,
        Prims::Lambda => "Lambda"@,
        Prims::Quote => "Quote"@,
        Prims::If => "If"@,
        Prims::Eq => "Eq"@,
        Prims::Mod => "Mod"@,
        Prims::Eval => "Eval"@,
        Prims::Blink => "Blink"@,
        Prims::Car => "Car"@,
        Prims::Cdr => "Cdr"@,
        Prims::Cons => "Cons"@,
        Prims::List => "List"@,
    }
}

/// Wraps `<str as PartialEq>::eq`: two string slices are equal when they hold
/// the same characters.
#[verifier::external_body]
pub(crate) fn str_equal(a: &str, b: &str) -> (r: bool)
    ensures
        r == (a@ == b@),
{
    a == b
}

/// The primitive that a symbol names, if any.
pub fn to_prim(s: &str) -> (r: Option<Prims>)
    ensures
        r == prim_of(s@),
{
    if str_equal(s, "+") {
        Some(Prims::Add)
    } else if str_equal(s, "-") {
        Some(Prims::Sub)
    } else if str_equal(s, "*") {
        Some(Prims::Mul)
    } else if str_equal(s, "/") {
        Some(Prims::Div)
    } else if str_equal(s, "mod") {
        Some(Prims::Mod)
    } else if str_equal(s, "if") {
        Some(Prims::If)
    } else if str_equal(s, "eq?") {
        Some(Prims::Eq)
    } else if str_equal(s, "define") {
        Some(Prims::Define)
    } else if str_equal(s, "lambda") {
        Some(Prims::Lambda)
    } else if str_equal(s, "quote") {
        Some(Prims::Quote)
    } else if str_equal(s, "eval") {
        Some(Prims::Eval)
    } else if str_equal(s, "blink") {
        Some(Prims::Blink)
    } else if str_equal(s, "car") {
        Some(Prims::Car)
    } else if str_equal(s, "cdr") {
        Some(Prims::Cdr)
    } else if str_equal(s, "cons") {
        Some(Prims::Cons)
    } else if str_equal(s, "list") {
        Some(Prims::List)
    } else {
        None
    }
}

impl Prims {
    /// The primitive's name, as `Debug` writes it.
    pub fn name(&self) -> (r: &'static str)
        ensures
            r@ == prim_name(*self),
    {
        match self {
            Prims::Add => "Add",
            Prims::Sub => "Sub",
            Prims::Mul => "Mul",
            Prims::Div => "Div",
            Prims::Define => "Define",
            Prims::Lambda => "Lambda",
            Prims::Quote => "Quote",
            Prims::If => "If",
            Prims::Eq => "Eq",
            Prims::Mod => "Mod",
            Prims::Eval => "Eval",
            Prims::Blink => "Blink",
            Prims::Car => "Car",
            Prims::Cdr => "Cdr",
            Prims::Cons => "Cons",
            Prims::List => "List",
        }
    }

    /// Runs the primitive on the unevaluated arguments `a` in `env`.
    pub fn eval(&self, context: &mut LispContext, a: Data, env: Data) -> (r: Data)
        requires
            old(context).wf(),
            old(context)@.holds(a.id),
            old(context)@.holds(env.id),
        ensures
            advances(old(context)@, final(context)@, r.id),
            prim_rel(max_fuel(), old(context)@, *self, a.id, env.id, final(context)@, r.id),
    {
        self.eval_fuel(context, a, env, u64::MAX)
    }

    /// Runs the primitive with depth bound `fuel`.
    pub(crate) fn eval_fuel(&self, context: &mut LispContext, a: Data, env: Data, fuel: u64) -> (r: Data)
        requires
            old(context).wf(),
            old(context)@.holds(a.id),
            old(context)@.holds(env.id),
        ensures
            advances(old(context)@, final(context)@, r.id),
            prim_rel(fuel as nat, old(context)@, *self, a.id, env.id, final(context)@, r.id),
        decreases fuel, 2nat,
    {
        if fuel == 0 {
            return context.err();
        }
        match self {
            Prims::Add => Self::add(context, a, env, fuel),
            Prims::Sub => Self::sub(context, a, env, fuel),
            Prims::Mul => Self::mul(context, a, env, fuel),
            Prims::Div => Self::div(context, a, env, fuel),
            Prims::Define => Self::define(context, a, env, fuel),
            Prims::Lambda => Self::lambda(context, a, env),
            Prims::Quote => Self::quote(context, a, env),
            Prims::If => Self::if_(context, a, env, fuel),
            Prims::Eq => Self::equ(context, a, env, fuel),
            Prims::Mod => Self::modular(context, a, env, fuel),
            Prims::Eval => Self::ev(context, a, env, fuel),
            Prims::Blink => Self::blink(context, a, env),
            Prims::Car => Self::car(context, a, env, fuel),
            Prims::Cdr => Self::cdr(context, a, env, fuel),
            Prims::Cons => Self::cons(context, a, env, fuel),
            Prims::List => Self::list(context, a, env, fuel - 1),
        }
    }

    /// Evaluates the two operands of `a` and combines them with the
    /// arithmetic primitive `op`.
    fn arithmetic(op: Prims, context: &mut LispContext, a: Data, env: Data, fuel: u64) -> (r: Data)
        requires
            fuel > 0,
            old(context).wf(),
            old(context)@.holds(a.id),
            old(context)@.holds(env.id),
        ensures
            advances(old(context)@, final(context)@, r.id),
            exists|s1: Snapshot, v1: u64, s2: Snapshot, v2: u64|
                #![trigger reached(s1, v1), reached(s2, v2)]
                reached(s1, v1) && reached(s2, v2) && two_evals(fuel as nat, old(context)@, a.id, env.id, s1, v1, s2, v2)
                    && arith_out(op, s2, v1, v2, final(context)@, r.id),
        decreases fuel, 0nat,
    {
        let ghost s0 = context@;
        let op1 = context.car(a);
        let rest = context.cdr(a);
        let op2 = context.car(rest);
        let val1 = context.eval_fuel(op1, env, fuel - 1);
        let ghost s1 = context@;
        let val2 = context.eval_fuel(op2, env, fuel - 1);
        let ghost s2 = context@;
        proof {
            lemma_grows_trans(s0, s1, s2);
        }
        assert(reached(s1, val1.id) && reached(s2, val2.id));
        assert(two_evals(fuel as nat, s0, a.id, env.id, s1, val1.id, s2, val2.id));
        let n1 = match context.cell(val1) {
            DataImpl::Number(n) => Some(*n),
            _ => None,
        };
        let n2 = match context.cell(val2) {
            DataImpl::Number(n) => Some(*n),
            _ => None,
        };
        match (n1, n2) {
            (Some(num1), Some(num2)) => {
                let res = match op {
                    Prims::Add => num1.checked_add(num2),
                    Prims::Sub => num1.checked_sub(num2),
                    Prims::Mul => num1.checked_mul(num2),
                    Prims::Div => num1.checked_div(num2),
                    _ => num1.checked_rem(num2),
                };
                assert(res == arith(op, num1, num2));
                match res {
                    Some(z) => {
                        let r = context.alloc_cell(DataImpl::Number(z));
                        proof {
                            lemma_grows_trans(s0, s2, context@);
                        }
                        r
                    },
                    None => context.err(),
                }
            },
            _ => context.err(),
        }
    }

    /// `(+ x y)`.
    fn add(context: &mut LispContext, a: Data, env: Data, fuel: u64) -> (r: Data)
        requires
            fuel > 0,
            old(context).wf(),
            old(context)@.holds(a.id),
            old(context)@.holds(env.id),
        ensures
            advances(old(context)@, final(context)@, r.id),
            prim_rel(fuel as nat, old(context)@, Prims::Add, a.id, env.id, final(context)@, r.id),
        decreases fuel, 1nat,
    {
        Self::arithmetic(Prims::Add, context, a, env, fuel)
    }

    /// `(- x y)`.
    fn sub(context: &mut LispContext, a: Data, env: Data, fuel: u64) -> (r: Data)
        requires
            fuel > 0,
            old(context).wf(),
            old(context)@.holds(a.id),
            old(context)@.holds(env.id),
        ensures
            advances(old(context)@, final(context)@, r.id),
            prim_rel(fuel as nat, old(context)@, Prims::Sub, a.id, env.id, final(context)@, r.id),
        decreases fuel, 1nat,
    {
        Self::arithmetic(Prims::Sub, context, a, env, fuel)
    }

    /// `(* x y)`.
    fn mul(context: &mut LispContext, a: Data, env: Data, fuel: u64) -> (r: Data)
        requires
            fuel > 0,
            old(context).wf(),
            old(context)@.holds(a.id),
            old(context)@.holds(env.id),
        ensures
            advances(old(context)@, final(context)@, r.id),
            prim_rel(fuel as nat, old(context)@, Prims::Mul, a.id, env.id, final(context)@, r.id),
        decreases fuel, 1nat,
    {
        Self::arithmetic(Prims::Mul, context, a, env, fuel)
    }

    /// `(/ x y)`, rounding toward zero.
    fn div(context: &mut LispContext, a: Data, env: Data, fuel: u64) -> (r: Data)
        requires
            fuel > 0,
            old(context).wf(),
            old(context)@.holds(a.id),
            old(context)@.holds(env.id),
        ensures
            advances(old(context)@, final(context)@, r.id),
            prim_rel(fuel as nat, old(context)@, Prims::Div, a.id, env.id, final(context)@, r.id),
        decreases fuel, 1nat,
    {
        Self::arithmetic(Prims::Div, context, a, env, fuel)
    }

    /// `(mod x y)`: the remainder of `/`, with the sign of `x`.
    fn modular(context: &mut LispContext, a: Data, env: Data, fuel: u64) -> (r: Data)
        requires
            fuel > 0,
            old(context).wf(),
            old(context)@.holds(a.id),
            old(context)@.holds(env.id),
        ensures
            advances(old(context)@, final(context)@, r.id),
            prim_rel(fuel as nat, old(context)@, Prims::Mod, a.id, env.id, final(context)@, r.id),
        decreases fuel, 1nat,
    {
        Self::arithmetic(Prims::Mod, context, a, env, fuel)
    }

    /// `(define name expr)`: binds `name` to the value of `expr` in front of
    /// the global environment, and answers `name`.
    fn define(context: &mut LispContext, a: Data, env: Data, fuel: u64) -> (r: Data)
        requires
            fuel > 0,
            old(context).wf(),
            old(context)@.holds(a.id),
            old(context)@.holds(env.id),
        ensures
            advances(old(context)@, final(context)@, r.id),
            prim_rel(fuel as nat, old(context)@, Prims::Define, a.id, env.id, final(context)@, r.id),
        decreases fuel, 1nat,
    {
        let ghost s0 = context@;
        let op1 = context.car(a);
        let rest = context.cdr(a);
        let op2 = context.car(rest);
        let value = context.eval_fuel(op2, env, fuel - 1);
        let ghost s1 = context@;
        let global_env = context.get_env();
        let result = context.make_pair(op1, value, global_env);
        let ghost s2 = context@;
        context.set_env(result);
        proof {
            lemma_grows_trans(s0, s1, s2);
        }
        assert(reached(s1, value.id) && reached(s2, result.id));
        assert(eval_rel((fuel - 1) as nat, s0, op2.id, env.id, s1, value.id));
        assert(pair_step(s1, op1.id, value.id, s1.env, s2, result.id));
        op1
    }

    /// `(lambda params body)`: a closure.
    fn lambda(context: &mut LispContext, a: Data, env: Data) -> (r: Data)
        requires
            old(context).wf(),
            old(context)@.holds(a.id),
            old(context)@.holds(env.id),
        ensures
            advances(old(context)@, final(context)@, r.id),
            forall|f: nat| f > 0 ==> prim_rel(f, old(context)@, Prims::Lambda, a.id, env.id, final(context)@, r.id),
    {
        let op1 = context.car(a);
        let rest = context.cdr(a);
        let op2 = context.car(rest);
        context.make_closure(op1, op2, env)
    }

    /// `(quote x)`: `x` itself.
    fn quote(context: &mut LispContext, a: Data, _env: Data) -> (r: Data)
        requires
            old(context).wf(),
            old(context)@.holds(a.id),
        ensures
            advances(old(context)@, final(context)@, r.id),
            final(context)@ == old(context)@,
            r.id == car_of(old(context)@, a.id),
    {
        context.car(a)
    }

    /// `(eq? x y)`: `tru` when the two values are equal cells, else `nil`.
    fn equ(context: &mut LispContext, a: Data, env: Data, fuel: u64) -> (r: Data)
        requires
            fuel > 0,
            old(context).wf(),
            old(context)@.holds(a.id),
            old(context)@.holds(env.id),
        ensures
            advances(old(context)@, final(context)@, r.id),
            prim_rel(fuel as nat, old(context)@, Prims::Eq, a.id, env.id, final(context)@, r.id),
        decreases fuel, 1nat,
    {
        let ghost s0 = context@;
        let tru = context.get_tru();
        let op1 = context.car(a);
        let rest = context.cdr(a);
        let op2 = context.car(rest);
        let op1 = context.eval_fuel(op1, env, fuel - 1);
        let ghost s1 = context@;
        let op2 = context.eval_fuel(op2, env, fuel - 1);
        let ghost s2 = context@;
        proof {
            lemma_grows_trans(s0, s1, s2);
        }
        assert(reached(s1, op1.id) && reached(s2, op2.id));
        assert(two_evals(fuel as nat, s0, a.id, env.id, s1, op1.id, s2, op2.id));
        if context.cell(op1).eq(context.cell(op2)) {
            tru
        } else {
            context.nil()
        }
    }

    /// `(if c x y)`: `x` evaluated when `c`'s value is not `nil`, else `y`.
    fn if_(context: &mut LispContext, a: Data, env: Data, fuel: u64) -> (r: Data)
        requires
            fuel > 0,
            old(context).wf(),
            old(context)@.holds(a.id),
            old(context)@.holds(env.id),
        ensures
            advances(old(context)@, final(context)@, r.id),
            prim_rel(fuel as nat, old(context)@, Prims::If, a.id, env.id, final(context)@, r.id),
        decreases fuel, 1nat,
    {
        let ghost s0 = context@;
        let cond = context.car(a);
        let rest = context.cdr(a);
        let op1 = context.car(rest);
        let rest2 = context.cdr(rest);
        let op2 = context.car(rest2);
        let cond = context.eval_fuel(cond, env, fuel - 1);
        let ghost s1 = context@;
        assert(reached(s1, cond.id));
        assert(eval_rel((fuel - 1) as nat, s0, car_of(s0, a.id), env.id, s1, cond.id));
        let r = if !context.not(cond) {
            context.eval_fuel(op1, env, fuel - 1)
        } else {
            context.eval_fuel(op2, env, fuel - 1)
        };
        proof {
            lemma_grows_trans(s0, s1, context@);
        }
        r
    }

    /// `(eval . a)`: the argument list evaluated as an expression.
    fn ev(context: &mut LispContext, a: Data, env: Data, fuel: u64) -> (r: Data)
        requires
            fuel > 0,
            old(context).wf(),
            old(context)@.holds(a.id),
            old(context)@.holds(env.id),
        ensures
            advances(old(context)@, final(context)@, r.id),
            prim_rel(fuel as nat, old(context)@, Prims::Eval, a.id, env.id, final(context)@, r.id),
        decreases fuel, 1nat,
    {
        context.eval_fuel(a, env, fuel - 1)
    }

    /// `(blink ...)`: not supported; answers `err`.
    fn blink(context: &mut LispContext, _a: Data, _env: Data) -> (r: Data)
        requires
            old(context).wf(),
        ensures
            final(context)@ == old(context)@,
            r.id == old(context)@.err,
    {
        context.err()
    }

    /// `(car x)`: the first field of `x`'s value; `err` when that value is
    /// neither a pair nor a closure.
    fn car(context: &mut LispContext, a: Data, env: Data, fuel: u64) -> (r: Data)
        requires
            fuel > 0,
            old(context).wf(),
            old(context)@.holds(a.id),
            old(context)@.holds(env.id),
        ensures
            advances(old(context)@, final(context)@, r.id),
            prim_rel(fuel as nat, old(context)@, Prims::Car, a.id, env.id, final(context)@, r.id),
        decreases fuel, 1nat,
    {
        let ghost s0 = context@;
        let op1 = context.car(a);
        let eval_res = context.eval_fuel(op1, env, fuel - 1);
        let ghost s1 = context@;
        assert(reached(s1, eval_res.id));
        assert(eval_rel((fuel - 1) as nat, s0, car_of(s0, a.id), env.id, s1, eval_res.id));
        context.car(eval_res)
    }

    /// `(cdr x)`: the second field of `x`'s value; `err` when that value is
    /// neither a pair nor a closure.
    fn cdr(context: &mut LispContext, a: Data, env: Data, fuel: u64) -> (r: Data)
        requires
            fuel > 0,
            old(context).wf(),
            old(context)@.holds(a.id),
            old(context)@.holds(env.id),
        ensures
            advances(old(context)@, final(context)@, r.id),
            prim_rel(fuel as nat, old(context)@, Prims::Cdr, a.id, env.id, final(context)@, r.id),
        decreases fuel, 1nat,
    {
        let ghost s0 = context@;
        let op1 = context.car(a);
        let eval_res = context.eval_fuel(op1, env, fuel - 1);
        let ghost s1 = context@;
        assert(reached(s1, eval_res.id));
        assert(eval_rel((fuel - 1) as nat, s0, car_of(s0, a.id), env.id, s1, eval_res.id));
        context.cdr(eval_res)
    }

    /// `(cons x y)`: a new pair of the two values.
    fn cons(context: &mut LispContext, a: Data, env: Data, fuel: u64) -> (r: Data)
        requires
            fuel > 0,
            old(context).wf(),
            old(context)@.holds(a.id),
            old(context)@.holds(env.id),
        ensures
            advances(old(context)@, final(context)@, r.id),
            prim_rel(fuel as nat, old(context)@, Prims::Cons, a.id, env.id, final(context)@, r.id),
        decreases fuel, 1nat,
    {
        let ghost s0 = context@;
        let op1 = context.car(a);
        let rest = context.cdr(a);
        let op2 = context.car(rest);
        let v1 = context.eval_fuel(op1, env, fuel - 1);
        let ghost s1 = context@;
        let v2 = context.eval_fuel(op2, env, fuel - 1);
        let ghost s2 = context@;
        let r = context.alloc_cell(DataImpl::Cons(v1, v2));
        proof {
            lemma_grows_trans(s0, s1, s2);
            lemma_grows_trans(s0, s2, context@);
        }
        assert(reached(s1, v1.id) && reached(s2, v2.id));
        assert(two_evals(fuel as nat, s0, a.id, env.id, s1, v1.id, s2, v2.id));
        r
    }

    /// `(list e1 e2 ...)`: the elements' values in a new list.
    fn list(context: &mut LispContext, a: Data, env: Data, fuel: u64) -> (r: Data)
        requires
            old(context).wf(),
            old(context)@.holds(a.id),
            old(context)@.holds(env.id),
        ensures
            advances(old(context)@, final(context)@, r.id),
            list_rel(fuel as nat, old(context)@, a.id, env.id, final(context)@, r.id),
        decreases fuel, 0nat,
    {
        if fuel == 0 {
            return context.err();
        }
        if a == context.nil() {
            a
        } else {
            let ghost s0 = context@;
            let op1 = context.car(a);
            let eval_result = context.eval_fuel(op1, env, fuel - 1);
            let ghost s1 = context@;
            let rest = context.cdr(a);
            let cdr = Self::list(context, rest, env, fuel - 1);
            let ghost s2 = context@;
            let r = context.alloc_cell(DataImpl::Cons(eval_result, cdr));
            proof {
                lemma_grows_trans(s0, s1, s2);
                lemma_grows_trans(s0, s2, context@);
            }
            assert(reached(s1, eval_result.id) && reached(s2, cdr.id));
            assert(eval_rel((fuel - 1) as nat, s0, car_of(s0, a.id), env.id, s1, eval_result.id));
            assert(list_rel((fuel - 1) as nat, s1, cdr_of(s1, a.id), env.id, s2, cdr.id));
            assert(alloc_step(s2, Node::Cons(eval_result.id, cdr.id), context@, r.id));
            r
        }
    }
}

} // verus!
