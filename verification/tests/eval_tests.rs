use tinylisp::data::{Data, DataImpl, Lisp, LispContext};
use tinylisp::parser::Parser;
use tinylisp::prims::Prims;
use tinylisp::tokenizer::Tokenizer;

fn run(lisp: &mut Lisp, src: &str) -> Data {
    let mut parser = Parser::new(Tokenizer::new(src));
    let code = parser.eval(lisp.get_context_mut());
    lisp.eval(code)
}

fn number_of(lisp: &mut Lisp, d: Data) -> Option<isize> {
    match lisp.get_context_mut().get_impl(d) {
        Some(DataImpl::Number(n)) => Some(n),
        _ => None,
    }
}

fn is_err(lisp: &mut Lisp, d: Data) -> bool {
    let err = lisp.get_context_mut().get_err();
    d == err
}

#[test]
fn adds_numbers() {
    let mut lisp = Lisp::new();
    let r = run(&mut lisp, "(+ 1 2)");
    assert_eq!(number_of(&mut lisp, r), Some(3));
}

#[test]
fn arithmetic_primitives() {
    let mut lisp = Lisp::new();
    let r = run(&mut lisp, "(- 10 4)");
    assert_eq!(number_of(&mut lisp, r), Some(6));
    let r = run(&mut lisp, "(* 6 7)");
    assert_eq!(number_of(&mut lisp, r), Some(42));
    let r = run(&mut lisp, "(/ 7 2)");
    assert_eq!(number_of(&mut lisp, r), Some(3));
    let r = run(&mut lisp, "(mod 7 3)");
    assert_eq!(number_of(&mut lisp, r), Some(1));
    let r = run(&mut lisp, "(+ (* 2 3) (- 10 1))");
    assert_eq!(number_of(&mut lisp, r), Some(15));
}

#[test]
fn division_by_zero_is_err() {
    let mut lisp = Lisp::new();
    let r = run(&mut lisp, "(/ 1 0)");
    assert!(is_err(&mut lisp, r));
    let r = run(&mut lisp, "(mod 1 0)");
    assert!(is_err(&mut lisp, r));
}

#[test]
fn overflow_is_err() {
    let mut lisp = Lisp::new();
    let big = isize::MAX.to_string();
    let r = run(&mut lisp, &format!("(+ {} 1)", big));
    assert!(is_err(&mut lisp, r));
}

#[test]
fn arithmetic_on_non_numbers_is_err() {
    let mut lisp = Lisp::new();
    let r = run(&mut lisp, "(+ (quote a) 1)");
    assert!(is_err(&mut lisp, r));
}

#[test]
fn numbers_evaluate_to_themselves() {
    let mut lisp = Lisp::new();
    let mut parser = Parser::new(Tokenizer::new("17"));
    let code = parser.eval(lisp.get_context_mut());
    let r = lisp.eval(code);
    assert_eq!(r, code);
}

#[test]
fn define_then_lookup() {
    let mut lisp = Lisp::new();
    run(&mut lisp, "(define x 5)");
    let r = run(&mut lisp, "x");
    assert_eq!(number_of(&mut lisp, r), Some(5));
    run(&mut lisp, "(define x 8)");
    let r = run(&mut lisp, "(+ x 1)");
    assert_eq!(number_of(&mut lisp, r), Some(9));
}

#[test]
fn unbound_name_is_err() {
    let mut lisp = Lisp::new();
    let r = run(&mut lisp, "undefined-name");
    assert!(is_err(&mut lisp, r));
}

#[test]
fn define_answers_the_name() {
    let mut lisp = Lisp::new();
    let r = run(&mut lisp, "(define y 3)");
    match lisp.get_context_mut().get_impl(r) {
        Some(DataImpl::Atomic(s)) => assert_eq!(s, "y"),
        _ => panic!("expected the atom y"),
    }
}

#[test]
fn lambda_application() {
    let mut lisp = Lisp::new();
    let r = run(&mut lisp, "((lambda (x) (* x x)) 7)");
    assert_eq!(number_of(&mut lisp, r), Some(49));
    run(&mut lisp, "(define add (lambda (a b) (+ a b)))");
    let r = run(&mut lisp, "(add 4 5)");
    assert_eq!(number_of(&mut lisp, r), Some(9));
}

#[test]
fn recursion_through_the_global_environment() {
    let mut lisp = Lisp::new();
    run(
        &mut lisp,
        "(define fact (lambda (n) (if (eq? n 0) 1 (* n (fact (- n 1))))))",
    );
    let r = run(&mut lisp, "(fact 5)");
    assert_eq!(number_of(&mut lisp, r), Some(120));
}

#[test]
fn if_and_eq() {
    let mut lisp = Lisp::new();
    let r = run(&mut lisp, "(if (eq? 1 1) 10 20)");
    assert_eq!(number_of(&mut lisp, r), Some(10));
    let r = run(&mut lisp, "(if (eq? 1 2) 10 20)");
    assert_eq!(number_of(&mut lisp, r), Some(20));
}

#[test]
fn eq_answers_tru_or_nil() {
    let mut lisp = Lisp::new();
    let r = run(&mut lisp, "(eq? 3 3)");
    assert_eq!(r, lisp.get_context_mut().get_tru());
    let r = run(&mut lisp, "(eq? 3 4)");
    assert_eq!(r, lisp.get_context_mut().nil());
}

#[test]
fn quote_returns_its_argument() {
    let mut lisp = Lisp::new();
    let r = run(&mut lisp, "(quote abc)");
    match lisp.get_context_mut().get_impl(r) {
        Some(DataImpl::Atomic(s)) => assert_eq!(s, "abc"),
        _ => panic!("expected an atom"),
    }
}

#[test]
fn quote_mark_reads_an_atom_quote_that_is_unbound() {
    // `' x` reads as `(quote x)` with a new atom `quote`, not the primitive,
    // so its head looks up to nothing and the form evaluates to `err`.
    let mut lisp = Lisp::new();
    let r = run(&mut lisp, "' (1 2)");
    assert!(is_err(&mut lisp, r));
}

#[test]
fn list_builds_a_list_of_values() {
    let mut lisp = Lisp::new();
    let r = run(&mut lisp, "(list (+ 1 1) 3)");
    let ctx = lisp.get_context_mut();
    let a = ctx.car(r);
    let rest = ctx.cdr(r);
    let b = ctx.car(rest);
    let end = ctx.cdr(rest);
    assert!(matches!(ctx.get_impl(a), Some(DataImpl::Number(2))));
    assert!(matches!(ctx.get_impl(b), Some(DataImpl::Number(3))));
    assert_eq!(end, ctx.nil());
}

#[test]
fn car_of_a_quoted_list_is_its_first_element() {
    let mut lisp = Lisp::new();
    let r = run(&mut lisp, "(car (quote (1 2)))");
    assert_eq!(number_of(&mut lisp, r), Some(1));
}

#[test]
fn cdr_of_a_quoted_list_is_the_rest() {
    let mut lisp = Lisp::new();
    let r = run(&mut lisp, "(cdr (quote (1 2)))");
    let ctx = lisp.get_context_mut();
    let second = ctx.car(r);
    assert!(matches!(ctx.get_impl(second), Some(DataImpl::Number(2))));
    assert_eq!(ctx.cdr(r), ctx.nil());
}

#[test]
fn car_and_cdr_evaluate_their_argument() {
    let mut lisp = Lisp::new();
    run(&mut lisp, "(define p (quote (1 2 3)))");
    let r = run(&mut lisp, "(car (cdr p))");
    assert_eq!(number_of(&mut lisp, r), Some(2));
    let r = run(&mut lisp, "(car 5)");
    assert!(is_err(&mut lisp, r));
    let r = run(&mut lisp, "(cdr 5)");
    assert!(is_err(&mut lisp, r));
}

#[test]
fn cons_builds_a_pair_of_the_values() {
    let mut lisp = Lisp::new();
    let r = run(&mut lisp, "(cons (+ 1 2) (quote (4)))");
    let ctx = lisp.get_context_mut();
    let a = ctx.car(r);
    let rest = ctx.cdr(r);
    let b = ctx.car(rest);
    assert!(matches!(ctx.get_impl(a), Some(DataImpl::Number(3))));
    assert!(matches!(ctx.get_impl(b), Some(DataImpl::Number(4))));
    assert_eq!(ctx.cdr(rest), ctx.nil());
    let r = run(&mut lisp, "(car (cons 1 2))");
    assert_eq!(number_of(&mut lisp, r), Some(1));
    let r = run(&mut lisp, "(cdr (cons 1 2))");
    assert_eq!(number_of(&mut lisp, r), Some(2));
}

#[test]
fn blink_is_err() {
    let mut lisp = Lisp::new();
    let r = run(&mut lisp, "(blink 1)");
    assert!(is_err(&mut lisp, r));
}

#[test]
fn eval_primitive() {
    let mut lisp = Lisp::new();
    let r = run(&mut lisp, "(eval + 2 3)");
    assert_eq!(number_of(&mut lisp, r), Some(5));
}

#[test]
fn applying_a_non_function_is_err() {
    let mut lisp = Lisp::new();
    let r = run(&mut lisp, "(1 2)");
    assert!(is_err(&mut lisp, r));
}

#[test]
fn context_cells() {
    let mut ctx = LispContext::new();
    let one = ctx.number(1);
    let two = ctx.number(2);
    let p = ctx.cons(one, two);
    assert_eq!(ctx.car(p), one);
    assert_eq!(ctx.cdr(p), two);
    assert_eq!(ctx.car(one), ctx.err());
    assert_eq!(ctx.cdr(one), ctx.get_err());
    assert!(ctx.not(ctx.nil()));
    assert!(!ctx.not(one));
    let add = ctx.prim("+").unwrap();
    assert!(matches!(ctx.get_impl(add), Some(DataImpl::Prim(Prims::Add))));
    assert!(ctx.prim("nothing").is_none());
    let a = ctx.atom("abc");
    assert!(matches!(ctx.get_impl(a), Some(DataImpl::Atomic(ref s)) if s == "abc"));
}

#[test]
fn pair_and_evlist() {
    let mut ctx = LispContext::new();
    let name = ctx.atom("v");
    let val = ctx.number(9);
    let genv = ctx.get_env();
    let env = ctx.pair(name, val, genv);
    let probe = ctx.atom("v");
    let r = ctx.eval(probe, env);
    assert!(matches!(ctx.get_impl(r), Some(DataImpl::Number(9))));
    let nil = ctx.nil();
    let list = ctx.cons(probe, nil);
    let vals = ctx.evlist(list, env);
    let first = ctx.car(vals);
    assert!(matches!(ctx.get_impl(first), Some(DataImpl::Number(9))));
    // The list's `nil` tail is an atom, so it is looked up too, and is unbound.
    assert_eq!(ctx.cdr(vals), ctx.err());
}

#[test]
fn closure_over_local_environment() {
    let mut ctx = LispContext::new();
    let x = ctx.atom("x");
    let nil = ctx.nil();
    let params = ctx.cons(x, nil);
    let body = ctx.atom("x");
    let genv = ctx.get_env();
    let c = ctx.closure(params, body, genv);
    assert!(matches!(ctx.get_impl(c), Some(DataImpl::Closure(_, _))));
    assert_eq!(ctx.cdr(c), nil);
    let head = ctx.car(c);
    assert_eq!(ctx.car(head), params);
    assert_eq!(ctx.cdr(head), body);
    let other = ctx.pair(x, nil, genv);
    let c2 = ctx.closure(params, body, other);
    assert_eq!(ctx.cdr(c2), other);
}

#[test]
fn set_env_replaces_global_environment() {
    let mut ctx = LispContext::new();
    let name = ctx.atom("z");
    let val = ctx.number(4);
    let genv = ctx.get_env();
    let env = ctx.pair(name, val, genv);
    ctx.set_env(env);
    assert_eq!(ctx.get_env(), env);
}

#[test]
fn prim_eval_directly() {
    let mut ctx = LispContext::new();
    let one = ctx.number(1);
    let two = ctx.number(2);
    let nil = ctx.nil();
    let rest = ctx.cons(two, nil);
    let args = ctx.cons(one, rest);
    let env = ctx.get_env();
    let r = Prims::Add.eval(&mut ctx, args, env);
    assert!(matches!(ctx.get_impl(r), Some(DataImpl::Number(3))));
    let q = Prims::Quote.eval(&mut ctx, args, env);
    assert_eq!(q, one);
}
