use tinylisp::data::{DataImpl, LispContext};
use tinylisp::parser::Parser;
use tinylisp::prims::Prims;
use tinylisp::tokenizer::Tokenizer;

#[test]
fn parses_nested_lists() {
    let mut ctx = LispContext::new();
    let mut p = Parser::new(Tokenizer::new("(a (1))"));
    let d = p.eval(&mut ctx);
    let a = ctx.car(d);
    assert!(matches!(ctx.get_impl(a), Some(DataImpl::Atomic(ref s)) if s == "a"));
    let rest = ctx.cdr(d);
    let inner = ctx.car(rest);
    let one = ctx.car(inner);
    assert!(matches!(ctx.get_impl(one), Some(DataImpl::Number(1))));
    assert_eq!(ctx.cdr(inner), ctx.nil());
    assert_eq!(ctx.cdr(rest), ctx.nil());
}

#[test]
fn empty_list_is_nil() {
    let mut ctx = LispContext::new();
    let mut p = Parser::new(Tokenizer::new("()"));
    assert_eq!(p.eval(&mut ctx), ctx.nil());
}

#[test]
fn symbols_of_primitives_become_primitives() {
    let mut ctx = LispContext::new();
    let mut p = Parser::new(Tokenizer::new("lambda"));
    let d = p.eval(&mut ctx);
    assert!(matches!(ctx.get_impl(d), Some(DataImpl::Prim(Prims::Lambda))));
}

#[test]
fn quote_mark_reads_as_quote_form() {
    let mut ctx = LispContext::new();
    let mut p = Parser::new(Tokenizer::new("' x"));
    let d = p.eval(&mut ctx);
    let head = ctx.car(d);
    assert!(matches!(ctx.get_impl(head), Some(DataImpl::Atomic(ref s)) if s == "quote"));
    let rest = ctx.cdr(d);
    let x = ctx.car(rest);
    assert!(matches!(ctx.get_impl(x), Some(DataImpl::Atomic(ref s)) if s == "x"));
}

#[test]
fn dotted_tail() {
    let mut ctx = LispContext::new();
    let mut p = Parser::new(Tokenizer::new("(1 . 2)"));
    let d = p.eval(&mut ctx);
    let two = ctx.cdr(d);
    assert!(matches!(ctx.get_impl(two), Some(DataImpl::Number(2))));
}

#[test]
fn missing_input_is_err() {
    let mut ctx = LispContext::new();
    let mut p = Parser::new(Tokenizer::new(""));
    assert_eq!(p.eval(&mut ctx), ctx.err());
    let mut p = Parser::new(Tokenizer::new("(1 2"));
    assert_eq!(p.eval(&mut ctx), ctx.err());
    let mut p = Parser::new(Tokenizer::new(")"));
    assert_eq!(p.eval(&mut ctx), ctx.err());
}

#[test]
fn error_token_reads_as_err() {
    let mut ctx = LispContext::new();
    let mut p = Parser::new(Tokenizer::new("12ab"));
    assert_eq!(p.eval(&mut ctx), ctx.err());
}

#[test]
fn reads_expressions_in_turn() {
    let mut ctx = LispContext::new();
    let mut p = Parser::new(Tokenizer::new("1 2"));
    let a = p.eval(&mut ctx);
    let b = p.eval(&mut ctx);
    assert!(matches!(ctx.get_impl(a), Some(DataImpl::Number(1))));
    assert!(matches!(ctx.get_impl(b), Some(DataImpl::Number(2))));
}

#[test]
fn reads_expressions_one_after_another_across_lines() {
    let mut ctx = LispContext::new();
    let mut p = Parser::new(Tokenizer::new("(a\n 1)\n2"));
    assert!(!p.at_end());
    assert_eq!(p.position(), 0);
    let d = p.eval(&mut ctx);
    assert_eq!(p.position(), 4);
    let one = ctx.car(ctx.cdr(d));
    assert!(matches!(ctx.get_impl(one), Some(DataImpl::Number(1))));
    let two = p.eval(&mut ctx);
    assert!(matches!(ctx.get_impl(two), Some(DataImpl::Number(2))));
    assert!(p.at_end());
    assert_eq!(p.eval(&mut ctx), ctx.err());
}
