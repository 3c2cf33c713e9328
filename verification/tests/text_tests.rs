use tinylisp::data::{Data, DataImpl, Lisp, LispContext};
use tinylisp::parser::Parser;
use tinylisp::prims::Prims;
use tinylisp::tokenizer::Tokenizer;

#[test]
fn cell_text() {
    assert_eq!(DataImpl::Number(-42).to_string(), "-42");
    assert_eq!(DataImpl::Number(0).to_string(), "0");
    assert_eq!(DataImpl::Number(isize::MIN).to_string(), isize::MIN.to_string());
    assert_eq!(DataImpl::Atomic("abc".to_string()).to_string(), "abc");
    assert_eq!(DataImpl::Prim(Prims::Lambda).to_string(), "Lambda");
}

#[test]
fn pair_text_names_keys() {
    let mut ctx = LispContext::new();
    let a = ctx.number(1);
    let b = ctx.number(2);
    let text = DataImpl::Cons(a, b).to_string();
    assert!(text.starts_with("( Data("));
    assert!(text.ends_with(") )"));
    let text = DataImpl::Closure(a, b).to_string();
    assert!(text.contains(" => "));
}

#[test]
fn structure_text() {
    let mut lisp = Lisp::new();
    let mut parser = Parser::new(Tokenizer::new("(1 foo +)"));
    let code = parser.eval(lisp.get_context_mut());
    let ctx = lisp.get_context_mut();
    let text = code.debug(ctx).to_string();
    assert_eq!(
        text,
        "Cons<Number<1>, Cons<Atomic<foo>, Cons<Prim<Add>, Atomic<nil>>>>"
    );
}

#[test]
fn invalid_key_text() {
    let mut lisp = Lisp::new();
    let mut parser = Parser::new(Tokenizer::new("(+ 1 1)"));
    let code = parser.eval(lisp.get_context_mut());
    let r = lisp.eval(code);
    lisp.get_context_mut().garbage_collection();
    let ctx = lisp.get_context_mut();
    let text = r.debug(ctx).to_string();
    assert!(text.starts_with("<invalid key Data("));
}

#[test]
fn dump_is_identity() {
    let ctx = LispContext::new();
    let e = ctx.get_err();
    assert_eq!(e.dump(&ctx, "message"), e);
}

#[test]
fn key_text_has_index_and_version() {
    let mut ctx = LispContext::new();
    let a = ctx.number(1);
    let b = ctx.number(2);
    let text = DataImpl::Cons(a, b).to_string();
    let inner = text.trim_start_matches("( ").trim_end_matches(" )");
    for part in inner.split(' ') {
        let key = part.trim_start_matches("Data(").trim_end_matches(')');
        let (idx, ver) = key.split_once('v').expect("index v version");
        assert!(idx.parse::<u32>().is_ok());
        assert!(ver.parse::<u32>().is_ok());
    }
}

#[test]
fn cells_compare_by_value() {
    assert!(DataImpl::Number(3) == DataImpl::Number(3));
    assert!(DataImpl::Number(3) != DataImpl::Number(4));
    assert!(DataImpl::Atomic("a".to_string()) == DataImpl::Atomic("a".to_string()));
    assert!(DataImpl::Atomic("a".to_string()) != DataImpl::Atomic("b".to_string()));
    assert!(DataImpl::Prim(Prims::Car) != DataImpl::Number(0));
}

#[test]
fn key_text_is_index_v_odd_version() {
    let mut ctx = LispContext::new();
    let a = ctx.number(1);
    let b = ctx.number(2);
    let expect = |d: Data| format!("Data({}v{})", d.id & 0xffff_ffff, (d.id >> 32) | 1);
    let text = DataImpl::Cons(a, b).to_string();
    assert_eq!(text, format!("( {} {} )", expect(a), expect(b)));
    let even = Data { id: (6u64 << 32) | 5 };
    assert_eq!(DataImpl::Closure(even, even).to_string(), "( Data(5v7) => Data(5v7) )");
    let null = Data { id: 0xffff_ffff };
    assert_eq!(DataImpl::Cons(null, even).to_string(), "( Data(null) Data(5v7) )");
}
