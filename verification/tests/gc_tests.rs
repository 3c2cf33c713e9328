use tinylisp::data::{Data, DataImpl, Lisp};
use tinylisp::parser::Parser;
use tinylisp::tokenizer::Tokenizer;

fn run(lisp: &mut Lisp, src: &str) -> Data {
    let mut parser = Parser::new(Tokenizer::new(src));
    let code = parser.eval(lisp.get_context_mut());
    lisp.eval(code)
}

#[test]
fn fresh_interpreter_has_four_cells_all_kept() {
    let mut lisp = Lisp::new();
    let (before, after) = lisp.get_context_mut().garbage_collection();
    assert_eq!(before, 4);
    assert_eq!(after, 4);
}

#[test]
fn collection_drops_temporaries_and_keeps_definitions() {
    let mut lisp = Lisp::new();
    run(&mut lisp, "(define x (+ 20 22))");
    run(&mut lisp, "(* 3 3)");
    let (before, after) = lisp.get_context_mut().garbage_collection();
    assert!(after < before);
    let r = run(&mut lisp, "x");
    assert!(matches!(
        lisp.get_context_mut().get_impl(r),
        Some(DataImpl::Number(42))
    ));
}

#[test]
fn collecting_twice_changes_nothing_more() {
    let mut lisp = Lisp::new();
    run(&mut lisp, "(define f (lambda (n) (+ n 1)))");
    run(&mut lisp, "(f 1)");
    let (_, after) = lisp.get_context_mut().garbage_collection();
    let (before2, after2) = lisp.get_context_mut().garbage_collection();
    assert_eq!(after, before2);
    assert_eq!(before2, after2);
    let r = run(&mut lisp, "(f 41)");
    assert!(matches!(
        lisp.get_context_mut().get_impl(r),
        Some(DataImpl::Number(42))
    ));
}

#[test]
fn dropped_cells_are_gone() {
    let mut lisp = Lisp::new();
    let tmp = run(&mut lisp, "(+ 1 1)");
    lisp.get_context_mut().garbage_collection();
    assert!(lisp.get_context_mut().get_impl(tmp).is_none());
}
