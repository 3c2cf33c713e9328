use std::rc::Rc;
use tinylisp::data::{Data, LispContext};
use tinylisp::env::Env;
use tinylisp::line_editor::StateMachine;
use tinylisp::prims::{to_prim, Prims};

#[test]
fn env_get_after_set() {
    let ctx = LispContext::new();
    let a: Data = ctx.nil();
    let b: Data = ctx.get_tru();
    let mut env = Env::new();
    assert!(env.get(&"x".to_string()).is_none());
    env.set("x".to_string(), Rc::new(a));
    env.set("y".to_string(), Rc::new(b));
    assert_eq!(**env.get(&"x".to_string()).unwrap(), a);
    env.set("x".to_string(), Rc::new(b));
    assert_eq!(**env.get(&"x".to_string()).unwrap(), b);
    assert_eq!(**env.get(&"y".to_string()).unwrap(), b);
    assert!(env.get(&"z".to_string()).is_none());
}

#[test]
fn to_prim_names() {
    assert_eq!(to_prim("+"), Some(Prims::Add));
    assert_eq!(to_prim("-"), Some(Prims::Sub));
    assert_eq!(to_prim("*"), Some(Prims::Mul));
    assert_eq!(to_prim("/"), Some(Prims::Div));
    assert_eq!(to_prim("mod"), Some(Prims::Mod));
    assert_eq!(to_prim("if"), Some(Prims::If));
    assert_eq!(to_prim("eq?"), Some(Prims::Eq));
    assert_eq!(to_prim("define"), Some(Prims::Define));
    assert_eq!(to_prim("lambda"), Some(Prims::Lambda));
    assert_eq!(to_prim("quote"), Some(Prims::Quote));
    assert_eq!(to_prim("eval"), Some(Prims::Eval));
    assert_eq!(to_prim("blink"), Some(Prims::Blink));
    assert_eq!(to_prim("car"), Some(Prims::Car));
    assert_eq!(to_prim("cdr"), Some(Prims::Cdr));
    assert_eq!(to_prim("list"), Some(Prims::List));
    assert_eq!(to_prim("cons"), Some(Prims::Cons));
    assert_eq!(to_prim("cadr"), None);
    assert_eq!(to_prim(""), None);
}

#[test]
fn line_editor_builds_and_hands_over_lines() {
    let mut m = StateMachine::new();
    let (line, echo) = m.next('a');
    assert!(line.is_none());
    assert_eq!(echo.as_deref(), Some("a"));
    m.next('b');
    m.next('c');
    let (line, echo) = m.next('\x08');
    assert!(line.is_none());
    assert_eq!(echo.as_deref(), Some("\x08 \x08"));
    let (line, echo) = m.next('\r');
    assert_eq!(line.as_deref(), Some("ab"));
    assert_eq!(echo.as_deref(), Some("\r\n"));
    let (line, _) = m.next('\n');
    assert_eq!(line.as_deref(), Some(""));
}

#[test]
fn erase_on_empty_line_echoes_nothing() {
    let mut m = StateMachine::new();
    let (line, echo) = m.next('\x7f');
    assert!(line.is_none());
    assert!(echo.is_none());
}

#[test]
fn line_editor_over_a_stream_of_keys() {
    let mut m = StateMachine::new();
    let mut lines = Vec::new();
    for c in "ab\x08c\nx\x7f\x7fyz\r\n".chars() {
        let (line, echo) = m.next(c);
        if c == '\n' || c == '\r' {
            assert_eq!(echo.as_deref(), Some("\r\n"));
            lines.push(line.expect("a newline hands over the line"));
        } else {
            assert!(line.is_none());
        }
    }
    assert_eq!(lines, vec!["ac".to_string(), "yz".to_string(), String::new()]);
    for l in &lines {
        assert!(!l.contains(['\n', '\r', '\x08', '\x7f']));
    }
}
