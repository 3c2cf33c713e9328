//! The line editor of the serial console: characters typed one at a time
//! build a line, with backspace, until a newline hands the line over.
use crate::text::push_char;
use vstd::prelude::*;

verus! {

/// Wraps `String::pop`: removes and answers the last character, if any.
#[verifier::external_body]
fn pop_char(s: &mut String) -> (r: Option<char>)
    ensures
        match r {
            Some(c) => old(s)@.len() > 0 && c == old(s)@.last() && final(s)@ == old(s)@.drop_last(),
            None => old(s)@.len() == 0 && final(s)@ == old(s)@,
        },
{
    s.pop()
}

/// Whether a character erases the last one (backspace or delete).
pub open spec fn is_erase(c: char) -> bool {
    c == '\x08' || c == '\x7f'
}

/// Whether a character ends the line.
pub open spec fn is_newline(c: char) -> bool {
    c == '\n' || c == '\r'
}

/// One keystroke on the line `buf`: the line after it, the finished line it
/// hands over (if any), and what to echo back (if anything).
pub open spec fn key_step(buf: Seq<char>, c: char) -> (Seq<char>, Option<Seq<char>>, Option<Seq<char>>) {
    if is_erase(c) {
        if buf.len() > 0 {
            (buf.drop_last(), None, Some("\x08 \x08"@))
        } else {
            (buf, None, None)
        }
    } else if is_newline(c) {
        (Seq::empty(), Some(buf), Some("\r\n"@))
    } else {
        (buf.push(c), None, Some(seq![c]))
    }
}

/// The view of an optional string.
pub open spec fn opt_text(s: Option<String>) -> Option<Seq<char>> {
    match s {
        Some(t) => Some(t@),
        None => None,
    }
}

/// The line being typed.
pub struct StateMachine {
    buffer: String,
}

impl View for StateMachine {
    type V = Seq<char>;

    closed spec fn view(&self) -> Seq<char> {
        self.buffer@
    }
}

impl StateMachine {
    /// An empty line.
    pub fn new() -> (m: StateMachine)
        ensures
            m@ == Seq::<char>::empty(),
    {
        StateMachine { buffer: String::new() }
    }

    /// Takes one keystroke (see `key_step`): answers the finished line, if
    /// any, and the text to echo, if any.
    pub fn next(&mut self, c: char) -> (r: (Option<String>, Option<String>))
        ensures
            (final(self)@, opt_text(r.0), opt_text(r.1)) == key_step(old(self)@, c),
    {
        if c == '\x08' || c == '\x7f' {
            let echo = match pop_char(&mut self.buffer) {
                Some(_) => Some("\x08 \x08".to_string()),
                None => None,
            };
            (None, echo)
        } else if c == '\n' || c == '\r' {
            let k = self.buffer.clone();
            self.buffer = String::new();
            (Some(k), Some("\r\n".to_string()))
        } else {
            push_char(&mut self.buffer, c);
            let mut echo = String::new();
            push_char(&mut echo, c);
            (None, Some(echo))
        }
    }
}

} // verus!
