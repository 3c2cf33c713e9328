//! Reading tokens into cells of the heap.
use crate::data::{Data, DataImpl, LispContext, Node};
use crate::prims::{prim_of, str_equal, to_prim};
use crate::semantics::{alloc_step, grows, lemma_grows_trans, reached, Snapshot};
use crate::tokenizer::{Token, TokenView, Tokenizer, tokens_from};
use vstd::prelude::*;

verus! {

/// The key of a parsed value, if any.
pub open spec fn opt_id(r: Option<Data>) -> Option<u64> {
    match r {
        Some(d) => Some(d.id),
        None => None,
    }
}

/// Marks an intermediate state, answer and position of a parse.
pub open spec fn parsed(s: Snapshot, r: Option<u64>, q: int) -> bool {
    true
}

/// Reading one token on its own: an atom becomes the primitive it names or
/// a new atom, a number a new number cell; a closing bracket reads as
/// nothing. The token is used up.
pub open spec fn atomic_rel(toks: Seq<TokenView>, p: int, s: Snapshot, t: Snapshot, r: Option<u64>, q: int) -> bool {
    &&& q == p + 1
    &&& match toks[p] {
        TokenView::Atomic(sym) => r is Some && match prim_of(sym) {
            Some(c) => alloc_step(s, Node::Prim(c), t, r.unwrap()),
            None => alloc_step(s, Node::Atom(sym), t, r.unwrap()),
        },
        TokenView::Number(n) => r is Some && alloc_step(s, Node::Number(n), t, r.unwrap()),
        _ => t == s && r is None,
    }
}

/// Reading the expression that starts at token `p`: `' x` reads as
/// `(quote x)`, `(` starts a list, an `Error` token reads as `err` without
/// being used up, any other token is read on its own. `r` is `None` when the
/// tokens end too soon or a `)` comes where an expression should.
pub open spec fn parse_rel(toks: Seq<TokenView>, p: int, s: Snapshot, t: Snapshot, r: Option<u64>, q: int) -> bool
    decreases toks.len() - p, 2nat,
{
    if p < 0 || p >= toks.len() {
        t == s && r is None && q == p
    } else {
        match toks[p] {
            TokenView::Atomic(sym) => if sym == "'"@ {
                quote_rel(toks, p, s, t, r, q)
            } else {
                atomic_rel(toks, p, s, t, r, q)
            },
            TokenView::LBrace => list_parse_rel(toks, p + 1, s, t, r, q),
            TokenView::Error => t == s && r == Some(s.err) && q == p,
            _ => atomic_rel(toks, p, s, t, r, q),
        }
    }
}

/// Reading `' x` at token `p`: a new atom `quote`, then `x`, then the list
/// `(quote x)`.
pub open spec fn quote_rel(toks: Seq<TokenView>, p: int, s: Snapshot, t: Snapshot, r: Option<u64>, q: int) -> bool
    decreases toks.len() - p, 1nat,
{
    0 <= p < toks.len() && exists|s1: Snapshot, k: u64, s2: Snapshot, c: Option<u64>, q1: int|
        #![trigger reached(s1, k), parsed(s2, c, q1)]
        reached(s1, k) && parsed(s2, c, q1) && alloc_step(s, Node::Atom("quote"@), s1, k)
            && parse_rel(toks, p + 1, s1, s2, c, q1) && q == q1 && match c {
            None => t == s2 && r is None,
            Some(x) => r is Some && exists|s3: Snapshot, y: u64|
                #![trigger reached(s3, y)]
                reached(s3, y) && alloc_step(s2, Node::Cons(x, s.nil), s3, y) && alloc_step(
                    s3,
                    Node::Cons(k, y),
                    t,
                    r.unwrap(),
                ),
        }
}

/// Reading the rest of a list from token `p`: `)` ends it (`nil`), `. x`
/// reads `x` as the tail (the closing bracket is left), an `Error` token
/// reads as `err`, anything else is an element followed by the rest.
pub open spec fn list_parse_rel(toks: Seq<TokenView>, p: int, s: Snapshot, t: Snapshot, r: Option<u64>, q: int) -> bool
    decreases toks.len() - p, 3nat,
{
    if p < 0 || p >= toks.len() {
        t == s && r is None && q == p
    } else {
        match toks[p] {
            TokenView::RBrace => t == s && r == Some(s.nil) && q == p + 1,
            TokenView::Error => t == s && r == Some(s.err) && q == p,
            _ => if toks[p] == TokenView::Atomic("."@) {
                parse_rel(toks, p + 1, s, t, r, q)
            } else {
                exists|s1: Snapshot, c: Option<u64>, q1: int|
                    #![trigger parsed(s1, c, q1)]
                    parsed(s1, c, q1) && parse_rel(toks, p, s, s1, c, q1) && match c {
                        None => t == s1 && r is None && q == q1,
                        Some(x) => p < q1 <= toks.len() && exists|s2: Snapshot, d: Option<u64>, q2: int|
                            #![trigger parsed(s2, d, q2)]
                            parsed(s2, d, q2) && list_parse_rel(toks, q1, s1, s2, d, q2) && q == q2
                                && match d {
                                None => t == s2 && r is None,
                                Some(y) => r is Some && alloc_step(s2, Node::Cons(x, y), t, r.unwrap()),
                            },
                    }
            },
        }
    }
}

/// A reader of expressions over the tokens of a text.
pub struct Parser {
    tokens: Vec<Token>,
    pos: usize,
}

impl View for Parser {
    type V = (Seq<TokenView>, int);

    closed spec fn view(&self) -> (Seq<TokenView>, int) {
        (self.tokens@.map_values(|t: Token| t@), self.pos as int)
    }
}

impl Parser {
    /// Whether the position is within the tokens.
    pub closed spec fn wf(&self) -> bool {
        self.pos <= self.tokens@.len()
    }

    /// A reader over all the tokens that `tokens` has left.
    pub fn new(tokens: Tokenizer) -> (r: Parser)
        requires
            tokens.wf(),
        ensures
            r.wf(),
            r@ == (tokens_from(tokens@.0, tokens@.1), 0int),
    {
        let mut tokens = tokens;
        let v = tokens.collect_tokens();
        Parser { tokens: v, pos: 0 }
    }

    /// How many tokens have been read.
    pub fn position(&self) -> (r: usize)
        ensures
            r == self@.1,
    {
        self.pos
    }

    /// Whether every token has been read.
    pub fn at_end(&self) -> (r: bool)
        ensures
            r == (self@.1 >= self@.0.len()),
    {
        self.pos >= self.tokens.len()
    }

    /// Reads the next expression into `context`; `err` when none can be read.
    pub fn eval(&mut self, context: &mut LispContext) -> (r: Data)
        requires
            old(self).wf(),
            old(context).wf(),
        ensures
            final(self).wf(),
            final(self)@.0 == old(self)@.0,
            final(context).wf(),
            grows(old(context)@, final(context)@),
            final(context)@.env == old(context)@.env,
            final(context)@.holds(r.id),
            parse_rel(old(self)@.0, old(self)@.1, old(context)@, final(context)@, Some(r.id), final(self)@.1)
                || (parse_rel(old(self)@.0, old(self)@.1, old(context)@, final(context)@, None, final(self)@.1)
                && r.id == old(context)@.err),
    {
        let ghost toks = self.tokens@.map_values(|t: Token| t@);
        let ghost p0 = self.pos as int;
        let ghost c0 = context@;
        let res = Self::parse(context, &self.tokens, &mut self.pos);
        assert(parse_rel(toks, p0, c0, context@, opt_id(res), self.pos as int));
        let r = match res {
            Some(d) => d,
            None => context.get_err(),
        };
        r
    }
}


impl Parser {
    /// Reads the expression at `*pos`.
    fn parse(context: &mut LispContext, tokens: &Vec<Token>, pos: &mut usize) -> (r: Option<Data>)
        requires
            old(context).wf(),
            *old(pos) <= tokens@.len(),
        ensures
            final(context).wf(),
            grows(old(context)@, final(context)@),
            final(context)@.env == old(context)@.env,
            r matches Some(d) ==> final(context)@.holds(d.id),
            *old(pos) <= *final(pos) <= tokens@.len(),
            parse_rel(tokens@.map_values(|t: Token| t@), *old(pos) as int, old(context)@, final(context)@, opt_id(r), *final(pos) as int),
            *old(pos) < tokens@.len() && !(tokens@[*old(pos) as int]@ is Error) ==> *old(pos) < *final(pos),
        decreases tokens@.len() - *old(pos), 2nat,
    {
        let ghost toks = tokens@.map_values(|t: Token| t@);
        if *pos >= tokens.len() {
            return None;
        }
        assert(toks[*pos as int] == tokens@[*pos as int]@);
        match &tokens[*pos] {
            Token::Atomic(sym) => {
                if str_equal(sym.as_str(), "'") {
                    Self::quote(context, tokens, pos)
                } else {
                    Self::atomic(context, tokens, pos)
                }
            },
            Token::LBrace => {
                *pos = *pos + 1;
                Self::list(context, tokens, pos)
            },
            Token::Error => Some(context.err()),
            _ => Self::atomic(context, tokens, pos),
        }
    }

    /// Reads `' x` at `*pos` as `(quote x)`.
    fn quote(context: &mut LispContext, tokens: &Vec<Token>, pos: &mut usize) -> (r: Option<Data>)
        requires
            old(context).wf(),
            *old(pos) < tokens@.len(),
        ensures
            final(context).wf(),
            grows(old(context)@, final(context)@),
            final(context)@.env == old(context)@.env,
            r matches Some(d) ==> final(context)@.holds(d.id),
            *old(pos) < *final(pos) <= tokens@.len(),
            quote_rel(tokens@.map_values(|t: Token| t@), *old(pos) as int, old(context)@, final(context)@, opt_id(r), *final(pos) as int),
        decreases tokens@.len() - *old(pos), 1nat,
    {
        broadcast use vstd::string::group_string_axioms;
        let ghost s0 = context@;
        let _n = tokens.len();
        *pos = *pos + 1;
        let atom = context.alloc_cell(DataImpl::Atomic("quote".to_string()));
        let ghost s1 = context@;
        let parse = Self::parse(context, tokens, pos);
        let ghost s2 = context@;
        let ghost q1 = *pos as int;
        proof {
            lemma_grows_trans(s0, s1, s2);
        }
        assert(reached(s1, atom.id) && parsed(s2, opt_id(parse), q1));
        match parse {
            None => None,
            Some(parse) => {
                let nil = context.nil();
                let cons = context.alloc_cell(DataImpl::Cons(parse, nil));
                let ghost s3 = context@;
                let r = context.alloc_cell(DataImpl::Cons(atom, cons));
                proof {
                    lemma_grows_trans(s0, s2, s3);
                    lemma_grows_trans(s0, s3, context@);
                }
                assert(reached(s3, cons.id));
                Some(r)
            },
        }
    }

    /// Reads the rest of a list at `*pos`.
    fn list(context: &mut LispContext, tokens: &Vec<Token>, pos: &mut usize) -> (r: Option<Data>)
        requires
            old(context).wf(),
            *old(pos) <= tokens@.len(),
        ensures
            final(context).wf(),
            grows(old(context)@, final(context)@),
            final(context)@.env == old(context)@.env,
            r matches Some(d) ==> final(context)@.holds(d.id),
            *old(pos) <= *final(pos) <= tokens@.len(),
            list_parse_rel(tokens@.map_values(|t: Token| t@), *old(pos) as int, old(context)@, final(context)@, opt_id(r), *final(pos) as int),
        decreases tokens@.len() - *old(pos), 3nat,
    {
        let ghost toks = tokens@.map_values(|t: Token| t@);
        let ghost p = *pos as int;
        if *pos >= tokens.len() {
            return None;
        }
        assert(toks[p] == tokens@[p]@);
        let is_dot = match &tokens[*pos] {
            Token::Atomic(sym) => str_equal(sym.as_str(), "."),
            _ => false,
        };
        assert(is_dot == (toks[p] == TokenView::Atomic("."@)));
        match &tokens[*pos] {
            Token::RBrace => {
                *pos = *pos + 1;
                Some(context.nil())
            },
            Token::Error => Some(context.err()),
            _ => {
                if is_dot {
                    *pos = *pos + 1;
                    Self::parse(context, tokens, pos)
                } else {
                    let ghost s0 = context@;
                    let car = Self::parse(context, tokens, pos);
                    let ghost s1 = context@;
                    let ghost q1 = *pos as int;
                    assert(parsed(s1, opt_id(car), q1));
                    match car {
                        None => None,
                        Some(car) => {
                            let cdr = Self::list(context, tokens, pos);
                            let ghost s2 = context@;
                            let ghost q2 = *pos as int;
                            proof {
                                lemma_grows_trans(s0, s1, s2);
                            }
                            assert(parsed(s2, opt_id(cdr), q2));
                            match cdr {
                                None => None,
                                Some(cdr) => {
                                    let r = context.alloc_cell(DataImpl::Cons(car, cdr));
                                    proof {
                                        lemma_grows_trans(s0, s2, context@);
                                    }
                                    Some(r)
                                },
                            }
                        },
                    }
                }
            },
        }
    }

    /// Reads the token at `*pos` on its own.
    fn atomic(context: &mut LispContext, tokens: &Vec<Token>, pos: &mut usize) -> (r: Option<Data>)
        requires
            old(context).wf(),
            *old(pos) < tokens@.len(),
        ensures
            final(context).wf(),
            grows(old(context)@, final(context)@),
            final(context)@.env == old(context)@.env,
            r matches Some(d) ==> final(context)@.holds(d.id),
            *final(pos) == *old(pos) + 1,
            atomic_rel(tokens@.map_values(|t: Token| t@), *old(pos) as int, old(context)@, final(context)@, opt_id(r), *final(pos) as int),
    {
        let ghost toks = tokens@.map_values(|t: Token| t@);
        let p = *pos;
        let _n = tokens.len();
        assert(toks[p as int] == tokens@[p as int]@);
        *pos = p + 1;
        match &tokens[p] {
            Token::Atomic(sym) => match to_prim(sym.as_str()) {
                Some(c) => Some(context.alloc_cell(DataImpl::Prim(c))),
                None => Some(context.alloc_cell(DataImpl::Atomic(sym.clone()))),
            },
            Token::Number(num) => Some(context.alloc_cell(DataImpl::Number(*num))),
            _ => None,
        }
    }
}

} // verus!
