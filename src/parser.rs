use vstd::prelude::*;
use vstd::string::{StrSliceExecFns, StringExecFns};
use crate::lexer::{lex, token_views, tokenize, Token, TokenKind};
use crate::expression::{Expression, Number, Operator};

verus! {

/// The tokens kept for parsing: all but the bad ones.
pub open spec fn without_bad(ts: Seq<(TokenKind, Seq<char>)>) -> Seq<(TokenKind, Seq<char>)>
    decreases ts.len(),
{
    if ts.len() == 0 {
        ts
    } else if ts.last().0 == TokenKind::BadToken {
        without_bad(ts.drop_last())
    } else {
        without_bad(ts.drop_last()).push(ts.last())
    }
}

pub open spec fn is_literal_kind(k: TokenKind) -> bool {
    k is Integer || k is Decimal
}

/// The literal that a number token stands for.
pub open spec fn literal_of(t: Token) -> Expression {
    match t.kind {
        TokenKind::Integer(v) => Expression::Literal(Number::Integer(v)),
        _ => Expression::Literal(Number::Decimal(t.text)),
    }
}

pub open spec fn multiplicative(k: TokenKind) -> Option<Operator> {
    match k {
        TokenKind::Asterisk => Some(Operator::Multiply),
        TokenKind::Slash => Some(Operator::Divide),
        _ => None,
    }
}

pub open spec fn additive(k: TokenKind) -> Option<Operator> {
    match k {
        TokenKind::Plus => Some(Operator::Add),
        TokenKind::Minus => Some(Operator::Subtract),
        _ => None,
    }
}

/// A parse from position `pos`: the tree and the position after it, or the
/// position of the token where a literal was expected and not found.
pub type ParseResult = Result<(Expression, int), int>;

/// factor := Integer | Decimal
pub open spec fn factor(toks: Seq<Token>, pos: int) -> ParseResult {
    if 0 <= pos < toks.len() && is_literal_kind(toks[pos].kind) {
        Ok((literal_of(toks[pos]), pos + 1))
    } else {
        Err(pos)
    }
}

/// The rest of a term after its first factors, folded to the left onto `left`.
pub open spec fn term_rest(toks: Seq<Token>, left: Expression, pos: int) -> ParseResult
    decreases toks.len() - pos,
{
    if 0 <= pos < toks.len() && multiplicative(toks[pos].kind) is Some {
        match factor(toks, pos + 1) {
            Ok((right, _)) => term_rest(
                toks,
                Expression::Binary(
                    Box::new(left),
                    multiplicative(toks[pos].kind)->Some_0,
                    Box::new(right),
                ),
                pos + 2,
            ),
            Err(x) => Err(x),
        }
    } else {
        Ok((left, pos))
    }
}

/// term := factor (("*" | "/") factor)*
pub open spec fn term(toks: Seq<Token>, pos: int) -> ParseResult {
    match factor(toks, pos) {
        Ok((f, p)) => term_rest(toks, f, p),
        Err(x) => Err(x),
    }
}

/// The rest of an expression after its first terms, folded to the left onto `left`.
pub open spec fn sum_rest(toks: Seq<Token>, left: Expression, pos: int) -> ParseResult
    decreases toks.len() - pos,
    via sum_rest_decreases
{
    if 0 <= pos < toks.len() && additive(toks[pos].kind) is Some {
        match term(toks, pos + 1) {
            Ok((right, p)) => sum_rest(
                toks,
                Expression::Binary(Box::new(left), additive(toks[pos].kind)->Some_0, Box::new(right)),
                p,
            ),
            Err(x) => Err(x),
        }
    } else {
        Ok((left, pos))
    }
}

#[via_fn]
proof fn sum_rest_decreases(toks: Seq<Token>, left: Expression, pos: int) {
    lemma_term_advances(toks, pos + 1);
}

/// expression := term (("+" | "-") term)*
pub open spec fn expression(toks: Seq<Token>, pos: int) -> ParseResult {
    match term(toks, pos) {
        Ok((t, p)) => sum_rest(toks, t, p),
        Err(x) => Err(x),
    }
}

proof fn lemma_term_rest_advances(toks: Seq<Token>, left: Expression, pos: int)
    ensures
        term_rest(toks, left, pos) matches Ok((_, p)) ==> p >= pos,
        pos <= toks.len() ==> (term_rest(toks, left, pos) matches Ok((_, p)) ==> p <= toks.len()),
        term_rest(toks, left, pos) matches Err(x) ==> x > pos,
    decreases toks.len() - pos,
{
    if 0 <= pos < toks.len() && multiplicative(toks[pos].kind) is Some {
        if let Ok((right, _)) = factor(toks, pos + 1) {
            lemma_term_rest_advances(
                toks,
                Expression::Binary(
                    Box::new(left),
                    multiplicative(toks[pos].kind)->Some_0,
                    Box::new(right),
                ),
                pos + 2,
            );
        }
    }
}

/// A term that parses moves past at least one token.
proof fn lemma_term_advances(toks: Seq<Token>, pos: int)
    ensures
        term(toks, pos) matches Ok((_, p)) ==> pos < p <= toks.len(),
        term(toks, pos) matches Err(x) ==> x >= pos,
{
    if let Ok((f, p)) = factor(toks, pos) {
        lemma_term_rest_advances(toks, f, p);
    }
}

/// An expression cannot start with a token other than a literal: parsing
/// fails right there, so no tree is produced.
pub proof fn lemma_missing_left_operand_fails(toks: Seq<Token>, pos: int)
    requires
        0 <= pos < toks.len(),
        !is_literal_kind(toks[pos].kind),
    ensures
        expression(toks, pos) == Err::<(Expression, int), int>(pos),
{
}

/// Precedence: in `a + b * c` (or with `-` and `/`) the multiplicative
/// operator takes the two literals around it, and the result is the right
/// operand of the additive one.
pub proof fn lemma_multiplication_binds_tighter(toks: Seq<Token>)
    requires
        toks.len() == 6,
        is_literal_kind(toks[0].kind),
        additive(toks[1].kind) is Some,
        is_literal_kind(toks[2].kind),
        multiplicative(toks[3].kind) is Some,
        is_literal_kind(toks[4].kind),
        toks[5].kind == TokenKind::EndOfInput,
    ensures
        expression(toks, 0) == Ok::<(Expression, int), int>((
            Expression::Binary(
                Box::new(literal_of(toks[0])),
                additive(toks[1].kind)->Some_0,
                Box::new(
                    Expression::Binary(
                        Box::new(literal_of(toks[2])),
                        multiplicative(toks[3].kind)->Some_0,
                        Box::new(literal_of(toks[4])),
                    ),
                ),
            ),
            5,
        )),
{
    reveal_with_fuel(term_rest, 2);
    reveal_with_fuel(sum_rest, 2);
}

/// The message recorded when a literal was expected and `text` was found.
pub open spec fn diagnostic(text: Seq<char>) -> Seq<char> {
    "Expected an integer or decimal, but got a \""@ + text + "\""@
}

pub open spec fn string_views(v: Seq<String>) -> Seq<Seq<char>> {
    v.map_values(|s: String| s@)
}

/// What a parsing step did: the tokens are kept; on success the tree is
/// returned and the position moves past it; on failure nothing is returned,
/// the position rests on the offending token, and one diagnostic naming it
/// is added.
pub open spec fn step_outcome(before: Parser, after: Parser, r: Option<Expression>, res: ParseResult) -> bool {
    &&& after.tokens@ == before.tokens@
    &&& match res {
        Ok((e, p)) => {
            &&& r == Some(e)
            &&& after.position == p
            &&& after.diagnostics@ == before.diagnostics@
        },
        Err(x) => {
            &&& r is None
            &&& after.position == x
            &&& string_views(after.diagnostics@) == string_views(before.diagnostics@).push(
                diagnostic(before.tokens@[x].text@),
            )
        },
    }
}

fn multiplicative_op(k: TokenKind) -> (r: Option<Operator>)
    ensures
        r == multiplicative(k),
{
    match k {
        TokenKind::Asterisk => Some(Operator::Multiply),
        TokenKind::Slash => Some(Operator::Divide),
        _ => None,
    }
}

fn additive_op(k: TokenKind) -> (r: Option<Operator>)
    ensures
        r == additive(k),
{
    match k {
        TokenKind::Plus => Some(Operator::Add),
        TokenKind::Minus => Some(Operator::Subtract),
        _ => None,
    }
}

/// A parser over the tokens of one line. Diagnostics gather the problems met.
pub struct Parser {
    pub tokens: Vec<Token>,
    pub position: usize,
    pub diagnostics: Vec<String>,
}

impl Parser {
    /// The tokens end with the end of input, and the position is on a token.
    pub open spec fn wf(&self) -> bool {
        &&& self.tokens@.len() > 0
        &&& self.tokens@.last().kind == TokenKind::EndOfInput
        &&& self.position < self.tokens@.len()
    }

    /// Tokenizes the line and keeps every token but the bad ones.
    pub fn new(input: &str) -> (r: Parser)
        ensures
            r.wf(),
            r.position == 0,
            r.diagnostics@.len() == 0,
            token_views(r.tokens@) == without_bad(lex(input@, 0)),
    {
        let all = tokenize(input);
        let ghost all_views = token_views(all@);
        proof {
            crate::lexer::lemma_one_end_of_input_at_the_end(input@, 0);
        }
        let mut tokens: Vec<Token> = Vec::new();
        let mut i: usize = 0;
        while i < all.len()
            invariant
                i <= all@.len(),
                all_views == token_views(all@),
                all_views == lex(input@, 0),
                token_views(tokens@) == without_bad(all_views.take(i as int)),
            decreases all.len() - i,
        {
            let ghost before = tokens@;
            proof {
                assert(all_views.take(i + 1).drop_last() =~= all_views.take(i as int));
                assert(all_views.take(i + 1).last() == all@[i as int]@);
            }
            if all[i].kind != TokenKind::BadToken {
                let t = Token { kind: all[i].kind, text: all[i].text.clone() };
                tokens.push(t);
                proof {
                    assert(token_views(tokens@) =~= token_views(before).push(t@));
                }
            }
            i += 1;
        }
        proof {
            assert(all_views.take(all_views.len() as int) =~= all_views);
            let n = all_views.len() as int;
            assert(all_views.last() == all_views.take(n).last());
            assert(token_views(tokens@).last() == tokens@.last()@);
        }
        Parser { tokens, position: 0, diagnostics: Vec::new() }
    }

    /// The token `offset` places after the current one; past the end, the last one.
    fn peek(&self, offset: usize) -> (r: &Token)
        requires
            self.wf(),
        ensures
            *r == self.tokens@[if self.position + offset < self.tokens@.len() {
                self.position + offset
            } else {
                self.tokens@.len() - 1
            }],
    {
        if offset >= self.tokens.len() - self.position {
            &self.tokens[self.tokens.len() - 1]
        } else {
            &self.tokens[self.position + offset]
        }
    }

    fn current(&self) -> (r: &Token)
        requires
            self.wf(),
        ensures
            *r == self.tokens@[self.position as int],
    {
        self.peek(0)
    }

    /// Whether the current token is of the given kind.
    pub fn match_token(&self, kind: TokenKind) -> (r: bool)
        requires
            self.wf(),
        ensures
            r == (self.tokens@[self.position as int].kind == kind),
    {
        self.current().kind == kind
    }

    fn advance(&mut self, offset: usize)
        requires
            old(self).wf(),
            old(self).position + offset < old(self).tokens@.len(),
        ensures
            final(self).wf(),
            final(self).tokens == old(self).tokens,
            final(self).diagnostics == old(self).diagnostics,
            final(self).position == old(self).position + offset,
    {
        let n = self.tokens.len();
        self.position = self.position + offset;
    }

    /// Parses one literal at the current position and moves past it; else
    /// records a diagnostic naming the token found.
    pub fn parse_expression(&mut self) -> (r: Option<Expression>)
        requires
            old(self).wf(),
        ensures
            final(self).wf(),
            step_outcome(*old(self), *final(self), r, factor(old(self).tokens@, old(self).position as int)),
    {
        let token = self.current();
        match token.kind {
            TokenKind::Integer(v) => {
                self.advance(1);
                Some(Expression::Literal(Number::Integer(v)))
            },
            TokenKind::Decimal => {
                let text = token.text.clone();
                self.advance(1);
                Some(Expression::Literal(Number::Decimal(text)))
            },
            _ => {
                let mut message = String::from_str("Expected an integer or decimal, but got a \"");
                message.append(token.text.as_str());
                message.append("\"");
                let ghost before = self.diagnostics@;
                self.diagnostics.push(message);
                proof {
                    assert(string_views(self.diagnostics@) =~= string_views(before).push(message@));
                }
                None
            },
        }
    }

    /// Parses a term: literals joined by `*` and `/`, grouped to the left.
    pub fn parse_term(&mut self) -> (r: Option<Expression>)
        requires
            old(self).wf(),
        ensures
            final(self).wf(),
            step_outcome(*old(self), *final(self), r, term(old(self).tokens@, old(self).position as int)),
    {
        let ghost toks = self.tokens@;
        let ghost goal = term(toks, self.position as int);
        let mut left = match self.parse_expression() {
            Some(e) => e,
            None => return None,
        };
        let ghost diags = self.diagnostics@;
        let mut op = multiplicative_op(self.current().kind);
        while op.is_some()
            invariant
                self.wf(),
                self.tokens@ == toks,
                toks == old(self).tokens@,
                self.diagnostics@ == diags,
                diags == old(self).diagnostics@,
                term_rest(toks, left, self.position as int) == goal,
                goal == term(old(self).tokens@, old(self).position as int),
                op == multiplicative(toks[self.position as int].kind),
            decreases toks.len() - self.position,
        {
            let o = match op {
                Some(o) => o,
                None => Operator::Add,
            };
            self.advance(1);
            match self.parse_expression() {
                Some(right) => {
                    left = Expression::Binary(Box::new(left), o, Box::new(right));
                },
                None => return None,
            }
            op = multiplicative_op(self.current().kind);
        }
        Some(left)
    }

    /// Parses the tokens from the current position as
    /// `expression := term (("+" | "-") term)*`, grouped to the left.
    /// What follows a complete expression is left unread.
    pub fn parse(&mut self) -> (r: Option<Expression>)
        requires
            old(self).wf(),
        ensures
            final(self).wf(),
            step_outcome(*old(self), *final(self), r, expression(old(self).tokens@, old(self).position as int)),
    {
        let ghost toks = self.tokens@;
        let ghost goal = expression(toks, self.position as int);
        let mut left = match self.parse_term() {
            Some(e) => e,
            None => return None,
        };
        let ghost diags = self.diagnostics@;
        let mut op = additive_op(self.current().kind);
        while op.is_some()
            invariant
                self.wf(),
                self.tokens@ == toks,
                toks == old(self).tokens@,
                self.diagnostics@ == diags,
                diags == old(self).diagnostics@,
                sum_rest(toks, left, self.position as int) == goal,
                goal == expression(old(self).tokens@, old(self).position as int),
                op == additive(toks[self.position as int].kind),
            decreases toks.len() - self.position,
        {
            let o = match op {
                Some(o) => o,
                None => Operator::Add,
            };
            let ghost p = self.position as int;
            self.advance(1);
            proof {
                lemma_term_advances(toks, p + 1);
            }
            match self.parse_term() {
                Some(right) => {
                    left = Expression::Binary(Box::new(left), o, Box::new(right));
                },
                None => return None,
            }
            op = additive_op(self.current().kind);
        }
        Some(left)
    }
}

} // verus!
