use vstd::prelude::*;
use vstd::string::{StrSliceExecFns, StringExecFns};

verus! {

/// The kind of a lexical token. A decimal literal carries its digits as the
/// token's text; an integer literal carries its value.
#[derive(Debug, Clone, Copy, PartialEq, Eq, Structural)]
pub enum TokenKind {
    Integer(i64),
    Decimal,
    Plus,
    Minus,
    Asterisk,
    Slash,
    BadToken,
    EndOfInput,
}

/// A token: its kind and the exact characters it was read from.
#[derive(Debug, PartialEq)]
pub struct Token {
    pub kind: TokenKind,
    pub text: String,
}

impl View for Token {
    type V = (TokenKind, Seq<char>);

    open spec fn view(&self) -> (TokenKind, Seq<char>) {
        (self.kind, self.text@)
    }
}

pub open spec fn is_whitespace_char(c: char) -> bool {
    c == ' ' || c == '\t' || c == '\n' || c == '\r' || c == '\x0C'
}

pub open spec fn is_digit_char(c: char) -> bool {
    '0' <= c && c <= '9'
}

pub open spec fn digit_value(c: char) -> int {
    c as int - '0' as int
}

/// The first position at or after `p` that does not hold whitespace.
pub open spec fn skip_whitespace(s: Seq<char>, p: int) -> int
    decreases s.len() - p,
{
    if 0 <= p < s.len() && is_whitespace_char(s[p]) {
        skip_whitespace(s, p + 1)
    } else {
        p
    }
}

/// Where a numeral whose digits start at `i` ends: digits, and at most one point.
pub open spec fn numeral_end(s: Seq<char>, i: int, seen_point: bool) -> int
    decreases s.len() - i,
{
    if 0 <= i < s.len() && is_digit_char(s[i]) {
        numeral_end(s, i + 1, seen_point)
    } else if 0 <= i < s.len() && s[i] == '.' && !seen_point {
        numeral_end(s, i + 1, true)
    } else {
        i
    }
}

pub open spec fn has_point(t: Seq<char>) -> bool {
    exists|k: int| 0 <= k < t.len() && t[k] == '.'
}

/// The value of a string of decimal digits.
pub open spec fn digits_value(d: Seq<char>) -> int
    decreases d.len(),
{
    if d.len() == 0 {
        0
    } else {
        digits_value(d.drop_last()) * 10 + digit_value(d.last())
    }
}

/// The value of an integer numeral with an optional leading minus sign.
pub open spec fn numeral_value(t: Seq<char>) -> int {
    if t.len() > 0 && t[0] == '-' {
        -digits_value(t.drop_first())
    } else {
        digits_value(t)
    }
}

/// The kind of a numeral's token: a decimal if it holds a point, else an
/// integer when its value fits in 64 bits, else a bad token.
pub open spec fn numeral_kind(t: Seq<char>) -> TokenKind {
    if has_point(t) {
        TokenKind::Decimal
    } else if i64::MIN <= numeral_value(t) <= i64::MAX {
        TokenKind::Integer(numeral_value(t) as i64)
    } else {
        TokenKind::BadToken
    }
}

/// A numeral starts at a digit, or at a minus sign right before a digit.
pub open spec fn starts_numeral(s: Seq<char>, q: int) -> bool {
    is_digit_char(s[q]) || (s[q] == '-' && q + 1 < s.len() && is_digit_char(s[q + 1]))
}

pub open spec fn single_kind(c: char) -> TokenKind {
    if c == '+' {
        TokenKind::Plus
    } else if c == '-' {
        TokenKind::Minus
    } else if c == '*' {
        TokenKind::Asterisk
    } else if c == '/' {
        TokenKind::Slash
    } else {
        TokenKind::BadToken
    }
}

/// The token read from position `p` of `s`: its kind, and the positions where
/// its text starts and ends. Whitespace before it is skipped.
pub open spec fn scan(s: Seq<char>, p: int) -> (TokenKind, int, int) {
    let q = skip_whitespace(s, p);
    if q >= s.len() {
        (TokenKind::EndOfInput, q, q)
    } else if starts_numeral(s, q) {
        let e = numeral_end(s, if s[q] == '-' { q + 1 } else { q }, false);
        (numeral_kind(s.subrange(q, e)), q, e)
    } else {
        (single_kind(s[q]), q, q + 1)
    }
}

/// The token at position `p`, as its kind and text.
pub open spec fn token_at(s: Seq<char>, p: int) -> (TokenKind, Seq<char>) {
    let (k, q, e) = scan(s, p);
    (k, s.subrange(q, e))
}

/// The tokens read from position `p` on, up to and including the end of input.
pub open spec fn lex(s: Seq<char>, p: int) -> Seq<(TokenKind, Seq<char>)>
    decreases s.len() - p,
    when 0 <= p <= s.len()
    via lex_decreases
{
    let (k, q, e) = scan(s, p);
    if k == TokenKind::EndOfInput {
        seq![token_at(s, p)]
    } else {
        seq![token_at(s, p)].add(lex(s, e))
    }
}

#[via_fn]
proof fn lex_decreases(s: Seq<char>, p: int) {
    lemma_scan_bounds(s, p);
}

pub proof fn lemma_skip_whitespace_bounds(s: Seq<char>, p: int)
    requires
        0 <= p <= s.len(),
    ensures
        p <= skip_whitespace(s, p) <= s.len(),
        skip_whitespace(s, p) < s.len() ==> !is_whitespace_char(s[skip_whitespace(s, p)]),
    decreases s.len() - p,
{
    if p < s.len() && is_whitespace_char(s[p]) {
        lemma_skip_whitespace_bounds(s, p + 1);
    }
}

proof fn lemma_numeral_end_bounds(s: Seq<char>, i: int, seen_point: bool)
    requires
        0 <= i <= s.len(),
    ensures
        i <= numeral_end(s, i, seen_point) <= s.len(),
    decreases s.len() - i,
{
    if i < s.len() && is_digit_char(s[i]) {
        lemma_numeral_end_bounds(s, i + 1, seen_point);
    } else if i < s.len() && s[i] == '.' && !seen_point {
        lemma_numeral_end_bounds(s, i + 1, true);
    }
}

/// A token ends no earlier than it starts, and only the end of input is empty.
pub proof fn lemma_scan_bounds(s: Seq<char>, p: int)
    requires
        0 <= p <= s.len(),
    ensures
        p <= scan(s, p).1 <= scan(s, p).2 <= s.len(),
        scan(s, p).0 != TokenKind::EndOfInput ==> scan(s, p).1 < scan(s, p).2,
        scan(s, p).0 == TokenKind::EndOfInput ==> scan(s, p).2 == s.len(),
{
    lemma_skip_whitespace_bounds(s, p);
    let q = skip_whitespace(s, p);
    if q < s.len() && starts_numeral(s, q) {
        if s[q] == '-' {
            lemma_numeral_end_bounds(s, q + 2, false);
        } else {
            lemma_numeral_end_bounds(s, q + 1, false);
        }
    }
}


fn is_whitespace(c: &char) -> (r: bool)
    ensures
        r == is_whitespace_char(*c),
{
    *c == ' ' || *c == '\t' || *c == '\n' || *c == '\r' || *c == '\x0C'
}

fn is_digit(c: char) -> (r: bool)
    ensures
        r == is_digit_char(c),
{
    '0' <= c && c <= '9'
}

/// Whether `c` continues a numeral that has seen a point or not.
fn continues_numeral(c: char, seen_point: bool) -> (r: bool)
    ensures
        r == (is_digit_char(c) || (c == '.' && !seen_point)),
{
    is_digit(c) || (c == '.' && !seen_point)
}

proof fn lemma_digits_value_prefix(d: Seq<char>, j: int)
    requires
        0 <= j <= d.len(),
        forall|k: int| 0 <= k < d.len() ==> is_digit_char(#[trigger] d[k]),
    ensures
        0 <= digits_value(d.take(j)) <= digits_value(d),
    decreases d.len(),
{
    if j < d.len() {
        let e = d.drop_last();
        assert(e.take(j) =~= d.take(j));
        lemma_digits_value_prefix(e, j);
    } else {
        assert(d.take(j) =~= d);
        if d.len() > 0 {
            lemma_digits_value_prefix(d.drop_last(), j - 1);
        }
    }
}

/// The value of the integer numeral `s[start..end]`, if it fits in 64 bits.
fn parse_integer(s: &str, start: usize, end: usize) -> (r: Option<i64>)
    requires
        start < end <= s@.len(),
        s@[start as int] == '-' ==> start + 1 < end,
        forall|k: int|
            start <= k < end && !(k == start && s@[k] == '-') ==> is_digit_char(#[trigger] s@[k]),
    ensures
        r == (if i64::MIN <= numeral_value(s@.subrange(start as int, end as int)) <= i64::MAX {
            Some(numeral_value(s@.subrange(start as int, end as int)) as i64)
        } else {
            None
        }),
{
    let negative = s.get_char(start) == '-';
    let first: usize = if negative { start + 1 } else { start };
    let ghost d = s@.subrange(first as int, end as int);
    let limit: i128 = 0x8000_0000_0000_0000;
    let mut acc: i128 = 0;
    let mut i: usize = first;
    let mut overflow = false;
    while i < end && !overflow
        invariant
            first <= i <= end <= s@.len(),
            limit == 0x8000_0000_0000_0000,
            d == s@.subrange(first as int, end as int),
            forall|k: int| 0 <= k < d.len() ==> is_digit_char(#[trigger] d[k]),
            !overflow ==> acc == digits_value(d.take(i - first)) && 0 <= acc <= limit,
            overflow ==> digits_value(d.take(i - first)) > limit,
        decreases end - i,
    {
        let c = s.get_char(i);
        proof {
            assert(d[i - first] == c);
            assert(d.take(i + 1 - first).drop_last() =~= d.take(i - first));
        }
        assert(0 <= acc * 10 <= limit * 10) by (nonlinear_arith)
            requires
                0 <= acc <= limit,
        ;
        assert(is_digit_char(c));
        let next = acc * 10 + (c as u32 - '0' as u32) as i128;
        if next > limit {
            overflow = true;
        } else {
            acc = next;
        }
        i += 1;
    }
    proof {
        lemma_digits_value_prefix(d, i - first);
        if !overflow {
            assert(d.take(i - first) =~= d);
        }
        let t = s@.subrange(start as int, end as int);
        if negative {
            assert(t.drop_first() =~= d);
        } else {
            assert(t =~= d);
        }
    }
    if overflow {
        None
    } else if negative {
        Some((-acc) as i64)
    } else if acc < limit {
        Some(acc as i64)
    } else {
        None
    }
}

/// A tokenizer over one line of input.
pub struct Lexer<'a> {
    input: &'a str,
    length: usize,
    position: usize,
}

impl<'a> Lexer<'a> {
    /// The characters being read.
    pub closed spec fn source(&self) -> Seq<char> {
        self.input@
    }

    /// The position of the next character to read.
    pub closed spec fn position(&self) -> int {
        self.position as int
    }

    pub closed spec fn wf(&self) -> bool {
        &&& self.length == self.input@.len()
        &&& self.position <= self.length
    }

    pub fn new(input: &'a str) -> (r: Self)
        ensures
            r.wf(),
            r.source() == input@,
            r.position() == 0,
    {
        Lexer { input, length: input.unicode_len(), position: 0 }
    }

    /// The character `offset` places after the current position, if any.
    fn peek(&self, offset: usize) -> (r: Option<char>)
        requires
            self.wf(),
        ensures
            r == (if self.position + offset < self.input@.len() {
                Some(self.input@[self.position + offset])
            } else {
                None::<char>
            }),
    {
        if offset >= self.length - self.position {
            None
        } else {
            Some(self.input.get_char(self.position + offset))
        }
    }

    fn current(&self) -> (r: Option<char>)
        requires
            self.wf(),
        ensures
            r == (if self.position < self.input@.len() {
                Some(self.input@[self.position as int])
            } else {
                None::<char>
            }),
    {
        self.peek(0)
    }

    /// Reads the numeral at the current position: its token and where it ends.
    fn lex_number(&self) -> (r: (Token, usize))
        requires
            self.wf(),
            self.position < self.input@.len(),
            starts_numeral(self.input@, self.position as int),
        ensures
            ({
                let (k, q, e) = scan(self.input@, self.position as int);
                &&& r.0@ == token_at(self.input@, self.position as int)
                &&& r.1 == e
            }),
    {
        let ghost s = self.input@;
        let start = self.position;
        proof {
            reveal_with_fuel(skip_whitespace, 2);
            lemma_scan_bounds(s, start as int);
        }
        let first: usize = if self.input.get_char(start) == '-' { start + 1 } else { start };
        let mut i: usize = first;
        let mut seen_point = false;
        let mut go = i < self.length && continues_numeral(self.input.get_char(i), seen_point);
        while go
            invariant
                self.wf(),
                s == self.input@,
                start <= first <= i <= s.len(),
                start < s.len(),
                s[start as int] == '-' ==> first == start + 1,
                s[start as int] != '-' ==> first == start,
                is_digit_char(s[first as int]),
                i == first ==> go,
                numeral_end(s, i as int, seen_point) == numeral_end(s, first as int, false),
                seen_point == has_point(s.subrange(start as int, i as int)),
                forall|k: int| first <= k < i ==> is_digit_char(#[trigger] s[k]) || s[k] == '.',
                go == (i < s.len() && (is_digit_char(s[i as int]) || (s[i as int] == '.'
                    && !seen_point))),
            decreases s.len() - i,
        {
            let c = self.input.get_char(i);
            proof {
                let t = s.subrange(start as int, i as int);
                let t1 = s.subrange(start as int, i + 1);
                assert(t1 =~= t.push(c));
                if c == '.' {
                    assert(t1[t.len() as int] == '.');
                } else {
                    assert(has_point(t1) ==> has_point(t)) by {
                        if has_point(t1) {
                            let k = choose|k: int| 0 <= k < t1.len() && t1[k] == '.';
                            assert(t[k] == '.');
                        }
                    }
                    assert(has_point(t) ==> has_point(t1)) by {
                        if has_point(t) {
                            let k = choose|k: int| 0 <= k < t.len() && t[k] == '.';
                            assert(t1[k] == '.');
                        }
                    }
                }
            }
            if c == '.' {
                seen_point = true;
            }
            i += 1;
            go = i < self.length && continues_numeral(self.input.get_char(i), seen_point);
        }
        proof {
            if !seen_point {
                assert forall|k: int| first <= k < i implies is_digit_char(#[trigger] s[k]) by {
                    if s[k] == '.' {
                        assert(s.subrange(start as int, i as int)[k - start] == '.');
                    }
                }
            }
        }
        let text = String::from_str(self.input.substring_char(start, i));
        let kind = if seen_point {
            TokenKind::Decimal
        } else {
            match parse_integer(self.input, start, i) {
                Some(v) => TokenKind::Integer(v),
                None => TokenKind::BadToken,
            }
        };
        (Token { kind, text }, i)
    }

    /// Moves past the whitespace at the current position.
    fn eat_whitespaces(&mut self)
        requires
            old(self).wf(),
        ensures
            final(self).wf(),
            final(self).input == old(self).input,
            final(self).position == skip_whitespace(old(self).input@, old(self).position as int),
    {
        let ghost p0 = self.position as int;
        let mut go = match self.current() {
            Some(c) => is_whitespace(&c),
            None => false,
        };
        while go
            invariant
                self.wf(),
                self.input == old(self).input,
                skip_whitespace(self.input@, self.position as int) == skip_whitespace(self.input@, p0),
                go == (self.position < self.input@.len() && is_whitespace_char(self.input@[self.position as int])),
            decreases self.length - self.position,
        {
            self.position += 1;
            go = match self.current() {
                Some(c) => is_whitespace(&c),
                None => false,
            };
        }
    }

    /// Reads the next token and moves past it. At the end of input it keeps
    /// returning an end-of-input token with empty text.
    pub fn next_tok(&mut self) -> (t: Token)
        requires
            old(self).wf(),
        ensures
            final(self).wf(),
            final(self).source() == old(self).source(),
            t@ == token_at(old(self).source(), old(self).position()),
            final(self).position() == scan(old(self).source(), old(self).position()).2,
    {
        self.eat_whitespaces();
        proof {
            lemma_skip_whitespace_bounds(self.input@, old(self).position as int);
            lemma_scan_bounds(self.input@, old(self).position as int);
        }
        let q = self.position;
        match self.current() {
            None => {
                proof {
                    assert(self.input@.subrange(q as int, q as int) =~= Seq::<char>::empty());
                }
                Token { kind: TokenKind::EndOfInput, text: String::new() }
            },
            Some(c) => {
                let numeral = is_digit(c) || (c == '-' && match self.peek(1) {
                    Some(n) => is_digit(n),
                    None => false,
                });
                if numeral {
                    proof {
                        assert(skip_whitespace(self.input@, q as int) == q);
                    }
                    let (t, e) = self.lex_number();
                    self.position = e;
                    t
                } else {
                    let kind = if c == '+' {
                        TokenKind::Plus
                    } else if c == '-' {
                        TokenKind::Minus
                    } else if c == '*' {
                        TokenKind::Asterisk
                    } else if c == '/' {
                        TokenKind::Slash
                    } else {
                        TokenKind::BadToken
                    };
                    let text = String::from_str(self.input.substring_char(q, q + 1));
                    self.position = q + 1;
                    Token { kind, text }
                }
            },
        }
    }
}


/// The views of a sequence of tokens.
pub open spec fn token_views(ts: Seq<Token>) -> Seq<(TokenKind, Seq<char>)> {
    ts.map_values(|t: Token| t@)
}

/// Tokenizes a whole line: the tokens in order, ending with one end-of-input token.
pub fn tokenize(input: &str) -> (r: Vec<Token>)
    ensures
        token_views(r@) == lex(input@, 0),
{
    let ghost s = input@;
    let mut lexer = Lexer::new(input);
    let mut out: Vec<Token> = Vec::new();
    let mut done = false;
    while !done
        invariant
            lexer.wf(),
            lexer.source() == s,
            0 <= lexer.position() <= s.len(),
            !done ==> token_views(out@) + lex(s, lexer.position()) == lex(s, 0),
            done ==> token_views(out@) == lex(s, 0),
        decreases 2 * (s.len() - lexer.position()) + if done { 0int } else { 1int },
    {
        let ghost p = lexer.position();
        let t = lexer.next_tok();
        proof {
            lemma_scan_bounds(s, p);
        }
        done = t.kind == TokenKind::EndOfInput;
        let ghost before = out@;
        out.push(t);
        proof {
            assert(token_views(out@) =~= token_views(before).push(t@));
            if done {
                assert(lex(s, p) == seq![token_at(s, p)]);
                assert(token_views(out@) =~= token_views(before) + lex(s, p));
            } else {
                assert(lex(s, p) == seq![token_at(s, p)].add(lex(s, lexer.position())));
                assert(token_views(out@) + lex(s, lexer.position()) =~= token_views(before)
                    + lex(s, p));
            }
        }
    }
    out
}

/// Tokenizing always ends with exactly one end-of-input token, and with
/// nothing after it.
pub proof fn lemma_one_end_of_input_at_the_end(s: Seq<char>, p: int)
    requires
        0 <= p <= s.len(),
    ensures
        lex(s, p).len() > 0,
        lex(s, p).last().0 == TokenKind::EndOfInput,
        forall|i: int| 0 <= i < lex(s, p).len() - 1 ==> (#[trigger] lex(s, p)[i]).0 != TokenKind::EndOfInput,
    decreases s.len() - p,
{
    lemma_scan_bounds(s, p);
    let (k, q, e) = scan(s, p);
    if k != TokenKind::EndOfInput {
        lemma_one_end_of_input_at_the_end(s, e);
        let l = lex(s, p);
        assert forall|i: int| 0 <= i < l.len() - 1 implies (#[trigger] l[i]).0 != TokenKind::EndOfInput by {
            if i > 0 {
                assert(l[i] == lex(s, e)[i - 1]);
            }
        }
    }
}

/// Whitespace before a token does not change what is read.
pub proof fn lemma_whitespace_is_skipped(s: Seq<char>, p: int)
    requires
        0 <= p < s.len(),
        is_whitespace_char(s[p]),
    ensures
        scan(s, p) == scan(s, p + 1),
        lex(s, p) == lex(s, p + 1),
{
    assert(skip_whitespace(s, p) == skip_whitespace(s, p + 1));
}

proof fn lemma_numeral_chars(s: Seq<char>, i: int, seen_point: bool)
    requires
        0 <= i <= s.len(),
    ensures
        forall|k: int|
            i <= k < numeral_end(s, i, seen_point) ==> is_digit_char(#[trigger] s[k]) || s[k]
                == '.',
    decreases s.len() - i,
{
    if i < s.len() && is_digit_char(s[i]) {
        lemma_numeral_chars(s, i + 1, seen_point);
    } else if i < s.len() && s[i] == '.' && !seen_point {
        lemma_numeral_chars(s, i + 1, true);
    }
}

/// No token's text holds a whitespace character.
pub proof fn lemma_token_has_no_whitespace(s: Seq<char>, p: int)
    requires
        0 <= p <= s.len(),
    ensures
        forall|k: int|
            0 <= k < token_at(s, p).1.len() ==> !is_whitespace_char(#[trigger] token_at(s, p).1[k]),
{
    lemma_scan_bounds(s, p);
    lemma_skip_whitespace_bounds(s, p);
    let q = skip_whitespace(s, p);
    if q < s.len() && starts_numeral(s, q) {
        let first = if s[q] == '-' { q + 1 } else { q };
        lemma_numeral_chars(s, first, false);
        let t = token_at(s, p).1;
        assert forall|k: int| 0 <= k < t.len() implies !is_whitespace_char(#[trigger] t[k]) by {
            assert(t[k] == s[q + k]);
        }
    }
}

/// Tokenizing never yields a token whose text holds whitespace: whitespace
/// only separates tokens.
pub proof fn lemma_tokens_hold_no_whitespace(s: Seq<char>, p: int)
    requires
        0 <= p <= s.len(),
    ensures
        forall|i: int, k: int|
            0 <= i < lex(s, p).len() && 0 <= k < lex(s, p)[i].1.len() ==> !is_whitespace_char(
                #[trigger] lex(s, p)[i].1[k],
            ),
    decreases s.len() - p,
{
    lemma_scan_bounds(s, p);
    lemma_token_has_no_whitespace(s, p);
    let (k, q, e) = scan(s, p);
    if k != TokenKind::EndOfInput {
        lemma_tokens_hold_no_whitespace(s, e);
        let l = lex(s, p);
        assert forall|i: int, j: int| 0 <= i < l.len() && 0 <= j < l[i].1.len() implies !is_whitespace_char(
            #[trigger] l[i].1[j],
        ) by {
            if i > 0 {
                assert(l[i] == lex(s, e)[i - 1]);
            }
        }
    }
}

/// Once the end of input is reached, reading again gives the same
/// end-of-input token and does not move.
pub proof fn lemma_end_of_input_repeats(s: Seq<char>, p: int)
    requires
        0 <= p <= s.len(),
        scan(s, p).0 == TokenKind::EndOfInput,
    ensures
        scan(s, scan(s, p).2) == scan(s, p),
        token_at(s, scan(s, p).2) == token_at(s, p),
        token_at(s, p).1.len() == 0,
{
    lemma_scan_bounds(s, p);
}

proof fn lemma_digits_run_to_end(s: Seq<char>, i: int)
    requires
        0 <= i <= s.len(),
        forall|k: int| i <= k < s.len() ==> is_digit_char(#[trigger] s[k]),
    ensures
        numeral_end(s, i, false) == s.len(),
    decreases s.len() - i,
{
    if i < s.len() {
        lemma_digits_run_to_end(s, i + 1);
    }
}

proof fn lemma_end_of_empty_rest(s: Seq<char>)
    ensures
        lex(s, s.len() as int) == seq![(TokenKind::EndOfInput, Seq::<char>::empty())],
{
    assert(s.subrange(s.len() as int, s.len() as int) =~= Seq::<char>::empty());
}

/// A string of digits whose value fits in 64 bits reads as one integer token
/// holding that value, then the end of input.
pub proof fn lemma_digits_read_as_integer(d: Seq<char>)
    requires
        d.len() > 0,
        forall|k: int| 0 <= k < d.len() ==> is_digit_char(#[trigger] d[k]),
        digits_value(d) <= i64::MAX,
    ensures
        lex(d, 0) == seq![
            (TokenKind::Integer(digits_value(d) as i64), d),
            (TokenKind::EndOfInput, Seq::<char>::empty()),
        ],
{
    lemma_digits_run_to_end(d, 0);
    lemma_digits_value_prefix(d, 0);
    assert(d.subrange(0, d.len() as int) =~= d);
    assert(!has_point(d)) by {
        if has_point(d) {
            let k = choose|k: int| 0 <= k < d.len() && d[k] == '.';
            assert(is_digit_char(d[k]));
        }
    }
    assert(scan(d, 0) == (TokenKind::Integer(digits_value(d) as i64), 0int, d.len() as int));
    lemma_end_of_empty_rest(d);
    assert(lex(d, 0) =~= seq![token_at(d, 0)].add(lex(d, d.len() as int)));
}

/// A minus sign right before a string of digits reads as one integer token
/// holding the negative value, not as a minus sign and a literal.
pub proof fn lemma_negative_numeral_reads_as_one_literal(d: Seq<char>)
    requires
        d.len() > 0,
        forall|k: int| 0 <= k < d.len() ==> is_digit_char(#[trigger] d[k]),
        digits_value(d) <= 0x8000_0000_0000_0000,
    ensures
        lex(seq!['-'] + d, 0) == seq![
            (TokenKind::Integer((-digits_value(d)) as i64), seq!['-'] + d),
            (TokenKind::EndOfInput, Seq::<char>::empty()),
        ],
{
    let s = seq!['-'] + d;
    assert(s[0] == '-');
    assert(s[1] == d[0]);
    lemma_digits_run_to_end(s, 1);
    lemma_digits_value_prefix(d, 0);
    assert(s.subrange(0, s.len() as int) =~= s);
    assert(s.drop_first() =~= d);
    assert(!has_point(s)) by {
        if has_point(s) {
            let k = choose|k: int| 0 <= k < s.len() && s[k] == '.';
            assert(s[k] == d[k - 1]);
        }
    }
    assert(skip_whitespace(s, 0) == 0);
    assert(scan(s, 0) == (TokenKind::Integer((-digits_value(d)) as i64), 0int, s.len() as int));
    lemma_end_of_empty_rest(s);
    assert(lex(s, 0) =~= seq![token_at(s, 0)].add(lex(s, s.len() as int)));
}

} // verus!
