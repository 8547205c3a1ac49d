use vstd::prelude::*;
use crate::lexer::{lex, token_views, Token};
use crate::expression::{evaluation, EvalError, Evaluated};
use crate::parser::{diagnostic, expression, string_views, without_bad, Parser};

verus! {

/// Why a line gave no value: the parser's diagnostics, or an evaluation error.
#[derive(Debug, PartialEq)]
pub enum Failure {
    Diagnostics(Vec<String>),
    Evaluation(EvalError),
}

/// What a line gives, once its kept tokens are `toks`: the parse fails with one
/// diagnostic; or the tree is evaluated, to a value or an error.
pub open spec fn line_outcome(toks: Seq<Token>, r: Result<Evaluated, Failure>) -> bool {
    match expression(toks, 0) {
        Ok((e, _)) => match evaluation(e) {
            Ok(v) => r == Ok::<Evaluated, Failure>(v),
            Err(x) => r matches Err(Failure::Evaluation(y)) && y == x,
        },
        Err(x) => r matches Err(Failure::Diagnostics(d)) && string_views(d@) == seq![
            diagnostic(toks[x].text@),
        ],
    }
}

/// Tokenizes, parses and evaluates one line. A tree is evaluated only when
/// parsing recorded no diagnostic.
pub fn parse_and_evaluate(line: &str) -> (r: Result<Evaluated, Failure>)
    ensures
        exists|toks: Seq<Token>|
            #[trigger] token_views(toks) == without_bad(lex(line@, 0)) && line_outcome(toks, r),
{
    let mut parser = Parser::new(line);
    let ghost toks = parser.tokens@;
    let ghost d0 = parser.diagnostics@;
    proof {
        assert(string_views(d0) =~= Seq::<Seq<char>>::empty());
    }
    let parsed = parser.parse();
    let r = if parser.diagnostics.len() > 0 {
        Err(Failure::Diagnostics(parser.diagnostics))
    } else {
        match parsed {
            Some(e) => match e.evaluate() {
                Ok(v) => Ok(v),
                Err(x) => Err(Failure::Evaluation(x)),
            },
            None => Err(Failure::Diagnostics(Vec::new())),
        }
    };
    proof {
        if let Err(x) = expression(toks, 0) {
            assert(string_views(parser.diagnostics@) =~= seq![diagnostic(toks[x].text@)]);
        }
        assert(token_views(toks) == without_bad(lex(line@, 0)) && line_outcome(toks, r));
    }
    r
}

} // verus!
