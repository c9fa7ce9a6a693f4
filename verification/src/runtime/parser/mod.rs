//! Reading programs.

use crate::runtime::ast::model::StmtM;
use crate::runtime::ast::Stmt;
use crate::runtime::interner::{Interner, Symbol};
use crate::runtime::limits::{MAX_IDENTIFIER_LENGTH, MAX_STRING_LITERAL_LENGTH};
use crate::runtime::parser::grammar::{FailM, Names, SourceM};
use crate::runtime::parser::lex::{lex, Spanned, SpannedM};
use crate::runtime::parser::parse::{parse_program, ParseFail, Source};
use crate::runtime::parser::token::{Token, TokenM};
use crate::runtime::text;
use vstd::prelude::*;
use vstd::string::*;

pub mod grammar;
pub mod lex;
pub mod parse;
pub mod reading;
pub mod showing;
pub mod spelling;
pub mod texts;
pub mod token;

verus! {

/// What became of a line of input.
#[derive(Debug)]
pub enum ReplParseResult {
    /// One or more statements.
    Complete(Vec<Stmt>),
    /// The beginning of something; the rest is still to come.
    Incomplete,
    /// Something that no further input can make right.
    Error(String),
}

/// The model of a [`ReplParseResult`].
pub enum ReplM {
    Complete(Seq<StmtM<Symbol>>),
    Incomplete,
    Error(Seq<char>),
}

impl DeepView for ReplParseResult {
    type V = ReplM;

    open spec fn deep_view(&self) -> ReplM {
        match *self {
            ReplParseResult::Complete(v) => ReplM::Complete(v.deep_view()),
            ReplParseResult::Incomplete => ReplM::Incomplete,
            ReplParseResult::Error(s) => ReplM::Error(s@),
        }
    }
}

/// What is said of a token that is longer than it may be.
pub open spec fn oversize(t: TokenM) -> Option<Seq<char>> {
    match t {
        TokenM::Ident(s) => if text::byte_len(s) > MAX_IDENTIFIER_LENGTH {
            Some(
                "Parse error: identifier exceeds maximum length of "@ + text::decimal(
                    MAX_IDENTIFIER_LENGTH as nat,
                ) + " characters"@,
            )
        } else {
            None
        },
        TokenM::StrLit(s) => if text::byte_len(s) > MAX_STRING_LITERAL_LENGTH {
            Some(
                "Parse error: string literal exceeds maximum length of "@ + text::decimal(
                    MAX_STRING_LITERAL_LENGTH as nat,
                ) + " characters"@,
            )
        } else {
            None
        },
        _ => None,
    }
}

/// What is said of the first token from place `i` on that is too long.
pub open spec fn first_oversize(toks: Seq<SpannedM>, i: nat) -> Option<Seq<char>>
    decreases toks.len() - i,
{
    if i >= toks.len() {
        None
    } else {
        match oversize(toks[i as int].token) {
            Some(s) => Some(s),
            None => first_oversize(toks, i + 1),
        }
    }
}

/// What is said of a text that is no program.
pub open spec fn fail_text(f: FailM, toks: Seq<SpannedM>) -> Seq<char> {
    match f {
        FailM::Eof => "unexpected end of input"@,
        FailM::At(i) => if i < toks.len() {
            "unexpected token at "@ + text::decimal(toks[i as int].start)
        } else {
            "unexpected end of input"@
        },
        FailM::TooLong => "Assertion text exceeds maximum length of "@
            + text::decimal(MAX_STRING_LITERAL_LENGTH as nat) + " characters"@,
    }
}

/// The tokens and the text of a program.
pub open spec fn source(input: Seq<char>) -> SourceM {
    SourceM { toks: lex::lexed(input, 0), chars: input }
}

/// The statements of a program, or why it is none; and the names then.
pub open spec fn parsed(input: Seq<char>, names: Names) -> (
    Result<Seq<StmtM<Symbol>>, Seq<char>>,
    Names,
) {
    let src = source(input);
    match first_oversize(src.toks, 0) {
        Some(s) => (Err(s), names),
        None => match grammar::program(src, 0, seq![], names) {
            (Ok(v), n1) => (Ok(v), n1),
            (Err(f), n1) => (Err("Parse error: "@ + fail_text(f, src.toks)), n1),
        },
    }
}

/// What became of the input so far. Input that ends too early is the beginning
/// of something, and so is input without a statement.
pub open spec fn repl_parsed(input: Seq<char>, names: Names) -> (ReplM, Names) {
    let src = source(input);
    if text::is_blank(input) {
        (ReplM::Incomplete, names)
    } else {
        match first_oversize(src.toks, 0) {
            Some(s) => (ReplM::Error(s), names),
            None => match grammar::program(src, 0, seq![], names) {
                (Ok(v), n1) => if v.len() > 0 {
                    (ReplM::Complete(v), n1)
                } else {
                    (ReplM::Incomplete, n1)
                },
                (Err(FailM::Eof), n1) => (ReplM::Incomplete, n1),
                (Err(f), n1) => (ReplM::Error(fail_text(f, src.toks)), n1),
            },
        }
    }
}

fn too_long(t: &Token) -> (r: Option<String>)
    ensures
        r.deep_view() == oversize(t.deep_view()),
{
    match t {
        Token::Ident(s) => {
            if text::text_bytes(s.as_str()) > MAX_IDENTIFIER_LENGTH {
                Some(
                    text::cat3(
                        "Parse error: identifier exceeds maximum length of ",
                        text::usize_text(MAX_IDENTIFIER_LENGTH).as_str(),
                        " characters",
                    ),
                )
            } else {
                None
            }
        },
        Token::StrLit(s) => {
            if text::text_bytes(s.as_str()) > MAX_STRING_LITERAL_LENGTH {
                Some(
                    text::cat3(
                        "Parse error: string literal exceeds maximum length of ",
                        text::usize_text(MAX_STRING_LITERAL_LENGTH).as_str(),
                        " characters",
                    ),
                )
            } else {
                None
            }
        },
        _ => None,
    }
}

fn check_lengths(toks: &Vec<Spanned>) -> (r: Option<String>)
    ensures
        r.deep_view() == first_oversize(toks.deep_view(), 0),
{
    let ghost t = toks.deep_view();
    for i in 0..toks.len()
        invariant
            t == toks.deep_view(),
            first_oversize(t, 0) == first_oversize(t, i as nat),
    {
        assert(t[i as int] == toks@[i as int].deep_view());
        let one = too_long(&toks[i].token);
        if one.is_some() {
            return one;
        }
    }
    None
}

/// Says what is wrong with a text that is no program.
pub fn explain(f: &ParseFail, toks: &Vec<Spanned>) -> (r: String)
    ensures
        r@ == fail_text(f.deep_view(), toks.deep_view()),
{
    match f {
        ParseFail::Eof => "unexpected end of input".to_owned(),
        ParseFail::At(i) => {
            if *i < toks.len() {
                text::cat2(
                    "unexpected token at ",
                    text::usize_text(toks[*i].start).as_str(),
                )
            } else {
                "unexpected end of input".to_owned()
            }
        },
        ParseFail::TooLong => text::cat3(
            "Assertion text exceeds maximum length of ",
            text::usize_text(MAX_STRING_LITERAL_LENGTH).as_str(),
            " characters",
        ),
    }
}

/// Reads the tokens of a program.
pub fn read_source(input: &str) -> (r: Source)
    ensures
        r.deep_view() == source(input@),
        r.ordered(),
{
    let chars = text::chars_of(input);
    let toks = lex(&chars);
    proof {
        parse::lemma_lexed_ordered(input@, 0);
    }
    Source { toks, chars }
}

/// Reads a program.
pub fn parse_string(input: &str, interner: &mut Interner) -> (r: Result<Vec<Stmt>, String>)
    ensures
        final(interner)@ == parsed(input@, old(interner)@).1,
        match (r, parsed(input@, old(interner)@).0) {
            (Ok(v), Ok(w)) => v.deep_view() == w,
            (Err(s), Err(t)) => s@ == t,
            _ => false,
        },
{
    let src = read_source(input);
    match check_lengths(&src.toks) {
        Some(s) => Err(s),
        None => match parse_program(&src, interner) {
            Ok(v) => Ok(v),
            Err(f) => Err(text::cat2("Parse error: ", explain(&f, &src.toks).as_str())),
        },
    }
}

/// Reads the input so far.
pub fn parse_repl(input: &str, interner: &mut Interner) -> (r: ReplParseResult)
    ensures
        (r.deep_view(), final(interner)@) == repl_parsed(input@, old(interner)@),
{
    if text::blank(input) {
        return ReplParseResult::Incomplete;
    }
    let src = read_source(input);
    match check_lengths(&src.toks) {
        Some(s) => ReplParseResult::Error(s),
        None => match parse_program(&src, interner) {
            Ok(v) => {
                if v.len() > 0 {
                    ReplParseResult::Complete(v)
                } else {
                    ReplParseResult::Incomplete
                }
            },
            Err(ParseFail::Eof) => ReplParseResult::Incomplete,
            Err(f) => ReplParseResult::Error(explain(&f, &src.toks)),
        },
    }
}

} // verus!
