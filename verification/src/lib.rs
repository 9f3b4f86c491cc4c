//! A parser for JSON-like documents.
//!
//! A text is split into tokens ([`tokenize::tokenize`]) and the tokens are
//! read as a tree of values ([`parse::parse_tokens`]); [`parse`] does both.
//! Every function is verified against a grammar stated as spec functions:
//! [`tokenize::tokens_of`] for the tokens, [`parse::value_at`] for the tree
//! and [`document`] for the two together.
//!
//! Beside the functions stand the laws that hold of them: that giving a key
//! a value again replaces the value ([`value::lemma_put_as_map`]), that no
//! object read has a key twice ([`parse::lemma_value_at`]), that every
//! well-formed literal is read as the value it stands for, nested as deeply
//! as its brackets are ([`literal`], [`spelling`]), and that equality of
//! values is an equivalence ([`equality`]).
//!
//! Numbers are kept as the decimal literals that were read ([`number`]):
//! the crate does no floating-point arithmetic.

use vstd::prelude::*;

pub mod text;
pub mod number;
pub mod tokenize;
pub mod value;
pub mod equality;
pub mod parse;
pub mod literal;
pub mod spelling;

use crate::parse::{parse_tokens, value_at, TokenParseError};
use crate::tokenize::{tokenize, tokens_of, TokenizeError, TokenizeErrorView};
use crate::value::{Value, ValueView};

verus! {

/// Where the document to read is found.
pub struct Config {
    file_path: String,
}

impl Config {
    /// The path of the document.
    pub closed spec fn path(&self) -> Seq<char> {
        self.file_path@
    }

    /// The configuration that the arguments of a program give: the
    /// argument after the program's name is the path of the document.
    pub fn build(args: &[String]) -> (r: Result<Config, &'static str>)
        ensures
            match r {
                Ok(config) => args@.len() >= 2 && config.path() == args@[1]@,
                Err(message) => args@.len() < 2 && message@ == "Not enough arguments"@,
            },
    {
        if args.len() < 2 {
            return Err("Not enough arguments");
        }
        let file_path = args[1].clone();
        Ok(Config { file_path })
    }

    /// The path of the document.
    pub fn file_path(&self) -> (r: &str)
        ensures
            r@ == self.path(),
    {
        self.file_path.as_str()
    }
}

/// Why a text could not be read as a document: the stage that failed, and its failure.
#[derive(Debug, PartialEq, Eq, Clone)]
pub enum ParseError {
    /// The text could not be split into tokens.
    Tokenize(TokenizeError),
    /// The tokens could not be read as a value.
    Parse(TokenParseError),
}

/// The mathematical value of a [`ParseError`].
pub enum ParseErrorView {
    Tokenize(TokenizeErrorView),
    Parse(TokenParseError),
}

impl View for ParseError {
    type V = ParseErrorView;

    open spec fn view(&self) -> ParseErrorView {
        match self {
            ParseError::Tokenize(e) => ParseErrorView::Tokenize(e@),
            ParseError::Parse(e) => ParseErrorView::Parse(*e),
        }
    }
}

impl ParseError {
    /// What to tell a reader of the failure.
    pub fn message(&self) -> (r: &'static str)
        ensures
            r@ == "Error while parsing JSON Value"@,
    {
        "Error while parsing JSON Value"
    }
}

/// What reading a text gives: the value it spells, or the failure.
pub type Outcome = Result<ValueView, ParseErrorView>;

/// The document that a text spells: the value that begins at its first
/// token, or the failure of the stage that failed first. Tokens after that
/// value are not looked at.
pub open spec fn document(text: Seq<char>) -> Outcome {
    match tokens_of(text) {
        Err(e) => Err(ParseErrorView::Tokenize(e)),
        Ok(tokens) => match value_at(tokens, 0) {
            Err(e) => Err(ParseErrorView::Parse(e)),
            Ok((value, _)) => Ok(value),
        },
    }
}

/// Reads `input` as a document.
///
/// The result is exactly what [`document`] says of the characters of `input`.
pub fn parse(input: &str) -> (r: Result<Value, ParseError>)
    ensures
        match r {
            Ok(value) => document(input@) == Outcome::Ok(value@),
            Err(e) => document(input@) == Outcome::Err(e@),
        },
{
    let tokens = match tokenize(String::from_str(input)) {
        Ok(tokens) => tokens,
        Err(e) => {
            return Err(ParseError::Tokenize(e));
        },
    };
    let mut index: usize = 0;
    match parse_tokens(tokens.as_slice(), &mut index) {
        Ok(value) => Ok(value),
        Err(e) => Err(ParseError::Parse(e)),
    }
}

} // verus!
