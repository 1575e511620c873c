//! A small formula calculator: a scanner folds the input text into an
//! expression tree, and a priority evaluator drives that tree down to a
//! single literal.
//!
//! Integer arithmetic is carried out here. Floating-point work (the trig
//! and power functions, and any operation with a float operand) is never
//! performed inside the library: the evaluator pauses and hands the caller
//! a [`token::FloatReq`] describing the one operation it needs, and the
//! caller answers with the IEEE-754 bits of the result.

#![verifier::loop_isolation(false)]

use vstd::prelude::*;
use vstd::string::StringSliceAdditionalSpecFns;

pub mod executor;
pub mod laws;
pub mod lexer;
pub mod token;

pub use executor::Executor;
pub use lexer::Lexer;
pub use token::Token;

use executor::{m_get_i64, m_plan, m_run};
use lexer::{m_parse, LexerModel};
use token::TokModel;

verus! {

/// Every way a computation can fail, with the byte offset of the
/// offending input character where one exists.
#[derive(Debug, Clone, Copy, PartialEq, Eq, Structural)]
pub enum Error {
    /// A character outside the accepted grammar.
    InvalidCharacter { offset: usize },
    /// A numeric literal that cannot be read (two decimal points, or an
    /// integer too large for `i64`).
    MalformedNumber { offset: usize },
    /// A word other than `sin`, `cos`, `pow` or `sqrt` directly before `(`.
    InvalidFunction { offset: usize },
    /// More nested parentheses than the scanner accepts.
    TooDeep { offset: usize },
    /// The tree did not reduce to a single literal.
    NotReduced,
    /// The result calls for floating-point work, which this library
    /// leaves to its caller.
    FloatNeeded,
}

impl Error {
    /// A short, fixed description of the error.
    pub fn message(&self) -> (r: &'static str)
        ensures
            r@ == self.spec_message(),
    {
        match self {
            Error::InvalidCharacter { .. } => "invalid character",
            Error::MalformedNumber { .. } => "cannot parse number",
            Error::InvalidFunction { .. } => "invalid function",
            Error::TooDeep { .. } => "too many nested groups",
            Error::NotReduced => "the tree is not reduced to a literal",
            Error::FloatNeeded => "the result needs floating-point work",
        }
    }

    /// What [`Error::message`] returns for each variant.
    pub open spec fn spec_message(&self) -> Seq<char> {
        match self {
            Error::InvalidCharacter { .. } => "invalid character"@,
            Error::MalformedNumber { .. } => "cannot parse number"@,
            Error::InvalidFunction { .. } => "invalid function"@,
            Error::TooDeep { .. } => "too many nested groups"@,
            Error::NotReduced => "the tree is not reduced to a literal"@,
            Error::FloatNeeded => "the result needs floating-point work"@,
        }
    }
}

/// The scanner state a fresh computation starts from.
pub open spec fn m_empty_lexer() -> LexerModel {
    LexerModel {
        tokens: Seq::empty(),
        data: Seq::empty(),
        number_memory: Seq::empty(),
        memory: Seq::empty(),
        i: 0usize,
    }
}

/// One whole computation, up to the point where the caller's
/// floating-point help may first be needed: the (partly) evaluated tree,
/// the drain plan, and the entry the drain stopped at.
pub open spec fn m_kalc(bs: Seq<u8>) -> Result<(TokModel, Seq<(Seq<usize>, usize)>, int), Error> {
    match m_parse(m_empty_lexer(), bs) {
        Err(e) => Err(e),
        Ok(st) => {
            let g = TokModel::Group(st.tokens);
            let s = m_run(g, m_plan(g), 0);
            Ok((s.0, m_plan(g), s.1))
        },
    }
}

/// What [`kalc_i64`] returns: the computation's integer reading, or
/// [`Error::FloatNeeded`] where the evaluation paused for floating-point
/// work it cannot do alone.
pub open spec fn m_kalc_i64(bs: Seq<u8>) -> Result<i64, Error> {
    match m_kalc(bs) {
        Err(e) => Err(e),
        Ok(t) => if t.2 < t.1.len() {
            Err(Error::FloatNeeded)
        } else {
            m_get_i64(t.0)
        },
    }
}

/// Scans the formula and evaluates its tree as far as integer arithmetic
/// carries. The executor comes back holding the result, or pending a
/// [`token::FloatReq`] that [`Executor::execute`] re-issues and
/// [`Executor::resume`] answers.
pub fn kalc(formula: &str) -> (r: Result<Executor, Error>)
    ensures
        ({
            let s = m_kalc(formula.spec_bytes());
            match r {
                Ok(ex) => s is Ok && ex@.group == s->Ok_0.0 && ex@.plan == s->Ok_0.1 && ex@.pos
                    as int == s->Ok_0.2,
                Err(e) => s is Err && e == s->Err_0,
            }
        }),
{
    let mut lexer = Lexer::default();
    match lexer.parse(formula) {
        Err(e) => {
            return Err(e);
        },
        Ok(()) => {},
    }
    let mut executor = Executor::new(lexer);
    let _pending = executor.execute();
    Ok(executor)
}

/// The formula's value as an integer: exactly [`m_kalc_i64`].
pub fn kalc_i64(formula: &str) -> (r: Result<i64, Error>)
    ensures
        r == m_kalc_i64(formula.spec_bytes()),
{
    match kalc(formula) {
        Ok(ex) => {
            if ex.pending() {
                Err(Error::FloatNeeded)
            } else {
                ex.get_i64()
            }
        },
        Err(e) => Err(e),
    }
}

} // verus!
