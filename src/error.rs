use vstd::prelude::*;

use crate::ast::Node;

verus! {

/// A parse error: where the offending token stands, and what is wrong.
#[derive(Debug, PartialEq, Eq)]
pub struct ParseError {
    pub col: u32,
    pub row: u32,
    pub message: String,
}

pub struct ParseErrorModel {
    pub row: u32,
    pub col: u32,
    pub message: Seq<char>,
}

impl View for ParseError {
    type V = ParseErrorModel;

    open spec fn view(&self) -> ParseErrorModel {
        ParseErrorModel { row: self.row, col: self.col, message: self.message@ }
    }
}

/// An evaluation error that carries the source position of the node that
/// raised it.
#[derive(Debug, PartialEq, Eq)]
pub struct ContextualEvaluationError {
    pub col: u32,
    pub row: u32,
    pub message: String,
}

/// An evaluation error: a plain message, or a message with a position.
#[derive(Debug, PartialEq, Eq)]
pub enum EvaluationError {
    Simple(String),
    Contextual(ContextualEvaluationError),
}

pub enum EvaluationErrorModel {
    Simple(Seq<char>),
    Contextual { row: u32, col: u32, message: Seq<char> },
}

impl View for EvaluationError {
    type V = EvaluationErrorModel;

    open spec fn view(&self) -> EvaluationErrorModel {
        match self {
            EvaluationError::Simple(m) => EvaluationErrorModel::Simple(m@),
            EvaluationError::Contextual(c) => EvaluationErrorModel::Contextual {
                row: c.row,
                col: c.col,
                message: c.message@,
            },
        }
    }
}

impl From<String> for EvaluationError {
    fn from(value: String) -> (r: EvaluationError) {
        EvaluationError::Simple(value)
    }
}

impl vstd::std_specs::convert::FromSpecImpl<String> for EvaluationError {
    open spec fn obeys_from_spec() -> bool {
        true
    }

    open spec fn from_spec(v: String) -> EvaluationError {
        EvaluationError::Simple(v)
    }
}

impl From<ContextualEvaluationError> for EvaluationError {
    fn from(value: ContextualEvaluationError) -> (r: EvaluationError) {
        EvaluationError::Contextual(value)
    }
}

impl vstd::std_specs::convert::FromSpecImpl<ContextualEvaluationError> for EvaluationError {
    open spec fn obeys_from_spec() -> bool {
        true
    }

    open spec fn from_spec(v: ContextualEvaluationError) -> EvaluationError {
        EvaluationError::Contextual(v)
    }
}

/// Something with a source position that an error can be tied to.
pub trait ToEvaluationError {
    /// The row and column that errors raised here carry.
    spec fn position(&self) -> (u32, u32);

    /// An error with `message` at this position.
    fn to_error(&self, message: String) -> (r: EvaluationError)
        ensures
            r@ == (EvaluationErrorModel::Contextual {
                row: self.position().0,
                col: self.position().1,
                message: message@,
            }),
    ;
}

impl ToEvaluationError for Node {
    open spec fn position(&self) -> (u32, u32) {
        (self.token.row, self.token.col)
    }

    fn to_error(&self, message: String) -> (r: EvaluationError) {
        EvaluationError::Contextual(
            ContextualEvaluationError { col: self.token.col, row: self.token.row, message },
        )
    }
}

impl EvaluationError {
    /// Ties a plain error to the position of `node`, the deepest site that
    /// knows one; an error that already has a position keeps it.
    pub fn in_context(self, node: &Node) -> (r: EvaluationError)
        ensures
            r@ == match self@ {
                EvaluationErrorModel::Simple(m) => EvaluationErrorModel::Contextual {
                    row: node.token.row,
                    col: node.token.col,
                    message: m,
                },
                other => other,
            },
    {
        match self {
            EvaluationError::Simple(message) => node.to_error(message),
            other => other,
        }
    }
}

} // verus!
