//! The errors of reading and folding expressions, and their messages.
use vstd::prelude::*;
use vstd::string::*;

verus! {

/// Everything that can go wrong while reading a definition or folding an expression.
#[derive(Debug, Clone, PartialEq)]
pub enum ParseError {
    VariableDefinitionAndUseMismatch,
    UnknownVariable(String),
    UnableToParse,
    NoFunctionDefined,
    UnableToFind(String),
    InvalidTokenPosition,
    DoubleDecimal,
    UnclosedParenthesis,
}

/// A `ParseError` with its texts as sequences of characters.
pub enum Fault {
    VariableDefinitionAndUseMismatch,
    UnknownVariable(Seq<char>),
    UnableToParse,
    NoFunctionDefined,
    UnableToFind(Seq<char>),
    InvalidTokenPosition,
    DoubleDecimal,
    UnclosedParenthesis,
}

impl View for ParseError {
    type V = Fault;

    open spec fn view(&self) -> Fault {
        match self {
            ParseError::VariableDefinitionAndUseMismatch => Fault::VariableDefinitionAndUseMismatch,
            ParseError::UnknownVariable(v) => Fault::UnknownVariable(v@),
            ParseError::UnableToParse => Fault::UnableToParse,
            ParseError::NoFunctionDefined => Fault::NoFunctionDefined,
            ParseError::UnableToFind(w) => Fault::UnableToFind(w@),
            ParseError::InvalidTokenPosition => Fault::InvalidTokenPosition,
            ParseError::DoubleDecimal => Fault::DoubleDecimal,
            ParseError::UnclosedParenthesis => Fault::UnclosedParenthesis,
        }
    }
}

/// The text shown to a user for each kind of error.
pub open spec fn message_of(f: Fault) -> Seq<char> {
    match f {
        Fault::VariableDefinitionAndUseMismatch =>
            "All variables defined in the function are not used."@,
        Fault::UnknownVariable(v) => "Unknown variable in expression: \""@ + v + "\""@,
        Fault::UnableToParse => "Unable to parse"@,
        Fault::NoFunctionDefined => "No function defined"@,
        Fault::UnableToFind(w) => "Unable to find required argument: "@ + w + " in input"@,
        Fault::InvalidTokenPosition => "Token in invalid position"@,
        Fault::DoubleDecimal => "Two decimal points used in the same number!"@,
        Fault::UnclosedParenthesis => "Unclosed parenthesis"@,
    }
}

impl ParseError {
    /// The message for this error.
    pub fn message(&self) -> (r: String)
        ensures
            r@ == message_of(self@),
    {
        match self {
            ParseError::VariableDefinitionAndUseMismatch => String::from_str(
                "All variables defined in the function are not used.",
            ),
            ParseError::UnknownVariable(v) => {
                let mut m = String::from_str("Unknown variable in expression: \"");
                m.append(v.as_str());
                m.append("\"");
                m
            },
            ParseError::UnableToParse => String::from_str("Unable to parse"),
            ParseError::NoFunctionDefined => String::from_str("No function defined"),
            ParseError::UnableToFind(w) => {
                let mut m = String::from_str("Unable to find required argument: ");
                m.append(w.as_str());
                m.append(" in input");
                m
            },
            ParseError::InvalidTokenPosition => String::from_str("Token in invalid position"),
            ParseError::DoubleDecimal => String::from_str(
                "Two decimal points used in the same number!",
            ),
            ParseError::UnclosedParenthesis => String::from_str("Unclosed parenthesis"),
        }
    }
}

} // verus!
