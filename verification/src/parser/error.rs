use vstd::prelude::*;

use std::path::PathBuf;

use crate::lexer::Loc;

verus! {

#[derive(Debug, Clone)]
pub enum ParseErrorType {
    Unknown,
    DefChildrenBranchNotFound(String),
    DefNoChildren,
    NoDefForRecord,
    TagOnce(String),
    NoClosingQuote(String),
    InvalidIndent,
    InvalidIndentIncrement,
    ExpectedEOL,
}

/// Where and why parsing failed.
#[derive(Debug, Clone)]
pub struct ParseError {
    pub path: Option<PathBuf>,
    pub loc: Loc,
    pub error_type: ParseErrorType,
}

} // verus!
