//! What a parse is refused with.

use crate::token::Span;
use vstd::prelude::*;

verus! {

/// Failures of the parser itself.
#[derive(Clone, Copy, Debug, PartialEq, Eq, Structural)]
pub enum InternalError {
    ArgumentsParseFailure,
    AstCapacityOverflow,
    ForParseFailure,
    FunctionParseFailure,
    MissingAssignmentTarget,
    MissingContinuedExpressionLhs,
    MissingScope,
    NumberParseFailure,
    RangeParseFailure,
    UnexpectedIdInExpression,
}

/// Faults in a script.
#[derive(Clone, Copy, Debug, PartialEq, Eq, Structural)]
pub enum SyntaxError {
    ExpectedArgsEnd,
    ExpectedAssignmentTarget,
    ExpectedCloseParen,
    ExpectedElseBlock,
    ExpectedElseExpression,
    ExpectedElseIfBlock,
    ExpectedElseIfCondition,
    ExpectedExportExpression,
    ExpectedExpression,
    ExpectedExpressionInMainBlock,
    ExpectedForArgs,
    ExpectedForBody,
    ExpectedForCondition,
    ExpectedForInKeyword,
    ExpectedForRanges,
    ExpectedFromAfterImportItemList,
    ExpectedFunctionArgsEnd,
    ExpectedFunctionBody,
    ExpectedIdInImportItemList,
    ExpectedIfCondition,
    ExpectedImportModuleId,
    ExpectedIndexEnd,
    ExpectedIndexExpression,
    ExpectedListEnd,
    ExpectedListEndInImportItemList,
    ExpectedMapEnd,
    ExpectedMapKey,
    ExpectedMapSeparator,
    ExpectedMapValue,
    ExpectedNegatableExpression,
    ExpectedRhsExpression,
    ExpectedThenExpression,
    ExpectedThenKeywordOrBlock,
    ExpectedUntilBody,
    ExpectedUntilCondition,
    ExpectedWhileBody,
    ExpectedWhileCondition,
    LexerError,
    TooManyNum2Terms,
    TooManyNum4Terms,
    UnexpectedIndentation,
    UnexpectedToken,
    UnexpectedTokenAfterExportId,
}

#[derive(Clone, Copy, Debug, PartialEq, Eq, Structural)]
pub enum ErrorType {
    InternalError(InternalError),
    SyntaxError(SyntaxError),
}

/// An error, and the span of the last token that was read before it was found.
#[derive(Clone, Copy, Debug, PartialEq, Eq, Structural)]
pub struct ParserError {
    pub error: ErrorType,
    pub span: Span,
}

/// Whether a script can be refused with an error. Some failures are looked out for and do not
/// occur.
pub open spec fn is_possible(error: ParserError) -> bool {
    match error.error {
        ErrorType::InternalError(failure) => match failure {
            InternalError::AstCapacityOverflow => true,
            InternalError::FunctionParseFailure => true,
            InternalError::NumberParseFailure => true,
            InternalError::UnexpectedIdInExpression => true,
            _ => false,
        },
        ErrorType::SyntaxError(fault) => fault != SyntaxError::ExpectedListEndInImportItemList,
    }
}

/// A fault in the script, found at `span`.
pub open spec fn syntax_error_at(error: SyntaxError, span: Span) -> ParserError {
    ParserError { error: ErrorType::SyntaxError(error), span }
}

/// A failure of the parser, found at `span`.
pub open spec fn internal_error_at(error: InternalError, span: Span) -> ParserError {
    ParserError { error: ErrorType::InternalError(error), span }
}

} // verus!
