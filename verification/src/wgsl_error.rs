use vstd::prelude::*;
use vstd::string::*;

use crate::pp::SourceMap;
use crate::pp::map_line_total_spec;

verus! {

/// The mathematical shape of an error: a validation failure (whose payload
/// is opaque), a parser or directive failure with a message and a position,
/// or an I/O failure carrying the failure's text.
#[verifier::ext_equal]
pub enum ErrModel {
    Validation,
    Parser { error: Seq<char>, line: int, pos: int },
    Io { msg: Seq<char> },
}

/// The error surfaced by preprocessing, parsing or validation.
#[derive(Debug)]
pub enum WgslError {
    ValidationErr(naga::valid::ValidationError),
    ParserErr { error: String, line: usize, pos: usize },
    IoErr(String),
}

impl View for WgslError {
    type V = ErrModel;

    open spec fn view(&self) -> ErrModel {
        match self {
            WgslError::ValidationErr(_) => ErrModel::Validation,
            WgslError::ParserErr { error, line, pos } => (ErrModel::Parser {
                error: error@,
                line: *line as int,
                pos: *pos as int,
            }),
            WgslError::IoErr(m) => (ErrModel::Io { msg: m@ }),
        }
    }
}

/// A directive-grammar failure: reported at the 0-based line within the file
/// being scanned, at position 0.
pub fn include_syntax_error(line_number: usize, message: &str) -> (r: WgslError)
    ensures
        r@ == (ErrModel::Parser { error: message@, line: line_number as int, pos: 0 }),
{
    WgslError::ParserErr { error: String::from_str(message), line: line_number, pos: 0 }
}

/// A failure to read an included file, reported at the given line with the
/// reading failure's own text as the message.
pub fn include_io_error(line_number: usize, message: String) -> (r: WgslError)
    ensures
        r@ == (ErrModel::Parser { error: message@, line: line_number as int, pos: 10 }),
{
    WgslError::ParserErr { error: message, line: line_number, pos: 10 }
}

impl WgslError {
    /// The parser-shaped error for a message and a raw buffer position: the
    /// line is translated back through the source map, the column kept.
    pub fn from_parse_parts(error: String, line: usize, pos: usize, source_map: &SourceMap) -> (r:
        WgslError)
        ensures
            r@ == (ErrModel::Parser {
                error: error@,
                line: map_line_total_spec(source_map@, line as int),
                pos: pos as int,
            }),
    {
        let mapped = source_map.map_line_total(line);
        WgslError::ParserErr { error, line: mapped, pos }
    }

    /// The error surfaced for a parse failure: the parser's rendered
    /// message, with the reported line translated back through the source
    /// map and the column kept.  An error reported without a location
    /// carries line zero and column zero, untranslated: with no position
    /// there is nothing to map.
    pub fn from_parse_err(
        error: String,
        location: Option<(usize, usize)>,
        source_map: &SourceMap,
    ) -> (r: WgslError)
        ensures
            r@ == (ErrModel::Parser {
                error: error@,
                line: match location {
                    Some(lp) => map_line_total_spec(source_map@, lp.0 as int),
                    None => 0,
                },
                pos: match location {
                    Some(lp) => lp.1 as int,
                    None => 0,
                },
            }),
    {
        match location {
            Some((line, pos)) => WgslError::from_parse_parts(error, line, pos, source_map),
            None => WgslError::ParserErr { error, line: 0, pos: 0 },
        }
    }
}

/// How an error is rewritten as it leaves an included file: its reported
/// line is replaced by the 0-based line of the directive that caused the
/// inclusion, an I/O failure turning into a parser-shaped error along the
/// way.
pub open spec fn rewrite_up(e: ErrModel, directive_line: int) -> ErrModel {
    match e {
        ErrModel::Io { msg } => (ErrModel::Parser {
            error: msg,
            line: directive_line,
            pos: 10,
        }),
        ErrModel::Parser { error, pos, .. } => (ErrModel::Parser {
            error,
            line: directive_line,
            pos,
        }),
        ErrModel::Validation => ErrModel::Validation,
    }
}

/// Applies `rewrite_up` to a concrete error at one unwinding step.
pub fn rewrite_error(e: WgslError, directive_line: usize) -> (r: WgslError)
    ensures
        r@ == rewrite_up(e@, directive_line as int),
{
    match e {
        WgslError::IoErr(m) => WgslError::ParserErr {
            error: m,
            line: directive_line,
            pos: 10,
        },
        WgslError::ParserErr { error, pos, .. } => WgslError::ParserErr {
            error,
            line: directive_line,
            pos,
        },
        v => v,
    }
}

} // verus!
