//! Parser for the S-Stat markup language: documents made of parenthesised
//! nodes, bracketed `[key value]` attributes and free text, with
//! source-located diagnostics.

pub mod ast;
pub mod error;
pub mod grammar;
pub mod location;
pub mod parser;
pub mod source;
pub mod text;

use vstd::prelude::*;

pub use error::{Error, ParseError, ParseErrorType};
pub use location::{LineCol, Location, Span};
pub use parser::{ErrorKind, ParseResult, Parser};
pub use source::SourceContext;

use grammar::spec_page;
use text::blen;

verus! {

/// Parse the given source; what a later stage makes of the page is not
/// part of this library. Succeeds exactly when the source parses as a page.
pub fn transpile(filename: String, source: String) -> (r: Result<(), Error>)
    requires
        blen(source@) < usize::MAX,
    ensures
        r is Ok <==> spec_page(source@) is Done,
        r matches Err(e) ==> e is ParseError,
        r matches Err(Error::ParseError(e)) ==> (*e.source).text() == source@
            && e.span.start <= e.span.end <= (*e.source).spec_len(),
{
    let file = SourceContext::new(filename, source);
    let parser = Parser::new(file);
    match parser.parse() {
        Ok(_) => Ok(()),
        Err(e) => Err(Error::from(e)),
    }
}

} // verus!
