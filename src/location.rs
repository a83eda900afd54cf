//! Spans of source text and their resolution to lines and columns.

use std::path::PathBuf;

use vstd::prelude::*;

use crate::source::SourceContext;

verus! {

#[verifier::external_type_specification]
#[verifier::external_body]
pub struct ExPathBuf(std::path::PathBuf);

/// Relies on `PathBuf::clone`, which a copied [`Location`] uses; nothing is
/// claimed of the copy.
pub assume_specification[ <std::path::PathBuf as Clone>::clone ](p: &std::path::PathBuf) -> std::path::PathBuf;

/// A region of source code: the half-open byte range `[start, end)`.
#[derive(Clone, Copy, Debug, PartialEq, Eq, Structural)]
pub struct Span {
    /// The start of the span
    pub start: usize,
    /// The end of the span
    pub end: usize,
}

impl Span {
    /// Make a new [`Span`]
    pub fn new(start: usize, end: usize) -> (r: Span)
        ensures
            r.start == start,
            r.end == end,
    {
        Span { start, end }
    }

    /// Resolves both ends of the span against `ctx`.
    pub fn resolve(&self, ctx: &SourceContext) -> (r: Location)
        requires
            ctx.wf(),
            self.start <= self.end <= ctx.spec_len(),
        ensures
            r.span == *self,
            resolves_to(ctx.line_table(), self.start as int, r.start),
            resolves_to(ctx.line_table(), self.end as int, r.end),
            r.lines@.len() == r.end.line - r.start.line + 1,
            forall|k: int|
                0 <= k < r.lines@.len() ==> #[trigger] r.lines@[k]@ == ctx.line_chars(
                    r.start.line - 1 + k,
                ),
    {
        let start = ctx.line_col(self.start);
        let end = ctx.line_col(self.end);
        proof {
            ctx.lemma_resolve_monotone(self.start as int, self.end as int, start, end);
        }
        let mut lines: Vec<String> = Vec::new();
        let mut k: usize = start.line - 1;
        while k < end.line
            invariant
                ctx.wf(),
                1 <= start.line <= end.line <= ctx.line_table().len(),
                start.line - 1 <= k <= end.line,
                lines@.len() == k - (start.line - 1),
                forall|j: int|
                    0 <= j < lines@.len() ==> #[trigger] lines@[j]@ == ctx.line_chars(
                        start.line - 1 + j,
                    ),
            decreases end.line - k,
        {
            let line = ctx.line_text(k);
            lines.push(line);
            k = k + 1;
        }
        Location { file_path: ctx.path(), lines, start, end, span: *self }
    }
}

/// Information about where a given AST node is located in the source file
#[derive(Clone, Copy, Debug, PartialEq, Eq, Structural)]
pub struct LineCol {
    /// The line on which the node starts, counted from 1
    pub line: usize,
    /// The column on which node starts: bytes after the start of the line
    pub column: usize,
}

/// `lc` is where byte `offset` stands, given the offsets at which lines
/// start: the line is the last one that starts at or before `offset`.
pub open spec fn resolves_to(starts: Seq<usize>, offset: int, lc: LineCol) -> bool {
    &&& 1 <= lc.line <= starts.len()
    &&& starts[lc.line - 1] <= offset
    &&& (lc.line < starts.len() ==> offset < starts[lc.line as int])
    &&& lc.column == offset - starts[lc.line - 1]
}

/// All information about the location of a specific item
#[derive(Clone, Debug)]
pub struct Location {
    /// The location of the file in which the item occurs
    pub file_path: PathBuf,
    /// The lines of source code encompassing this item
    pub lines: Vec<String>,
    /// The location of the start of this item
    pub start: LineCol,
    /// The location of the end of this item
    pub end: LineCol,
    /// The region of source code spanned by this item
    pub span: Span,
}

/// Resolving the empty span at the start of any source gives line 1,
/// column 0 for both of its ends.
pub proof fn lemma_origin_resolves(ctx: &SourceContext, start: LineCol, end: LineCol)
    requires
        ctx.wf(),
        resolves_to(ctx.line_table(), 0, start),
        resolves_to(ctx.line_table(), 0, end),
    ensures
        start == (LineCol { line: 1, column: 0 }),
        end == (LineCol { line: 1, column: 0 }),
{
    ctx.lemma_table();
}

} // verus!
