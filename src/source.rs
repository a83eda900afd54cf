//! The source context of one parse: display name, text, and the table of
//! line starts that locations are resolved against.

use std::path::PathBuf;

use vstd::prelude::*;
use vstd::string::*;
use vstd::utf8::*;

use crate::location::{resolves_to, LineCol};
use crate::text::blen;

verus! {

broadcast use vstd::seq::group_seq_axioms, vstd::seq_lib::group_seq_properties;

/// The byte offsets at which lines start: 0, then one past each `\n`.
pub open spec fn line_starts_of(b: Seq<u8>) -> Seq<usize>
    decreases b.len(),
{
    if b.len() == 0 {
        seq![0usize]
    } else {
        let prev = line_starts_of(b.drop_last());
        if b.last() == 10u8 {
            prev.push(b.len() as usize)
        } else {
            prev
        }
    }
}

/// Relies on `codespan_reporting::files::line_starts`: offset 0, then the
/// offset after each `\n`, in order.
#[verifier::external_body]
fn line_starts(s: &str) -> (r: Vec<usize>)
    ensures
        r@ == line_starts_of(s.spec_bytes()),
{
    codespan_reporting::files::line_starts(s).collect()
}

/// Relies on `PathBuf::from`: the display name read as a path.
#[verifier::external_body]
fn path_of(name: &str) -> PathBuf {
    PathBuf::from(name)
}

/// The table starts with 0, grows strictly, and each later entry stands
/// just after a newline.
proof fn lemma_line_starts(b: Seq<u8>)
    requires
        b.len() <= usize::MAX,
    ensures
        line_starts_of(b).len() >= 1,
        line_starts_of(b)[0] == 0,
        forall|i: int, j: int|
            0 <= i < j < line_starts_of(b).len() ==> line_starts_of(b)[i] < line_starts_of(b)[j],
        forall|i: int|
            0 < i < line_starts_of(b).len() ==> 1 <= #[trigger] line_starts_of(b)[i] <= b.len()
                && b[line_starts_of(b)[i] - 1] == 10u8,
    decreases b.len(),
{
    if b.len() > 0 {
        let p = b.drop_last();
        lemma_line_starts(p);
        assert forall|i: int| 0 < i < line_starts_of(p).len() implies b[line_starts_of(p)[i] - 1]
            == 10u8 by {
            assert(b[line_starts_of(p)[i] - 1] == p[line_starts_of(p)[i] - 1]);
        }
    }
}

/// One past a newline is a character boundary.
proof fn lemma_after_newline(b: Seq<u8>, i: int)
    requires
        valid_utf8(b),
        0 <= i < b.len(),
        b[i] == 10u8,
    ensures
        is_char_boundary(b, i + 1),
{
    is_char_boundary_iff_not_is_continuation_byte(b, i);
    is_char_boundary_start_end_of_seq(b);
    if i + 1 < b.len() {
        valid_utf8_split(b, i);
        let s = b.subrange(i, b.len() as int);
        reveal_with_fuel(valid_utf8, 2);
        assert(pop_first_scalar(s) =~= b.subrange(i + 1, b.len() as int));
        is_char_boundary_iff_not_is_continuation_byte(b, i + 1);
    }
}

/// A boundary of `b` before `e` is a boundary of `b`'s first `e` bytes.
proof fn lemma_boundary_in_prefix(b: Seq<u8>, a: int, e: int)
    requires
        valid_utf8(b),
        0 <= a <= e <= b.len(),
        is_char_boundary(b, a),
        is_char_boundary(b, e),
    ensures
        valid_utf8(b.subrange(0, e)),
        is_char_boundary(b.subrange(0, e), a),
{
    valid_utf8_split(b, e);
    let p = b.subrange(0, e);
    is_char_boundary_start_end_of_seq(p);
    if a < e {
        is_char_boundary_iff_not_is_continuation_byte(b, a);
        is_char_boundary_iff_not_is_continuation_byte(p, a);
    }
}

/// An immutable association of a display name and the full source text,
/// with the offsets at which its lines start.
#[derive(Clone, Debug)]
pub struct SourceContext {
    name: String,
    source: String,
    line_starts: Vec<usize>,
}

impl SourceContext {
    /// The table is the one of the text, and every offset fits in `usize`.
    pub open spec fn wf(&self) -> bool {
        &&& self.line_table() == line_starts_of(encode_utf8(self.text()))
        &&& blen(self.text()) < usize::MAX
    }

    /// The display name.
    pub closed spec fn spec_name(&self) -> Seq<char> {
        self.name@
    }

    /// The characters of the text.
    pub closed spec fn text(&self) -> Seq<char> {
        self.source@
    }

    /// The length of the text in bytes.
    pub open spec fn spec_len(&self) -> int {
        blen(self.text()) as int
    }

    /// The offsets at which lines start.
    pub closed spec fn line_table(&self) -> Seq<usize> {
        self.line_starts@
    }

    /// The byte offset at which line `k` (counted from 0) ends, before its
    /// newline if it has one.
    pub closed spec fn line_end(&self, k: int) -> int {
        if k + 1 < self.line_starts@.len() {
            self.line_starts@[k + 1] - 1
        } else {
            self.spec_len()
        }
    }

    /// The characters of line `k` (counted from 0), without its newline.
    pub closed spec fn line_chars(&self, k: int) -> Seq<char> {
        decode_utf8(encode_utf8(self.source@).subrange(self.line_starts@[k] as int, self.line_end(k)))
    }

    /// Make a context for `source`, shown under `name`.
    pub fn new(name: String, source: String) -> (r: SourceContext)
        requires
            blen(source@) < usize::MAX,
        ensures
            r.wf(),
            r.spec_name() == name@,
            r.text() == source@,
    {
        let line_starts = line_starts(source.as_str());
        SourceContext { name, source, line_starts }
    }

    /// The display name.
    pub fn name(&self) -> (r: &str)
        ensures
            r@ == self.spec_name(),
    {
        self.name.as_str()
    }

    /// The full source text.
    pub fn source(&self) -> (r: &str)
        ensures
            r@ == self.text(),
            self.wf() ==> blen(r@) < usize::MAX,
    {
        self.source.as_str()
    }

    /// A copy of this context.
    pub fn duplicate(&self) -> (r: SourceContext)
        ensures
            r.spec_name() == self.spec_name(),
            r.text() == self.text(),
            r.line_table() == self.line_table(),
            self.wf() ==> r.wf(),
    {
        SourceContext {
            name: self.name.clone(),
            source: self.source.clone(),
            line_starts: self.line_starts.clone(),
        }
    }

    /// The display name read as a file-system path.
    pub fn path(&self) -> PathBuf {
        path_of(self.name.as_str())
    }

    /// Facts about the table of line starts.
    pub proof fn lemma_table(&self)
        requires
            self.wf(),
        ensures
            self.line_table().len() >= 1,
            self.line_table()[0] == 0,
            forall|i: int, j: int|
                0 <= i < j < self.line_table().len() ==> self.line_table()[i]
                    < self.line_table()[j],
            forall|i: int|
                0 < i < self.line_table().len() ==> 1 <= #[trigger] self.line_table()[i]
                    <= self.spec_len() && encode_utf8(self.text())[self.line_table()[i] - 1]
                    == 10u8,
    {
        lemma_line_starts(encode_utf8(self.source@));
    }

    /// A later offset never resolves to an earlier line.
    pub proof fn lemma_resolve_monotone(&self, o1: int, o2: int, a: LineCol, b: LineCol)
        requires
            self.wf(),
            o1 <= o2,
            resolves_to(self.line_table(), o1, a),
            resolves_to(self.line_table(), o2, b),
        ensures
            a.line <= b.line,
    {
        self.lemma_table();
        if a.line > b.line {
            assert(self.line_table()[b.line as int] <= self.line_table()[a.line - 1]);
        }
    }

    /// The line and column of byte `offset`, found by binary search in the
    /// table of line starts.
    pub fn line_col(&self, offset: usize) -> (r: LineCol)
        requires
            self.wf(),
            offset <= self.spec_len(),
        ensures
            resolves_to(self.line_table(), offset as int, r),
    {
        proof {
            self.lemma_table();
        }
        let n = self.line_starts.len();
        let mut lo: usize = 0;
        let mut hi: usize = n;
        while hi - lo > 1
            invariant
                n == self.line_starts@.len(),
                0 <= lo < hi <= n,
                self.line_starts@[lo as int] <= offset,
                hi < n ==> offset < self.line_starts@[hi as int],
            decreases hi - lo,
        {
            let mid = lo + (hi - lo) / 2;
            if self.line_starts[mid] <= offset {
                lo = mid;
            } else {
                hi = mid;
            }
        }
        LineCol { line: lo + 1, column: offset - self.line_starts[lo] }
    }

    /// The text of line `k` (counted from 0), without its newline.
    pub fn line_text(&self, k: usize) -> (r: String)
        requires
            self.wf(),
            k < self.line_table().len(),
        ensures
            r@ == self.line_chars(k as int),
    {
        proof {
            self.lemma_table();
        }
        let ghost b = encode_utf8(self.source@);
        let src = self.source.as_str();
        assert(src.spec_bytes() == b);
        let a = self.line_starts[k];
        let e = if k < self.line_starts.len() - 1 {
            self.line_starts[k + 1] - 1
        } else {
            src.len()
        };
        proof {
            encode_utf8_valid_utf8(self.source@);
            is_char_boundary_start_end_of_seq(b);
            if k > 0 {
                lemma_after_newline(b, a - 1);
            }
            if k + 1 < self.line_starts@.len() {
                is_char_boundary_iff_not_is_continuation_byte(b, e as int);
            }
            lemma_boundary_in_prefix(b, a as int, e as int);
        }
        let (pre, _) = src.split_at(e);
        let (_, line) = pre.split_at(a);
        proof {
            assert(line.spec_bytes() =~= b.subrange(a as int, e as int));
            encode_utf8_decode_utf8(line@);
        }
        line.to_owned()
    }
}

} // verus!
