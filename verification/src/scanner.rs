//! The lexical scanner: a single-pass, one-byte-lookahead tokenizer with
//! maximal munge and line tracking.
//!
//! The model of a scan is written over the byte sequence of the source:
//! `skip_end` gives the cursor position after leading whitespace and
//! comments, `newline_count` the line counter's growth, and the `*_end`
//! functions the extent of each lexeme class.

use crate::token::{
    is_ascii_alphabetic_or_underscore, keyword_or_ident, spec_is_alpha_or_underscore,
    spec_is_digit, spec_is_ident_continue, spec_keyword_or_ident, ScanError, Token,
};
use crate::value::{number_bits_of, parse_number};
use vstd::prelude::*;
use vstd::slice::{slice_subrange, slice_to_vec};
use vstd::string::{StrSliceExecFns, StringSliceAdditionalSpecFns};

verus! {

/// Whitespace that is skipped without affecting the line counter.
pub open spec fn spec_is_ws(c: u8) -> bool {
    c == ' ' as u8 || c == '\r' as u8 || c == '\t' as u8
}

/// The number of newline bytes in `code[a..b]`.
pub open spec fn newline_count(code: Seq<u8>, a: int, b: int) -> int
    decreases b - a,
{
    if a >= b {
        0
    } else {
        newline_count(code, a, b - 1) + if code[b - 1] == '\n' as u8 {
            1int
        } else {
            0int
        }
    }
}

/// The count never exceeds the width of the range.
pub proof fn lemma_newline_count_bound(code: Seq<u8>, a: int, b: int)
    ensures
        newline_count(code, a, b) <= if a >= b {
            0int
        } else {
            b - a
        },
        newline_count(code, a, b) >= 0,
    decreases b - a,
{
    if a < b {
        lemma_newline_count_bound(code, a, b - 1);
    }
}

/// Counting over adjacent ranges adds up.
pub proof fn lemma_newline_count_concat(code: Seq<u8>, a: int, m: int, b: int)
    requires
        a <= m <= b,
    ensures
        newline_count(code, a, b) == newline_count(code, a, m) + newline_count(code, m, b),
    decreases b - m,
{
    if m < b {
        lemma_newline_count_concat(code, a, m, b - 1);
    }
}

/// Where the scanner's skip phase stands: in ordinary code, inside a `//`
/// comment, or inside a `/* ... */` comment.
pub enum SkipMode {
    Code,
    InLineComment,
    InBlockComment,
}

/// Ordering for the termination of `skip_end`: leaving a line comment at a
/// newline re-examines the same byte in ordinary mode.
pub open spec fn skip_rank(mode: SkipMode) -> int {
    match mode {
        SkipMode::InLineComment => 1,
        _ => 0,
    }
}

/// The cursor position where the skip phase started at `i` in `mode` ends:
/// whitespace and newlines are consumed, `//` consumes up to (not including)
/// the next newline, `/*` consumes up to and including the matching `*/`.
/// A block comment left open is consumed through the end of the input.
pub open spec fn skip_end(code: Seq<u8>, i: int, mode: SkipMode) -> int
    decreases code.len() - i, skip_rank(mode),
{
    if i < 0 || i >= code.len() {
        code.len() as int
    } else {
        match mode {
            SkipMode::Code => {
                let c = code[i];
                if spec_is_ws(c) || c == '\n' as u8 {
                    skip_end(code, i + 1, SkipMode::Code)
                } else if c == '/' as u8 && i + 1 < code.len() && code[i + 1] == '/' as u8 {
                    skip_end(code, i + 2, SkipMode::InLineComment)
                } else if c == '/' as u8 && i + 1 < code.len() && code[i + 1] == '*' as u8 {
                    skip_end(code, i + 2, SkipMode::InBlockComment)
                } else {
                    i
                }
            },
            SkipMode::InLineComment => {
                if code[i] == '\n' as u8 {
                    skip_end(code, i, SkipMode::Code)
                } else {
                    skip_end(code, i + 1, SkipMode::InLineComment)
                }
            },
            SkipMode::InBlockComment => {
                if code[i] == '*' as u8 && i + 1 < code.len() && code[i + 1] == '/' as u8 {
                    skip_end(code, i + 2, SkipMode::Code)
                } else {
                    skip_end(code, i + 1, SkipMode::InBlockComment)
                }
            },
        }
    }
}

/// The skip phase never moves backwards and never leaves the input.
pub proof fn lemma_skip_end_range(code: Seq<u8>, i: int, mode: SkipMode)
    requires
        0 <= i <= code.len(),
    ensures
        i <= skip_end(code, i, mode) <= code.len(),
    decreases code.len() - i, skip_rank(mode),
{
    if i < code.len() {
        match mode {
            SkipMode::Code => {
                let c = code[i];
                if spec_is_ws(c) || c == '\n' as u8 {
                    lemma_skip_end_range(code, i + 1, SkipMode::Code);
                } else if c == '/' as u8 && i + 1 < code.len() && code[i + 1] == '/' as u8 {
                    lemma_skip_end_range(code, i + 2, SkipMode::InLineComment);
                } else if c == '/' as u8 && i + 1 < code.len() && code[i + 1] == '*' as u8 {
                    lemma_skip_end_range(code, i + 2, SkipMode::InBlockComment);
                }
            },
            SkipMode::InLineComment => {
                if code[i] == '\n' as u8 {
                    lemma_skip_end_range(code, i, SkipMode::Code);
                } else {
                    lemma_skip_end_range(code, i + 1, SkipMode::InLineComment);
                }
            },
            SkipMode::InBlockComment => {
                if code[i] == '*' as u8 && i + 1 < code.len() && code[i + 1] == '/' as u8 {
                    lemma_skip_end_range(code, i + 2, SkipMode::Code);
                } else {
                    lemma_skip_end_range(code, i + 1, SkipMode::InBlockComment);
                }
            },
        }
    }
}

/// The skip phase stops only at the end of the input or on a byte that
/// begins a lexeme: not whitespace, not a newline, not a comment opener.
pub proof fn lemma_skip_end_stops(code: Seq<u8>, i: int, mode: SkipMode)
    requires
        0 <= i <= code.len(),
    ensures
        ({
            let j = skip_end(code, i, mode);
            j < code.len() ==> {
                &&& !spec_is_ws(code[j])
                &&& code[j] != '\n' as u8
                &&& !(code[j] == '/' as u8 && j + 1 < code.len() && (code[j + 1] == '/' as u8
                    || code[j + 1] == '*' as u8))
            }
        }),
    decreases code.len() - i, skip_rank(mode),
{
    if i < code.len() {
        match mode {
            SkipMode::Code => {
                let c = code[i];
                if spec_is_ws(c) || c == '\n' as u8 {
                    lemma_skip_end_stops(code, i + 1, SkipMode::Code);
                } else if c == '/' as u8 && i + 1 < code.len() && code[i + 1] == '/' as u8 {
                    lemma_skip_end_stops(code, i + 2, SkipMode::InLineComment);
                } else if c == '/' as u8 && i + 1 < code.len() && code[i + 1] == '*' as u8 {
                    lemma_skip_end_stops(code, i + 2, SkipMode::InBlockComment);
                }
            },
            SkipMode::InLineComment => {
                if code[i] == '\n' as u8 {
                    lemma_skip_end_stops(code, i, SkipMode::Code);
                } else {
                    lemma_skip_end_stops(code, i + 1, SkipMode::InLineComment);
                }
            },
            SkipMode::InBlockComment => {
                if code[i] == '*' as u8 && i + 1 < code.len() && code[i + 1] == '/' as u8 {
                    lemma_skip_end_stops(code, i + 2, SkipMode::Code);
                } else {
                    lemma_skip_end_stops(code, i + 1, SkipMode::InBlockComment);
                }
            },
        }
    }
}

/// The first position at or after `i` that does not hold an ASCII digit.
pub open spec fn digit_run_end(code: Seq<u8>, i: int) -> int
    decreases code.len() - i,
{
    if 0 <= i < code.len() && spec_is_digit(code[i]) {
        digit_run_end(code, i + 1)
    } else {
        i
    }
}

/// The end of a numeric lexeme beginning at `i`: a run of digits, then
/// optionally a dot followed by a (possibly empty) run of digits.
pub open spec fn number_end(code: Seq<u8>, i: int) -> int {
    let d = digit_run_end(code, i);
    if d < code.len() && code[d] == '.' as u8 {
        digit_run_end(code, d + 1)
    } else {
        d
    }
}

/// The first position at or after `i` that cannot continue an identifier.
pub open spec fn ident_end(code: Seq<u8>, i: int) -> int
    decreases code.len() - i,
{
    if 0 <= i < code.len() && spec_is_ident_continue(code[i]) {
        ident_end(code, i + 1)
    } else {
        i
    }
}

/// The position of the first `"` at or after `i`, or the input's length if
/// there is none.
pub open spec fn find_quote(code: Seq<u8>, i: int) -> int
    decreases code.len() - i,
{
    if 0 <= i < code.len() {
        if code[i] == '"' as u8 {
            i
        } else {
            find_quote(code, i + 1)
        }
    } else {
        code.len() as int
    }
}

/// A run end never moves backwards and never leaves the input.
pub proof fn lemma_digit_run_end_range(code: Seq<u8>, i: int)
    requires
        0 <= i <= code.len(),
    ensures
        i <= digit_run_end(code, i) <= code.len(),
    decreases code.len() - i,
{
    if i < code.len() && spec_is_digit(code[i]) {
        lemma_digit_run_end_range(code, i + 1);
    }
}

/// A numeric lexeme's end never moves backwards and never leaves the input.
pub proof fn lemma_number_end_range(code: Seq<u8>, i: int)
    requires
        0 <= i <= code.len(),
    ensures
        i <= number_end(code, i) <= code.len(),
{
    lemma_digit_run_end_range(code, i);
    let d = digit_run_end(code, i);
    if d < code.len() && code[d] == '.' as u8 {
        lemma_digit_run_end_range(code, d + 1);
    }
}

/// An identifier end never moves backwards and never leaves the input.
pub proof fn lemma_ident_end_range(code: Seq<u8>, i: int)
    requires
        0 <= i <= code.len(),
    ensures
        i <= ident_end(code, i) <= code.len(),
    decreases code.len() - i,
{
    if i < code.len() && spec_is_ident_continue(code[i]) {
        lemma_ident_end_range(code, i + 1);
    }
}

/// The found quote never lies before `i` nor outside the input.
pub proof fn lemma_find_quote_range(code: Seq<u8>, i: int)
    requires
        0 <= i <= code.len(),
    ensures
        i <= find_quote(code, i) <= code.len(),
    decreases code.len() - i,
{
    if i < code.len() && code[i] != '"' as u8 {
        lemma_find_quote_range(code, i + 1);
    }
}

/// The cursor position after the lexeme (or lexical error) that begins at
/// `j`: the extent of maximal munge for every byte class.
pub open spec fn lexeme_end(code: Seq<u8>, j: int) -> int {
    let c = code[j];
    if spec_is_digit(c) {
        number_end(code, j)
    } else if spec_single_token(c) is Some {
        j + 1
    } else if spec_two_char_tokens(c) is Some {
        if j + 1 < code.len() && code[j + 1] == '=' as u8 {
            j + 2
        } else {
            j + 1
        }
    } else if c == '"' as u8 {
        let q = find_quote(code, j + 1);
        if q == code.len() {
            code.len() as int
        } else {
            q + 1
        }
    } else if spec_is_alpha_or_underscore(c) {
        ident_end(code, j)
    } else {
        j + 1
    }
}

/// Every lexeme consumes at least one byte and stays within the input.
pub proof fn lemma_lexeme_end_range(code: Seq<u8>, j: int)
    requires
        0 <= j < code.len(),
    ensures
        j < lexeme_end(code, j) <= code.len(),
{
    let c = code[j];
    if spec_is_digit(c) {
        lemma_digit_run_end_range(code, j + 1);
        let d = digit_run_end(code, j);
        if d < code.len() && code[d] == '.' as u8 {
            lemma_digit_run_end_range(code, d + 1);
        }
    } else if c == '"' as u8 {
        lemma_find_quote_range(code, j + 1);
    } else if spec_is_alpha_or_underscore(c) {
        lemma_ident_end_range(code, j + 1);
    }
}

/// The `(skipped, lexeme length)` pairs of the scans that a full pass over
/// `code` makes from cursor `i`, one pair per `scan_token` call; the final
/// call, which meets the end of the input, contributes what it skipped and
/// an empty lexeme.
pub open spec fn scan_consumed(code: Seq<u8>, i: int) -> Seq<(int, int)>
    decreases code.len() - i
        when 0 <= i <= code.len()
    via scan_consumed_decreases
{
    let j = skip_end(code, i, SkipMode::Code);
    if j >= code.len() {
        seq![(j - i, 0int)]
    } else {
        seq![(j - i, lexeme_end(code, j) - j)] + scan_consumed(code, lexeme_end(code, j))
    }
}

#[via_fn]
proof fn scan_consumed_decreases(code: Seq<u8>, i: int) {
    lemma_skip_end_range(code, i, SkipMode::Code);
    let j = skip_end(code, i, SkipMode::Code);
    if j < code.len() {
        lemma_lexeme_end_range(code, j);
    }
}

/// The total number of bytes the recorded scans account for: skipped
/// whitespace and comments plus lexeme lengths.
pub open spec fn consumed_sum(steps: Seq<(int, int)>) -> int
    decreases steps.len(),
{
    if steps.len() == 0 {
        0
    } else {
        steps.first().0 + steps.first().1 + consumed_sum(steps.drop_first())
    }
}

/// Input reconstruction: over a full pass from cursor `i` to the end of the
/// input, the concatenated lexeme lengths plus the skipped whitespace and
/// comment lengths account for every remaining byte of the input exactly.
/// In particular, from cursor 0 they reconstruct the input's length.
pub proof fn lemma_scan_reconstructs_input(code: Seq<u8>, i: int)
    requires
        0 <= i <= code.len(),
    ensures
        consumed_sum(scan_consumed(code, i)) == code.len() - i,
    decreases code.len() - i,
{
    lemma_skip_end_range(code, i, SkipMode::Code);
    let j = skip_end(code, i, SkipMode::Code);
    if j >= code.len() {
        assert(j == code.len());
        let steps = scan_consumed(code, i);
        assert(steps =~= seq![(j - i, 0int)]);
        assert(steps.drop_first() =~= Seq::<(int, int)>::empty());
        assert(consumed_sum(steps.drop_first()) == 0);
        assert(consumed_sum(steps) == j - i);
    } else {
        lemma_lexeme_end_range(code, j);
        let e = lexeme_end(code, j);
        lemma_scan_reconstructs_input(code, e);
        let steps = scan_consumed(code, i);
        assert(steps =~= seq![(j - i, e - j)] + scan_consumed(code, e));
        assert(steps.first() == (j - i, e - j));
        assert(steps.drop_first() =~= scan_consumed(code, e));
        assert(consumed_sum(steps) == (j - i) + (e - j) + consumed_sum(scan_consumed(code, e)));
    }
}

/// One scan's consumption, tied to `scan_token`'s contract: a successful
/// call consumes the skipped prefix plus exactly the lexeme length it
/// reports, and the reported length is the distance from the lexeme's start
/// to the cursor's landing place.
pub proof fn lemma_scan_token_consumption(
    code: Seq<u8>,
    c0: int,
    s1: Scanner,
    r: Result<(Token, usize, usize), ScanError>,
)
    requires
        0 <= c0 <= code.len(),
        scan_token_post(code, c0, s1, r),
    ensures
        r matches Ok(t) ==> s1.cursor == skip_end(code, c0, SkipMode::Code) + t.2,
        r matches Ok(t) ==> t.2 == s1.cursor - s1.start,
        ({
            let j = skip_end(code, c0, SkipMode::Code);
            j < code.len() ==> s1.cursor == lexeme_end(code, j)
        }),
{
    lemma_skip_end_range(code, c0, SkipMode::Code);
    let j = skip_end(code, c0, SkipMode::Code);
    if j < code.len() {
        lemma_lexeme_end_range(code, j);
        if spec_is_digit(code[j]) {
            lemma_digit_run_end_range(code, j + 1);
            let d = digit_run_end(code, j);
            if d < code.len() && code[d] == '.' as u8 {
                lemma_digit_run_end_range(code, d + 1);
            }
        } else if code[j] == '"' as u8 {
            lemma_find_quote_range(code, j + 1);
        } else if spec_is_alpha_or_underscore(code[j]) {
            lemma_ident_end_range(code, j + 1);
        }
    }
}

/// Maximal munge: where the skip phase leaves the scanner on an operator
/// byte that an `=` follows, one combined two-character token is scanned —
/// never the two single-character tokens one after the other.
pub proof fn lemma_maximal_munge(
    code: Seq<u8>,
    c0: int,
    s1: Scanner,
    r: Result<(Token, usize, usize), ScanError>,
)
    requires
        0 <= c0 <= code.len(),
        scan_token_post(code, c0, s1, r),
        ({
            let j = skip_end(code, c0, SkipMode::Code);
            &&& j + 1 < code.len()
            &&& spec_two_char_tokens(code[j]) is Some
            &&& code[j + 1] == '=' as u8
        }),
    ensures
        ({
            let j = skip_end(code, c0, SkipMode::Code);
            &&& r == Ok::<(Token, usize, usize), ScanError>(
                ((spec_two_char_tokens(code[j])->0).1, s1.line, 2usize),
            )
            &&& s1.cursor == j + 2
        }),
{
    lemma_skip_end_range(code, c0, SkipMode::Code);
}

/// The scanner: a byte buffer with a lexeme start mark, a cursor, and a
/// line counter starting at 1.
pub struct Scanner {
    pub code: Vec<u8>,
    pub start: usize,
    pub cursor: usize,
    pub line: usize,
}

impl Scanner {
    /// Well-formedness: the marks lie within the input, and the line counter
    /// keeps enough headroom that counting every remaining newline cannot
    /// overflow it.
    pub open spec fn wf(self) -> bool {
        &&& self.cursor <= self.code@.len()
        &&& self.start <= self.code@.len()
        &&& 1 <= self.line
        &&& self.line + self.code@.len() - self.cursor <= usize::MAX
    }

    /// A fresh scanner over the UTF-8 bytes of `code`, at the start of line 1.
    pub fn new(code: &str) -> (s: Scanner)
        ensures
            s.code@ == code.spec_bytes(),
            s.start == 0,
            s.cursor == 0,
            s.line == 1,
            s.code@.len() < usize::MAX ==> s.wf(),
    {
        Scanner { code: code.as_bytes_vec(), start: 0, cursor: 0, line: 1 }
    }

    /// The byte under the cursor, if any; the cursor does not move.
    pub fn peek(&self) -> (r: Option<&u8>)
        ensures
            r is Some <==> self.cursor < self.code@.len(),
            r matches Some(c) ==> *c == self.code@[self.cursor as int],
    {
        self.code.get(self.cursor)
    }

    /// The byte after the one under the cursor, if any.
    pub fn peek_next(&self) -> (r: Option<&u8>)
        ensures
            r is Some <==> self.cursor + 1 < self.code@.len(),
            r matches Some(c) ==> *c == self.code@[self.cursor + 1],
    {
        if self.cursor < self.code.len() {
            self.code.get(self.cursor + 1)
        } else {
            None
        }
    }

    /// Whether the whole input has been consumed.
    pub fn is_at_end(&self) -> (r: bool)
        ensures
            r == (self.cursor == self.code@.len()),
    {
        self.cursor == self.code.len()
    }

    /// Consume and return the byte under the cursor, if any.
    pub fn advance(&mut self) -> (r: Option<u8>)
        requires
            old(self).cursor <= old(self).code@.len(),
        ensures
            final(self).code@ == old(self).code@,
            final(self).start == old(self).start,
            final(self).line == old(self).line,
            r is Some <==> old(self).cursor < old(self).code@.len(),
            r matches Some(c) ==> {
                &&& c == old(self).code@[old(self).cursor as int]
                &&& final(self).cursor == old(self).cursor + 1
            },
            r is None ==> final(self).cursor == old(self).cursor,
    {
        if self.cursor < self.code.len() {
            let c = self.code[self.cursor];
            self.cursor = self.cursor + 1;
            Some(c)
        } else {
            None
        }
    }

    /// Consume the byte under the cursor exactly when it is `expected`.
    pub fn match_bin(&mut self, expected: u8) -> (r: Option<()>)
        requires
            old(self).cursor <= old(self).code@.len(),
        ensures
            final(self).code@ == old(self).code@,
            final(self).start == old(self).start,
            final(self).line == old(self).line,
            r is Some <==> (old(self).cursor < old(self).code@.len() && old(self).code@[old(
                self,
            ).cursor as int] == expected),
            r is Some ==> final(self).cursor == old(self).cursor + 1,
            r is None ==> final(self).cursor == old(self).cursor,
    {
        if self.cursor < self.code.len() {
            let c = self.code[self.cursor];
            if c == expected {
                self.cursor = self.cursor + 1;
                return Some(());
            }
        }
        None
    }

    /// Skip whitespace, newlines (counting them), line comments and block
    /// comments, leaving the cursor on the first byte of the next lexeme or
    /// at the end of the input.
    pub fn whitespaces_and_comments(&mut self)
        requires
            old(self).wf(),
        ensures
            final(self).wf(),
            final(self).code@ == old(self).code@,
            final(self).start == old(self).start,
            final(self).cursor == skip_end(old(self).code@, old(self).cursor as int, SkipMode::Code),
            final(self).line == old(self).line + newline_count(
                old(self).code@,
                old(self).cursor as int,
                final(self).cursor as int,
            ),
    {
        let len = self.code.len();
        let ghost code = self.code@;
        let ghost c0 = self.cursor as int;
        let ghost l0 = self.line as int;
        let ghost st0 = self.start;
        let mut mode = SkipMode::Code;
        proof {
            lemma_newline_count_bound(code, c0, c0);
        }
        loop
            invariant
                self.wf(),
                self.code@ == code,
                self.start == st0,
                len == code.len(),
                c0 <= self.cursor as int,
                skip_end(code, self.cursor as int, mode) == skip_end(code, c0, SkipMode::Code),
                self.line == l0 + newline_count(code, c0, self.cursor as int),
            ensures
                self.wf(),
                self.code@ == code,
                self.start == st0,
                self.cursor == skip_end(code, c0, SkipMode::Code),
                self.line == l0 + newline_count(code, c0, self.cursor as int),
            decreases len - self.cursor, skip_rank(mode),
        {
            if self.cursor >= len {
                break ;
            }
            let c = self.code[self.cursor];
            proof {
                assert(newline_count(code, c0, self.cursor + 1) == newline_count(
                    code,
                    c0,
                    self.cursor as int,
                ) + if code[self.cursor as int] == '\n' as u8 {
                    1int
                } else {
                    0int
                });
            }
            match mode {
                SkipMode::Code => {
                    if c == ' ' as u8 || c == '\r' as u8 || c == '\t' as u8 {
                        self.cursor = self.cursor + 1;
                    } else if c == '\n' as u8 {
                        self.line = self.line + 1;
                        self.cursor = self.cursor + 1;
                    } else if c == '/' as u8 && self.cursor + 1 < len && self.code[self.cursor + 1]
                        == '/' as u8 {
                        proof {
                            assert(newline_count(code, c0, self.cursor + 2) == newline_count(
                                code,
                                c0,
                                self.cursor + 1,
                            ));
                        }
                        self.cursor = self.cursor + 2;
                        mode = SkipMode::InLineComment;
                    } else if c == '/' as u8 && self.cursor + 1 < len && self.code[self.cursor + 1]
                        == '*' as u8 {
                        proof {
                            assert(newline_count(code, c0, self.cursor + 2) == newline_count(
                                code,
                                c0,
                                self.cursor + 1,
                            ));
                        }
                        self.cursor = self.cursor + 2;
                        mode = SkipMode::InBlockComment;
                    } else {
                        break ;
                    }
                },
                SkipMode::InLineComment => {
                    if c == '\n' as u8 {
                        mode = SkipMode::Code;
                    } else {
                        self.cursor = self.cursor + 1;
                    }
                },
                SkipMode::InBlockComment => {
                    if c == '*' as u8 && self.cursor + 1 < len && self.code[self.cursor + 1]
                        == '/' as u8 {
                        proof {
                            assert(newline_count(code, c0, self.cursor + 2) == newline_count(
                                code,
                                c0,
                                self.cursor + 1,
                            ));
                        }
                        self.cursor = self.cursor + 2;
                        mode = SkipMode::Code;
                    } else {
                        if c == '\n' as u8 {
                            self.line = self.line + 1;
                        }
                        self.cursor = self.cursor + 1;
                    }
                },
            }
        }
    }
    /// Scan the rest of a numeric lexeme whose first digit the caller has
    /// consumed, and parse the whole lexeme.
    pub fn numbers(&mut self) -> (r: Result<Token, ScanError>)
        requires
            old(self).wf(),
            old(self).start < old(self).code@.len(),
            old(self).cursor == old(self).start + 1,
            spec_is_digit(old(self).code@[old(self).start as int]),
        ensures
            final(self).wf(),
            final(self).code@ == old(self).code@,
            final(self).start == old(self).start,
            final(self).line == old(self).line,
            final(self).cursor == number_end(old(self).code@, old(self).start as int),
            newline_count(old(self).code@, old(self).cursor as int, final(self).cursor as int)
                == 0,
            ({
                let lex = old(self).code@.subrange(
                    old(self).start as int,
                    final(self).cursor as int,
                );
                match number_bits_of(lex) {
                    Some(v) => r == Ok::<Token, ScanError>(Token::Number(v)),
                    None => r == Err::<Token, ScanError>(ScanError::NumberNotRecognized),
                }
            }),
    {
        let ghost code = self.code@;
        let ghost st = self.start as int;
        let len = self.code.len();
        loop
            invariant
                self.wf(),
                self.code@ == code,
                self.start as int == st,
                self.line == old(self).line,
                st + 1 <= self.cursor as int <= len,
                len == code.len(),
                digit_run_end(code, self.cursor as int) == digit_run_end(code, st),
                newline_count(code, st + 1, self.cursor as int) == 0,
            ensures
                self.wf(),
                self.code@ == code,
                self.start as int == st,
                self.line == old(self).line,
                st + 1 <= self.cursor as int <= len,
                self.cursor as int == digit_run_end(code, st),
                newline_count(code, st + 1, self.cursor as int) == 0,
            decreases len - self.cursor,
        {
            if self.cursor >= len {
                break ;
            }
            let c = self.code[self.cursor];
            if !('0' as u8 <= c && c <= '9' as u8) {
                break ;
            }
            proof {
                assert(newline_count(code, st + 1, self.cursor + 1) == newline_count(
                    code,
                    st + 1,
                    self.cursor as int,
                ) + if code[self.cursor as int] == '\n' as u8 {
                    1int
                } else {
                    0int
                });
            }
            self.cursor = self.cursor + 1;
        }
        if self.cursor < len {
            let c = self.code[self.cursor];
            if c == '.' as u8 {
                proof {
                    assert(newline_count(code, st + 1, self.cursor + 1) == newline_count(
                        code,
                        st + 1,
                        self.cursor as int,
                    ) + if code[self.cursor as int] == '\n' as u8 {
                        1int
                    } else {
                        0int
                    });
                }
                self.cursor = self.cursor + 1;
                let ghost dot = self.cursor as int;
                loop
                    invariant
                        self.wf(),
                        self.code@ == code,
                        self.start as int == st,
                        self.line == old(self).line,
                        dot <= self.cursor as int <= len,
                        len == code.len(),
                        digit_run_end(code, self.cursor as int) == digit_run_end(code, dot),
                        number_end(code, st) == digit_run_end(code, dot),
                        newline_count(code, st + 1, self.cursor as int) == 0,
                    ensures
                        self.wf(),
                        self.code@ == code,
                        self.start as int == st,
                        self.line == old(self).line,
                        self.cursor as int == number_end(code, st),
                        newline_count(code, st + 1, self.cursor as int) == 0,
                    decreases len - self.cursor,
                {
                    if self.cursor >= len {
                        break ;
                    }
                    let c = self.code[self.cursor];
                    if !('0' as u8 <= c && c <= '9' as u8) {
                        break ;
                    }
                    proof {
                        assert(newline_count(code, st + 1, self.cursor + 1) == newline_count(
                            code,
                            st + 1,
                            self.cursor as int,
                        ) + if code[self.cursor as int] == '\n' as u8 {
                            1int
                        } else {
                            0int
                        });
                    }
                    self.cursor = self.cursor + 1;
                }
            }
        }
        let lexeme = slice_subrange(self.code.as_slice(), self.start, self.cursor);
        match parse_number(lexeme) {
            Some(v) => Ok(Token::Number(v)),
            None => Err(ScanError::NumberNotRecognized),
        }
    }

    /// Scan a string literal whose opening quote the caller has consumed:
    /// its payload is the raw bytes up to the next quote, and embedded
    /// newlines count against the line counter. An input that ends before
    /// the closing quote is an unmatched string.
    pub fn string(&mut self) -> (r: Result<Token, ScanError>)
        requires
            old(self).wf(),
            old(self).start < old(self).code@.len(),
            old(self).cursor == old(self).start + 1,
            old(self).code@[old(self).start as int] == '"' as u8,
        ensures
            final(self).wf(),
            final(self).code@ == old(self).code@,
            final(self).start == old(self).start,
            final(self).line == old(self).line + newline_count(
                old(self).code@,
                old(self).cursor as int,
                final(self).cursor as int,
            ),
            ({
                let code = old(self).code@;
                let q = find_quote(code, old(self).start + 1);
                if q == code.len() {
                    &&& r == Err::<Token, ScanError>(ScanError::UnmatchedString)
                    &&& final(self).cursor == code.len()
                } else {
                    &&& final(self).cursor == q + 1
                    &&& r matches Ok(t) && (t matches Token::String(p) && p@ == code.subrange(
                        old(self).start + 1,
                        q,
                    ))
                }
            }),
    {
        let ghost code = self.code@;
        let ghost st = self.start as int;
        let ghost l0 = self.line as int;
        let len = self.code.len();
        loop
            invariant
                self.wf(),
                self.code@ == code,
                self.start as int == st,
                st + 1 <= self.cursor as int <= len,
                len == code.len(),
                find_quote(code, self.cursor as int) == find_quote(code, st + 1),
                self.line == l0 + newline_count(code, st + 1, self.cursor as int),
            ensures
                self.wf(),
                self.code@ == code,
                self.start as int == st,
                st + 1 <= self.cursor as int <= len,
                self.cursor as int == find_quote(code, st + 1),
                ((self.cursor as int) < len) ==> code[self.cursor as int] == '"' as u8,
                self.line == l0 + newline_count(code, st + 1, self.cursor as int),
            decreases len - self.cursor,
        {
            if self.cursor >= len {
                break ;
            }
            let c = self.code[self.cursor];
            if c == '"' as u8 {
                break ;
            }
            proof {
                assert(newline_count(code, st + 1, self.cursor + 1) == newline_count(
                    code,
                    st + 1,
                    self.cursor as int,
                ) + if code[self.cursor as int] == '\n' as u8 {
                    1int
                } else {
                    0int
                });
            }
            if c == '\n' as u8 {
                self.line = self.line + 1;
            }
            self.cursor = self.cursor + 1;
        }
        if self.is_at_end() {
            return Err(ScanError::UnmatchedString);
        }
        let payload = slice_to_vec(slice_subrange(self.code.as_slice(), self.start + 1, self.cursor));
        proof {
            assert(newline_count(code, st + 1, self.cursor + 1) == newline_count(
                code,
                st + 1,
                self.cursor as int,
            ));
        }
        self.cursor = self.cursor + 1;
        Ok(Token::String(payload))
    }

    /// Scan the rest of an identifier whose first byte the caller has
    /// consumed, and classify it against the keyword table.
    pub fn identifier(&mut self) -> (r: Result<Token, ScanError>)
        requires
            old(self).wf(),
            old(self).start < old(self).code@.len(),
            old(self).cursor == old(self).start + 1,
            spec_is_alpha_or_underscore(old(self).code@[old(self).start as int]),
        ensures
            final(self).wf(),
            final(self).code@ == old(self).code@,
            final(self).start == old(self).start,
            final(self).line == old(self).line,
            final(self).cursor == ident_end(old(self).code@, old(self).start as int),
            newline_count(old(self).code@, old(self).cursor as int, final(self).cursor as int)
                == 0,
            r == Ok::<Token, ScanError>(
                spec_keyword_or_ident(
                    old(self).code@.subrange(old(self).start as int, final(self).cursor as int),
                ),
            ),
    {
        let ghost code = self.code@;
        let ghost st = self.start as int;
        let len = self.code.len();
        loop
            invariant
                self.wf(),
                self.code@ == code,
                self.start as int == st,
                self.line == old(self).line,
                st + 1 <= self.cursor as int <= len,
                len == code.len(),
                ident_end(code, self.cursor as int) == ident_end(code, st),
                newline_count(code, st + 1, self.cursor as int) == 0,
            ensures
                self.wf(),
                self.code@ == code,
                self.start as int == st,
                self.line == old(self).line,
                st + 1 <= self.cursor as int <= len,
                self.cursor as int == ident_end(code, st),
                newline_count(code, st + 1, self.cursor as int) == 0,
            decreases len - self.cursor,
        {
            if self.cursor >= len {
                break ;
            }
            let c = self.code[self.cursor];
            let is_digit = '0' as u8 <= c && c <= '9' as u8;
            if !(is_ascii_alphabetic_or_underscore(&c) || is_digit) {
                break ;
            }
            proof {
                assert(newline_count(code, st + 1, self.cursor + 1) == newline_count(
                    code,
                    st + 1,
                    self.cursor as int,
                ) + if code[self.cursor as int] == '\n' as u8 {
                    1int
                } else {
                    0int
                });
            }
            self.cursor = self.cursor + 1;
        }
        self.identifier_type()
    }

    /// Classify the lexeme between the start mark and the cursor.
    pub fn identifier_type(&mut self) -> (r: Result<Token, ScanError>)
        requires
            old(self).start <= old(self).cursor <= old(self).code@.len(),
        ensures
            *final(self) == *old(self),
            r == Ok::<Token, ScanError>(
                spec_keyword_or_ident(
                    old(self).code@.subrange(old(self).start as int, old(self).cursor as int),
                ),
            ),
    {
        let s = slice_subrange(self.code.as_slice(), self.start, self.cursor);
        Ok(keyword_or_ident(s))
    }
}

/// A single-byte lexeme that is not the prefix of a longer one.
pub open spec fn spec_single_token(c: u8) -> Option<Token> {
    if c == '(' as u8 {
        Some(Token::LeftParens)
    } else if c == ')' as u8 {
        Some(Token::RightParens)
    } else if c == '{' as u8 {
        Some(Token::LeftBrace)
    } else if c == '}' as u8 {
        Some(Token::RightBrace)
    } else if c == '[' as u8 {
        Some(Token::LeftSquare)
    } else if c == ']' as u8 {
        Some(Token::RightSquare)
    } else if c == ';' as u8 {
        Some(Token::Semicolon)
    } else if c == ',' as u8 {
        Some(Token::Comma)
    } else if c == '.' as u8 {
        Some(Token::Dot)
    } else if c == '-' as u8 {
        Some(Token::Minus)
    } else if c == '+' as u8 {
        Some(Token::Plus)
    } else if c == '/' as u8 {
        Some(Token::Slash)
    } else if c == '*' as u8 {
        Some(Token::Star)
    } else {
        None
    }
}

/// The single- or double-character operator beginning with `c`: a trailing
/// `=` is taken greedily (maximal munge).
pub open spec fn spec_two_char_tokens(c: u8) -> Option<(Token, Token)> {
    if c == '!' as u8 {
        Some((Token::Bang, Token::BangEqual))
    } else if c == '=' as u8 {
        Some((Token::Equal, Token::EqualEqual))
    } else if c == '<' as u8 {
        Some((Token::Lesser, Token::LesserEqual))
    } else if c == '>' as u8 {
        Some((Token::Greater, Token::GreaterEqual))
    } else {
        None
    }
}

/// What one `scan_token` call leaves behind, apart from the line counter:
/// with `j` the end of the skipped whitespace and comments, the lexeme (or
/// error) found at `j`, the token's reported line and length, and the
/// cursor's landing place, for every byte class.
pub open spec fn scan_token_post(
    code: Seq<u8>,
    c0: int,
    s1: Scanner,
    r: Result<(Token, usize, usize), ScanError>,
) -> bool {
    let j = skip_end(code, c0, SkipMode::Code);
    &&& s1.start == j
    &&& if j == code.len() {
        &&& r == Err::<(Token, usize, usize), ScanError>(ScanError::End)
        &&& s1.cursor == j
    } else {
        let c = code[j];
        if spec_is_digit(c) {
            let e = number_end(code, j);
            &&& s1.cursor == e
            &&& match number_bits_of(code.subrange(j, e)) {
                Some(v) => r == Ok::<(Token, usize, usize), ScanError>(
                    (Token::Number(v), s1.line, (e - j) as usize),
                ),
                None => r == Err::<(Token, usize, usize), ScanError>(
                    ScanError::NumberNotRecognized,
                ),
            }
        } else if spec_single_token(c) is Some {
            &&& s1.cursor == j + 1
            &&& r == Ok::<(Token, usize, usize), ScanError>(
                (spec_single_token(c)->0, s1.line, 1usize),
            )
        } else if spec_two_char_tokens(c) is Some {
            let pair = spec_two_char_tokens(c)->0;
            if j + 1 < code.len() && code[j + 1] == '=' as u8 {
                &&& s1.cursor == j + 2
                &&& r == Ok::<(Token, usize, usize), ScanError>((pair.1, s1.line, 2usize))
            } else {
                &&& s1.cursor == j + 1
                &&& r == Ok::<(Token, usize, usize), ScanError>((pair.0, s1.line, 1usize))
            }
        } else if c == '"' as u8 {
            let q = find_quote(code, j + 1);
            if q == code.len() {
                &&& r == Err::<(Token, usize, usize), ScanError>(ScanError::UnmatchedString)
                &&& s1.cursor == code.len()
            } else {
                &&& s1.cursor == q + 1
                &&& r matches Ok(t) && {
                    &&& t.0 matches Token::String(p) && p@ == code.subrange(j + 1, q)
                    &&& t.1 == s1.line
                    &&& t.2 == q + 1 - j
                }
            }
        } else if spec_is_alpha_or_underscore(c) {
            let e = ident_end(code, j);
            &&& s1.cursor == e
            &&& r == Ok::<(Token, usize, usize), ScanError>(
                (spec_keyword_or_ident(code.subrange(j, e)), s1.line, (e - j) as usize),
            )
        } else {
            &&& r == Err::<(Token, usize, usize), ScanError>(ScanError::UnknownToken)
            &&& s1.cursor == j + 1
        }
    }
}

impl Scanner {
    /// Scan one token: skip leading whitespace and comments, then recognize
    /// the lexeme at the cursor, returning the token, the line it ends on,
    /// and the lexeme's length; or the scan error the input forces. An
    /// exhausted input yields `End`.
    pub fn scan_token(&mut self) -> (r: Result<(Token, usize, usize), ScanError>)
        requires
            old(self).wf(),
        ensures
            final(self).wf(),
            final(self).code@ == old(self).code@,
            final(self).line == old(self).line + newline_count(
                old(self).code@,
                old(self).cursor as int,
                final(self).cursor as int,
            ),
            old(self).cursor <= final(self).cursor,
            scan_token_post(old(self).code@, old(self).cursor as int, *final(self), r),
            r matches Ok(t) ==> t.2 == final(self).cursor - final(self).start,
    {
        let ghost code = self.code@;
        let ghost c0 = self.cursor as int;
        proof {
            lemma_skip_end_range(code, c0, SkipMode::Code);
            lemma_skip_end_stops(code, c0, SkipMode::Code);
        }
        self.whitespaces_and_comments();
        self.start = self.cursor;
        let ghost j = self.cursor as int;
        let ghost l1 = self.line as int;
        let c = match self.advance() {
            Some(c) => c,
            None => {
                proof {
                    lemma_newline_count_bound(code, c0, j);
                }
                return Err(ScanError::End);
            },
        };
        proof {
            lemma_newline_count_bound(code, c0, j);
            assert(newline_count(code, c0, j + 1) == newline_count(code, c0, j) + if code[j]
                == '\n' as u8 {
                1int
            } else {
                0int
            });
            if j + 2 <= code.len() {
                assert(newline_count(code, c0, j + 2) == newline_count(code, c0, j + 1) + if code[j
                    + 1] == '\n' as u8 {
                    1int
                } else {
                    0int
                });
            }
        }
        if '0' as u8 <= c && c <= '9' as u8 {
            let res = self.numbers();
            proof {
                lemma_number_end_range(code, j);
                lemma_digit_run_end_range(code, j + 1);
                let d = digit_run_end(code, j);
                if d < code.len() && code[d] == '.' as u8 {
                    lemma_digit_run_end_range(code, d + 1);
                }
                lemma_newline_count_concat(code, c0, j + 1, self.cursor as int);
            }
            match res {
                Ok(tok) => Ok((tok, self.line, self.cursor - self.start)),
                Err(e) => Err(e),
            }
        } else if c == '"' as u8 {
            let res = self.string();
            proof {
                lemma_find_quote_range(code, j + 1);
                lemma_newline_count_concat(code, c0, j + 1, self.cursor as int);
            }
            match res {
                Ok(tok) => Ok((tok, self.line, self.cursor - self.start)),
                Err(e) => Err(e),
            }
        } else if is_ascii_alphabetic_or_underscore(&c) {
            let res = self.identifier();
            proof {
                lemma_ident_end_range(code, j);
                lemma_ident_end_range(code, j + 1);
                lemma_newline_count_concat(code, c0, j + 1, self.cursor as int);
            }
            match res {
                Ok(tok) => Ok((tok, self.line, self.cursor - self.start)),
                Err(e) => Err(e),
            }
        } else if c == '(' as u8 {
            Ok((Token::LeftParens, self.line, 1))
        } else if c == ')' as u8 {
            Ok((Token::RightParens, self.line, 1))
        } else if c == '{' as u8 {
            Ok((Token::LeftBrace, self.line, 1))
        } else if c == '}' as u8 {
            Ok((Token::RightBrace, self.line, 1))
        } else if c == '[' as u8 {
            Ok((Token::LeftSquare, self.line, 1))
        } else if c == ']' as u8 {
            Ok((Token::RightSquare, self.line, 1))
        } else if c == ';' as u8 {
            Ok((Token::Semicolon, self.line, 1))
        } else if c == ',' as u8 {
            Ok((Token::Comma, self.line, 1))
        } else if c == '.' as u8 {
            Ok((Token::Dot, self.line, 1))
        } else if c == '-' as u8 {
            Ok((Token::Minus, self.line, 1))
        } else if c == '+' as u8 {
            Ok((Token::Plus, self.line, 1))
        } else if c == '/' as u8 {
            Ok((Token::Slash, self.line, 1))
        } else if c == '*' as u8 {
            Ok((Token::Star, self.line, 1))
        } else if c == '!' as u8 {
            if self.match_bin('=' as u8).is_some() {
                Ok((Token::BangEqual, self.line, 2))
            } else {
                Ok((Token::Bang, self.line, 1))
            }
        } else if c == '=' as u8 {
            if self.match_bin('=' as u8).is_some() {
                Ok((Token::EqualEqual, self.line, 2))
            } else {
                Ok((Token::Equal, self.line, 1))
            }
        } else if c == '<' as u8 {
            if self.match_bin('=' as u8).is_some() {
                Ok((Token::LesserEqual, self.line, 2))
            } else {
                Ok((Token::Lesser, self.line, 1))
            }
        } else if c == '>' as u8 {
            if self.match_bin('=' as u8).is_some() {
                Ok((Token::GreaterEqual, self.line, 2))
            } else {
                Ok((Token::Greater, self.line, 1))
            }
        } else {
            Err(ScanError::UnknownToken)
        }
    }
}

} // verus!
