//! Diagnostics: errors carried in `Result`, warnings collected for the caller to print,
//! and the layout of Rust-style caret reports (`--> file:line:col`, source line, `^^^`).
use crate::interp::{push_repeat, repeat};
use crate::strs::{cat2, cat3, cat4, int_str, int_text, own};
use vstd::prelude::*;
use vstd::string::StringSliceAdditionalSpecFns;

verus! {

/// An error with a source position. `col == 0` means the column is unknown
/// (a line-level error); `len` is the byte width to underline when `col > 0`.
#[derive(Debug, Clone)]
pub struct RvError {
    pub line: i32,
    pub col: i32,
    pub len: i32,
    pub msg: String,
}

pub type RvResult<T> = Result<T, RvError>;

/// A warning raised while elaborating or simulating. `rule` is `Some` for a lint
/// (design-rule) warning and names the rule.
#[derive(Debug, Clone)]
pub struct Warning {
    pub line: i32,
    pub rule: Option<String>,
    pub msg: String,
}

impl RvError {
    /// The one-line form `line N: msg` (or just `msg` when the line is unknown).
    pub fn to_text(&self) -> (r: String)
        ensures
            r@ == if self.line > 0 {
                "line "@ + int_text(self.line as int, 10) + ": "@ + self.msg@
            } else {
                self.msg@
            },
    {
        if self.line > 0 {
            let l = int_str(self.line as i64);
            cat4("line ", l.as_str(), ": ", self.msg.as_str())
        } else {
            own(self.msg.as_str())
        }
    }
}

/// A line-level error (column unknown).
pub fn fail<T>(line: i32, msg: String) -> (r: RvResult<T>)
    ensures
        r matches Err(e) && e.line == line && e.col == 0 && e.len == 0 && e.msg == msg,
{
    Err(RvError { line, col: 0, len: 0, msg })
}

/// An error at a column with an underline width of at least 1.
pub fn fail_at<T>(line: i32, col: i32, len: i32, msg: String) -> (r: RvResult<T>)
    ensures
        r matches Err(e) && e.line == line && e.col == col && e.len == (if len >= 1 {
            len
        } else {
            1
        }) && e.msg == msg,
{
    Err(RvError { line, col, len: if len >= 1 { len } else { 1 }, msg })
}

/// Records a warning.
pub fn warn(sink: &mut Vec<Warning>, line: i32, msg: String)
    ensures
        final(sink)@ == old(sink)@.push(Warning { line, rule: None, msg }),
{
    sink.push(Warning { line, rule: None, msg });
}

/// Records a lint warning of the named rule.
pub fn lint(sink: &mut Vec<Warning>, line: i32, rule: &str, msg: String)
    ensures
        final(sink)@.len() == old(sink)@.len() + 1,
        final(sink)@.drop_last() == old(sink)@,
        final(sink)@.last().line == line,
        final(sink)@.last().msg == msg,
        final(sink)@.last().rule matches Some(r) && r@ == rule@,
{
    sink.push(Warning { line, rule: Some(own(rule)), msg });
}

/// Number of characters of a string (a tab counts as one column).
pub fn display_cols(s: &str) -> (r: usize)
    ensures
        r == s@.len(),
{
    s.unicode_len()
}

/// A byte that starts a UTF-8 character (not a continuation byte).
pub open spec fn is_lead(b: u8) -> bool {
    b < 0x80 || b >= 0xc0
}

/// Byte offset `i` is a character boundary of `b`.
pub open spec fn boundary(b: Seq<u8>, i: int) -> bool {
    i == 0 || i == b.len() || (0 < i < b.len() && is_lead(b[i]))
}

/// Number of characters in the bytes `b[lo..hi]`.
pub open spec fn char_count(b: Seq<u8>, lo: int, hi: int) -> nat
    decreases hi - lo,
{
    if hi <= lo {
        0
    } else {
        char_count(b, lo, hi - 1) + if is_lead(b[hi - 1]) {
            1nat
        } else {
            0nat
        }
    }
}

/// ASCII whitespace as `u8::is_ascii_whitespace` defines it.
pub open spec fn is_ws(c: u8) -> bool {
    c == 0x20 || c == 0x09 || c == 0x0a || c == 0x0c || c == 0x0d
}

/// Offset of the first `//` at or after `i` in `b`, or the length of `b`.
pub open spec fn comment_from(b: Seq<u8>, i: int) -> int
    decreases b.len() - i,
{
    if i < 0 || i + 1 >= b.len() {
        b.len() as int
    } else if b[i] == 0x2f && b[i + 1] == 0x2f {
        i
    } else {
        comment_from(b, i + 1)
    }
}

/// First non-blank offset in `[i, end)`, or `end`.
pub open spec fn first_code(b: Seq<u8>, i: int, end: int) -> int
    decreases end - i,
{
    if i >= end || i < 0 {
        end
    } else if !is_ws(b[i]) {
        i
    } else {
        first_code(b, i + 1, end)
    }
}

/// One past the last non-blank offset in `[lo, j)`, or `lo`.
pub open spec fn last_code(b: Seq<u8>, j: int, lo: int) -> int
    decreases j - lo,
{
    if j <= lo || j > b.len() {
        lo
    } else if !is_ws(b[j - 1]) {
        j
    } else {
        last_code(b, j - 1, lo)
    }
}

/// Byte range to underline: `[col-1, col-1+len)` clamped to the line when the column
/// is known; otherwise the line's code (leading blanks and a trailing `//` comment
/// stripped, trailing blanks dropped; `[0, 1)` for a blank line).
pub open spec fn underline_range(b: Seq<u8>, col: i32, len: i32) -> (int, int) {
    if col > 0 {
        let start = if col - 1 <= b.len() { col - 1 } else { b.len() as int };
        let w = if len >= 1 { len as int } else { 1 };
        let end = if start + w <= b.len() { start + w } else { b.len() as int };
        (start, end)
    } else {
        let ce = comment_from(b, 0);
        let f = first_code(b, 0, ce);
        let first = if f < ce { f } else { 0 };
        let l = last_code(b, ce, first);
        let last = if l > first { l } else { first + 1 };
        (first, if last <= b.len() { last } else { b.len() as int })
    }
}

/// Where the caret report points: the column shown after `file:line:`, the indent of
/// the `^` run and its length (both in characters).
#[derive(Debug, Clone, Copy)]
pub struct CaretLayout {
    pub shown_col: usize,
    pub indent: usize,
    pub underline: usize,
}

fn find_comment(b: &[u8]) -> (r: usize)
    ensures
        r == comment_from(b@, 0),
{
    let mut i: usize = 0;
    while i < b.len() && b.len() - i > 1
        invariant
            i <= b@.len(),
            comment_from(b@, 0) == comment_from(b@, i as int),
        decreases b@.len() - i,
    {
        if b[i] == 0x2f && b[i + 1] == 0x2f {
            return i;
        }
        i += 1;
    }
    b.len()
}

fn byte_is_ws(c: u8) -> (r: bool)
    ensures
        r == is_ws(c),
{
    c == 0x20 || c == 0x09 || c == 0x0a || c == 0x0c || c == 0x0d
}

fn count_chars(b: &[u8], lo: usize, hi: usize) -> (r: usize)
    requires
        lo <= hi <= b@.len(),
    ensures
        r == char_count(b@, lo as int, hi as int),
{
    let mut n: usize = 0;
    let mut i = lo;
    while i < hi
        invariant
            lo <= i <= hi <= b@.len(),
            n == char_count(b@, lo as int, i as int),
            n <= i - lo,
        decreases hi - i,
    {
        if b[i] < 0x80 || b[i] >= 0xc0 {
            n += 1;
        }
        i += 1;
    }
    n
}

fn is_boundary(b: &[u8], i: usize) -> (r: bool)
    requires
        i <= b@.len(),
    ensures
        r == boundary(b@, i as int),
{
    i == 0 || i == b.len() || b[i] < 0x80 || b[i] >= 0xc0
}

fn first_code_exec(b: &[u8], end: usize) -> (r: usize)
    requires
        end <= b@.len(),
    ensures
        r == first_code(b@, 0, end as int),
{
    let mut i: usize = 0;
    while i < end
        invariant
            i <= end <= b@.len(),
            first_code(b@, 0, end as int) == first_code(b@, i as int, end as int),
        decreases end - i,
    {
        if !byte_is_ws(b[i]) {
            return i;
        }
        i += 1;
    }
    end
}

fn last_code_exec(b: &[u8], end: usize, lo: usize) -> (r: usize)
    requires
        end <= b@.len(),
    ensures
        r == last_code(b@, end as int, lo as int),
{
    let mut j = end;
    while j > lo
        invariant
            j <= end <= b@.len(),
            last_code(b@, end as int, lo as int) == last_code(b@, j as int, lo as int),
        decreases j,
    {
        if !byte_is_ws(b[j - 1]) {
            return j;
        }
        j -= 1;
    }
    lo
}

/// The underline range of a caret report (see `underline_range`).
pub fn caret_range(b: &[u8], col: i32, len: i32) -> (r: (usize, usize))
    ensures
        r.0 as int == underline_range(b@, col, len).0,
        r.1 as int == underline_range(b@, col, len).1,
        r.0 <= b@.len(),
{
    if col > 0 {
        let c = (col - 1) as usize;
        let start = if c <= b.len() { c } else { b.len() };
        let w: usize = if len >= 1 { len as usize } else { 1 };
        let end = if w <= b.len() - start { start + w } else { b.len() };
        (start, end)
    } else {
        let ce = find_comment(b);
        proof {
            lemma_comment_bound(b@, 0);
        }
        let f = first_code_exec(b, ce);
        proof {
            lemma_first_code_bound(b@, 0, ce as int);
        }
        let first = if f < ce { f } else { 0 };
        let l = last_code_exec(b, ce, first);
        proof {
            lemma_last_code_bound(b@, ce as int, first as int);
        }
        let last = if l > first { l } else { first + 1 };
        (first, if last <= b.len() { last } else { b.len() })
    }
}

proof fn lemma_first_code_bound(b: Seq<u8>, i: int, end: int)
    requires
        0 <= i,
    ensures
        (i <= end ==> i <= first_code(b, i, end) <= end),
    decreases end - i,
{
    if !(i >= end || i < 0) && is_ws(b[i]) {
        lemma_first_code_bound(b, i + 1, end);
    }
}

proof fn lemma_comment_bound(b: Seq<u8>, i: int)
    ensures
        0 <= comment_from(b, i) <= b.len(),
    decreases b.len() - i,
{
    if !(i < 0 || i + 1 >= b.len()) && !(b[i] == 0x2f && b[i + 1] == 0x2f) {
        lemma_comment_bound(b, i + 1);
    }
}

proof fn lemma_last_code_bound(b: Seq<u8>, j: int, lo: int)
    ensures
        last_code(b, j, lo) == lo || (lo < last_code(b, j, lo) <= j),
    decreases j - lo,
{
    if !(j <= lo || j > b.len()) && is_ws(b[j - 1]) {
        lemma_last_code_bound(b, j - 1, lo);
    }
}

/// Caret layout of a report for a source line (bytes `b`): the shown column is
/// `start + 1`, and the indent / underline count characters before / inside the range,
/// an invalid character boundary counting as an empty text (the underline is at least 1).
pub fn caret_layout(b: &[u8], col: i32, len: i32) -> (r: CaretLayout)
    requires
        b@.len() < usize::MAX,
    ensures
        ({
            let (u0, u1) = underline_range(b@, col, len);
            &&& r.shown_col == u0 + 1
            &&& r.indent == if boundary(b@, u0) {
                char_count(b@, 0, u0)
            } else {
                0
            }
            &&& r.underline == {
                let n = if u0 <= u1 && boundary(b@, u0) && boundary(b@, u1) {
                    char_count(b@, u0, u1)
                } else {
                    0
                };
                if n >= 1 {
                    n
                } else {
                    1
                }
            }
        }),
{
    let (u0, u1) = caret_range(b, col, len);
    let indent = if is_boundary(b, u0) { count_chars(b, 0, u0) } else { 0 };
    let n = if u0 <= u1 && u1 <= b.len() && is_boundary(b, u0) && is_boundary(b, u1) {
        count_chars(b, u0, u1)
    } else {
        0
    };
    CaretLayout { shown_col: u0 + 1, indent, underline: if n >= 1 { n } else { 1 } }
}

fn repeat_char(c: &str, n: usize) -> (r: String)
    requires
        c@.len() == 1,
    ensures
        r@ == repeat(c@[0], n as nat),
{
    let mut s = String::new();
    push_repeat(&mut s, c, n);
    s
}

/// Where a caret report over source line `b` points: the shown column, the indent and
/// the underline length (see `caret_layout`); a line too long to measure points at
/// column 1 with a one-character underline.
pub open spec fn caret_of(b: Seq<u8>, col: i32, len: i32) -> (int, int, int) {
    if b.len() < usize::MAX {
        let (u0, u1) = underline_range(b, col, len);
        let ind: int = if boundary(b, u0) { char_count(b, 0, u0) as int } else { 0 };
        let n: int = if u0 <= u1 && boundary(b, u0) && boundary(b, u1) { char_count(b, u0, u1) as int } else { 0 };
        (u0 + 1, ind, if n >= 1 { n } else { 1 })
    } else {
        (1, 0, 1)
    }
}

/// The lines of a diagnostic report: `[kind] line N: msg` (or `[kind] msg` for an unknown
/// line) without source text; with it, the message, the `--> file:line:col` pointer, an
/// empty gutter line, the numbered source line and the caret line.
pub open spec fn report_lines(
    kind: Seq<char>,
    file: Seq<char>,
    line: i32,
    col: i32,
    len: i32,
    msg: Seq<char>,
    text: Option<(Seq<char>, Seq<u8>)>,
) -> Seq<Seq<char>> {
    let head = "["@ + kind + "] "@;
    match text {
        None => if line > 0 {
            seq![head + "line "@ + int_text(line as int, 10) + ": "@ + msg]
        } else {
            seq![head + msg]
        },
        Some((t, b)) => {
            let (sc, ind, und) = caret_of(b, col, len);
            let l = int_text(line as int, 10);
            let pad = repeat(' ', l.len());
            seq![
                head + msg,
                pad + "--> "@ + file + ":"@ + l + ":"@ + int_text(sc, 10),
                pad + " |"@,
                l + " | "@ + t,
                pad + " | "@ + repeat(' ', ind as nat) + repeat('^', und as nat),
            ]
        },
    }
}

/// The lines of a diagnostic report (see `report_lines`).
pub fn render_report(kind: &str, file: &str, line: i32, col: i32, len: i32, msg: &str, text: Option<&str>) -> (r: Vec<String>)
    ensures
        crate::parser::strs_view(r@) == report_lines(kind@, file@, line, col, len, msg@, match text {
            Some(t) => Some((t@, t.spec_bytes())),
            None => None,
        }),
{
    proof {
        reveal_strlit("[");
        reveal_strlit("] ");
        reveal_strlit(" ");
        reveal_strlit("^");
        reveal_strlit("");
    }
    let mut out: Vec<String> = Vec::new();
    let head = cat4("[", kind, "] ", "");
    match text {
        None => {
            if line > 0 {
                let l = int_str(line as i64);
                out.push(cat5s(head.as_str(), "line ", l.as_str(), ": ", msg));
            } else {
                out.push(cat2(head.as_str(), msg));
            }
            proof {
                assert(crate::parser::strs_view(out@) =~= report_lines(kind@, file@, line, col, len, msg@, None));
            }
        },
        Some(t) => {
            let tb = t.as_bytes();
            let lay = if tb.len() < usize::MAX {
                caret_layout(tb, col, len)
            } else {
                CaretLayout { shown_col: 1, indent: 0, underline: 1 }
            };
            let l = int_str(line as i64);
            let gw = display_cols(l.as_str());
            let pad = repeat_char(" ", gw);
            out.push(cat2(head.as_str(), msg));
            let c = crate::strs::format_uint(lay.shown_col as u64, 10);
            let mut s = cat4(pad.as_str(), "--> ", file, ":");
            s.append(l.as_str());
            s.append(":");
            s.append(c.as_str());
            out.push(s);
            out.push(cat2(pad.as_str(), " |"));
            out.push(cat3(l.as_str(), " | ", t));
            let ind = repeat_char(" ", lay.indent);
            let car = repeat_char("^", lay.underline);
            out.push(cat4(pad.as_str(), " | ", ind.as_str(), car.as_str()));
            proof {
                let (sc, ix, un) = caret_of(t.spec_bytes(), col, len);
                assert(lay.shown_col == sc && lay.indent == ix && lay.underline == un);
                assert(c@ == int_text(sc, 10));
                assert(crate::parser::strs_view(out@) =~= report_lines(kind@, file@, line, col, len, msg@, Some((t@, t.spec_bytes()))));
            }
        },
    }
    out
}

fn cat5s(a: &str, b: &str, c: &str, d: &str, e: &str) -> (r: String)
    ensures
        r@ == a@ + b@ + c@ + d@ + e@,
{
    let mut s = cat4(a, b, c, d);
    s.append(e);
    s
}

} // verus!
