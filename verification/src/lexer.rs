//! Lexer: turns source bytes into tokens. String literal escapes, `//` line comments,
//! `/* */` block comments and the two-character operators (`<=` `>=` `==` `!=` `&&` `||`)
//! are handled here. The token stream is specified by `lex`, a definition of the token
//! grammar over bytes.
use crate::diag::{RvError, RvResult};
use crate::strs::{all_ascii, ascii_chars, cat3, char_string, lossy_string, own, utf8_lossy};
use vstd::prelude::*;
use vstd::slice::slice_subrange;
#[allow(unused_imports)]
use vstd::string::StringSliceAdditionalSpecFns;

verus! {

/// Token kinds.
#[derive(Debug, Clone, Copy, PartialEq, Eq, Structural)]
pub enum Tk {
    Ident,
    Num,
    Str,
    Punct,
    End,
}

/// A token: identifier text, string contents or punctuation text in `s`, the value of a
/// number in `num`, and its position: `line`, the 1-based byte column `col` where it starts
/// and its byte length `len` in the source.
#[derive(Debug)]
pub struct Token {
    pub k: Tk,
    pub s: String,
    pub num: i64,
    pub line: i32,
    pub col: i32,
    pub len: i32,
}

/// The mathematical content of a token.
pub struct TokSpec {
    pub k: Tk,
    pub s: Seq<char>,
    pub num: i64,
    pub line: int,
    pub col: int,
    pub len: int,
}

/// The mathematical content of an error.
pub struct ErrSpec {
    pub line: int,
    pub col: int,
    pub len: int,
    pub msg: Seq<char>,
}

impl View for Token {
    type V = TokSpec;

    open spec fn view(&self) -> TokSpec {
        TokSpec {
            k: self.k,
            s: self.s@,
            num: self.num,
            line: self.line as int,
            col: self.col as int,
            len: self.len as int,
        }
    }
}

impl View for RvError {
    type V = ErrSpec;

    open spec fn view(&self) -> ErrSpec {
        ErrSpec { line: self.line as int, col: self.col as int, len: self.len as int, msg: self.msg@ }
    }
}

impl Clone for Token {
    fn clone(&self) -> (r: Token)
        ensures
            r@ == self@,
    {
        Token { k: self.k, s: own(self.s.as_str()), num: self.num, line: self.line, col: self.col, len: self.len }
    }
}

/// Views of a token list.
pub open spec fn toks_view(v: Seq<Token>) -> Seq<TokSpec> {
    v.map_values(|t: Token| t@)
}

/// An ASCII letter.
pub open spec fn is_alpha(c: u8) -> bool {
    (65 <= c <= 90) || (97 <= c <= 122)
}

/// An ASCII decimal digit.
pub open spec fn is_digit(c: u8) -> bool {
    48 <= c <= 57
}

/// An ASCII hexadecimal digit.
pub open spec fn is_hex(c: u8) -> bool {
    is_digit(c) || (97 <= c <= 102) || (65 <= c <= 70)
}

/// ASCII white space: space, tab, line feed, form feed, carriage return.
pub open spec fn is_space(c: u8) -> bool {
    c == 32 || c == 9 || c == 10 || c == 12 || c == 13
}

/// Byte classes scanned by runs: identifier characters, decimal, binary and hex digits.
pub open spec fn in_class(c: u8, cls: u8) -> bool {
    if cls == 0 {
        is_alpha(c) || is_digit(c) || c == 95
    } else if cls == 1 {
        is_digit(c)
    } else if cls == 2 {
        c == 48 || c == 49
    } else {
        is_hex(c)
    }
}

/// End of the run of class `cls` that starts at `i`.
pub open spec fn span_end(b: Seq<u8>, i: int, cls: u8) -> int
    decreases b.len() - i,
{
    if 0 <= i < b.len() && in_class(b[i], cls) {
        span_end(b, i + 1, cls)
    } else {
        i
    }
}

/// Position, line and line start after skipping white space from `p`.
pub open spec fn ws_end(b: Seq<u8>, p: int, line: int, ls: int) -> (int, int, int)
    decreases b.len() - p,
{
    if 0 <= p < b.len() && b[p] == 10 {
        ws_end(b, p + 1, line + 1, p + 1)
    } else if 0 <= p < b.len() && is_space(b[p]) {
        ws_end(b, p + 1, line, ls)
    } else {
        (p, line, ls)
    }
}

/// End of a `//` comment: the next line feed or the end of input.
pub open spec fn line_end(b: Seq<u8>, i: int) -> int
    decreases b.len() - i,
{
    if 0 <= i < b.len() && b[i] != 10 {
        line_end(b, i + 1)
    } else {
        i
    }
}

/// Scan of a block comment body from `i`: the position of the closing `*/` (or the last
/// byte when there is none), with the line and line start there.
pub open spec fn block_end(b: Seq<u8>, i: int, line: int, ls: int) -> (int, int, int)
    decreases b.len() - i,
{
    if 0 <= i && i + 1 < b.len() && !(b[i] == 42 && b[i + 1] == 47) {
        if b[i] == 10 {
            block_end(b, i + 1, line + 1, i + 1)
        } else {
            block_end(b, i + 1, line, ls)
        }
    } else {
        (i, line, ls)
    }
}

/// Bytes that the escape `\e` stands for.
pub open spec fn escape_bytes(e: u8) -> Seq<u8> {
    if e == 110 {
        seq![10u8]
    } else if e == 116 {
        seq![9u8]
    } else if e == 92 {
        seq![92u8]
    } else if e == 34 {
        seq![34u8]
    } else {
        seq![92u8, e]
    }
}

/// Scan of a string literal body from `i`: its bytes after escapes, the position of the
/// closing quote (or the end of input), and the line and line start there.
pub open spec fn str_scan(b: Seq<u8>, i: int, line: int, ls: int) -> (Seq<u8>, int, int, int)
    decreases b.len() - i,
{
    if i < 0 || i >= b.len() || b[i] == 34 {
        (seq![], i, line, ls)
    } else if b[i] == 92 && i + 1 < b.len() {
        let r = str_scan(b, i + 2, line, ls);
        (escape_bytes(b[i + 1]) + r.0, r.1, r.2, r.3)
    } else if b[i] == 10 {
        let r = str_scan(b, i + 1, line + 1, i + 1);
        (seq![b[i]] + r.0, r.1, r.2, r.3)
    } else {
        let r = str_scan(b, i + 1, line, ls);
        (seq![b[i]] + r.0, r.1, r.2, r.3)
    }
}

/// Value of a digit byte.
pub open spec fn digit_val(c: u8) -> i64 {
    if is_digit(c) {
        (c - 48) as i64
    } else if 97 <= c <= 102 {
        (c - 97 + 10) as i64
    } else {
        (c - 65 + 10) as i64
    }
}

/// Value of the digits `b[p..q]` in base `radix`, accumulated with 64-bit wrapping.
pub open spec fn fold_val(b: Seq<u8>, p: int, q: int, radix: i64) -> i64
    decreases q - p,
{
    if q <= p {
        0
    } else {
        fold_val(b, p, q - 1, radix).wrapping_mul(radix).wrapping_add(digit_val(b[q - 1]))
    }
}

/// Digit values: `0`..`9` are 0..9, and a hex digit `a`..`f` and its upper-case
/// form `A`..`F` both stand for 10..15.
pub proof fn lemma_digit_values(k: u8)
    requires
        k < 16,
    ensures
        k < 10 ==> digit_val((48 + k) as u8) == k,
        10 <= k ==> digit_val((97 + k - 10) as u8) == k,
        10 <= k ==> digit_val((65 + k - 10) as u8) == k,
{
}

/// Letter case does not matter in a run of digits: where two byte strings agree
/// on `p..q` but for hex letters written in lower case in one and upper case in
/// the other, the digits there have the same value in every radix (so `0xFF`
/// and `0xff` are the same number).
pub proof fn lemma_digits_case_blind(b1: Seq<u8>, b2: Seq<u8>, p: int, q: int, radix: i64)
    requires
        0 <= p <= q <= b1.len(),
        q <= b2.len(),
        forall|i: int| p <= i < q ==> b1[i] == b2[i] || (97 <= b1[i] <= 102 && b2[i] == b1[i] - 32),
    ensures
        fold_val(b1, p, q, radix) == fold_val(b2, p, q, radix),
    decreases q - p,
{
    if p < q {
        lemma_digits_case_blind(b1, b2, p, q - 1, radix);
    }
}

/// One step of the lexer from a non-blank position.
pub enum LexStep {
    Tok(TokSpec, int, int, int),
    Skip(int, int, int),
    Fail(ErrSpec),
}

/// A token at `p..q` on `line` with line start `ls`.
pub open spec fn tok_at(k: Tk, s: Seq<char>, num: i64, p: int, q: int, line: int, ls: int) -> TokSpec {
    TokSpec { k, s, num, line, col: p - ls + 1, len: q - p }
}

/// Message for a missing digit after a radix prefix.
pub open spec fn prefix_msg(pref: u8) -> Seq<char> {
    if pref == 98 {
        "expected binary digits after '0b'"@
    } else {
        "expected hex digits after '0x'"@
    }
}

/// Message for a decimal digit that follows a binary literal.
pub open spec fn bin_digit_msg(c: u8) -> Seq<char> {
    "digit '"@ + seq![c as char] + "' is not valid in a binary literal (0b accepts only 0 or 1)"@
}

/// A number literal at `p`.
pub open spec fn lex_number(b: Seq<u8>, p: int, line: int, ls: int) -> LexStep {
    let col = p - ls + 1;
    if b[p] == 48 && p + 1 < b.len() && (b[p + 1] == 98 || b[p + 1] == 120) {
        let pref = b[p + 1];
        let ok = p + 2 < b.len() && (if pref == 98 {
            b[p + 2] == 48 || b[p + 2] == 49
        } else {
            is_hex(b[p + 2])
        });
        if !ok {
            LexStep::Fail(ErrSpec { line, col, len: 2, msg: prefix_msg(pref) })
        } else if pref == 98 {
            let q = span_end(b, p + 2, 2);
            if q < b.len() && is_digit(b[q]) {
                LexStep::Fail(ErrSpec { line, col, len: q - p + 1, msg: bin_digit_msg(b[q]) })
            } else {
                LexStep::Tok(tok_at(Tk::Num, seq![], fold_val(b, p + 2, q, 2), p, q, line, ls), q, line, ls)
            }
        } else {
            let q = span_end(b, p + 2, 3);
            LexStep::Tok(tok_at(Tk::Num, seq![], fold_val(b, p + 2, q, 16), p, q, line, ls), q, line, ls)
        }
    } else {
        let q = span_end(b, p, 1);
        LexStep::Tok(tok_at(Tk::Num, seq![], fold_val(b, p, q, 10), p, q, line, ls), q, line, ls)
    }
}

/// A string literal at `p` (where `b[p]` is the opening quote).
pub open spec fn lex_string(b: Seq<u8>, p: int, line: int, ls: int) -> LexStep {
    let r = str_scan(b, p + 1, line, ls);
    if r.1 >= b.len() {
        LexStep::Fail(ErrSpec { line, col: p - ls + 1, len: 1, msg: "unterminated string literal"@ })
    } else {
        LexStep::Tok(tok_at(Tk::Str, utf8_lossy(r.0), 0, p, r.1 + 1, line, ls), r.1 + 1, r.2, r.3)
    }
}

/// The two-character operators.
pub open spec fn is_op2(c: u8, d: u8) -> bool {
    (c == 60 && d == 61) || (c == 62 && d == 61) || (c == 61 && d == 61) || (c == 33 && d == 61)
        || (c == 38 && d == 38) || (c == 124 && d == 124)
}

/// Byte length of the one-character text `c as char` (a byte above 127 stands for a
/// two-byte character).
pub open spec fn char_len(c: u8) -> int {
    if c < 128 {
        1
    } else {
        2
    }
}

/// A punctuation token at `p`.
pub open spec fn lex_punct(b: Seq<u8>, p: int, line: int, ls: int) -> LexStep {
    if p + 1 < b.len() && is_op2(b[p], b[p + 1]) {
        LexStep::Tok(tok_at(Tk::Punct, seq![b[p] as char, b[p + 1] as char], 0, p, p + 2, line, ls), p + 2, line, ls)
    } else {
        let q = p + char_len(b[p]);
        LexStep::Tok(tok_at(Tk::Punct, seq![b[p] as char], 0, p, q, line, ls), q, line, ls)
    }
}

/// The lexer step at a non-blank position `p < b.len()`.
pub open spec fn lex_one(b: Seq<u8>, p: int, line: int, ls: int) -> LexStep {
    let c = b[p];
    if is_alpha(c) || c == 95 {
        let q = span_end(b, p, 0);
        LexStep::Tok(tok_at(Tk::Ident, ascii_chars(b.subrange(p, q)), 0, p, q, line, ls), q, line, ls)
    } else if is_digit(c) {
        lex_number(b, p, line, ls)
    } else if c == 34 {
        lex_string(b, p, line, ls)
    } else if p + 1 < b.len() && c == 47 && b[p + 1] == 47 {
        LexStep::Skip(line_end(b, p), line, ls)
    } else if p + 1 < b.len() && c == 47 && b[p + 1] == 42 {
        let r = block_end(b, p + 2, line, ls);
        if r.0 + 1 >= b.len() {
            LexStep::Fail(ErrSpec { line, col: p - ls + 1, len: 2, msg: "unterminated block comment"@ })
        } else {
            LexStep::Skip(r.0 + 2, r.1, r.2)
        }
    } else {
        lex_punct(b, p, line, ls)
    }
}

/// Prepends tokens to a successful result.
pub open spec fn prepend(pre: Seq<TokSpec>, r: Result<Seq<TokSpec>, ErrSpec>) -> Result<Seq<TokSpec>, ErrSpec> {
    match r {
        Ok(t) => Ok(pre + t),
        Err(e) => Err(e),
    }
}

proof fn lemma_span_end(b: Seq<u8>, i: int, cls: u8)
    requires
        0 <= i,
    ensures
        i <= span_end(b, i, cls),
        i <= b.len() ==> span_end(b, i, cls) <= b.len(),
        forall|k: int| i <= k < span_end(b, i, cls) ==> in_class(#[trigger] b[k], cls),
        span_end(b, i, cls) < b.len() ==> !in_class(b[span_end(b, i, cls)], cls),
    decreases b.len() - i,
{
    if 0 <= i < b.len() && in_class(b[i], cls) {
        lemma_span_end(b, i + 1, cls);
    }
}

pub proof fn lemma_ws_end(b: Seq<u8>, p: int, line: int, ls: int)
    requires
        0 <= p,
    ensures
        p <= ws_end(b, p, line, ls).0,
        p <= b.len() ==> ws_end(b, p, line, ls).0 <= b.len(),
        p > b.len() ==> ws_end(b, p, line, ls).0 == p,
    decreases b.len() - p,
{
    if 0 <= p < b.len() && b[p] == 10 {
        lemma_ws_end(b, p + 1, line + 1, p + 1);
    } else if 0 <= p < b.len() && is_space(b[p]) {
        lemma_ws_end(b, p + 1, line, ls);
    }
}

proof fn lemma_line_end(b: Seq<u8>, i: int)
    requires
        0 <= i <= b.len(),
    ensures
        i <= line_end(b, i) <= b.len(),
    decreases b.len() - i,
{
    if 0 <= i < b.len() && b[i] != 10 {
        lemma_line_end(b, i + 1);
    }
}

proof fn lemma_block_end(b: Seq<u8>, i: int, line: int, ls: int)
    requires
        0 <= i,
    ensures
        i <= block_end(b, i, line, ls).0,
        i <= b.len() ==> block_end(b, i, line, ls).0 <= b.len(),
    decreases b.len() - i,
{
    if 0 <= i && i + 1 < b.len() && !(b[i] == 42 && b[i + 1] == 47) {
        if b[i] == 10 {
            lemma_block_end(b, i + 1, line + 1, i + 1);
        } else {
            lemma_block_end(b, i + 1, line, ls);
        }
    }
}

proof fn lemma_str_scan(b: Seq<u8>, i: int, line: int, ls: int)
    requires
        0 <= i,
    ensures
        i <= str_scan(b, i, line, ls).1,
        i <= b.len() ==> str_scan(b, i, line, ls).1 <= b.len(),
    decreases b.len() - i,
{
    if i < 0 || i >= b.len() || b[i] == 34 {
    } else if b[i] == 92 && i + 1 < b.len() {
        lemma_str_scan(b, i + 2, line, ls);
    } else if b[i] == 10 {
        lemma_str_scan(b, i + 1, line + 1, i + 1);
    } else {
        lemma_str_scan(b, i + 1, line, ls);
    }
}

/// Each step moves forward and stays within one byte past the end.
pub proof fn lemma_lex_one(b: Seq<u8>, p: int, line: int, ls: int)
    requires
        0 <= p < b.len(),
    ensures
        lex_one(b, p, line, ls) matches LexStep::Tok(_, q, _, _) ==> p < q <= b.len() + 1,
        lex_one(b, p, line, ls) matches LexStep::Skip(q, _, _) ==> p < q <= b.len() + 1,
{
    let c = b[p];
    if is_alpha(c) || c == 95 {
        lemma_span_end(b, p, 0);
        lemma_span_end(b, p + 1, 0);
    } else if is_digit(c) {
        lemma_span_end(b, p, 1);
        lemma_span_end(b, p + 1, 1);
        lemma_span_end(b, p + 2, 2);
        lemma_span_end(b, p + 2, 3);
    } else if c == 34 {
        lemma_str_scan(b, p + 1, line, ls);
    } else if p + 1 < b.len() && c == 47 && b[p + 1] == 47 {
        lemma_line_end(b, p);
        assert(line_end(b, p) == line_end(b, p + 1));
        lemma_line_end(b, p + 1);
    } else if p + 1 < b.len() && c == 47 && b[p + 1] == 42 {
        lemma_block_end(b, p + 2, line, ls);
    }
}

/// The token stream from position `p` on line `line` whose line starts at `ls`: the
/// tokens up to the end of input followed by an `End` token, or the first error.
#[verifier::opaque]
pub open spec fn lex_from(b: Seq<u8>, p: int, line: int, ls: int) -> Result<Seq<TokSpec>, ErrSpec>
    decreases b.len() + 2 - p,
    when 0 <= p <= b.len() + 1
{
    let w = ws_end(b, p, line, ls);
    proof {
        lemma_ws_end(b, p, line, ls);
    }
    if w.0 >= b.len() {
        Ok(seq![tok_at(Tk::End, seq![], 0, w.0, w.0 + 1, w.1, w.2)])
    } else {
        proof {
            lemma_lex_one(b, w.0, w.1, w.2);
        }
        match lex_one(b, w.0, w.1, w.2) {
            LexStep::Tok(t, q, l, s) => prepend(seq![t], lex_from(b, q, l, s)),
            LexStep::Skip(q, l, s) => lex_from(b, q, l, s),
            LexStep::Fail(e) => Err(e),
        }
    }
}

proof fn lemma_toks_view_push(v: Seq<Token>, t: Token)
    ensures
        toks_view(v.push(t)) == toks_view(v) + seq![t@],
{
    assert(toks_view(v.push(t)) =~= toks_view(v) + seq![t@]);
}

proof fn lemma_prepend_empty(r: Result<Seq<TokSpec>, ErrSpec>)
    ensures
        prepend(Seq::empty(), r) == r,
{
    if let Ok(t) = r {
        assert(Seq::<TokSpec>::empty() + t =~= t);
    }
}

proof fn lemma_prepend_assoc(a: Seq<TokSpec>, c: Seq<TokSpec>, r: Result<Seq<TokSpec>, ErrSpec>)
    ensures
        prepend(a, prepend(c, r)) == prepend(a + c, r),
{
    if let Ok(t) = r {
        assert(a + (c + t) =~= (a + c) + t);
    }
}

/// One unfolding of `lex_from`.
proof fn lemma_lex_from_step(b: Seq<u8>, p: int, line: int, ls: int)
    requires
        0 <= p <= b.len() + 1,
    ensures
        ({
            let w = ws_end(b, p, line, ls);
            lex_from(b, p, line, ls) == if w.0 >= b.len() {
                Ok(seq![tok_at(Tk::End, seq![], 0, w.0, w.0 + 1, w.1, w.2)])
            } else {
                match lex_one(b, w.0, w.1, w.2) {
                    LexStep::Tok(t, q, l, s) => prepend(seq![t], lex_from(b, q, l, s)),
                    LexStep::Skip(q, l, s) => lex_from(b, q, l, s),
                    LexStep::Fail(e) => Err(e),
                }
            }
        }),
{
    reveal(lex_from);
    lemma_ws_end(b, p, line, ls);
    let w = ws_end(b, p, line, ls);
    if w.0 < b.len() {
        lemma_lex_one(b, w.0, w.1, w.2);
    }
}

/// The token stream of a whole source.
pub open spec fn lex(b: Seq<u8>) -> Result<Seq<TokSpec>, ErrSpec> {
    lex_from(b, 0, 1, 0)
}

/// Law: a successful token stream is never empty and ends with its only `End` token.
pub proof fn lemma_lex_from_ends(b: Seq<u8>, p: int, line: int, ls: int)
    requires
        0 <= p <= b.len() + 1,
    ensures
        lex_from(b, p, line, ls) matches Ok(t) ==> t.len() >= 1 && t.last().k == Tk::End && forall|i: int|
            0 <= i < t.len() - 1 ==> (#[trigger] t[i]).k != Tk::End,
    decreases b.len() + 2 - p,
{
    lemma_lex_from_step(b, p, line, ls);
    lemma_ws_end(b, p, line, ls);
    let w = ws_end(b, p, line, ls);
    if w.0 < b.len() {
        lemma_lex_one(b, w.0, w.1, w.2);
        match lex_one(b, w.0, w.1, w.2) {
            LexStep::Tok(t, q, l, s) => {
                lemma_lex_from_ends(b, q, l, s);
                assert(t.k != Tk::End) by {
                    reveal_with_fuel(lex_one, 1);
                }
                if let Ok(rest) = lex_from(b, q, l, s) {
                    let all = seq![t] + rest;
                    assert forall|i: int| 0 <= i < all.len() - 1 implies (#[trigger] all[i]).k != Tk::End by {
                        if i > 0 {
                            assert(all[i] == rest[i - 1]);
                        }
                    }
                }
            },
            LexStep::Skip(q, l, s) => {
                lemma_lex_from_ends(b, q, l, s);
            },
            LexStep::Fail(_) => {},
        }
    }
}

/// The tokens of a source, ending with one `End` token, or the first lexical error.
pub fn tokenize(src: &str) -> (r: RvResult<Vec<Token>>)
    requires
        src.spec_bytes().len() < max_source(),
    ensures
        lex_result_view(r) == lex(src.spec_bytes()),
        r matches Ok(v) ==> v@.len() >= 1 && v@.last().k == Tk::End,
        r matches Ok(v) ==> forall|i: int| 0 <= i < v@.len() - 1 ==> (#[trigger] v@[i]).k != Tk::End,
{
    let lx = Lexer::new(src);
    let r = lx.run();
    proof {
        lemma_lex_from_ends(src.spec_bytes(), 0, 1, 0);
        if let Ok(ref v) = r {
            assert(toks_view(v@).len() == v@.len());
            assert(toks_view(v@).last() == v@.last()@);
            assert forall|i: int| 0 <= i < v@.len() - 1 implies (#[trigger] v@[i]).k != Tk::End by {
                assert(toks_view(v@)[i] == v@[i]@);
            }
        }
    }
    r
}

/// Views of a lexer result.
pub open spec fn lex_result_view(r: RvResult<Vec<Token>>) -> Result<Seq<TokSpec>, ErrSpec> {
    match r {
        Ok(v) => Ok(toks_view(v@)),
        Err(e) => Err(e@),
    }
}

/// Longest source the lexer accepts (positions and lines must fit in `i32`).
pub open spec fn max_source() -> int {
    0x7fff_0000
}

fn space_byte(c: u8) -> (r: bool)
    ensures
        r == is_space(c),
{
    c == 32 || c == 9 || c == 10 || c == 12 || c == 13
}

fn class_byte(c: u8, cls: u8) -> (r: bool)
    ensures
        r == in_class(c, cls),
{
    if cls == 0 {
        (65 <= c && c <= 90) || (97 <= c && c <= 122) || (48 <= c && c <= 57) || c == 95
    } else if cls == 1 {
        48 <= c && c <= 57
    } else if cls == 2 {
        c == 48 || c == 49
    } else {
        (48 <= c && c <= 57) || (97 <= c && c <= 102) || (65 <= c && c <= 70)
    }
}

/// The lexer over the bytes of a source.
pub struct Lexer {
    s: Vec<u8>,
    p: usize,
    line: i32,
    line_start: usize,
}

impl Lexer {
    /// The source bytes.
    pub closed spec fn bytes(&self) -> Seq<u8> {
        self.s@
    }

    /// At the start of its source.
    pub closed spec fn fresh(&self) -> bool {
        self.p == 0 && self.line == 1 && self.line_start == 0
    }

    spec fn inv(&self) -> bool {
        &&& self.s@.len() < max_source()
        &&& self.p <= self.s@.len() + 1
        &&& self.line_start <= self.p
        &&& 1 <= self.line <= self.p + 1
    }

    /// A lexer at the start of `src`.
    pub fn new(src: &str) -> (r: Lexer)
        ensures
            r.bytes() == src.spec_bytes(),
            r.fresh(),
    {
        Lexer { s: vstd::slice::slice_to_vec(src.as_bytes()), p: 0, line: 1, line_start: 0 }
    }

    /// Skips white space, counting lines.
    fn skip_ws(&mut self)
        requires
            old(self).inv(),
        ensures
            final(self).inv(),
            final(self).s@ == old(self).s@,
            (final(self).p as int, final(self).line as int, final(self).line_start as int) == ws_end(
                old(self).s@,
                old(self).p as int,
                old(self).line as int,
                old(self).line_start as int,
            ),
    {
        let ghost b = self.s@;
        let ghost w = ws_end(b, self.p as int, self.line as int, self.line_start as int);
        while self.p < self.s.len() && space_byte(self.s[self.p])
            invariant
                self.inv(),
                self.s@ == b,
                ws_end(b, self.p as int, self.line as int, self.line_start as int) == w,
            decreases self.s@.len() - self.p,
        {
            if self.s[self.p] == 10 {
                self.line = self.line + 1;
                self.p = self.p + 1;
                self.line_start = self.p;
            } else {
                self.p = self.p + 1;
            }
        }
    }

    /// End of the run of class `cls` from `i`.
    fn scan(&self, i: usize, cls: u8) -> (r: usize)
        requires
            self.inv(),
            i <= self.s@.len(),
        ensures
            r == span_end(self.s@, i as int, cls),
    {
        proof {
            lemma_span_end(self.s@, i as int, cls);
        }
        let mut q = i;
        while q < self.s.len() && class_byte(self.s[q], cls)
            invariant
                self.inv(),
                i <= q <= self.s@.len(),
                span_end(self.s@, q as int, cls) == span_end(self.s@, i as int, cls),
            decreases self.s@.len() - q,
        {
            q = q + 1;
        }
        q
    }

    /// Value of the digits `s[lo..hi]` in base `radix` (wrapping).
    fn digits_value(&self, lo: usize, hi: usize, radix: i64) -> (r: i64)
        requires
            self.inv(),
            lo <= hi <= self.s@.len(),
        ensures
            r == fold_val(self.s@, lo as int, hi as int, radix),
    {
        let mut acc: i64 = 0;
        let mut q = lo;
        while q < hi
            invariant
                self.inv(),
                lo <= q <= hi <= self.s@.len(),
                acc == fold_val(self.s@, lo as int, q as int, radix),
            decreases hi - q,
        {
            let ch = self.s[q];
            let d: i64 = if 48 <= ch && ch <= 57 {
                (ch - 48) as i64
            } else if 97 <= ch && ch <= 102 {
                (ch - 97 + 10) as i64
            } else {
                (ch as i64) - 65 + 10
            };
            acc = acc.wrapping_mul(radix).wrapping_add(d);
            q = q + 1;
        }
        acc
    }

    fn col_at(&self, p: usize) -> (r: i32)
        requires
            self.inv(),
            self.line_start <= p <= self.s@.len() + 1,
        ensures
            r == p - self.line_start + 1,
    {
        (p - self.line_start) as i32 + 1
    }

    /// A number literal at the current position.
    fn lex_number(&mut self) -> (r: RvResult<Token>)
        requires
            old(self).inv(),
            old(self).p < old(self).s@.len(),
            is_digit(old(self).s@[old(self).p as int]),
        ensures
            final(self).inv(),
            final(self).s@ == old(self).s@,
            match lex_number(old(self).s@, old(self).p as int, old(self).line as int, old(self).line_start as int) {
                LexStep::Tok(t, q, l, s) => r matches Ok(tok) && tok@ == t && final(self).p == q
                    && final(self).line == l && final(self).line_start == s,
                LexStep::Fail(e) => r matches Err(err) && err@ == e,
                LexStep::Skip(..) => false,
            },
    {
        let ghost b = self.s@;
        let p = self.p;
        let ln = self.line;
        let col = self.col_at(p);
        let n = self.s.len();
        let c = self.s[p];
        if c == 48 && p + 1 < n && (self.s[p + 1] == 98 || self.s[p + 1] == 120) {
            let pref = self.s[p + 1];
            let ok = p + 2 < n && (if pref == 98 {
                self.s[p + 2] == 48 || self.s[p + 2] == 49
            } else {
                let d = self.s[p + 2];
                (48 <= d && d <= 57) || (97 <= d && d <= 102) || (65 <= d && d <= 70)
            });
            if !ok {
                let msg = if pref == 98 {
                    own("expected binary digits after '0b'")
                } else {
                    own("expected hex digits after '0x'")
                };
                return Err(RvError { line: ln, col, len: 2, msg });
            }
            proof {
                lemma_span_end(b, p + 2, 2);
                lemma_span_end(b, p + 2, 3);
            }
            if pref == 98 {
                let q = self.scan(p + 2, 2);
                if q < n && 48 <= self.s[q] && self.s[q] <= 57 {
                    let d = self.s[q];
                    let t = char_string(d as char);
                    let msg = cat3("digit '", t.as_str(), "' is not valid in a binary literal (0b accepts only 0 or 1)");
                    return Err(RvError { line: ln, col, len: (q - p) as i32 + 1, msg });
                }
                let v = self.digits_value(p + 2, q, 2);
                self.p = q;
                Ok(Token { k: Tk::Num, s: String::new(), num: v, line: ln, col, len: (q - p) as i32 })
            } else {
                let q = self.scan(p + 2, 3);
                let v = self.digits_value(p + 2, q, 16);
                self.p = q;
                Ok(Token { k: Tk::Num, s: String::new(), num: v, line: ln, col, len: (q - p) as i32 })
            }
        } else {
            proof {
                lemma_span_end(b, p as int, 1);
            }
            let q = self.scan(p, 1);
            let v = self.digits_value(p, q, 10);
            self.p = q;
            Ok(Token { k: Tk::Num, s: String::new(), num: v, line: ln, col, len: (q - p) as i32 })
        }
    }

    /// A string literal at the current position (the opening quote).
    fn lex_string(&mut self) -> (r: RvResult<Token>)
        requires
            old(self).inv(),
            old(self).p < old(self).s@.len(),
            old(self).s@[old(self).p as int] == 34,
        ensures
            final(self).inv(),
            final(self).s@ == old(self).s@,
            match lex_string(old(self).s@, old(self).p as int, old(self).line as int, old(self).line_start as int) {
                LexStep::Tok(t, q, l, s) => r matches Ok(tok) && tok@ == t && final(self).p == q
                    && final(self).line == l && final(self).line_start == s,
                LexStep::Fail(e) => r matches Err(err) && err@ == e,
                LexStep::Skip(..) => false,
            },
    {
        let ghost b = self.s@;
        let p = self.p;
        let ln = self.line;
        let ls0 = self.line_start;
        let col = self.col_at(p);
        let n = self.s.len();
        let ghost target = str_scan(b, p + 1, ln as int, ls0 as int);
        self.p = p + 1;
        let mut bytes: Vec<u8> = Vec::new();
        while self.p < n && self.s[self.p] != 34
            invariant
                self.inv(),
                self.s@ == b,
                n == b.len(),
                p < self.p,
                ln <= self.line,
                ls0 <= self.line_start,
                ({
                    let r = str_scan(b, self.p as int, self.line as int, self.line_start as int);
                    &&& bytes@ + r.0 == target.0
                    &&& r.1 == target.1
                    &&& r.2 == target.2
                    &&& r.3 == target.3
                }),
            decreases n - self.p,
        {
            let ch = self.s[self.p];
            if ch == 92 && self.p + 1 < n {
                self.p = self.p + 1;
                let e = self.s[self.p];
                let ghost before = bytes@;
                if e == 110 {
                    bytes.push(10);
                } else if e == 116 {
                    bytes.push(9);
                } else if e == 92 {
                    bytes.push(92);
                } else if e == 34 {
                    bytes.push(34);
                } else {
                    bytes.push(92);
                    bytes.push(e);
                }
                assert(bytes@ =~= before + escape_bytes(e));
            } else {
                if ch == 10 {
                    self.line = self.line + 1;
                    self.line_start = self.p + 1;
                }
                bytes.push(ch);
            }
            self.p = self.p + 1;
        }
        proof {
            assert(bytes@ =~= target.0);
        }
        if self.p >= n {
            return Err(RvError { line: ln, col, len: 1, msg: own("unterminated string literal") });
        }
        self.p = self.p + 1;
        let s = lossy_string(bytes.as_slice());
        let len = (self.p - p) as i32;
        Ok(Token { k: Tk::Str, s, num: 0, line: ln, col, len })
    }

    /// An identifier at the current position.
    fn lex_ident(&mut self) -> (r: Token)
        requires
            old(self).inv(),
            old(self).p < old(self).s@.len(),
            is_alpha(old(self).s@[old(self).p as int]) || old(self).s@[old(self).p as int] == 95,
        ensures
            final(self).inv(),
            final(self).s@ == old(self).s@,
            lex_one(old(self).s@, old(self).p as int, old(self).line as int, old(self).line_start as int)
                == LexStep::Tok(r@, final(self).p as int, final(self).line as int, final(self).line_start as int),
    {
        let ghost b = self.s@;
        let p = self.p;
        let col = self.col_at(p);
        proof {
            lemma_span_end(b, p as int, 0);
        }
        let q = self.scan(p, 0);
        let sub = slice_subrange(self.s.as_slice(), p, q);
        proof {
            assert(sub@ =~= b.subrange(p as int, q as int));
            assert(all_ascii(sub@));
        }
        let text = lossy_string(sub);
        self.p = q;
        Token { k: Tk::Ident, s: text, num: 0, line: self.line, col, len: (q - p) as i32 }
    }

    /// Skips a `//` comment at the current position.
    fn skip_line_comment(&mut self)
        requires
            old(self).inv(),
            old(self).p < old(self).s@.len(),
        ensures
            final(self).inv(),
            final(self).s@ == old(self).s@,
            final(self).p == line_end(old(self).s@, old(self).p as int),
            final(self).line == old(self).line,
            final(self).line_start == old(self).line_start,
    {
        let ghost b = self.s@;
        let ghost target = line_end(b, self.p as int);
        let n = self.s.len();
        while self.p < n && self.s[self.p] != 10
            invariant
                self.inv(),
                self.s@ == b,
                n == b.len(),
                self.p <= n,
                self.line == old(self).line,
                self.line_start == old(self).line_start,
                old(self).p <= self.p,
                line_end(b, self.p as int) == target,
            decreases n - self.p,
        {
            self.p = self.p + 1;
        }
    }

    /// Skips a block comment whose `/*` is at the current position.
    fn skip_block_comment(&mut self) -> (r: RvResult<()>)
        requires
            old(self).inv(),
            old(self).p + 1 < old(self).s@.len(),
        ensures
            final(self).inv(),
            final(self).s@ == old(self).s@,
            ({
                let e = block_end(old(self).s@, old(self).p + 2, old(self).line as int, old(self).line_start as int);
                if e.0 + 1 >= old(self).s@.len() {
                    r matches Err(err) && err@ == (ErrSpec { line: old(self).line as int,
                        col: old(self).p - old(self).line_start + 1, len: 2, msg: "unterminated block comment"@ })
                } else {
                    r is Ok && final(self).p == e.0 + 2 && final(self).line == e.1 && final(self).line_start == e.2
                }
            }),
    {
        let ghost b = self.s@;
        let p = self.p;
        let ln = self.line;
        let col = self.col_at(p);
        let n = self.s.len();
        let ghost target = block_end(b, p + 2, ln as int, self.line_start as int);
        self.p = p + 2;
        while self.p + 1 < n && !(self.s[self.p] == 42 && self.s[self.p + 1] == 47)
            invariant
                self.inv(),
                self.s@ == b,
                n == b.len(),
                p + 2 <= self.p <= n,
                block_end(b, self.p as int, self.line as int, self.line_start as int) == target,
            decreases n - self.p,
        {
            if self.s[self.p] == 10 {
                self.line = self.line + 1;
                self.line_start = self.p + 1;
            }
            self.p = self.p + 1;
        }
        if self.p + 1 >= n {
            return Err(RvError { line: ln, col, len: 2, msg: own("unterminated block comment") });
        }
        self.p = self.p + 2;
        Ok(())
    }

    /// A punctuation token at the current position.
    fn lex_punct(&mut self) -> (r: Token)
        requires
            old(self).inv(),
            old(self).p < old(self).s@.len(),
        ensures
            final(self).inv(),
            final(self).s@ == old(self).s@,
            lex_punct(old(self).s@, old(self).p as int, old(self).line as int, old(self).line_start as int)
                == LexStep::Tok(r@, final(self).p as int, final(self).line as int, final(self).line_start as int),
    {
        let p = self.p;
        let n = self.s.len();
        let c = self.s[p];
        let col = self.col_at(p);
        if p + 1 < n {
            let d = self.s[p + 1];
            if (c == 60 && d == 61) || (c == 62 && d == 61) || (c == 61 && d == 61) || (c == 33 && d == 61)
                || (c == 38 && d == 38) || (c == 124 && d == 124) {
                let t1 = char_string(c as char);
                let t2 = char_string(d as char);
                let text = crate::strs::cat2(t1.as_str(), t2.as_str());
                self.p = p + 2;
                proof {
                    assert(text@ =~= seq![c as char, d as char]);
                }
                return Token { k: Tk::Punct, s: text, num: 0, line: self.line, col, len: 2 };
            }
        }
        let text = char_string(c as char);
        let plen: usize = if c < 128 { 1 } else { 2 };
        self.p = p + plen;
        Token { k: Tk::Punct, s: text, num: 0, line: self.line, col, len: plen as i32 }
    }

    /// The next token (`None` after a comment) from the non-blank current position.
    fn next_token(&mut self) -> (r: RvResult<Option<Token>>)
        requires
            old(self).inv(),
            old(self).p < old(self).s@.len(),
        ensures
            final(self).inv(),
            final(self).s@ == old(self).s@,
            match lex_one(old(self).s@, old(self).p as int, old(self).line as int, old(self).line_start as int) {
                LexStep::Tok(t, q, l, s) => r matches Ok(Some(tok)) && tok@ == t && final(self).p == q
                    && final(self).line == l && final(self).line_start == s,
                LexStep::Skip(q, l, s) => r matches Ok(None) && final(self).p == q && final(self).line == l
                    && final(self).line_start == s,
                LexStep::Fail(e) => r matches Err(err) && err@ == e,
            },
    {
        let p = self.p;
        let n = self.s.len();
        let c = self.s[p];
        if (65 <= c && c <= 90) || (97 <= c && c <= 122) || c == 95 {
            let t = self.lex_ident();
            return Ok(Some(t));
        }
        if 48 <= c && c <= 57 {
            let t = self.lex_number();
            return match t {
                Ok(tok) => Ok(Some(tok)),
                Err(e) => Err(e),
            };
        }
        if c == 34 {
            let t = self.lex_string();
            return match t {
                Ok(tok) => Ok(Some(tok)),
                Err(e) => Err(e),
            };
        }
        if p + 1 < n && c == 47 && self.s[p + 1] == 47 {
            self.skip_line_comment();
            return Ok(None);
        }
        if p + 1 < n && c == 47 && self.s[p + 1] == 42 {
            let r = self.skip_block_comment();
            return match r {
                Ok(()) => Ok(None),
                Err(e) => Err(e),
            };
        }
        let t = self.lex_punct();
        Ok(Some(t))
    }

    /// Tokenizes the whole source: the tokens followed by an `End` token, or the first
    /// lexical error (bad radix literal, unterminated string or block comment).
    pub fn run(self) -> (r: RvResult<Vec<Token>>)
        requires
            self.fresh(),
            self.bytes().len() < max_source(),
        ensures
            lex_result_view(r) == lex(self.bytes()),
    {
        let mut me = self;
        let ghost b = me.s@;
        let mut out: Vec<Token> = Vec::new();
        proof {
            assert(toks_view(out@) =~= Seq::<TokSpec>::empty());
            lemma_prepend_empty(lex(b));
        }
        loop
            invariant
                me.inv(),
                me.s@ == b,
                b == self.bytes(),
                lex(b) == prepend(toks_view(out@), lex_from(b, me.p as int, me.line as int, me.line_start as int)),
            decreases b.len() + 2 - me.p,
        {
            let ghost (p0, l0, s0) = (me.p as int, me.line as int, me.line_start as int);
            let ghost pre = toks_view(out@);
            proof {
                lemma_ws_end(b, p0, l0, s0);
                lemma_lex_from_step(b, p0, l0, s0);
            }
            me.skip_ws();
            if me.p >= me.s.len() {
                let col = me.col_at(me.p);
                let tok = Token { k: Tk::End, s: String::new(), num: 0, line: me.line, col, len: 1 };
                let ghost ov = out@;
                out.push(tok);
                proof {
                    assert(tok@ == tok_at(Tk::End, seq![], 0, me.p as int, me.p + 1, me.line as int, me.line_start as int));
                    lemma_toks_view_push(ov, tok);
                }
                return Ok(out);
            }
            proof {
                lemma_lex_one(b, me.p as int, me.line as int, me.line_start as int);
            }
            let t = me.next_token();
            match t {
                Err(e) => {
                    return Err(e);
                },
                Ok(Some(tok)) => {
                    let ghost ov = out@;
                    let ghost tv = tok@;
                    out.push(tok);
                    proof {
                        lemma_toks_view_push(ov, tok);
                        lemma_prepend_assoc(pre, seq![tok@], lex_from(b, me.p as int, me.line as int, me.line_start as int));
                    }
                },
                Ok(None) => {},
            }
        }
    }
}

} // verus!
