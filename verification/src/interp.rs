//! Elaboration helpers: element chunks (`ddr2brcc`), constant and width expressions,
//! generic-parameter environments, lane selections, binding checks, and the text helpers
//! of the testbench (`monitor` formatting, `scan` formats, VCD file names).
use crate::ast::{BindRef, BindTarget, Elem, Endpoint, Expr, IdxExpr, LogicDef, Sel, WidthExpr};
use crate::circuit::SeqKind;
use crate::diag::{fail, RvError, RvResult};
use crate::lexer::ErrSpec;
use crate::parser::{div_wrap, line_err, neg_wrap, rem_wrap};
use crate::strs::{cat2, cat3, cat4, cat5, char_string, int_str, int_text, own, str_eq, StrMap, StrSet};
use vstd::prelude::*;
#[allow(unused_imports)]
use vstd::string::StringSliceAdditionalSpecFns;

verus! {

/// A decimal digit byte.
pub open spec fn dig(c: u8) -> bool {
    48 <= c <= 57
}

/// End of the run of digits from `i`.
pub open spec fn digits_end(b: Seq<u8>, i: int) -> int
    decreases b.len() - i,
{
    if 0 <= i < b.len() && dig(b[i]) {
        digits_end(b, i + 1)
    } else {
        i
    }
}

/// Value of the decimal digits `b[p..q]`, accumulated with 32-bit wrapping.
pub open spec fn count_val(b: Seq<u8>, p: int, q: int) -> i32
    decreases q - p,
{
    if q <= p {
        0
    } else {
        count_val(b, p, q - 1).wrapping_mul(10).wrapping_add((b[q - 1] - 48) as i32)
    }
}

/// An element.
pub open spec fn el(k: char, n: i32, line: i32) -> Elem {
    Elem { k, n, line }
}

/// Error text of a chunk that cannot be read, for the chunk text `s`.
pub open spec fn quoted(s: Seq<char>) -> Seq<char> {
    "\""@ + s + "\""@
}

/// The elements of a chunk from byte `i`, or the message of the first error.
/// `d` is one dust (`dN`: N dust, N >= 1), `r`/`rN` a repeater of delay 1 or N in 0-4,
/// `t` a torch, `o`/`op`/`on`/`oe` an observer (any change / rising / falling / two-level
/// edge), `cc`/`cd` a comparator in compare / subtract mode.
pub open spec fn chunk_from(b: Seq<u8>, i: int, line: i32, s: Seq<char>) -> Result<Seq<Elem>, Seq<char>>
    decreases b.len() - i, 0int,
    when 0 <= i
{
    if i >= b.len() {
        Ok(seq![])
    } else {
        let c = b[i];
        if c == 100 {
            if i + 1 < b.len() && dig(b[i + 1]) {
                let q = digits_end(b, i + 1);
                let n = count_val(b, i + 1, q);
                if n <= 0 {
                    Err("dust count must be >= 1"@)
                } else {
                    proof {
                        lemma_digits_end(b, i + 1);
                    }
                    prepend_elems(Seq::new(n as nat, |_k: int| el('d', 1, line)), chunk_from(b, q, line, s))
                }
            } else {
                prepend_elems(seq![el('d', 1, line)], chunk_from(b, i + 1, line, s))
            }
        } else if c == 114 {
            if i + 1 < b.len() && dig(b[i + 1]) {
                let n = (b[i + 1] - 48) as i32;
                if n > 4 || (i + 2 < b.len() && dig(b[i + 2])) {
                    Err("repeater delay must be 0-4 in "@ + quoted(s))
                } else {
                    prepend_elems(seq![el('r', n, line)], chunk_from(b, i + 2, line, s))
                }
            } else {
                prepend_elems(seq![el('r', 1, line)], chunk_from(b, i + 1, line, s))
            }
        } else if c == 116 {
            prepend_elems(seq![el('t', 1, line)], chunk_from(b, i + 1, line, s))
        } else if c == 111 {
            if i + 1 < b.len() && (b[i + 1] == 112 || b[i + 1] == 110 || b[i + 1] == 101) {
                let n: i32 = if b[i + 1] == 112 { 1 } else if b[i + 1] == 110 { 2 } else { 3 };
                prepend_elems(seq![el('o', n, line)], chunk_from(b, i + 2, line, s))
            } else {
                prepend_elems(seq![el('o', 0, line)], chunk_from(b, i + 1, line, s))
            }
        } else if c == 99 {
            if i + 1 >= b.len() {
                Err("comparator must be written 'cc' (compare) or 'cd' (subtract)"@)
            } else if b[i + 1] == 99 {
                prepend_elems(seq![el('C', 1, line)], chunk_from(b, i + 2, line, s))
            } else if b[i + 1] == 100 {
                prepend_elems(seq![el('S', 1, line)], chunk_from(b, i + 2, line, s))
            } else {
                Err("comparator must be written 'cc' or 'cd' in "@ + quoted(s))
            }
        } else {
            Err("unknown element '"@ + seq![c as char] + "' in "@ + quoted(s))
        }
    }
}

/// Prepends elements to a successful result.
pub open spec fn prepend_elems(pre: Seq<Elem>, r: Result<Seq<Elem>, Seq<char>>) -> Result<Seq<Elem>, Seq<char>> {
    match r {
        Ok(t) => Ok(pre + t),
        Err(e) => Err(e),
    }
}

pub proof fn lemma_digits_end(b: Seq<u8>, i: int)
    requires
        0 <= i,
    ensures
        i <= digits_end(b, i),
        i <= b.len() ==> digits_end(b, i) <= b.len(),
        forall|k: int| i <= k < digits_end(b, i) ==> dig(#[trigger] b[k]),
        digits_end(b, i) < b.len() ==> !dig(b[digits_end(b, i)]),
    decreases b.len() - i,
{
    if 0 <= i < b.len() && dig(b[i]) {
        lemma_digits_end(b, i + 1);
    }
}

/// A repeater read from a chunk has a delay in 0-4.
pub proof fn lemma_chunk_rep_delay(b: Seq<u8>, i: int, line: i32, s: Seq<char>)
    requires
        0 <= i,
    ensures
        chunk_from(b, i, line, s) matches Ok(es) ==> forall|j: int| 0 <= j < es.len() && (#[trigger] es[j]).k == 'r' ==> 0 <= es[j].n <= 4,
    decreases b.len() - i,
{
    if i < b.len() {
        let c = b[i];
        if c == 100 {
            if i + 1 < b.len() && dig(b[i + 1]) {
                let q = digits_end(b, i + 1);
                lemma_digits_end(b, i + 1);
                lemma_chunk_rep_delay(b, q, line, s);
                let n = count_val(b, i + 1, q);
                if n > 0 {
                    if let Ok(t) = chunk_from(b, q, line, s) {
                        let pre = Seq::new(n as nat, |_k: int| el('d', 1, line));
                        assert forall|j: int| 0 <= j < (pre + t).len() && (#[trigger] (pre + t)[j]).k == 'r' implies 0 <= (pre + t)[j].n <= 4 by {
                            if j >= pre.len() {
                                assert((pre + t)[j] == t[j - pre.len()]);
                            }
                        }
                    }
                }
            } else {
                lemma_chunk_rep_delay(b, i + 1, line, s);
            }
        } else if c == 114 {
            if i + 1 < b.len() && dig(b[i + 1]) {
                lemma_chunk_rep_delay(b, i + 2, line, s);
            } else {
                lemma_chunk_rep_delay(b, i + 1, line, s);
            }
        } else if c == 116 {
            lemma_chunk_rep_delay(b, i + 1, line, s);
        } else if c == 111 {
            lemma_chunk_rep_delay(b, i + 1, line, s);
            if i + 1 < b.len() {
                lemma_chunk_rep_delay(b, i + 2, line, s);
            }
        } else if c == 99 {
            if i + 1 < b.len() {
                lemma_chunk_rep_delay(b, i + 2, line, s);
            }
        }
        if let Ok(es) = chunk_from(b, i, line, s) {
            assert forall|j: int| 0 <= j < es.len() && (#[trigger] es[j]).k == 'r' implies 0 <= es[j].n <= 4 by {
                if j >= 1 && !(c == 100 && i + 1 < b.len() && dig(b[i + 1])) {
                }
            }
        }
    }
}

/// The elements of a whole chunk.
pub open spec fn chunk_elems(s: &str, line: i32) -> Result<Seq<Elem>, Seq<char>> {
    chunk_from(s.spec_bytes(), 0, line, s@)
}

proof fn lemma_prepend_elems_empty(r: Result<Seq<Elem>, Seq<char>>)
    ensures
        prepend_elems(Seq::empty(), r) == r,
{
    if let Ok(t) = r {
        assert(Seq::<Elem>::empty() + t =~= t);
    }
}

proof fn lemma_prepend_elems_assoc(a: Seq<Elem>, c: Seq<Elem>, r: Result<Seq<Elem>, Seq<char>>)
    ensures
        prepend_elems(a, prepend_elems(c, r)) == prepend_elems(a + c, r),
{
    if let Ok(t) = r {
        assert(a + (c + t) =~= (a + c) + t);
    }
}

/// Reads an element chunk such as `ddr2brcc` into its elements (see `chunk_from`).
pub fn parse_chunk(s: &str, line: i32) -> (r: RvResult<Vec<Elem>>)
    ensures
        match chunk_elems(s, line) {
            Ok(es) => r matches Ok(v) && v@ == es,
            Err(m) => r matches Err(e) && e.line == line && e.col == 0 && e.len == 0 && e.msg@ == m,
        },
{
    let bv = s.as_bytes();
    let ghost b = bv@;
    let n = bv.len();
    let mut out: Vec<Elem> = Vec::new();
    let mut i: usize = 0;
    proof {
        lemma_prepend_elems_empty(chunk_from(b, 0, line, s@));
    }
    while i < n
        invariant
            n == b.len(),
            bv@ == b,
            b == s.spec_bytes(),
            i <= n,
            chunk_elems(s, line) == prepend_elems(out@, chunk_from(b, i as int, line, s@)),
        decreases n - i,
    {
        let ghost pre = out@;
        let c = bv[i];
        if c == 100 {
            i += 1;
            if i < n && 48 <= bv[i] && bv[i] <= 57 {
                let start = i;
                let mut cnt: i32 = 0;
                proof {
                    lemma_digits_end(b, start as int);
                }
                while i < n && 48 <= bv[i] && bv[i] <= 57
                    invariant
                        n == b.len(),
                        bv@ == b,
                        start <= i <= n,
                        i <= digits_end(b, start as int),
                        digits_end(b, i as int) == digits_end(b, start as int),
                        cnt == count_val(b, start as int, i as int),
                    decreases n - i,
                {
                    cnt = cnt.wrapping_mul(10).wrapping_add((bv[i] - 48) as i32);
                    i += 1;
                    proof {
                        lemma_digits_end(b, i as int);
                    }
                }
                if cnt <= 0 {
                    return fail(line, own("dust count must be >= 1"));
                }
                let mut k: i32 = 0;
                while k < cnt
                    invariant
                        0 <= k <= cnt,
                        out@ == pre + Seq::new(k as nat, |_j: int| el('d', 1, line)),
                    decreases cnt - k,
                {
                    out.push(Elem { k: 'd', n: 1, line });
                    k += 1;
                    assert(out@ =~= pre + Seq::new(k as nat, |_j: int| el('d', 1, line)));
                }
                proof {
                    lemma_prepend_elems_assoc(pre, Seq::new(cnt as nat, |_j: int| el('d', 1, line)), chunk_from(b, i as int, line, s@));
                }
            } else {
                out.push(Elem { k: 'd', n: 1, line });
                proof {
                    lemma_prepend_elems_assoc(pre, seq![el('d', 1, line)], chunk_from(b, i as int, line, s@));
                    assert(out@ =~= pre + seq![el('d', 1, line)]);
                }
            }
        } else if c == 114 {
            i += 1;
            let mut dl: i32 = 1;
            if i < n && 48 <= bv[i] && bv[i] <= 57 {
                dl = (bv[i] - 48) as i32;
                i += 1;
                if dl > 4 || (i < n && 48 <= bv[i] && bv[i] <= 57) {
                    let m = cat3("repeater delay must be 0-4 in \"", s, "\"");
                    proof {
                        assert(m@ =~= "repeater delay must be 0-4 in "@ + quoted(s@)) by {
                            reveal_strlit("repeater delay must be 0-4 in \"");
                            reveal_strlit("repeater delay must be 0-4 in ");
                            reveal_strlit("\"");
                        }
                    }
                    return fail(line, m);
                }
            }
            out.push(Elem { k: 'r', n: dl, line });
            proof {
                lemma_prepend_elems_assoc(pre, seq![el('r', dl, line)], chunk_from(b, i as int, line, s@));
                assert(out@ =~= pre + seq![el('r', dl, line)]);
            }
        } else if c == 116 {
            out.push(Elem { k: 't', n: 1, line });
            i += 1;
            proof {
                lemma_prepend_elems_assoc(pre, seq![el('t', 1, line)], chunk_from(b, i as int, line, s@));
                assert(out@ =~= pre + seq![el('t', 1, line)]);
            }
        } else if c == 111 {
            i += 1;
            let mut md: i32 = 0;
            if i < n {
                let m = bv[i];
                if m == 112 {
                    md = 1;
                    i += 1;
                } else if m == 110 {
                    md = 2;
                    i += 1;
                } else if m == 101 {
                    md = 3;
                    i += 1;
                }
            }
            out.push(Elem { k: 'o', n: md, line });
            proof {
                lemma_prepend_elems_assoc(pre, seq![el('o', md, line)], chunk_from(b, i as int, line, s@));
                assert(out@ =~= pre + seq![el('o', md, line)]);
            }
        } else if c == 99 {
            if i + 1 >= n {
                return fail(line, own("comparator must be written 'cc' (compare) or 'cd' (subtract)"));
            }
            let m = bv[i + 1];
            let k = if m == 99 {
                'C'
            } else if m == 100 {
                'S'
            } else {
                let t = cat3("comparator must be written 'cc' or 'cd' in \"", s, "\"");
                proof {
                    assert(t@ =~= "comparator must be written 'cc' or 'cd' in "@ + quoted(s@)) by {
                        reveal_strlit("comparator must be written 'cc' or 'cd' in \"");
                        reveal_strlit("comparator must be written 'cc' or 'cd' in ");
                        reveal_strlit("\"");
                    }
                }
                return fail(line, t);
            };
            out.push(Elem { k, n: 1, line });
            i += 2;
            proof {
                lemma_prepend_elems_assoc(pre, seq![el(k, 1, line)], chunk_from(b, i as int, line, s@));
                assert(out@ =~= pre + seq![el(k, 1, line)]);
            }
        } else {
            let ct = char_string(c as char);
            let t1 = cat3("unknown element '", ct.as_str(), "' in \"");
            let t = cat2(t1.as_str(), s);
            let t = cat2(t.as_str(), "\"");
            proof {
                assert(t@ =~= "unknown element '"@ + seq![c as char] + "' in "@ + quoted(s@)) by {
                    reveal_strlit("' in \"");
                    reveal_strlit("' in ");
                    reveal_strlit("\"");
                }
            }
            return fail(line, t);
        }
    }
    proof {
        assert(out@ + Seq::<Elem>::empty() =~= out@);
    }
    Ok(out)
}

/// The whole text reads as an element chunk (so it would be ambiguous inside a chain).
pub open spec fn collides_chars(c: Seq<char>) -> bool {
    c.len() > 0 && chunk_from(vstd::utf8::encode_utf8(c), 0, 0, c) is Ok
}

/// The whole name reads as an element chunk.
pub open spec fn collides(name: &str) -> bool {
    collides_chars(name@)
}

/// Whether a reg, wire or port name reads as an element sequence (`r`, `cd`, `td`, ...),
/// which is not allowed because it would be ambiguous inside a chain.
pub fn name_collides_with_element(name: &str) -> (r: bool)
    ensures
        r == collides(name),
{
    let n = name.unicode_len();
    if n == 0 {
        return false;
    }
    match parse_chunk(name, 0) {
        Ok(_) => true,
        Err(_) => false,
    }
}

/// The comparator mode of a reg initializer that is exactly one comparator; `None` for
/// a chunk that does not start with a comparator.
pub fn comparator_mode(tok: &str, line: i32) -> (r: RvResult<Option<SeqKind>>)
    ensures
        match chunk_elems(tok, line) {
            Err(m) => r matches Err(e) && e.msg@ == m && e.line == line,
            Ok(es) => if es.len() > 0 && (es[0].k == 'C' || es[0].k == 'S') {
                if es.len() != 1 {
                    r matches Err(e) && e.line == line && e.msg@ == "a comparator reg must hold exactly one comparator: "@
                        + quoted(tok@)
                } else {
                    r == Ok::<Option<SeqKind>, RvError>(Some(if es[0].k == 'S' { SeqKind::CompSub } else { SeqKind::CompCmp }))
                }
            } else {
                r == Ok::<Option<SeqKind>, RvError>(None)
            },
        },
{
    let es = match parse_chunk(tok, line) {
        Ok(v) => v,
        Err(e) => return Err(e),
    };
    if es.len() > 0 && (es[0].k == 'C' || es[0].k == 'S') {
        if es.len() != 1 {
            let m = cat3("a comparator reg must hold exactly one comparator: \"", tok, "\"");
            proof {
                assert(m@ =~= "a comparator reg must hold exactly one comparator: "@ + quoted(tok@)) by {
                    reveal_strlit("a comparator reg must hold exactly one comparator: \"");
                    reveal_strlit("a comparator reg must hold exactly one comparator: ");
                    reveal_strlit("\"");
                }
            }
            return fail(line, m);
        }
        return Ok(Some(if es[0].k == 'S' { SeqKind::CompSub } else { SeqKind::CompCmp }));
    }
    Ok(None)
}

/// The delay of a reg initializer that is exactly one repeater; `None` for a chunk that
/// does not start with a repeater.
pub fn repeater_delay(tok: &str, line: i32) -> (r: RvResult<Option<i32>>)
    ensures
        match chunk_elems(tok, line) {
            Err(m) => r matches Err(e) && e.msg@ == m && e.line == line,
            Ok(es) => if es.len() > 0 && es[0].k == 'r' {
                if es.len() != 1 {
                    r matches Err(e) && e.line == line && e.msg@ == "a repeater reg must hold exactly one repeater: "@
                        + quoted(tok@)
                } else {
                    r == Ok::<Option<i32>, RvError>(Some(es[0].n))
                }
            } else {
                r == Ok::<Option<i32>, RvError>(None)
            },
        },
        r matches Ok(Some(d)) ==> 0 <= d <= 4,
{
    proof {
        lemma_chunk_rep_delay(tok.spec_bytes(), 0, line, tok@);
    }
    let es = match parse_chunk(tok, line) {
        Ok(v) => v,
        Err(e) => return Err(e),
    };
    if es.len() > 0 && es[0].k == 'r' {
        if es.len() != 1 {
            let m = cat3("a repeater reg must hold exactly one repeater: \"", tok, "\"");
            proof {
                assert(m@ =~= "a repeater reg must hold exactly one repeater: "@ + quoted(tok@)) by {
                    reveal_strlit("a repeater reg must hold exactly one repeater: \"");
                    reveal_strlit("a repeater reg must hold exactly one repeater: ");
                    reveal_strlit("\"");
                }
            }
            return fail(line, m);
        }
        return Ok(Some(es[0].n));
    }
    Ok(None)
}


// ---- width and parameter expressions ------------------------------------

/// Value of a width or `#(P=expr)` expression: names are looked up in the logic's
/// parameters first, then in the program's numeric defines; an unknown name is reported
/// at `fallback` when its own line is 0. Arithmetic wraps at 64 bits.
pub open spec fn width_eval(e: Expr, params: Seq<(String, i64)>, defines: Seq<(String, i64)>, fallback: i32) -> Result<i64, ErrSpec>
    decreases e,
{
    match e {
        Expr::Num { num, .. } => Ok(num),
        Expr::Time { line } => Err(line_err(line, "$time is not allowed in a width / param expression"@)),
        Expr::Var { line, name, index } => if index is Some {
            Err(line_err(line, "cannot index '"@ + name@ + "' in a width / param expression"@))
        } else {
            match crate::strs::assoc(params, name@) {
                Some(v) => Ok(v),
                None => match crate::strs::assoc(defines, name@) {
                    Some(v) => Ok(v),
                    None => Err(line_err(
                        if line == 0 { fallback } else { line },
                        "unknown identifier '"@ + name@
                            + "' in width / param expression (no such logic parameter, param constant, or numeric #define)"@,
                    )),
                },
            }
        },
        Expr::Un { line, op, a } => match width_eval(*a, params, defines, fallback) {
            Err(x) => Err(x),
            Ok(v) => if op@ == "-"@ {
                Ok(neg_wrap(v))
            } else if op@ == "!"@ {
                Ok(if v == 0 { 1 } else { 0 })
            } else {
                Err(line_err(line, "operator '"@ + op@ + "' not allowed in a width / param expression"@))
            },
        },
        Expr::Bin { line, op, a, b } => match width_eval(*a, params, defines, fallback) {
            Err(x) => Err(x),
            Ok(x) => match width_eval(*b, params, defines, fallback) {
                Err(y) => Err(y),
                Ok(y) => if op@ == "+"@ {
                    Ok(x.wrapping_add(y))
                } else if op@ == "-"@ {
                    Ok(x.wrapping_sub(y))
                } else if op@ == "*"@ {
                    Ok(x.wrapping_mul(y))
                } else if op@ == "/"@ {
                    if y == 0 {
                        Err(line_err(line, "division by zero in width / param expression"@))
                    } else {
                        Ok(div_wrap(x, y))
                    }
                } else if op@ == "%"@ {
                    if y == 0 {
                        Err(line_err(line, "modulo by zero in width / param expression"@))
                    } else {
                        Ok(rem_wrap(x, y))
                    }
                } else {
                    Err(line_err(line, "operator '"@ + op@ + "' not allowed in a width / param expression"@))
                },
            },
        },
    }
}

/// Arithmetic in width / param expressions: where both operands evaluate and the
/// exact result fits in 64 bits, `a + b`, `a - b` and `a * b` evaluate to the sum,
/// the difference of the left operand minus the right one, and the product of the
/// operands' values (so with `W = 4`, `W - 1` is 3 and `1 - W` is -3); `a / b` and
/// `a % b` are the truncating quotient and remainder of the left operand by the
/// right one (see `lemma_div_rem`), and an error for a right operand of 0; `-a` is
/// the opposite of `a`'s value.
pub proof fn lemma_width_arith(
    line: i32,
    op: String,
    a: Expr,
    b: Expr,
    params: Seq<(String, i64)>,
    defines: Seq<(String, i64)>,
    fallback: i32,
)
    requires
        width_eval(a, params, defines, fallback) is Ok,
        width_eval(b, params, defines, fallback) is Ok,
    ensures
        ({
            let x = width_eval(a, params, defines, fallback)->Ok_0;
            let y = width_eval(b, params, defines, fallback)->Ok_0;
            let r = width_eval((Expr::Bin { line, op, a: Box::new(a), b: Box::new(b) }), params, defines, fallback);
            &&& op@ == "+"@ && i64::MIN <= x + y <= i64::MAX ==> r == Ok::<i64, ErrSpec>((x + y) as i64)
            &&& op@ == "-"@ && i64::MIN <= x - y <= i64::MAX ==> r == Ok::<i64, ErrSpec>((x - y) as i64)
            &&& op@ == "*"@ && i64::MIN <= x * y <= i64::MAX ==> r == Ok::<i64, ErrSpec>((x * y) as i64)
            &&& (op@ == "/"@ || op@ == "%"@) && y == 0 ==> r is Err
            &&& op@ == "/"@ && y != 0 ==> r == Ok::<i64, ErrSpec>(div_wrap(x, y))
            &&& op@ == "%"@ && y != 0 ==> r == Ok::<i64, ErrSpec>(rem_wrap(x, y))
            &&& op@ == "-"@ && x != i64::MIN ==> width_eval((Expr::Un { line, op, a: Box::new(a) }), params, defines, fallback)
                == Ok::<i64, ErrSpec>((-x) as i64)
        }),
{
    reveal_strlit("+");
    reveal_strlit("-");
    reveal_strlit("*");
    let x = width_eval(a, params, defines, fallback)->Ok_0;
    let y = width_eval(b, params, defines, fallback)->Ok_0;
    let z: int = x * y;
    if i64::MIN <= z <= i64::MAX {
        if z >= 0 {
            assert(z % 18446744073709551616 == z);
        } else {
            assert(z % 18446744073709551616 == z + 18446744073709551616);
        }
        assert(x.wrapping_mul(y) == z);
    }
    assert(i64::MIN <= x - y <= i64::MAX ==> x.wrapping_sub(y) == x - y);
    assert(i64::MIN <= x + y <= i64::MAX ==> x.wrapping_add(y) == x + y);
    assert("+"@[0] != "-"@[0]);
    assert("+"@[0] != "*"@[0]);
    assert("-"@[0] != "*"@[0]);
    reveal_strlit("/");
    reveal_strlit("%");
    assert("+"@[0] != "/"@[0]);
    assert("-"@[0] != "/"@[0]);
    assert("*"@[0] != "/"@[0]);
    assert("+"@[0] != "%"@[0]);
    assert("-"@[0] != "%"@[0]);
    assert("*"@[0] != "%"@[0]);
    assert("/"@[0] != "%"@[0]);
}

/// Evaluates a width or generic-parameter expression (see `width_eval`).
pub fn eval_const_expr(e: &Expr, params: &StrMap<i64>, defines: &StrMap<i64>, fallback_line: i32) -> (r: RvResult<i64>)
    ensures
        match width_eval(*e, params.entries@, defines.entries@, fallback_line) {
            Ok(v) => r == Ok::<i64, RvError>(v),
            Err(x) => r matches Err(err) && err@ == x,
        },
    decreases e,
{
    match e {
        Expr::Num { num, .. } => Ok(*num),
        Expr::Time { line } => fail(*line, own("$time is not allowed in a width / param expression")),
        Expr::Var { line, name, index } => {
            if index.is_some() {
                return fail(*line, cat3("cannot index '", name.as_str(), "' in a width / param expression"));
            }
            if let Some(v) = params.get(name.as_str()) {
                return Ok(*v);
            }
            if let Some(v) = defines.get(name.as_str()) {
                return Ok(*v);
            }
            let ln = if *line == 0 { fallback_line } else { *line };
            fail(
                ln,
                cat3(
                    "unknown identifier '",
                    name.as_str(),
                    "' in width / param expression (no such logic parameter, param constant, or numeric #define)",
                ),
            )
        },
        Expr::Un { line, op, a } => {
            let v = match eval_const_expr(a, params, defines, fallback_line) {
                Ok(v) => v,
                Err(x) => return Err(x),
            };
            if str_eq(op.as_str(), "-") {
                Ok(0i64.wrapping_sub(v))
            } else if str_eq(op.as_str(), "!") {
                Ok(if v == 0 { 1 } else { 0 })
            } else {
                fail(*line, cat3("operator '", op.as_str(), "' not allowed in a width / param expression"))
            }
        },
        Expr::Bin { line, op, a, b } => {
            let x = match eval_const_expr(a, params, defines, fallback_line) {
                Ok(v) => v,
                Err(err) => return Err(err),
            };
            let y = match eval_const_expr(b, params, defines, fallback_line) {
                Ok(v) => v,
                Err(err) => return Err(err),
            };
            if str_eq(op.as_str(), "+") {
                Ok(x.wrapping_add(y))
            } else if str_eq(op.as_str(), "-") {
                Ok(x.wrapping_sub(y))
            } else if str_eq(op.as_str(), "*") {
                Ok(x.wrapping_mul(y))
            } else if str_eq(op.as_str(), "/") {
                if y == 0 {
                    return fail(*line, own("division by zero in width / param expression"));
                }
                match x.checked_div(y) {
                    Some(q) => Ok(q),
                    None => Ok(x),
                }
            } else if str_eq(op.as_str(), "%") {
                if y == 0 {
                    return fail(*line, own("modulo by zero in width / param expression"));
                }
                match x.checked_rem(y) {
                    Some(q) => Ok(q),
                    None => Ok(0),
                }
            } else {
                fail(*line, cat3("operator '", op.as_str(), "' not allowed in a width / param expression"))
            }
        },
    }
}

/// Resolves a bus width: a literal, or an expression evaluated in the parameter
/// environment; at least 1 and at most `i32::MAX`.
pub fn resolve_width(we: &WidthExpr, param_env: &StrMap<i64>, defines: &StrMap<i64>, line: i32) -> (r: RvResult<i32>)
    ensures
        ({
            let v: Result<i64, ErrSpec> = match *we {
                WidthExpr::Lit(n) => Ok(n as i64),
                WidthExpr::Expr(e) => width_eval(e, param_env.entries@, defines.entries@, line),
            };
            match v {
                Err(x) => r matches Err(err) && err@ == x,
                Ok(v) => if v < 1 {
                    r matches Err(err) && err@ == line_err(line, "bus width must be >= 1 (got "@ + int_text(v as int, 10) + ")"@)
                } else if v > i32::MAX {
                    r matches Err(err) && err@ == line_err(line, "bus width too large: "@ + int_text(v as int, 10))
                } else {
                    r == Ok::<i32, RvError>(v as i32)
                },
            }
        }),
{
    let v = match we {
        WidthExpr::Lit(n) => *n as i64,
        WidthExpr::Expr(e) => match eval_const_expr(e, param_env, defines, line) {
            Ok(v) => v,
            Err(x) => return Err(x),
        },
    };
    if v < 1 {
        let t = int_str(v);
        return fail(line, cat3("bus width must be >= 1 (got ", t.as_str(), ")"));
    }
    if v > i32::MAX as i64 {
        let t = int_str(v);
        return fail(line, cat2("bus width too large: ", t.as_str()));
    }
    Ok(v as i32)
}

/// Resolves a lane or slice index (range-checked into `i32`).
pub fn resolve_idx(ie: &IdxExpr, param_env: &StrMap<i64>, defines: &StrMap<i64>, line: i32) -> (r: RvResult<i32>)
    ensures
        match idx_val(*ie, param_env.entries@, defines.entries@, line) {
            Ok(k) => r == Ok::<i32, RvError>(k),
            Err(x) => r matches Err(err) && err@ == x,
        },
{
    let v = match ie {
        IdxExpr::Lit(n) => return Ok(*n),
        IdxExpr::Expr(e) => match eval_const_expr(e, param_env, defines, line) {
            Ok(v) => v,
            Err(x) => return Err(x),
        },
    };
    if v < i32::MIN as i64 || v > i32::MAX as i64 {
        let t = int_str(v);
        return fail(line, cat2("lane/slice index out of range: ", t.as_str()));
    }
    Ok(v as i32)
}

/// Index of the first actual parameter named `k`.
pub open spec fn find_actual(actual: Seq<(String, Expr)>, k: Seq<char>) -> Option<int>
    decreases actual.len(),
{
    if actual.len() == 0 {
        None
    } else if actual[0].0@ == k {
        Some(0)
    } else {
        match find_actual(actual.drop_first(), k) {
            Some(j) => Some(j + 1),
            None => None,
        }
    }
}

proof fn lemma_find_actual(actual: Seq<(String, Expr)>, k: Seq<char>)
    ensures
        find_actual(actual, k) matches Some(j) ==> 0 <= j < actual.len() && actual[j].0@ == k && forall|m: int| 0 <= m < j ==> (#[trigger] actual[m]).0@ != k,
        find_actual(actual, k) is None ==> forall|m: int| 0 <= m < actual.len() ==> (#[trigger] actual[m]).0@ != k,
    decreases actual.len(),
{
    if actual.len() > 0 && actual[0].0@ != k {
        lemma_find_actual(actual.drop_first(), k);
        assert forall|m: int| 1 <= m < actual.len() implies actual[m] == actual.drop_first()[m - 1] by {}
    }
}

/// Whether `k` is declared among `decl`.
pub open spec fn declared(decl: Seq<(String, Option<i64>)>, k: Seq<char>) -> bool {
    exists|m: int| 0 <= m < decl.len() && (#[trigger] decl[m]).0@ == k
}

/// The first of the first `n` actual parameters that the callee does not declare.
pub open spec fn undeclared_actual(decl: Seq<(String, Option<i64>)>, actual: Seq<(String, Expr)>, n: int) -> Option<int>
    decreases n,
{
    if n <= 0 {
        None
    } else {
        match undeclared_actual(decl, actual, n - 1) {
            Some(m) => Some(m),
            None => if !declared(decl, actual[n - 1].0@) {
                Some(n - 1)
            } else {
                None
            },
        }
    }
}

/// The first failure binding the first `n` declared parameters in order: an actual whose
/// value is not a constant, or a parameter with neither an actual nor a default.
pub open spec fn param_bind_error(
    callee: Seq<char>,
    decl: Seq<(String, Option<i64>)>,
    actual: Seq<(String, Expr)>,
    env: Seq<(String, i64)>,
    defines: Seq<(String, i64)>,
    line: i32,
    n: int,
) -> Option<ErrSpec>
    decreases n,
{
    if n <= 0 {
        None
    } else {
        match param_bind_error(callee, decl, actual, env, defines, line, n - 1) {
            Some(x) => Some(x),
            None => match find_actual(actual, decl[n - 1].0@) {
                Some(j) => match width_eval(actual[j].1, env, defines, line) {
                    Err(x) => Some(x),
                    Ok(_) => None,
                },
                None => if decl[n - 1].1 is None {
                    Some(line_err(
                        line,
                        "logic '"@ + callee + "' requires parameter '"@ + decl[n - 1].0@ + "' (no default; pass it with '#("@
                            + decl[n - 1].0@ + "=...)' at the call site)"@,
                    ))
                } else {
                    None
                },
            },
        }
    }
}

proof fn lemma_undeclared_stays(decl: Seq<(String, Option<i64>)>, actual: Seq<(String, Expr)>, n: int, m: int)
    requires
        0 <= n <= m,
        undeclared_actual(decl, actual, n) is Some,
    ensures
        undeclared_actual(decl, actual, m) == undeclared_actual(decl, actual, n),
    decreases m - n,
{
    if n < m {
        lemma_undeclared_stays(decl, actual, n, m - 1);
    }
}

proof fn lemma_bind_error_stays(
    callee: Seq<char>,
    decl: Seq<(String, Option<i64>)>,
    actual: Seq<(String, Expr)>,
    env: Seq<(String, i64)>,
    defines: Seq<(String, i64)>,
    line: i32,
    n: int,
    m: int,
)
    requires
        0 <= n <= m,
        param_bind_error(callee, decl, actual, env, defines, line, n) is Some,
    ensures
        param_bind_error(callee, decl, actual, env, defines, line, m) == param_bind_error(callee, decl, actual, env, defines, line, n),
    decreases m - n,
{
    if n < m {
        lemma_bind_error_stays(callee, decl, actual, env, defines, line, n, m - 1);
    }
}

/// Every actual parameter is declared, and every declared parameter has an actual whose
/// value is a constant, or a default.
pub open spec fn params_bindable(
    decl: Seq<(String, Option<i64>)>,
    actual: Seq<(String, Expr)>,
    env: Seq<(String, i64)>,
    defines: Seq<(String, i64)>,
    line: i32,
) -> bool {
    &&& forall|m: int| 0 <= m < actual.len() ==> declared(decl, (#[trigger] actual[m]).0@)
    &&& forall|k: int| 0 <= k < decl.len() ==> match find_actual(actual, (#[trigger] decl[k]).0@) {
        Some(j) => width_eval(actual[j].1, env, defines, line) is Ok,
        None => decl[k].1 is Some,
    }
}

/// Builds the parameter environment of a callee from its declared parameters (with
/// defaults) and the call's `#(...)` actuals: every actual must be declared, and every
/// declared parameter needs an actual or a default.
pub fn build_callee_param_env(
    callee_name: &str,
    decl_params: &Vec<(String, Option<i64>)>,
    actual: &Vec<(String, Expr)>,
    caller_env: &StrMap<i64>,
    defines: &StrMap<i64>,
    line: i32,
) -> (r: RvResult<StrMap<i64>>)
    ensures
        (exists|m: int| 0 <= m < actual@.len() && !declared(decl_params@, (#[trigger] actual@[m]).0@)) ==> r is Err,
        r matches Ok(env) ==> forall|k: int| 0 <= k < decl_params@.len() ==> {
            let p = #[trigger] decl_params@[k];
            match find_actual(actual@, p.0@) {
                Some(j) => width_eval(actual@[j].1, caller_env.entries@, defines.entries@, line) == Ok::<i64, ErrSpec>(
                    env.get_spec(p.0@).unwrap(),
                ) && env.get_spec(p.0@) is Some || exists|k2: int| k < k2 < decl_params@.len() && decl_params@[k2].0@ == p.0@,
                None => (p.1 matches Some(d) && env.get_spec(p.0@) == Some(d)) || exists|k2: int| k < k2 < decl_params@.len() && decl_params@[k2].0@ == p.0@,
            }
        },
        r matches Ok(env) ==> forall|q: Seq<char>| #[trigger] env.get_spec(q) is Some ==> declared(decl_params@, q),
        params_bindable(decl_params@, actual@, caller_env.entries@, defines.entries@, line) ==> r is Ok,
        match undeclared_actual(decl_params@, actual@, actual@.len() as int) {
            Some(m) => r matches Err(e) && e@ == line_err(line, "logic '"@ + callee_name@ + "' has no parameter '"@ + actual@[m].0@ + "'"@),
            None => match param_bind_error(callee_name@, decl_params@, actual@, caller_env.entries@, defines.entries@, line, decl_params@.len() as int) {
                Some(x) => r matches Err(e) && e@ == x,
                None => r is Ok,
            },
        },
{
    let ghost good = params_bindable(decl_params@, actual@, caller_env.entries@, defines.entries@, line);
    let mut a: usize = 0;
    while a < actual.len()
        invariant
            good == params_bindable(decl_params@, actual@, caller_env.entries@, defines.entries@, line),
            undeclared_actual(decl_params@, actual@, a as int) is None,
            a <= actual@.len(),
            forall|m: int| 0 <= m < a ==> declared(decl_params@, (#[trigger] actual@[m]).0@),
        decreases actual@.len() - a,
    {
        let an = actual[a].0.as_str();
        let mut found = false;
        let mut d: usize = 0;
        while d < decl_params.len()
            invariant
                d <= decl_params@.len(),
                an@ == actual@[a as int].0@,
                found ==> declared(decl_params@, an@),
                !found ==> forall|m: int| 0 <= m < d ==> (#[trigger] decl_params@[m]).0@ != an@,
            decreases decl_params@.len() - d,
        {
            if str_eq(decl_params[d].0.as_str(), an) {
                found = true;
            }
            d += 1;
        }
        if !found {
            proof {
                assert(undeclared_actual(decl_params@, actual@, a + 1) == Some(a as int));
                lemma_undeclared_stays(decl_params@, actual@, a + 1, actual@.len() as int);
                if good {
                    assert(declared(decl_params@, actual@[a as int].0@));
                    let m = choose|m: int| 0 <= m < decl_params@.len() && (#[trigger] decl_params@[m]).0@ == an@;
                    if m < decl_params@.len() {
                        assert(decl_params@[m].0@ != an@);
                    }
                }
            }
            return fail(line, cat5("logic '", callee_name, "' has no parameter '", an, "'"));
        }
        a += 1;
    }
    let mut env: StrMap<i64> = StrMap::new();
    let mut k: usize = 0;
    while k < decl_params.len()
        invariant
            good == params_bindable(decl_params@, actual@, caller_env.entries@, defines.entries@, line),
            undeclared_actual(decl_params@, actual@, actual@.len() as int) is None,
            param_bind_error(callee_name@, decl_params@, actual@, caller_env.entries@, defines.entries@, line, k as int) is None,
            k <= decl_params@.len(),
            forall|q: Seq<char>| #[trigger] env.get_spec(q) is Some ==> exists|m: int| 0 <= m < k && decl_params@[m].0@ == q,
            forall|k1: int| 0 <= k1 < k ==> {
                let p = #[trigger] decl_params@[k1];
                match find_actual(actual@, p.0@) {
                    Some(j) => width_eval(actual@[j].1, caller_env.entries@, defines.entries@, line) == Ok::<i64, ErrSpec>(
                        env.get_spec(p.0@).unwrap(),
                    ) && env.get_spec(p.0@) is Some || exists|k2: int| k1 < k2 < k && decl_params@[k2].0@ == p.0@,
                    None => (p.1 matches Some(d) && env.get_spec(p.0@) == Some(d)) || exists|k2: int| k1 < k2 < k && decl_params@[k2].0@ == p.0@,
                }
            },
        decreases decl_params@.len() - k,
    {
        let pn = decl_params[k].0.as_str();
        proof {
            lemma_find_actual(actual@, pn@);
        }
        let mut j: usize = 0;
        let mut hit: Option<usize> = None;
        while j < actual.len()
            invariant
                j <= actual@.len(),
                pn@ == decl_params@[k as int].0@,
                hit is None ==> forall|m: int| 0 <= m < j ==> (#[trigger] actual@[m]).0@ != pn@,
                hit matches Some(h) ==> find_actual(actual@, pn@) == Some(h as int),
            decreases actual@.len() - j,
        {
            if hit.is_none() && str_eq(actual[j].0.as_str(), pn) {
                hit = Some(j);
                proof {
                    lemma_find_actual(actual@, pn@);
                    if find_actual(actual@, pn@) is None {
                        assert(actual@[j as int].0@ == pn@);
                    } else {
                        let h = find_actual(actual@, pn@).unwrap();
                        assert(h == j);
                    }
                }
            }
            j += 1;
        }
        let ghost e0 = env;
        match hit {
            Some(h) => {
                let v = match eval_const_expr(&actual[h].1, caller_env, defines, line) {
                    Ok(v) => v,
                    Err(x) => {
                        proof {
                            if good {
                                assert(decl_params@[k as int].0@ == pn@);
                            }
                            assert(param_bind_error(callee_name@, decl_params@, actual@, caller_env.entries@, defines.entries@, line, k + 1) is Some);
                            lemma_bind_error_stays(callee_name@, decl_params@, actual@, caller_env.entries@, defines.entries@, line, k + 1, decl_params@.len() as int);
                        }
                        return Err(x);
                    },
                };
                env.insert(decl_params[k].0.clone(), v);
            },
            None => {
                proof {
                    assert(find_actual(actual@, pn@) is None);
                }
                match decl_params[k].1 {
                    Some(d) => {
                        env.insert(decl_params[k].0.clone(), d);
                    },
                    None => {
                        proof {
                            if good {
                                assert(decl_params@[k as int].0@ == pn@);
                            }
                            assert(param_bind_error(callee_name@, decl_params@, actual@, caller_env.entries@, defines.entries@, line, k + 1) is Some);
                            lemma_bind_error_stays(callee_name@, decl_params@, actual@, caller_env.entries@, defines.entries@, line, k + 1, decl_params@.len() as int);
                        }
                        let m = cat5("logic '", callee_name, "' requires parameter '", pn, "' (no default; pass it with '#(");
                        let m = cat3(m.as_str(), pn, "=...)' at the call site)");
                        return fail(line, m);
                    },
                }
            },
        }
        proof {
            assert forall|q: Seq<char>| #[trigger] env.get_spec(q) is Some implies exists|m: int| 0 <= m < k + 1 && decl_params@[m].0@ == q by {
                if q != pn@ {
                    assert(e0.get_spec(q) is Some);
                } else {
                    assert(decl_params@[k as int].0@ == q);
                }
            }
            assert forall|k1: int| 0 <= k1 < k + 1 implies {
                let p = #[trigger] decl_params@[k1];
                match find_actual(actual@, p.0@) {
                    Some(j) => width_eval(actual@[j].1, caller_env.entries@, defines.entries@, line) == Ok::<i64, ErrSpec>(
                        env.get_spec(p.0@).unwrap(),
                    ) && env.get_spec(p.0@) is Some || exists|k2: int| k1 < k2 < k + 1 && decl_params@[k2].0@ == p.0@,
                    None => (p.1 matches Some(d) && env.get_spec(p.0@) == Some(d)) || exists|k2: int| k1 < k2 < k + 1 && decl_params@[k2].0@ == p.0@,
                }
            } by {
                let p = decl_params@[k1];
                if k1 < k {
                    if p.0@ == pn@ {
                        assert(decl_params@[k as int].0@ == p.0@);
                    } else {
                        assert(env.get_spec(p.0@) == e0.get_spec(p.0@));
                    }
                }
            }
        }
        k += 1;
    }
    proof {
        assert forall|q: Seq<char>| #[trigger] env.get_spec(q) is Some implies declared(decl_params@, q) by {
            let m = choose|m: int| 0 <= m < decl_params@.len() && decl_params@[m].0@ == q;
            assert(decl_params@[m].0@ == q);
        }
    }
    Ok(env)
}

/// The declared parameters bound in `env`, as `name=value` items in declaration order.
pub open spec fn env_items(decl: Seq<(String, Option<i64>)>, env: StrMap<i64>) -> Seq<Seq<char>>
    decreases decl.len(),
{
    if decl.len() == 0 {
        seq![]
    } else {
        let rest = env_items(decl.drop_last(), env);
        match env.get_spec(decl.last().0@) {
            Some(v) => rest.push(decl.last().0@ + "="@ + int_text(v as int, 10)),
            None => rest,
        }
    }
}

/// The value that declared parameter `k` takes in a call: the actual parameter of that name
/// evaluated against the defines, or else its default.
pub open spec fn bound_param(decl: Seq<(String, Option<i64>)>, k: int, actual: Seq<(String, Expr)>, defines: Seq<(String, i64)>, line: i32) -> Option<i64> {
    match find_actual(actual, decl[k].0@) {
        Some(j) => match width_eval(actual[j].1, seq![], defines, line) {
            Ok(v) => Some(v),
            Err(_) => None,
        },
        None => decl[k].1,
    }
}

/// `name=value` for the first `n` declared parameters that take a value in a call.
pub open spec fn bound_items(decl: Seq<(String, Option<i64>)>, actual: Seq<(String, Expr)>, defines: Seq<(String, i64)>, line: i32, n: int) -> Seq<
    Seq<char>,
>
    decreases n,
{
    if n <= 0 {
        seq![]
    } else {
        let rest = bound_items(decl, actual, defines, line, n - 1);
        match bound_param(decl, n - 1, actual, defines, line) {
            Some(v) => rest.push(decl[n - 1].0@ + "="@ + int_text(v as int, 10)),
            None => rest,
        }
    }
}

/// The parameter part of an instance key: nothing for a logic without parameters, else
/// `#(name=value,...)` in declaration order.
pub open spec fn param_key(decl: Seq<(String, Option<i64>)>, actual: Seq<(String, Expr)>, defines: Seq<(String, i64)>, line: i32) -> Seq<char> {
    if decl.len() == 0 {
        seq![]
    } else {
        "#("@ + join(bound_items(decl, actual, defines, line, decl.len() as int), ","@) + ")"@
    }
}

/// The parameter items of an environment that binds each declared parameter to its value
/// in the call are those of the call.
pub proof fn lemma_env_items_bound(
    decl: Seq<(String, Option<i64>)>,
    actual: Seq<(String, Expr)>,
    env: StrMap<i64>,
    defines: Seq<(String, i64)>,
    line: i32,
    n: int,
)
    requires
        0 <= n <= decl.len(),
        forall|k: int| 0 <= k < decl.len() ==> #[trigger] env.get_spec(decl[k].0@) == bound_param(decl, k, actual, defines, line),
    ensures
        env_items(decl.subrange(0, n), env) == bound_items(decl, actual, defines, line, n),
    decreases n,
{
    if n > 0 {
        lemma_env_items_bound(decl, actual, env, defines, line, n - 1);
        assert(decl.subrange(0, n).drop_last() =~= decl.subrange(0, n - 1));
        assert(env.get_spec(decl[n - 1].0@) == bound_param(decl, n - 1, actual, defines, line));
    }
}

/// Items joined with a separator.
pub open spec fn join(items: Seq<Seq<char>>, sep: Seq<char>) -> Seq<char>
    decreases items.len(),
{
    if items.len() == 0 {
        seq![]
    } else if items.len() == 1 {
        items[0]
    } else {
        join(items.drop_last(), sep) + sep + items.last()
    }
}

/// Appends an item to a joined text.
pub(crate) fn push_joined(acc: &mut String, count: usize, item: &str, sep: &str, items: Ghost<Seq<Seq<char>>>)
    requires
        old(acc)@ == join(items@, sep@),
        count == items@.len(),
    ensures
        final(acc)@ == join(items@.push(item@), sep@),
{
    proof {
        assert(items@.push(item@).drop_last() =~= items@);
    }
    if count > 0 {
        acc.append(sep);
    }
    acc.append(item);
    proof {
        if count == 0 {
            assert(join(items@.push(item@), sep@) == items@.push(item@)[0]);
            assert(final(acc)@ =~= item@);
        }
    }
}

/// The instance-cache key of a parameter environment: empty for a logic without
/// parameters, else `#(P=v,Q=w)` in declaration order (so the order of the actuals does not
/// matter).
pub fn param_env_key(decl_params: &Vec<(String, Option<i64>)>, env: &StrMap<i64>) -> (r: String)
    ensures
        decl_params@.len() == 0 ==> r@ == Seq::<char>::empty(),
        decl_params@.len() > 0 ==> r@ == "#("@ + join(env_items(decl_params@, *env), ","@) + ")"@,
{
    if decl_params.len() == 0 {
        return String::new();
    }
    let mut acc = String::new();
    let mut count: usize = 0;
    let mut k: usize = 0;
    proof {
        assert(decl_params@.subrange(0, 0) =~= Seq::<(String, Option<i64>)>::empty());
    }
    while k < decl_params.len()
        invariant
            k <= decl_params@.len(),
            count == env_items(decl_params@.subrange(0, k as int), *env).len(),
            count <= k,
            acc@ == join(env_items(decl_params@.subrange(0, k as int), *env), ","@),
        decreases decl_params@.len() - k,
    {
        let ghost items = env_items(decl_params@.subrange(0, k as int), *env);
        proof {
            assert(decl_params@.subrange(0, k + 1).drop_last() =~= decl_params@.subrange(0, k as int));
        }
        match env.get(decl_params[k].0.as_str()) {
            Some(v) => {
                let t = int_str(*v);
                let item = cat3(decl_params[k].0.as_str(), "=", t.as_str());
                push_joined(&mut acc, count, item.as_str(), ",", Ghost(items));
                count += 1;
            },
            None => {},
        }
        k += 1;
    }
    proof {
        assert(decl_params@.subrange(0, decl_params@.len() as int) =~= decl_params@);
    }
    let a = cat2("#(", acc.as_str());
    cat2(a.as_str(), ")")
}

// ---- lanes and endpoints ------------------------------------------------

/// A resolved chain endpoint: one node, or the lane nodes of a bus (slices and
/// concatenations are always buses).
pub enum Ep {
    Single(usize),
    Bus(Vec<usize>),
}

impl Ep {
    /// The lane nodes (one for a single node).
    pub fn lanes(&self) -> (r: Vec<usize>)
        ensures
            r@ == match self {
                Ep::Single(n) => seq![*n],
                Ep::Bus(v) => v@,
            },
    {
        match self {
            Ep::Single(n) => {
                let mut v = Vec::new();
                v.push(*n);
                v
            },
            Ep::Bus(v) => v.clone(),
        }
    }
}

/// Lane `name[k]` of a bus (range-checked).
pub fn bus_lane(v: &Vec<usize>, name: &str, k: i32, line: i32) -> (r: RvResult<Ep>)
    requires
        v@.len() <= i32::MAX,
    ensures
        0 <= k < v@.len() ==> (r matches Ok(Ep::Single(n)) && n == v@[k as int]),
        !(0 <= k < v@.len()) ==> (r matches Err(e) && e@ == line_err(line, "bus index out of range: "@ + name@
            + "["@ + int_text(k as int, 10) + "] (width "@ + int_text(v@.len() as int, 10) + ")"@)),
{
    if k < 0 || (k as usize) >= v.len() {
        let tk = int_str(k as i64);
        let tw = int_str(v.len() as i64);
        let m = cat5("bus index out of range: ", name, "[", tk.as_str(), "] (width ");
        return fail(line, cat3(m.as_str(), tw.as_str(), ")"));
    }
    Ok(Ep::Single(v[k as usize]))
}

/// The lanes of the slice `[hi:lo]` of `v`: `hi, hi-1, .., lo` when `hi >= lo`, else
/// `hi, hi+1, .., lo` (bit reversal).
pub open spec fn slice_lanes(v: Seq<usize>, hi: int, lo: int) -> Seq<usize> {
    if hi >= lo {
        Seq::new((hi - lo + 1) as nat, |j: int| v[hi - j])
    } else {
        Seq::new((lo - hi + 1) as nat, |j: int| v[hi + j])
    }
}

/// The slice `name[hi:lo]` (inclusive) of a bus as its lane nodes (range-checked).
pub fn bus_slice(v: &Vec<usize>, name: &str, hi: i32, lo: i32, line: i32) -> (r: RvResult<Vec<usize>>)
    requires
        v@.len() <= i32::MAX,
    ensures
        (0 <= hi < v@.len() && 0 <= lo < v@.len()) ==> (r matches Ok(out) && out@ == slice_lanes(v@, hi as int, lo as int)),
        !(0 <= hi < v@.len() && 0 <= lo < v@.len()) ==> (r matches Err(e) && e@ == line_err(line,
            "bus slice index out of range: "@ + name@ + "["@ + int_text(hi as int, 10) + ":"@ + int_text(lo as int, 10)
            + "] (width "@ + int_text(v@.len() as int, 10) + ")"@)),
{
    let w = v.len() as i32;
    if hi < 0 || hi >= w || lo < 0 || lo >= w {
        let th = int_str(hi as i64);
        let tl = int_str(lo as i64);
        let tw = int_str(w as i64);
        let m = cat5("bus slice index out of range: ", name, "[", th.as_str(), ":");
        let m = cat5(m.as_str(), tl.as_str(), "] (width ", tw.as_str(), ")");
        return fail(line, m);
    }
    let mut out: Vec<usize> = Vec::new();
    if hi >= lo {
        let mut k = hi;
        while k >= lo
            invariant
                0 <= lo <= hi < v@.len(),
                v@.len() <= i32::MAX,
                lo - 1 <= k <= hi,
                out@ =~= Seq::new((hi - k) as nat, |j: int| v@[hi - j]),
            decreases k - lo + 1,
        {
            out.push(v[k as usize]);
            k -= 1;
            assert(out@ =~= Seq::new((hi - k) as nat, |j: int| v@[hi - j]));
        }
    } else {
        let mut k = hi;
        while k <= lo
            invariant
                0 <= hi < lo < v@.len(),
                v@.len() <= i32::MAX,
                hi <= k <= lo + 1,
                out@ =~= Seq::new((k - hi) as nat, |j: int| v@[hi + j]),
            decreases lo + 1 - k,
        {
            out.push(v[k as usize]);
            k += 1;
            assert(out@ =~= Seq::new((k - hi) as nat, |j: int| v@[hi + j]));
        }
    }
    Ok(out)
}

// ---- text of expressions, selections and endpoints ------------------------

/// Source-like text of an expression (binary operations in parentheses).
pub open spec fn expr_text(e: Expr) -> Seq<char>
    decreases e,
{
    match e {
        Expr::Num { num, .. } => int_text(num as int, 10),
        Expr::Time { .. } => "$time"@,
        Expr::Var { name, index, .. } => match index {
            Some(i) => name@ + "["@ + expr_text(*i) + "]"@,
            None => name@,
        },
        Expr::Un { op, a, .. } => op@ + expr_text(*a),
        Expr::Bin { op, a, b, .. } => "("@ + expr_text(*a) + " "@ + op@ + " "@ + expr_text(*b) + ")"@,
    }
}

/// The text of an expression (for diagnostics and `monitor` labels).
pub fn expr_to_string(e: &Expr) -> (r: String)
    ensures
        r@ == expr_text(*e),
    decreases e,
{
    match e {
        Expr::Num { num, .. } => int_str(*num),
        Expr::Time { .. } => own("$time"),
        Expr::Var { name, index, .. } => match index {
            Some(i) => {
                let t = expr_to_string(i);
                cat4(name.as_str(), "[", t.as_str(), "]")
            },
            None => own(name.as_str()),
        },
        Expr::Un { op, a, .. } => {
            let t = expr_to_string(a);
            cat2(op.as_str(), t.as_str())
        },
        Expr::Bin { op, a, b, .. } => {
            let ta = expr_to_string(a);
            let tb = expr_to_string(b);
            let x = cat5("(", ta.as_str(), " ", op.as_str(), " ");
            cat3(x.as_str(), tb.as_str(), ")")
        },
    }
}

/// Text of an index: its literal, or its expression.
pub open spec fn idx_text(ie: IdxExpr) -> Seq<char> {
    match ie {
        IdxExpr::Lit(n) => int_text(n as int, 10),
        IdxExpr::Expr(e) => expr_text(e),
    }
}

/// The text of an index (`3`, `(W - 1)`).
pub fn idx_desc(ie: &IdxExpr) -> (r: String)
    ensures
        r@ == idx_text(*ie),
{
    match ie {
        IdxExpr::Lit(n) => int_str(*n as i64),
        IdxExpr::Expr(e) => expr_to_string(e),
    }
}

/// Text of a lane selection: empty, `[k]` or `[hi:lo]`.
pub open spec fn sel_text(sel: Sel) -> Seq<char> {
    match sel {
        Sel::All => seq![],
        Sel::Lane(ie) => "["@ + idx_text(ie) + "]"@,
        Sel::Slice(hi, lo) => "["@ + idx_text(hi) + ":"@ + idx_text(lo) + "]"@,
    }
}

/// The text of a lane selection.
pub fn sel_suffix(sel: &Sel) -> (r: String)
    ensures
        r@ == sel_text(*sel),
{
    match sel {
        Sel::All => String::new(),
        Sel::Lane(ie) => {
            let t = idx_desc(ie);
            cat3("[", t.as_str(), "]")
        },
        Sel::Slice(hi, lo) => {
            let th = idx_desc(hi);
            let tl = idx_desc(lo);
            cat5("[", th.as_str(), ":", tl.as_str(), "]")
        },
    }
}

/// Text of a reference (`p`, `sum[0]`, `sum[3:1]`).
pub open spec fn ref_text(r: BindRef) -> Seq<char> {
    r.name@ + sel_text(r.sel)
}

/// The text of a reference.
pub fn bind_ref_desc(r: &BindRef) -> (t: String)
    ensures
        t@ == ref_text(*r),
{
    let s = sel_suffix(&r.sel);
    cat2(r.name.as_str(), s.as_str())
}

/// Text of a concatenation of references (`{c, s[3:0]}`).
pub open spec fn concat_text(parts: Seq<BindRef>) -> Seq<char> {
    "{"@ + join(parts.map_values(|r: BindRef| ref_text(r)), ", "@) + "}"@
}

/// The text of a concatenation of references.
pub fn concat_desc(parts: &Vec<BindRef>) -> (t: String)
    ensures
        t@ == concat_text(parts@),
{
    let mut acc = String::new();
    let mut k: usize = 0;
    while k < parts.len()
        invariant
            k <= parts@.len(),
            acc@ == join(parts@.subrange(0, k as int).map_values(|r: BindRef| ref_text(r)), ", "@),
        decreases parts@.len() - k,
    {
        let ghost items = parts@.subrange(0, k as int).map_values(|r: BindRef| ref_text(r));
        let d = bind_ref_desc(&parts[k]);
        push_joined(&mut acc, k, d.as_str(), ", ", Ghost(items));
        proof {
            assert(parts@.subrange(0, k + 1).map_values(|r: BindRef| ref_text(r)) =~= items.push(d@));
        }
        k += 1;
    }
    proof {
        assert(parts@.subrange(0, parts@.len() as int) =~= parts@);
    }
    cat3("{", acc.as_str(), "}")
}

/// Text of a binding target.
pub open spec fn target_text(t: BindTarget) -> Seq<char> {
    match t {
        BindTarget::Ref(r) => ref_text(r),
        BindTarget::Concat(parts) => concat_text(parts@),
    }
}

/// The text of a binding target (`p`, `sum[0]`, `{c, s[3:0]}`).
pub fn bind_target_desc(t: &BindTarget) -> (r: String)
    ensures
        r@ == target_text(*t),
{
    match t {
        BindTarget::Ref(r) => bind_ref_desc(r),
        BindTarget::Concat(parts) => concat_desc(parts),
    }
}

/// Text of an endpoint (`p`, `p[3:0]`, `m.side`, `{a, b}`).
pub open spec fn ep_text(ep: Endpoint) -> Seq<char>
    decreases ep, 1int, 0int,
{
    match ep {
        Endpoint::Ref { name, side, sel } => name@ + sel_text(sel) + if side { ".side"@ } else { seq![] },
        Endpoint::Concat(v) => "{"@ + ep_join(v, v@.len() as int) + "}"@,
    }
}

/// The texts of the first `n` endpoints of `v`, joined with `, `.
pub open spec fn ep_join(v: Vec<Endpoint>, n: int) -> Seq<char>
    decreases v, 0int, n,
{
    if n <= 0 || n > v@.len() {
        seq![]
    } else if n == 1 {
        proof {
            assert(decreases_to!(v => v@[0]));
        }
        ep_text(v@[0])
    } else {
        proof {
            assert(decreases_to!(v => v@[n - 1]));
        }
        ep_join(v, n - 1) + ", "@ + ep_text(v@[n - 1])
    }
}

/// The text of an endpoint.
pub fn endpoint_desc(ep: &Endpoint) -> (r: String)
    ensures
        r@ == ep_text(*ep),
    decreases ep, 1nat,
{
    match ep {
        Endpoint::Ref { name, side, sel } => {
            let s = sel_suffix(sel);
            let t = cat2(name.as_str(), s.as_str());
            if *side {
                cat2(t.as_str(), ".side")
            } else {
                proof {
                    assert(t@ + Seq::<char>::empty() =~= t@);
                }
                t
            }
        },
        Endpoint::Concat(elems) => {
            let t = endpoints_joined(elems);
            cat3("{", t.as_str(), "}")
        },
    }
}

fn endpoints_joined(v: &Vec<Endpoint>) -> (r: String)
    ensures
        r@ == ep_join(*v, v@.len() as int),
    decreases v, 0nat,
{
    let mut acc = String::new();
    let mut k: usize = 0;
    while k < v.len()
        invariant
            k <= v@.len(),
            acc@ == ep_join(*v, k as int),
        decreases v@.len() - k,
    {
        proof {
            assert(decreases_to!(v => v@[k as int]));
        }
        let d = endpoint_desc(&v[k]);
        if k > 0 {
            acc.append(", ");
        }
        acc.append(d.as_str());
        proof {
            if k == 0 {
                assert(acc@ =~= ep_join(*v, 1));
            } else {
                assert(acc@ =~= ep_join(*v, k + 1));
            }
        }
        k += 1;
    }
    acc
}

// ---- selections in the testbench ------------------------------------------

/// Value of an index in an environment (see `resolve_idx`).
pub open spec fn idx_val(ie: IdxExpr, env: Seq<(String, i64)>, defines: Seq<(String, i64)>, line: i32) -> Result<i32, ErrSpec> {
    match ie {
        IdxExpr::Lit(n) => Ok(n),
        IdxExpr::Expr(e) => match width_eval(e, env, defines, line) {
            Err(x) => Err(x),
            Ok(v) => if i32::MIN <= v <= i32::MAX {
                Ok(v as i32)
            } else {
                Err(line_err(line, "lane/slice index out of range: "@ + int_text(v as int, 10)))
            },
        },
    }
}

/// The lane indices of `0..w` that a selection picks (no parameters in the testbench, so
/// indices resolve with the defines alone).
pub fn sel_lane_indices(sel: &Sel, w: usize, name: &str, defines: &StrMap<i64>, line: i32) -> (r: RvResult<Vec<usize>>)
    requires
        w <= i32::MAX,
    ensures
        match *sel {
            Sel::All => r matches Ok(v) && v@ == Seq::new(w as nat, |i: int| i as usize),
            Sel::Lane(ie) => match idx_val(ie, seq![], defines.entries@, line) {
                Err(x) => r matches Err(e) && e@ == x,
                Ok(k) => if 0 <= k < w {
                    r matches Ok(v) && v@ == seq![k as usize]
                } else {
                    r is Err
                },
            },
            Sel::Slice(hie, loe) => match (idx_val(hie, seq![], defines.entries@, line), idx_val(loe, seq![], defines.entries@, line)) {
                (Err(x), _) => r matches Err(e) && e@ == x,
                (Ok(_), Err(x)) => r matches Err(e) && e@ == x,
                (Ok(hi), Ok(lo)) => if 0 <= hi < w && 0 <= lo < w {
                    r matches Ok(v) && v@ == slice_lanes(Seq::new(w as nat, |i: int| i as usize), hi as int, lo as int)
                } else {
                    r is Err
                },
            },
        },
{
    let mut all: Vec<usize> = Vec::new();
    let mut i: usize = 0;
    while i < w
        invariant
            i <= w,
            all@ =~= Seq::new(i as nat, |j: int| j as usize),
        decreases w - i,
    {
        all.push(i);
        i += 1;
        assert(all@ =~= Seq::new(i as nat, |j: int| j as usize));
    }
    let no_params: StrMap<i64> = StrMap::new();
    proof {
        assert(no_params.entries@ =~= Seq::<(String, i64)>::empty());
    }
    match sel {
        Sel::All => Ok(all),
        Sel::Lane(ie) => {
            let k = match resolve_idx(ie, &no_params, defines, line) {
                Ok(k) => k,
                Err(x) => return Err(x),
            };
            match bus_lane(&all, name, k, line) {
                Ok(ep) => Ok(ep.lanes()),
                Err(x) => Err(x),
            }
        },
        Sel::Slice(hie, loe) => {
            let hi = match resolve_idx(hie, &no_params, defines, line) {
                Ok(k) => k,
                Err(x) => return Err(x),
            };
            let lo = match resolve_idx(loe, &no_params, defines, line) {
                Ok(k) => k,
                Err(x) => return Err(x),
            };
            bus_slice(&all, name, hi, lo, line)
        },
    }
}

/// Key text of a testbench call argument: the name with its resolved lane or slice
/// (`x`, `x[2]`, `x[3:1]`; a one-lane slice `x[k:k]` is written `x[k]`).
pub open spec fn arg_key_text(name: Seq<char>, sel: Sel, defines: Seq<(String, i64)>, line: i32) -> Result<Seq<char>, ErrSpec> {
    match sel {
        Sel::All => Ok(name),
        Sel::Lane(ie) => match idx_val(ie, seq![], defines, line) {
            Err(x) => Err(x),
            Ok(k) => Ok(name + "["@ + int_text(k as int, 10) + "]"@),
        },
        Sel::Slice(hie, loe) => match idx_val(hie, seq![], defines, line) {
            Err(x) => Err(x),
            Ok(hi) => match idx_val(loe, seq![], defines, line) {
                Err(x) => Err(x),
                Ok(lo) => if hi == lo {
                    Ok(name + "["@ + int_text(hi as int, 10) + "]"@)
                } else {
                    Ok(name + "["@ + int_text(hi as int, 10) + ":"@ + int_text(lo as int, 10) + "]"@)
                },
            },
        },
    }
}

/// The instance-key text of one testbench call argument (see `arg_key_text`).
pub fn sim_arg_key(name: &str, sel: &Sel, defines: &StrMap<i64>, line: i32) -> (r: RvResult<String>)
    ensures
        match arg_key_text(name@, *sel, defines.entries@, line) {
            Ok(t) => r matches Ok(s) && s@ == t,
            Err(x) => r matches Err(e) && e@ == x,
        },
{
    let no_params: StrMap<i64> = StrMap::new();
    proof {
        assert(no_params.entries@ =~= Seq::<(String, i64)>::empty());
    }
    match sel {
        Sel::All => Ok(own(name)),
        Sel::Lane(ie) => {
            let k = match resolve_idx(ie, &no_params, defines, line) {
                Ok(k) => k,
                Err(x) => return Err(x),
            };
            let t = int_str(k as i64);
            Ok(cat4(name, "[", t.as_str(), "]"))
        },
        Sel::Slice(hie, loe) => {
            let hi = match resolve_idx(hie, &no_params, defines, line) {
                Ok(k) => k,
                Err(x) => return Err(x),
            };
            let lo = match resolve_idx(loe, &no_params, defines, line) {
                Ok(k) => k,
                Err(x) => return Err(x),
            };
            let th = int_str(hi as i64);
            if hi == lo {
                Ok(cat4(name, "[", th.as_str(), "]"))
            } else {
                let tl = int_str(lo as i64);
                let a = cat4(name, "[", th.as_str(), ":");
                Ok(cat3(a.as_str(), tl.as_str(), "]"))
            }
        },
    }
}

// ---- ports of logic instances -------------------------------------------

/// The shape of a port: one node, or the lane nodes of a bus.
pub enum PortShape {
    Scalar(usize),
    Bus(Vec<usize>),
}

/// The number of lanes of a port shape.
pub open spec fn shape_width(s: PortShape) -> nat {
    match s {
        PortShape::Scalar(_) => 1,
        PortShape::Bus(v) => v@.len(),
    }
}

impl PortShape {
    /// The lane nodes (one for a scalar).
    pub fn lanes(&self) -> (r: Vec<usize>)
        ensures
            r@ == match self {
                PortShape::Scalar(n) => seq![*n],
                PortShape::Bus(v) => v@,
            },
    {
        match self {
            PortShape::Scalar(n) => {
                let mut v = Vec::new();
                v.push(*n);
                v
            },
            PortShape::Bus(v) => v.clone(),
        }
    }

    /// The number of lanes.
    pub fn width(&self) -> (r: usize)
        ensures
            r == shape_width(*self),
    {
        match self {
            PortShape::Scalar(_) => 1,
            PortShape::Bus(v) => v.len(),
        }
    }
}

/// The bus lane lists of a table all fit an `i32` width.
pub open spec fn widths_fit(m: StrMap<Vec<usize>>) -> bool {
    forall|k: Seq<char>| #[trigger] m.get_spec(k) matches Some(v) ==> v@.len() <= i32::MAX
}

/// Resolves the parent-side reference of a logic instance port: a reg or port (scalar),
/// a bus, or a lane or slice of a bus; a wire is refused.
pub fn resolve_parent_ref(
    name: &str,
    sel: &Sel,
    scope: &StrMap<usize>,
    buses: &StrMap<Vec<usize>>,
    wire_names: &StrSet,
    param_env: &StrMap<i64>,
    defines: &StrMap<i64>,
    line: i32,
) -> (r: RvResult<PortShape>)
    requires
        widths_fit(*buses),
    ensures
        wire_names.has(name@) ==> (r matches Err(e) && e@ == line_err(line, "'"@ + name@ + "' is a wire, not a reg/port"@)),
        !wire_names.has(name@) ==> match *sel {
            Sel::All => match scope.get_spec(name@) {
                Some(n) => r matches Ok(PortShape::Scalar(m)) && m == n,
                None => match buses.get_spec(name@) {
                    Some(v) => r matches Ok(PortShape::Bus(w)) && w@ == v@,
                    None => r matches Err(e) && e@ == line_err(line, "unknown logic instance endpoint: "@ + name@),
                },
            },
            Sel::Lane(ie) => match idx_val(ie, param_env.entries@, defines.entries@, line) {
                Err(x) => r matches Err(e) && e@ == x,
                Ok(k) => match buses.get_spec(name@) {
                    Some(v) => if 0 <= k < v@.len() {
                        r matches Ok(PortShape::Scalar(m)) && m == v@[k as int]
                    } else {
                        r is Err
                    },
                    None => r matches Err(e) && e@ == line_err(
                        line,
                        "'"@ + name@ + "' is indexed with '["@ + int_text(k as int, 10) + "]' but is not a bus"@,
                    ),
                },
            },
            Sel::Slice(hie, loe) => match (idx_val(hie, param_env.entries@, defines.entries@, line), idx_val(loe, param_env.entries@, defines.entries@, line)) {
                (Err(x), _) => r matches Err(e) && e@ == x,
                (Ok(_), Err(x)) => r matches Err(e) && e@ == x,
                (Ok(hi), Ok(lo)) => match buses.get_spec(name@) {
                    Some(v) => if 0 <= hi < v@.len() && 0 <= lo < v@.len() {
                        r matches Ok(PortShape::Bus(w)) && w@ == slice_lanes(v@, hi as int, lo as int)
                    } else {
                        r is Err
                    },
                    None => r matches Err(e) && e@ == line_err(
                        line,
                        "'"@ + name@ + "' is sliced with '["@ + int_text(hi as int, 10) + ":"@ + int_text(lo as int, 10)
                            + "]' but is not a bus"@,
                    ),
                },
            },
        },
{
    if wire_names.contains(name) {
        return fail(line, cat3("'", name, "' is a wire, not a reg/port"));
    }
    match sel {
        Sel::All => {
            if let Some(n) = scope.get(name) {
                return Ok(PortShape::Scalar(*n));
            }
            if let Some(v) = buses.get(name) {
                return Ok(PortShape::Bus(v.clone()));
            }
            fail(line, cat2("unknown logic instance endpoint: ", name))
        },
        Sel::Lane(ie) => {
            let k = match resolve_idx(ie, param_env, defines, line) {
                Ok(k) => k,
                Err(x) => return Err(x),
            };
            match buses.get(name) {
                Some(v) => match bus_lane(v, name, k, line) {
                    Ok(ep) => {
                        let l = ep.lanes();
                        Ok(PortShape::Scalar(l[0]))
                    },
                    Err(x) => Err(x),
                },
                None => {
                    let t = int_str(k as i64);
                    fail(line, cat5("'", name, "' is indexed with '[", t.as_str(), "]' but is not a bus"))
                },
            }
        },
        Sel::Slice(hie, loe) => {
            let hi = match resolve_idx(hie, param_env, defines, line) {
                Ok(k) => k,
                Err(x) => return Err(x),
            };
            let lo = match resolve_idx(loe, param_env, defines, line) {
                Ok(k) => k,
                Err(x) => return Err(x),
            };
            match buses.get(name) {
                Some(v) => match bus_slice(v, name, hi, lo, line) {
                    Ok(l) => Ok(PortShape::Bus(l)),
                    Err(x) => Err(x),
                },
                None => {
                    let th = int_str(hi as i64);
                    let tl = int_str(lo as i64);
                    let a = cat5("'", name, "' is sliced with '[", th.as_str(), ":");
                    fail(line, cat3(a.as_str(), tl.as_str(), "]' but is not a bus"))
                },
            }
        },
    }
}

// ---- checks shared by logic-body and testbench bindings ------------------

/// The logic definition named `callee`.
pub fn lookup_logic<'p>(logics: &'p StrMap<LogicDef>, callee: &str, line: i32) -> (r: RvResult<&'p LogicDef>)
    ensures
        match logics.get_spec(callee@) {
            Some(d) => r matches Ok(x) && *x == d,
            None => r matches Err(e) && e@ == line_err(line, "unknown logic: "@ + callee@),
        },
{
    match logics.get(callee) {
        Some(l) => Ok(l),
        None => fail(line, cat2("unknown logic: ", callee)),
    }
}

/// A logic without output ports cannot be bound.
pub fn require_output_ports(callee: &str, n_out: usize, line: i32) -> (r: RvResult<()>)
    ensures
        n_out > 0 ==> r is Ok,
        n_out == 0 ==> (r matches Err(e) && e@ == line_err(line, callee@ + " has no output port to bind"@)),
{
    if n_out == 0 {
        return fail(line, cat2(callee, " has no output port to bind"));
    }
    Ok(())
}

/// Only a logic with exactly one output can be called nested inside an argument list.
pub fn require_single_output(callee: &str, n_out: usize, line: i32) -> (r: RvResult<()>)
    ensures
        n_out == 1 ==> r is Ok,
        n_out != 1 ==> (r matches Err(e) && e@ == line_err(
            line,
            "nested call to "@ + callee@ + " must have exactly 1 output port (it has "@ + uint_text_usize(n_out)
                + "); bind it with a tuple first, then pass the target"@,
        )),
{
    if n_out != 1 {
        let t = crate::strs::format_uint(n_out as u64, 10);
        let m = cat5("nested call to ", callee, " must have exactly 1 output port (it has ", t.as_str(), "); bind it with a tuple first, then pass the target");
        return fail(line, m);
    }
    Ok(())
}

/// Decimal text of a count.
pub open spec fn uint_text_usize(n: usize) -> Seq<char> {
    crate::strs::uint_text(n as nat, 10)
}

/// The number of binding targets must equal the callee's number of outputs.
pub fn check_binding_arity(callee: &str, n_out: usize, n_targets: usize, line: i32) -> (r: RvResult<()>)
    ensures
        n_out == n_targets ==> r is Ok,
        n_out != n_targets ==> (r matches Err(e) && e@ == line_err(
            line,
            callee@ + " has "@ + uint_text_usize(n_out) + " output port(s) but the binding tuple has "@ + uint_text_usize(n_targets)
                + " target(s)"@,
        )),
{
    if n_targets != n_out {
        let a = crate::strs::format_uint(n_out as u64, 10);
        let b = crate::strs::format_uint(n_targets as u64, 10);
        let m = cat5(callee, " has ", a.as_str(), " output port(s) but the binding tuple has ", b.as_str());
        return fail(line, cat2(m.as_str(), " target(s)"));
    }
    Ok(())
}

/// No lane occurs twice in `v`.
pub open spec fn lanes_nodup(v: Seq<usize>) -> bool {
    forall|a: int, b: int| 0 <= a < b < v.len() ==> v[a] != v[b]
}

/// No lane occurs in both `v` and `w`.
pub open spec fn lanes_disjoint(v: Seq<usize>, w: Seq<usize>) -> bool {
    forall|a: int, b: int| 0 <= a < v.len() && 0 <= b < w.len() ==> v[a] != w[b]
}

/// Whether `x` occurs in `v[from..]`.
fn lane_in(v: &Vec<usize>, from: usize, x: usize) -> (r: bool)
    ensures
        r == exists|b: int| from <= b < v@.len() && v@[b] == x,
{
    let mut b = from;
    while b < v.len()
        invariant
            from <= b,
            forall|c: int| from <= c < b ==> v@[c] != x,
        decreases v@.len() - b,
    {
        if v[b] == x {
            assert(v@[b as int] == x);
            return true;
        }
        b += 1;
    }
    false
}

/// A binding must not bind one lane twice: neither inside one target (`{a, a}`) nor
/// across targets (`(sum[1:0], sum[1])`). `descs` are the targets' texts, in the order of
/// their resolved `lanes`.
pub fn check_target_overlap(descs: &Vec<String>, lanes: &Vec<Vec<usize>>, line: i32) -> (r: RvResult<()>)
    requires
        descs@.len() == lanes@.len(),
    ensures
        r is Ok <==> (forall|i: int| 0 <= i < lanes@.len() ==> lanes_nodup((#[trigger] lanes@[i])@)) && (forall|i: int, j: int|
            0 <= i < j < lanes@.len() ==> lanes_disjoint((#[trigger] lanes@[i])@, (#[trigger] lanes@[j])@)),
        r matches Err(e) ==> e.line == line,
{
    let n = lanes.len();
    let mut i: usize = 0;
    while i < n
        invariant
            n == lanes@.len(),
            descs@.len() == n,
            i <= n,
            forall|i1: int| 0 <= i1 < i ==> lanes_nodup((#[trigger] lanes@[i1])@),
            forall|i1: int, j1: int| 0 <= i1 < i && i1 < j1 < n ==> lanes_disjoint((#[trigger] lanes@[i1])@, (#[trigger] lanes@[j1])@),
        decreases n - i,
    {
        let li = &lanes[i];
        let mut a: usize = 0;
        while a < li.len()
            invariant
                n == lanes@.len(),
                descs@.len() == n,
                i < n,
                li@ == lanes@[i as int]@,
                a <= li@.len(),
                forall|a1: int, b1: int| 0 <= a1 < a && a1 < b1 < li@.len() ==> li@[a1] != li@[b1],
            decreases li@.len() - a,
        {
            if lane_in(li, a + 1, li[a]) {
                proof {
                    let b = choose|b: int| a + 1 <= b < li@.len() && li@[b] == li@[a as int];
                    assert(!lanes_nodup(lanes@[i as int]@));
                }
                let m = cat3("target '", descs[i].as_str(), "' in logic-instance binding binds the same lane more than once");
                return fail(line, m);
            }
            a += 1;
        }
        proof {
            assert(lanes_nodup(lanes@[i as int]@));
        }
        let mut j: usize = i + 1;
        while j < n
            invariant
                n == lanes@.len(),
                descs@.len() == n,
                i < n,
                li@ == lanes@[i as int]@,
                i + 1 <= j <= n,
                forall|j1: int| i < j1 < j ==> lanes_disjoint(lanes@[i as int]@, (#[trigger] lanes@[j1])@),
            decreases n - j,
        {
            let lj = &lanes[j];
            let mut a: usize = 0;
            while a < li.len()
                invariant
                    n == lanes@.len(),
                    descs@.len() == n,
                    i < j < n,
                    li@ == lanes@[i as int]@,
                    lj@ == lanes@[j as int]@,
                    a <= li@.len(),
                    forall|a1: int, b1: int| 0 <= a1 < a && 0 <= b1 < lj@.len() ==> li@[a1] != lj@[b1],
                decreases li@.len() - a,
            {
                if lane_in(lj, 0, li[a]) {
                    proof {
                        let b = choose|b: int| 0 <= b < lj@.len() && lj@[b] == li@[a as int];
                        assert(!lanes_disjoint(lanes@[i as int]@, lanes@[j as int]@));
                    }
                    let m = cat5("targets '", descs[i].as_str(), "' and '", descs[j].as_str(), "' in logic-instance binding tuple overlap (the same lane is bound more than once)");
                    return fail(line, m);
                }
                a += 1;
            }
            proof {
                assert(lanes_disjoint(lanes@[i as int]@, lanes@[j as int]@));
            }
            j += 1;
        }
        i += 1;
    }
    Ok(())
}

// ---- text helpers of the testbench ---------------------------------------

/// `n` copies of `c`.
pub open spec fn repeat(c: char, n: nat) -> Seq<char> {
    Seq::new(n, |_i: int| c)
}

/// `val` right-aligned to at least `width` characters: with zeros after a leading `-`
/// (or before the text) when `zero`, else with spaces before it.
pub open spec fn padded(val: Seq<char>, width: nat, zero: bool) -> Seq<char> {
    if val.len() >= width {
        val
    } else {
        let need = (width - val.len()) as nat;
        if zero && val.len() > 0 && val[0] == '-' {
            seq!['-'] + repeat('0', need) + val.drop_first()
        } else if zero {
            repeat('0', need) + val
        } else {
            repeat(' ', need) + val
        }
    }
}

pub(crate) fn push_repeat(s: &mut String, c: &str, n: usize)
    requires
        c@.len() == 1,
    ensures
        final(s)@ == old(s)@ + repeat(c@[0], n as nat),
{
    let mut k: usize = 0;
    while k < n
        invariant
            k <= n,
            c@.len() == 1,
            s@ == old(s)@ + repeat(c@[0], k as nat),
        decreases n - k,
    {
        s.append(c);
        k += 1;
        assert(s@ =~= old(s)@ + repeat(c@[0], k as nat));
    }
}

/// Pads a value to a minimum width (see `padded`): `%04b` of -3 is `-011`.
pub fn pad_value(val: &str, width: usize, zero_pad: bool) -> (r: String)
    ensures
        r@ == padded(val@, width as nat, zero_pad),
{
    let n = val.unicode_len();
    if n >= width {
        return own(val);
    }
    let need = width - n;
    proof {
        reveal_strlit("0");
        reveal_strlit(" ");
        reveal_strlit("-");
    }
    if zero_pad && n > 0 && val.get_char(0) == '-' {
        let mut s = own("-");
        push_repeat(&mut s, "0", need);
        let rest = val.substring_char(1, n);
        s.append(rest);
        proof {
            assert(rest@ =~= val@.drop_first());
        }
        return s;
    }
    let mut s = String::new();
    if zero_pad {
        push_repeat(&mut s, "0", need);
    } else {
        push_repeat(&mut s, " ", need);
    }
    s.append(val);
    proof {
        assert(s@ =~= padded(val@, width as nat, zero_pad));
    }
    s
}

/// Name for the text of std's `{:?}` formatting of a string.
pub uninterp spec fn debug_text(s: Seq<char>) -> Seq<char>;

/// A printable ASCII character other than `"` and `\`, which `{:?}` leaves as it is.
pub open spec fn plain_char(c: char) -> bool {
    ' ' <= c <= '~' && c != '"' && c != '\\'
}

/// std's `{:?}` rendering of a string (quoted, with escapes). Claimed: the result is the
/// named rendering, and a string of plain printable ASCII is just put in double quotes.
#[verifier::external_body]
fn debug_quoted(s: &str) -> (r: String)
    ensures
        r@ == debug_text(s@),
        (forall|i: int| 0 <= i < s@.len() ==> plain_char(#[trigger] s@[i])) ==> r@ == seq!['"'] + s@ + seq!['"'],
{
    format!("{:?}", s)
}

/// The base a `scan()` format selects: none or `%` decimal, `%b` binary, `%x` hex, `%o`
/// octal; any other format is an error.
pub fn parse_scan_fmt(line: i32, fmt: Option<&str>) -> (r: RvResult<u32>)
    ensures
        match fmt {
            None => r == Ok::<u32, RvError>(10),
            Some(f) => if f@ == "%"@ {
                r == Ok::<u32, RvError>(10)
            } else if f@ == "%b"@ {
                r == Ok::<u32, RvError>(2)
            } else if f@ == "%x"@ {
                r == Ok::<u32, RvError>(16)
            } else if f@ == "%o"@ {
                r == Ok::<u32, RvError>(8)
            } else {
                r matches Err(e) && e@ == line_err(
                    line,
                    "scan() format must be one of \"%\", \"%b\", \"%x\", \"%o\" (got "@ + debug_text(f@) + ")"@,
                )
            },
        },
{
    let f = match fmt {
        None => return Ok(10),
        Some(f) => f,
    };
    if str_eq(f, "%") {
        Ok(10)
    } else if str_eq(f, "%b") {
        Ok(2)
    } else if str_eq(f, "%x") {
        Ok(16)
    } else if str_eq(f, "%o") {
        Ok(8)
    } else {
        let q = debug_quoted(f);
        fail(line, cat3("scan() format must be one of \"%\", \"%b\", \"%x\", \"%o\" (got ", q.as_str(), ")"))
    }
}

/// Position of the last `c` in `s`.
pub open spec fn last_of(s: Seq<char>, c: char) -> Option<int>
    decreases s.len(),
{
    if s.len() == 0 {
        None
    } else if s.last() == c {
        Some(s.len() - 1)
    } else {
        last_of(s.drop_last(), c)
    }
}

/// The VCD file of a module: the path itself for a single module; for several, `.module`
/// before the extension (a `.` after the last directory separator), or appended when
/// there is none (`out.vcd` gives `out.clock.vcd`).
pub open spec fn vcd_path(path: Seq<char>, module: Seq<char>, many: bool) -> Seq<char> {
    if !many {
        path
    } else {
        let floor = match crate::parser::last_sep(path) {
            Some(p) => p + 1,
            None => 0,
        };
        match last_of(path, '.') {
            Some(i) => if i > floor {
                path.subrange(0, i) + "."@ + module + path.subrange(i, path.len() as int)
            } else {
                path + "."@ + module
            },
            None => path + "."@ + module,
        }
    }
}

proof fn lemma_last_of(s: Seq<char>, c: char)
    ensures
        last_of(s, c) matches Some(p) ==> 0 <= p < s.len(),
    decreases s.len(),
{
    if s.len() > 0 && s.last() != c {
        lemma_last_of(s.drop_last(), c);
    }
}

fn find_last_char(s: &str, c: char) -> (r: Option<usize>)
    ensures
        match last_of(s@, c) {
            Some(i) => r == Some(i as usize),
            None => r is None,
        },
{
    let n = s.unicode_len();
    let mut k = n;
    proof {
        assert(s@.subrange(0, n as int) =~= s@);
    }
    while k > 0
        invariant
            k <= n,
            n == s@.len(),
            last_of(s@, c) == last_of(s@.subrange(0, k as int), c),
        decreases k,
    {
        if s.get_char(k - 1) == c {
            return Some(k - 1);
        }
        assert(s@.subrange(0, k as int).drop_last() =~= s@.subrange(0, k - 1));
        k -= 1;
    }
    None
}

fn find_last_sep(s: &str) -> (r: Option<usize>)
    ensures
        match crate::parser::last_sep(s@) {
            Some(i) => r == Some(i as usize),
            None => r is None,
        },
{
    let n = s.unicode_len();
    let mut k = n;
    proof {
        assert(s@.subrange(0, n as int) =~= s@);
    }
    while k > 0
        invariant
            k <= n,
            n == s@.len(),
            crate::parser::last_sep(s@) == crate::parser::last_sep(s@.subrange(0, k as int)),
        decreases k,
    {
        let x = s.get_char(k - 1);
        if x == '/' || x == '\\' {
            return Some(k - 1);
        }
        assert(s@.subrange(0, k as int).drop_last() =~= s@.subrange(0, k - 1));
        k -= 1;
    }
    None
}

/// The VCD file of a module (see `vcd_path`).
pub fn vcd_path_for(path: &str, module: &str, many: bool) -> (r: String)
    ensures
        r@ == vcd_path(path@, module@, many),
{
    if !many {
        return own(path);
    }
    proof {
        crate::parser::lemma_last_sep(path@);
        lemma_last_of(path@, '.');
    }
    let n0 = path.unicode_len();
    let floor: usize = match find_last_sep(path) {
        Some(p) => {
            assert(p < n0);
            p + 1
        },
        None => 0,
    };
    match find_last_char(path, '.') {
        Some(i) => {
            if i > floor {
                let n = path.unicode_len();
                let head = path.substring_char(0, i);
                let tail = path.substring_char(i, n);
                return cat4(head, ".", module, tail);
            }
            cat3(path, ".", module)
        },
        None => cat3(path, ".", module),
    }
}

// ---- chain endpoints -----------------------------------------------------

/// The names visible to an endpoint of a logic body: scalar points, comparator/repeater
/// regs (back, side), bus comparator/repeater regs (backs, sides), buses and wires, with
/// the parameter environment and the defines.
pub struct RefScope {
    pub scope: StrMap<usize>,
    pub side_regs: StrMap<(usize, usize)>,
    pub bus_side_regs: StrMap<(Vec<usize>, Vec<usize>)>,
    pub buses: StrMap<Vec<usize>>,
    pub wires: StrSet,
    pub env: Seq<(String, i64)>,
    pub defines: Seq<(String, i64)>,
}

/// Every lane list of the scope fits an `i32` width.
pub open spec fn scope_fits(c: RefScope) -> bool {
    &&& widths_fit(c.buses)
    &&& forall|k: Seq<char>| #[trigger] c.bus_side_regs.get_spec(k) matches Some(p) ==> p.0@.len() <= i32::MAX && p.1@.len() <= i32::MAX
}

/// A resolved endpoint as (is a single node, lane nodes).
pub open spec fn ep_view(e: Ep) -> (bool, Seq<usize>) {
    match e {
        Ep::Single(n) => (true, seq![n]),
        Ep::Bus(v) => (false, v@),
    }
}

/// Lane `name[k]` of `v`.
pub open spec fn lane_res(v: Seq<usize>, name: Seq<char>, k: i32, line: i32) -> Result<(bool, Seq<usize>), ErrSpec> {
    if 0 <= k < v.len() {
        Ok((true, seq![v[k as int]]))
    } else {
        Err(line_err(line, "bus index out of range: "@ + name + "["@ + int_text(k as int, 10) + "] (width "@ + int_text(v.len() as int, 10) + ")"@))
    }
}

/// Slice `name[hi:lo]` of `v`.
pub open spec fn slice_res(v: Seq<usize>, name: Seq<char>, hi: i32, lo: i32, line: i32) -> Result<(bool, Seq<usize>), ErrSpec> {
    if 0 <= hi < v.len() && 0 <= lo < v.len() {
        Ok((false, slice_lanes(v, hi as int, lo as int)))
    } else {
        Err(line_err(
            line,
            "bus slice index out of range: "@ + name + "["@ + int_text(hi as int, 10) + ":"@ + int_text(lo as int, 10) + "] (width "@
                + int_text(v.len() as int, 10) + ")"@,
        ))
    }
}

/// A lane selection applied to lanes `v`.
pub open spec fn sel_res(v: Seq<usize>, name: Seq<char>, sel: Sel, c: RefScope, line: i32) -> Result<(bool, Seq<usize>), ErrSpec> {
    match sel {
        Sel::All => Ok((false, v)),
        Sel::Lane(ie) => match idx_val(ie, c.env, c.defines, line) {
            Err(x) => Err(x),
            Ok(k) => lane_res(v, name, k, line),
        },
        Sel::Slice(hie, loe) => match idx_val(hie, c.env, c.defines, line) {
            Err(x) => Err(x),
            Ok(hi) => match idx_val(loe, c.env, c.defines, line) {
                Err(x) => Err(x),
                Ok(lo) => slice_res(v, name, hi, lo, line),
            },
        },
    }
}

/// Resolution of a single reference `name`, `name[k]`, `name[hi:lo]` or `name.side` at the
/// source (`dst` false) or destination end of a chain: `.side` is the side input of a
/// comparator/repeater reg (destination only); a bare comparator/repeater reg at the
/// destination is its back input; otherwise scalar points and buses resolve to their
/// nodes; wires and unknown names are errors.
pub open spec fn ref_res(name: Seq<char>, sel: Sel, side: bool, dst: bool, c: RefScope, line: i32) -> Result<(bool, Seq<usize>), ErrSpec> {
    if side {
        if !dst {
            Err(line_err(line, "'"@ + name + ".side' cannot be a wire source (side is an input terminal)"@))
        } else if c.side_regs.get_spec(name) is Some {
            match sel {
                Sel::All => Ok((true, seq![c.side_regs.get_spec(name).unwrap().1])),
                _ => Err(line_err(line, "'"@ + name + "' is a scalar comparator/repeater reg and cannot be indexed"@)),
            }
        } else if c.bus_side_regs.get_spec(name) is Some {
            sel_res(c.bus_side_regs.get_spec(name).unwrap().1@, name, sel, c, line)
        } else {
            Err(line_err(line, "'.side' is only valid on a comparator/repeater reg, but '"@ + name + "' is not"@))
        }
    } else {
        match sel {
            Sel::Lane(ie) => match idx_val(ie, c.env, c.defines, line) {
                Err(x) => Err(x),
                Ok(k) => if dst && c.bus_side_regs.get_spec(name) is Some {
                    lane_res(c.bus_side_regs.get_spec(name).unwrap().0@, name, k, line)
                } else {
                    match c.buses.get_spec(name) {
                        Some(v) => lane_res(v@, name, k, line),
                        None => Err(line_err(line, "'"@ + name + "' is indexed with '["@ + int_text(k as int, 10) + "]' but is not a bus"@)),
                    }
                },
            },
            Sel::Slice(hie, loe) => match idx_val(hie, c.env, c.defines, line) {
                Err(x) => Err(x),
                Ok(hi) => match idx_val(loe, c.env, c.defines, line) {
                    Err(x) => Err(x),
                    Ok(lo) => if dst && c.bus_side_regs.get_spec(name) is Some {
                        slice_res(c.bus_side_regs.get_spec(name).unwrap().0@, name, hi, lo, line)
                    } else {
                        match c.buses.get_spec(name) {
                            Some(v) => slice_res(v@, name, hi, lo, line),
                            None => Err(line_err(
                                line,
                                "'"@ + name + "' is sliced with '["@ + int_text(hi as int, 10) + ":"@ + int_text(lo as int, 10)
                                    + "]' but is not a bus"@,
                            )),
                        }
                    },
                },
            },
            Sel::All => if dst && c.side_regs.get_spec(name) is Some {
                Ok((true, seq![c.side_regs.get_spec(name).unwrap().0]))
            } else if dst && c.bus_side_regs.get_spec(name) is Some {
                Ok((false, c.bus_side_regs.get_spec(name).unwrap().0@))
            } else if c.scope.get_spec(name) is Some {
                Ok((true, seq![c.scope.get_spec(name).unwrap()]))
            } else if c.buses.get_spec(name) is Some {
                Ok((false, c.buses.get_spec(name).unwrap()@))
            } else if c.wires.has(name) {
                Err(line_err(
                    line,
                    "wire '"@ + name + "' cannot be a chain endpoint (a wire is an element sequence; endpoints must be reg/port)"@,
                ))
            } else {
                Err(line_err(line, "unknown chain endpoint: "@ + name))
            },
        }
    }
}

fn lane_of(v: &Vec<usize>, name: &str, k: i32, line: i32) -> (r: RvResult<Ep>)
    requires
        v@.len() <= i32::MAX,
    ensures
        match lane_res(v@, name@, k, line) {
            Ok(x) => r matches Ok(e) && ep_view(e) == x,
            Err(x) => r matches Err(e) && e@ == x,
        },
{
    bus_lane(v, name, k, line)
}

fn slice_of(v: &Vec<usize>, name: &str, hi: i32, lo: i32, line: i32) -> (r: RvResult<Ep>)
    requires
        v@.len() <= i32::MAX,
    ensures
        match slice_res(v@, name@, hi, lo, line) {
            Ok(x) => r matches Ok(e) && ep_view(e) == x,
            Err(x) => r matches Err(e) && e@ == x,
        },
{
    match bus_slice(v, name, hi, lo, line) {
        Ok(l) => Ok(Ep::Bus(l)),
        Err(x) => Err(x),
    }
}

fn sel_of(v: &Vec<usize>, name: &str, sel: &Sel, param_env: &StrMap<i64>, defines: &StrMap<i64>, line: i32, c: Ghost<RefScope>) -> (r: RvResult<Ep>)
    requires
        v@.len() <= i32::MAX,
        c@.env == param_env.entries@,
        c@.defines == defines.entries@,
    ensures
        match sel_res(v@, name@, *sel, c@, line) {
            Ok(x) => r matches Ok(e) && ep_view(e) == x,
            Err(x) => r matches Err(e) && e@ == x,
        },
{
    match sel {
        Sel::All => Ok(Ep::Bus(v.clone())),
        Sel::Lane(ie) => {
            let k = match resolve_idx(ie, param_env, defines, line) {
                Ok(k) => k,
                Err(x) => return Err(x),
            };
            lane_of(v, name, k, line)
        },
        Sel::Slice(hie, loe) => {
            let hi = match resolve_idx(hie, param_env, defines, line) {
                Ok(k) => k,
                Err(x) => return Err(x),
            };
            let lo = match resolve_idx(loe, param_env, defines, line) {
                Ok(k) => k,
                Err(x) => return Err(x),
            };
            slice_of(v, name, hi, lo, line)
        },
    }
}

/// Resolves a single reference of a chain (see `ref_res`).
pub fn resolve_ref(
    name: &str,
    sel: &Sel,
    side: bool,
    dst: bool,
    scope: &StrMap<usize>,
    side_regs: &StrMap<(usize, usize)>,
    bus_side_regs: &StrMap<(Vec<usize>, Vec<usize>)>,
    buses: &StrMap<Vec<usize>>,
    wire_names: &StrSet,
    param_env: &StrMap<i64>,
    defines: &StrMap<i64>,
    line: i32,
) -> (r: RvResult<Ep>)
    requires
        scope_fits((RefScope {
            scope: *scope,
            side_regs: *side_regs,
            bus_side_regs: *bus_side_regs,
            buses: *buses,
            wires: *wire_names,
            env: param_env.entries@,
            defines: defines.entries@,
        })),
    ensures
        match ref_res(
            name@,
            *sel,
            side,
            dst,
            (RefScope {
                scope: *scope,
                side_regs: *side_regs,
                bus_side_regs: *bus_side_regs,
                buses: *buses,
                wires: *wire_names,
                env: param_env.entries@,
                defines: defines.entries@,
            }),
            line,
        ) {
            Ok(x) => r matches Ok(e) && ep_view(e) == x,
            Err(x) => r matches Err(e) && e@ == x,
        },
{
    let ghost c = RefScope {
        scope: *scope,
        side_regs: *side_regs,
        bus_side_regs: *bus_side_regs,
        buses: *buses,
        wires: *wire_names,
        env: param_env.entries@,
        defines: defines.entries@,
    };
    if side {
        if !dst {
            return fail(line, cat3("'", name, ".side' cannot be a wire source (side is an input terminal)"));
        }
        if let Some(p) = side_regs.get(name) {
            return match sel {
                Sel::All => Ok(Ep::Single(p.1)),
                _ => fail(line, cat3("'", name, "' is a scalar comparator/repeater reg and cannot be indexed")),
            };
        }
        if let Some(p) = bus_side_regs.get(name) {
            return sel_of(&p.1, name, sel, param_env, defines, line, Ghost(c));
        }
        return fail(line, cat3("'.side' is only valid on a comparator/repeater reg, but '", name, "' is not"));
    }
    match sel {
        Sel::Lane(ie) => {
            let k = match resolve_idx(ie, param_env, defines, line) {
                Ok(k) => k,
                Err(x) => return Err(x),
            };
            if dst {
                if let Some(p) = bus_side_regs.get(name) {
                    return lane_of(&p.0, name, k, line);
                }
            }
            match buses.get(name) {
                Some(v) => lane_of(v, name, k, line),
                None => {
                    let t = int_str(k as i64);
                    fail(line, cat5("'", name, "' is indexed with '[", t.as_str(), "]' but is not a bus"))
                },
            }
        },
        Sel::Slice(hie, loe) => {
            let hi = match resolve_idx(hie, param_env, defines, line) {
                Ok(k) => k,
                Err(x) => return Err(x),
            };
            let lo = match resolve_idx(loe, param_env, defines, line) {
                Ok(k) => k,
                Err(x) => return Err(x),
            };
            if dst {
                if let Some(p) = bus_side_regs.get(name) {
                    return slice_of(&p.0, name, hi, lo, line);
                }
            }
            match buses.get(name) {
                Some(v) => slice_of(v, name, hi, lo, line),
                None => {
                    let th = int_str(hi as i64);
                    let tl = int_str(lo as i64);
                    let a = cat5("'", name, "' is sliced with '[", th.as_str(), ":");
                    fail(line, cat3(a.as_str(), tl.as_str(), "]' but is not a bus"))
                },
            }
        },
        Sel::All => {
            if dst {
                if let Some(p) = side_regs.get(name) {
                    return Ok(Ep::Single(p.0));
                }
                if let Some(p) = bus_side_regs.get(name) {
                    return Ok(Ep::Bus(p.0.clone()));
                }
            }
            if let Some(n) = scope.get(name) {
                return Ok(Ep::Single(*n));
            }
            if let Some(v) = buses.get(name) {
                return Ok(Ep::Bus(v.clone()));
            }
            if wire_names.contains(name) {
                return fail(
                    line,
                    cat3("wire '", name, "' cannot be a chain endpoint (a wire is an element sequence; endpoints must be reg/port)"),
                );
            }
            fail(line, cat2("unknown chain endpoint: ", name))
        },
    }
}

/// Resolution of a chain endpoint: a reference (see `ref_res`), or a concatenation whose
/// lanes are its elements' lanes in order (always a bus).
pub open spec fn ep_res(ep: Endpoint, dst: bool, c: RefScope, line: i32) -> Result<(bool, Seq<usize>), ErrSpec>
    decreases ep, 1int, 0int,
{
    match ep {
        Endpoint::Ref { name, side, sel } => ref_res(name@, sel, side, dst, c, line),
        Endpoint::Concat(v) => match concat_res(v, v@.len() as int, dst, c, line) {
            Ok(l) => Ok((false, l)),
            Err(x) => Err(x),
        },
    }
}

/// The lanes of the first `n` elements of a concatenation, or the first error.
pub open spec fn concat_res(v: Vec<Endpoint>, n: int, dst: bool, c: RefScope, line: i32) -> Result<Seq<usize>, ErrSpec>
    decreases v, 0int, n,
{
    if n <= 0 || n > v@.len() {
        Ok(seq![])
    } else {
        match concat_res(v, n - 1, dst, c, line) {
            Err(x) => Err(x),
            Ok(a) => {
                proof {
                    assert(decreases_to!(v => v@[n - 1]));
                }
                match ep_res(v@[n - 1], dst, c, line) {
                    Err(x) => Err(x),
                    Ok(p) => Ok(a + p.1),
                }
            },
        }
    }
}

/// Lanes are nodes of a circuit with `n` nodes.
pub open spec fn lanes_ok(v: Seq<usize>, n: nat) -> bool {
    forall|i: int| 0 <= i < v.len() ==> #[trigger] v[i] < n
}

/// Every node named by the scope is one of the first `n` nodes.
pub open spec fn scope_nodes_ok(c: RefScope, n: nat) -> bool {
    &&& forall|k: Seq<char>| #[trigger] c.scope.get_spec(k) matches Some(x) ==> x < n
    &&& forall|k: Seq<char>| #[trigger] c.side_regs.get_spec(k) matches Some(p) ==> p.0 < n && p.1 < n
    &&& forall|k: Seq<char>| #[trigger] c.buses.get_spec(k) matches Some(v) ==> lanes_ok(v@, n)
    &&& forall|k: Seq<char>| #[trigger] c.bus_side_regs.get_spec(k) matches Some(p) ==> lanes_ok(p.0@, n) && lanes_ok(p.1@, n)
}

proof fn lemma_sel_res_nodes(v: Seq<usize>, name: Seq<char>, sel: Sel, c: RefScope, line: i32, n: nat)
    requires
        lanes_ok(v, n),
    ensures
        sel_res(v, name, sel, c, line) matches Ok(r) ==> lanes_ok(r.1, n),
        lane_res(v, name, 0, line) matches Ok(r) ==> lanes_ok(r.1, n),
{
    assert forall|k: i32| (#[trigger] lane_res(v, name, k, line)) matches Ok(r) ==> lanes_ok(r.1, n) by {}
    assert forall|hi: i32, lo: i32| (#[trigger] slice_res(v, name, hi, lo, line)) matches Ok(r) ==> lanes_ok(r.1, n) by {
        if 0 <= hi < v.len() && 0 <= lo < v.len() {
            let s = slice_lanes(v, hi as int, lo as int);
            assert forall|i: int| 0 <= i < s.len() implies #[trigger] s[i] < n by {
                if hi >= lo {
                    assert(s[i] == v[hi - i]);
                } else {
                    assert(s[i] == v[hi + i]);
                }
            }
        }
    }
}

/// A resolved reference names only nodes of the scope.
pub proof fn lemma_ref_res_nodes(name: Seq<char>, sel: Sel, side: bool, dst: bool, c: RefScope, line: i32, n: nat)
    requires
        scope_nodes_ok(c, n),
    ensures
        ref_res(name, sel, side, dst, c, line) matches Ok(r) ==> lanes_ok(r.1, n),
{
    if let Some(p) = c.bus_side_regs.get_spec(name) {
        lemma_sel_res_nodes(p.1@, name, sel, c, line, n);
        lemma_sel_res_nodes(p.0@, name, sel, c, line, n);
    }
    if let Some(v) = c.buses.get_spec(name) {
        lemma_sel_res_nodes(v@, name, sel, c, line, n);
    }
    assert forall|k: i32, v: Seq<usize>| lanes_ok(v, n) implies (#[trigger] lane_res(v, name, k, line)) matches Ok(r) ==> lanes_ok(r.1, n) by {}
    assert forall|hi: i32, lo: i32, v: Seq<usize>| lanes_ok(v, n) implies (#[trigger] slice_res(v, name, hi, lo, line)) matches Ok(r) ==> lanes_ok(r.1, n) by {
        if 0 <= hi < v.len() && 0 <= lo < v.len() {
            let s = slice_lanes(v, hi as int, lo as int);
            assert forall|i: int| 0 <= i < s.len() implies #[trigger] s[i] < n by {
                if hi >= lo {
                    assert(s[i] == v[hi - i]);
                } else {
                    assert(s[i] == v[hi + i]);
                }
            }
        }
    }
}

/// A resolved endpoint names only nodes of the scope.
pub proof fn lemma_ep_res_nodes(ep: Endpoint, dst: bool, c: RefScope, line: i32, n: nat)
    requires
        scope_nodes_ok(c, n),
    ensures
        ep_res(ep, dst, c, line) matches Ok(r) ==> lanes_ok(r.1, n),
    decreases ep, 1int, 0int,
{
    match ep {
        Endpoint::Ref { name, side, sel } => lemma_ref_res_nodes(name@, sel, side, dst, c, line, n),
        Endpoint::Concat(v) => lemma_concat_res_nodes(v, v@.len() as int, dst, c, line, n),
    }
}

proof fn lemma_concat_res_nodes(v: Vec<Endpoint>, m: int, dst: bool, c: RefScope, line: i32, n: nat)
    requires
        scope_nodes_ok(c, n),
    ensures
        concat_res(v, m, dst, c, line) matches Ok(r) ==> lanes_ok(r, n),
    decreases v, 0int, m,
{
    if 0 < m <= v@.len() {
        lemma_concat_res_nodes(v, m - 1, dst, c, line, n);
        assert(decreases_to!(v => v@[m - 1]));
        lemma_ep_res_nodes(v@[m - 1], dst, c, line, n);
        if let Ok(a) = concat_res(v, m - 1, dst, c, line) {
            if let Ok(p) = ep_res(v@[m - 1], dst, c, line) {
                assert forall|i: int| 0 <= i < (a + p.1).len() implies #[trigger] (a + p.1)[i] < n by {
                    if i >= a.len() {
                        assert((a + p.1)[i] == p.1[i - a.len()]);
                    }
                }
            }
        }
    }
}

/// An error among the first `k` elements stays the result for longer prefixes.
proof fn lemma_concat_err(v: Vec<Endpoint>, k: int, m: int, dst: bool, c: RefScope, line: i32)
    requires
        0 <= k <= m <= v@.len(),
        concat_res(v, k, dst, c, line) is Err,
    ensures
        concat_res(v, m, dst, c, line) == concat_res(v, k, dst, c, line),
    decreases m - k,
{
    if m > k {
        lemma_concat_err(v, k, m - 1, dst, c, line);
    }
}

fn resolve_concat(
    elems: &Vec<Endpoint>,
    dst: bool,
    scope: &StrMap<usize>,
    side_regs: &StrMap<(usize, usize)>,
    bus_side_regs: &StrMap<(Vec<usize>, Vec<usize>)>,
    buses: &StrMap<Vec<usize>>,
    wire_names: &StrSet,
    param_env: &StrMap<i64>,
    defines: &StrMap<i64>,
    line: i32,
    c: Ghost<RefScope>,
) -> (r: RvResult<Vec<usize>>)
    requires
        scope_fits(c@),
        c@ == (RefScope {
            scope: *scope,
            side_regs: *side_regs,
            bus_side_regs: *bus_side_regs,
            buses: *buses,
            wires: *wire_names,
            env: param_env.entries@,
            defines: defines.entries@,
        }),
    ensures
        match concat_res(*elems, elems@.len() as int, dst, c@, line) {
            Ok(l) => r matches Ok(x) && x@ == l,
            Err(x) => r matches Err(e) && e@ == x,
        },
    decreases elems, 0nat,
{
    let mut lanes: Vec<usize> = Vec::new();
    let mut k: usize = 0;
    while k < elems.len()
        invariant
            k <= elems@.len(),
            scope_fits(c@),
            c@ == (RefScope {
                scope: *scope,
                side_regs: *side_regs,
                bus_side_regs: *bus_side_regs,
                buses: *buses,
                wires: *wire_names,
                env: param_env.entries@,
                defines: defines.entries@,
            }),
            concat_res(*elems, k as int, dst, c@, line) == Ok::<Seq<usize>, ErrSpec>(lanes@),
        decreases elems@.len() - k,
    {
        proof {
            assert(decreases_to!(elems => elems@[k as int]));
        }
        let e = match resolve_endpoint(&elems[k], dst, scope, side_regs, bus_side_regs, buses, wire_names, param_env, defines, line) {
            Ok(e) => e,
            Err(x) => {
                proof {
                    lemma_concat_err(*elems, k + 1, elems@.len() as int, dst, c@, line);
                }
                return Err(x);
            },
        };
        let l = e.lanes();
        let mut j: usize = 0;
        let ghost l0 = lanes@;
        while j < l.len()
            invariant
                j <= l@.len(),
                lanes@ == l0 + l@.subrange(0, j as int),
            decreases l@.len() - j,
        {
            lanes.push(l[j]);
            j += 1;
            assert(lanes@ =~= l0 + l@.subrange(0, j as int));
        }
        proof {
            assert(l@.subrange(0, l@.len() as int) =~= l@);
        }
        k += 1;
    }
    Ok(lanes)
}

/// Resolves a chain endpoint to its lanes (see `ep_res`).
pub fn resolve_endpoint(
    ep: &Endpoint,
    dst: bool,
    scope: &StrMap<usize>,
    side_regs: &StrMap<(usize, usize)>,
    bus_side_regs: &StrMap<(Vec<usize>, Vec<usize>)>,
    buses: &StrMap<Vec<usize>>,
    wire_names: &StrSet,
    param_env: &StrMap<i64>,
    defines: &StrMap<i64>,
    line: i32,
) -> (r: RvResult<Ep>)
    requires
        scope_fits((RefScope {
            scope: *scope,
            side_regs: *side_regs,
            bus_side_regs: *bus_side_regs,
            buses: *buses,
            wires: *wire_names,
            env: param_env.entries@,
            defines: defines.entries@,
        })),
    ensures
        match ep_res(
            *ep,
            dst,
            (RefScope {
                scope: *scope,
                side_regs: *side_regs,
                bus_side_regs: *bus_side_regs,
                buses: *buses,
                wires: *wire_names,
                env: param_env.entries@,
                defines: defines.entries@,
            }),
            line,
        ) {
            Ok(x) => r matches Ok(e) && ep_view(e) == x,
            Err(x) => r matches Err(e) && e@ == x,
        },
    decreases ep, 1nat,
{
    let ghost c = RefScope {
        scope: *scope,
        side_regs: *side_regs,
        bus_side_regs: *bus_side_regs,
        buses: *buses,
        wires: *wire_names,
        env: param_env.entries@,
        defines: defines.entries@,
    };
    match ep {
        Endpoint::Ref { name, side, sel } => resolve_ref(
            name.as_str(),
            sel,
            *side,
            dst,
            scope,
            side_regs,
            bus_side_regs,
            buses,
            wire_names,
            param_env,
            defines,
            line,
        ),
        Endpoint::Concat(elems) => {
            match resolve_concat(elems, dst, scope, side_regs, bus_side_regs, buses, wire_names, param_env, defines, line, Ghost(c)) {
                Ok(lanes) => Ok(Ep::Bus(lanes)),
                Err(x) => Err(x),
            }
        },
    }
}

// ---- wire expansion inside chains ------------------------------------------

/// What a chain's middle chunks can name: wire definitions (line, element tokens),
/// scalar points and buses (not allowed in the middle), and the declared wires.
pub struct ChainScope {
    pub wire_seq: StrMap<(i32, Vec<String>)>,
    pub scope: StrMap<usize>,
    pub wires: StrSet,
    pub buses: StrSet,
    pub line: i32,
}

/// The wires being expanded: distinct declared wires.
pub open spec fn visited_ok(vis: Seq<Seq<char>>, wires: StrSet) -> bool {
    &&& vis.no_duplicates()
    &&& forall|i: int| 0 <= i < vis.len() ==> wires.has(#[trigger] vis[i])
}

pub proof fn lemma_budget(vis: Seq<Seq<char>>, tok: Seq<char>, wires: StrSet)
    requires
        visited_ok(vis, wires),
        wires.has(tok),
        !vis.contains(tok),
    ensures
        visited_ok(vis.push(tok), wires),
        vis.len() + 1 <= wires.items@.len(),
{
    let v2 = vis.push(tok);
    assert forall|i: int, j: int| 0 <= i < v2.len() && 0 <= j < v2.len() && i != j implies v2[i] != v2[j] by {
        if i == vis.len() {
            assert(v2[j] == vis[j]);
        } else if j == vis.len() {
            assert(v2[i] == vis[i]);
        } else {
            assert(v2[i] == vis[i] && v2[j] == vis[j]);
        }
    }
    assert(v2.no_duplicates());
    assert forall|i: int| 0 <= i < v2.len() implies wires.has(#[trigger] v2[i]) by {
        if i < vis.len() {
            assert(v2[i] == vis[i]);
        }
    }
    let items = crate::parser::strs_view(wires.items@);
    v2.unique_seq_to_set();
    assert(v2.to_set().subset_of(items.to_set())) by {
        assert forall|x: Seq<char>| v2.to_set().contains(x) implies items.to_set().contains(x) by {
            let i = choose|i: int| 0 <= i < v2.len() && v2[i] == x;
            assert(wires.has(v2[i]));
            let j = choose|j: int| 0 <= j < wires.items@.len() && wires.items@[j]@ == x;
            assert(items[j] == x);
        }
    }
    items.lemma_cardinality_of_set();
    vstd::seq_lib::seq_to_set_is_finite(items);
    vstd::set_lib::lemma_len_subset(v2.to_set(), items.to_set());
}

/// Elements of middle chunks `toks` of a chain, expanding wire names into their element
/// sequences (`vis`: wires being expanded, for cycle detection), or the first error.
pub open spec fn expand(toks: Seq<String>, c: ChainScope, vis: Seq<Seq<char>>) -> Result<Seq<Elem>, ErrSpec>
    decreases c.wires.items@.len() - vis.len(), toks.len(), 1int,
    when visited_ok(vis, c.wires)
{
    if toks.len() == 0 {
        Ok(seq![])
    } else {
        match expand_one(toks[0]@, c, vis) {
            Err(x) => Err(x),
            Ok(a) => match expand(toks.drop_first(), c, vis) {
                Err(x) => Err(x),
                Ok(b) => Ok(a + b),
            },
        }
    }
}

/// Elements of one middle chunk: a named point or bus is an error; a wire expands to its
/// definition (recursion through itself is an error); anything else is an element chunk.
pub open spec fn expand_one(tok: Seq<char>, c: ChainScope, vis: Seq<Seq<char>>) -> Result<Seq<Elem>, ErrSpec>
    decreases c.wires.items@.len() - vis.len(), 0int, 0int,
    when visited_ok(vis, c.wires)
{
    if c.scope.has(tok) || c.buses.has(tok) {
        Err(line_err(c.line, "named node '"@ + tok + "' cannot appear inside a chain (endpoints go at the two ends)"@))
    } else if c.wires.has(tok) {
        if vis.contains(tok) {
            Err(line_err(c.line, "recursive wire definition involving '"@ + tok + "'"@))
        } else {
            match c.wire_seq.get_spec(tok) {
                None => Err(line_err(c.line, "wire '"@ + tok + "' is used but never assigned an element sequence"@)),
                Some(p) => {
                    proof {
                        lemma_budget(vis, tok, c.wires);
                    }
                    expand(p.1@, c, vis.push(tok))
                },
            }
        }
    } else {
        match chunk_from(vstd::utf8::encode_utf8(tok), 0, c.line, tok) {
            Ok(es) => Ok(es),
            Err(m) => Err(line_err(c.line, m)),
        }
    }
}

/// Prepends elements to a successful result.
pub open spec fn prepend_es(pre: Seq<Elem>, r: Result<Seq<Elem>, ErrSpec>) -> Result<Seq<Elem>, ErrSpec> {
    match r {
        Ok(t) => Ok(pre + t),
        Err(e) => Err(e),
    }
}

pub(crate) fn in_strs(v: &Vec<String>, k: &str) -> (r: bool)
    ensures
        r == crate::parser::strs_view(v@).contains(k@),
{
    let mut i: usize = 0;
    while i < v.len()
        invariant
            i <= v@.len(),
            forall|m: int| 0 <= m < i ==> (#[trigger] v@[m])@ != k@,
        decreases v@.len() - i,
    {
        if str_eq(v[i].as_str(), k) {
            assert(crate::parser::strs_view(v@)[i as int] == k@);
            return true;
        }
        i += 1;
    }
    proof {
        if crate::parser::strs_view(v@).contains(k@) {
            let m = choose|m: int| 0 <= m < v@.len() && crate::parser::strs_view(v@)[m] == k@;
            assert(v@[m]@ == k@);
        }
    }
    false
}

/// Expands the middle chunks of a chain into elements appended to `out` (see `expand`);
/// wires that were expanded are added to `used`.
pub fn expand_chain_tokens(
    tokens: &Vec<String>,
    wire_seq: &StrMap<(i32, Vec<String>)>,
    scope: &StrMap<usize>,
    wire_names: &StrSet,
    bus_names: &StrSet,
    line: i32,
    visited: &mut Vec<String>,
    used: &mut StrSet,
    out: &mut Vec<Elem>,
) -> (r: RvResult<()>)
    requires
        visited_ok(crate::parser::strs_view(old(visited)@), *wire_names),
    ensures
        match expand(
            tokens@,
            (ChainScope { wire_seq: *wire_seq, scope: *scope, wires: *wire_names, buses: *bus_names, line }),
            crate::parser::strs_view(old(visited)@),
        ) {
            Ok(es) => r is Ok && final(out)@ == old(out)@ + es && crate::parser::strs_view(final(visited)@)
                == crate::parser::strs_view(old(visited)@),
            Err(x) => r matches Err(e) && e@ == x,
        },
        forall|q: Seq<char>| #[trigger] old(used).has(q) ==> final(used).has(q),
    decreases wire_names.items@.len() - old(visited)@.len(),
{
    let ghost c = ChainScope { wire_seq: *wire_seq, scope: *scope, wires: *wire_names, buses: *bus_names, line };
    let ghost vis0 = crate::parser::strs_view(visited@);
    let ghost out0 = out@;
    let n = tokens.len();
    let mut k: usize = 0;
    proof {
        assert(tokens@.subrange(0, n as int) =~= tokens@);
        assert(out@ =~= out0 + Seq::<Elem>::empty());
        if let Ok(t) = expand(tokens@, c, vis0) {
            assert(Seq::<Elem>::empty() + t =~= t);
        }
    }
    while k < n
        invariant
            n == tokens@.len(),
            k <= n,
            c == (ChainScope { wire_seq: *wire_seq, scope: *scope, wires: *wire_names, buses: *bus_names, line }),
            crate::parser::strs_view(visited@) == vis0,
            vis0 == crate::parser::strs_view(old(visited)@),
            out0 == old(out)@,
            visited@.len() == old(visited)@.len(),
            visited_ok(vis0, *wire_names),
            out@.len() >= out0.len(),
            out@.subrange(0, out0.len() as int) == out0,
            expand(tokens@, c, vis0) == prepend_es(out@.subrange(out0.len() as int, out@.len() as int), expand(tokens@.subrange(k as int, n as int), c, vis0)),
            forall|q: Seq<char>| #[trigger] old(used).has(q) ==> used.has(q),
        decreases n - k,
    {
        let tok = tokens[k].as_str();
        let ghost rest = tokens@.subrange(k as int, n as int);
        proof {
            assert(rest[0] == tokens@[k as int]);
            assert(rest.drop_first() =~= tokens@.subrange(k + 1, n as int));
        }
        let ghost pre = out@.subrange(out0.len() as int, out@.len() as int);
        proof {
            assert(expand(rest, c, vis0) == match expand_one(tok@, c, vis0) {
                Err(x) => Err(x),
                Ok(a) => match expand(tokens@.subrange(k + 1, n as int), c, vis0) {
                    Err(x) => Err(x),
                    Ok(b) => Ok(a + b),
                },
            });
        }
        if scope.contains_key(tok) || bus_names.contains(tok) {
            let m = cat3("named node '", tok, "' cannot appear inside a chain (endpoints go at the two ends)");
            return fail(line, m);
        }
        if wire_names.contains(tok) {
            if in_strs(visited, tok) {
                return fail(line, cat3("recursive wire definition involving '", tok, "'"));
            }
            let def = match wire_seq.get(tok) {
                Some(p) => p,
                None => {
                    return fail(line, cat3("wire '", tok, "' is used but never assigned an element sequence"));
                },
            };
            let ghost u0 = *used;
            used.insert(tokens[k].clone());
            proof {
                lemma_budget(vis0, tok@, *wire_names);
                assert forall|q: Seq<char>| #[trigger] old(used).has(q) implies used.has(q) by {
                    assert(u0.has(q));
                }
            }
            let ghost before_used = *used;
            visited.push(tokens[k].clone());
            proof {
                assert(crate::parser::strs_view(visited@) =~= vis0.push(tok@));
            }
            let ghost mid_out = out@;
            let sub = expand_chain_tokens(&def.1, wire_seq, scope, wire_names, bus_names, line, visited, used, out);
            proof {
                assert forall|q: Seq<char>| #[trigger] old(used).has(q) implies used.has(q) by {
                    assert(before_used.has(q));
                }
                assert(expand_one(tok@, c, vis0) == expand(def.1@, c, vis0.push(tok@)));
            }
            match sub {
                Ok(()) => {},
                Err(x) => return Err(x),
            }
            let ghost vp = visited@;
            visited.pop();
            proof {
                assert(visited@ =~= vp.drop_last());
                assert(crate::parser::strs_view(visited@) =~= crate::parser::strs_view(vp).drop_last());
                assert(crate::parser::strs_view(visited@) =~= vis0);
                let a = match expand(def.1@, c, vis0.push(tok@)) { Ok(a) => a, Err(_) => Seq::<Elem>::empty() };
                assert(out@ == mid_out + a);
                assert(out@.subrange(mid_out.len() as int, out@.len() as int) =~= a);
            }
        } else {
            let es = match parse_chunk(tok, line) {
                Ok(es) => es,
                Err(x) => return Err(x),
            };
            let mut j: usize = 0;
            let ghost o1 = out@;
            while j < es.len()
                invariant
                    j <= es@.len(),
                    out@ == o1 + es@.subrange(0, j as int),
                decreases es@.len() - j,
            {
                out.push(es[j]);
                j += 1;
                assert(out@ =~= o1 + es@.subrange(0, j as int));
            }
            proof {
                assert(es@.subrange(0, es@.len() as int) =~= es@);
                assert(out@.subrange(o1.len() as int, out@.len() as int) =~= es@);
                assert(expand_one(tok@, c, vis0) == Ok::<Seq<Elem>, ErrSpec>(es@));
            }
        }
        proof {
            assert(out@.subrange(0, out0.len() as int) =~= out0);
            let pre2 = out@.subrange(out0.len() as int, out@.len() as int);
            let a = out@.subrange((out0.len() + pre.len()) as int, out@.len() as int);
            assert(expand_one(tok@, c, vis0) == Ok::<Seq<Elem>, ErrSpec>(a));
            assert(pre2 =~= pre + a);
            if let Ok(t) = expand(tokens@.subrange(k + 1, n as int), c, vis0) {
                assert(pre + (a + t) =~= pre2 + t);
            }
        }
        k += 1;
    }
    proof {
        assert(tokens@.subrange(n as int, n as int) =~= Seq::<String>::empty());
        assert(out@ =~= out0 + out@.subrange(out0.len() as int, out@.len() as int));
        assert(out@.subrange(out0.len() as int, out@.len() as int) + Seq::<Elem>::empty() =~= out@.subrange(out0.len() as int, out@.len() as int));
    }
    Ok(())
}
} // verus!
