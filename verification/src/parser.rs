//! Recursive-descent parser from tokens to a `Program`. The `Program` is passed to each
//! method as `&mut` (not held in the parser) because the parsers of included files fill
//! the same program. An `#include` of a file pauses `parse_file` with an include request;
//! the caller reads the file and parses it with `sub_parser`, then resumes.
use crate::ast::{
    BindRef, BindTarget, CallData, Endpoint, Expr, IdxExpr, InstArg, LogicDef, LogicStmt, ModuleDef,
    Port, Program, Qual, RegInit, Sel, SimStmt, WidthExpr,
};
use crate::diag::{fail, fail_at, RvError, RvResult, Warning};
use crate::lexer::{ErrSpec, Tk, TokSpec, Token};
use crate::strs::{cat2, cat3, cat4, cat5, int_str, own, str_eq, StrMap, StrSet};
use vstd::arithmetic::div_mod::{lemma_div_decreases, lemma_div_nonincreasing, lemma_div_pos_is_pos, lemma_fundamental_div_mod, lemma_mod_pos_bound};
use vstd::prelude::*;

verus! {

/// Library sources compiled into the program, by include name.
pub open spec fn is_bundled(name: Seq<char>) -> bool {
    name == "stdlogic"@ || name == "stdmem"@
}

/// Whether `name` is a bundled library (`#include "stdlogic"` / `"stdmem"`).
pub fn bundled_stdlib(name: &str) -> (r: bool)
    ensures
        r == is_bundled(name@),
{
    str_eq(name, "stdlogic") || str_eq(name, "stdmem")
}

/// Position of the last `/` or `\` in `s`.
pub open spec fn last_sep(s: Seq<char>) -> Option<int>
    decreases s.len(),
{
    if s.len() == 0 {
        None
    } else if s.last() == '/' || s.last() == '\\' {
        Some(s.len() - 1)
    } else {
        last_sep(s.drop_last())
    }
}

pub proof fn lemma_last_sep(s: Seq<char>)
    ensures
        last_sep(s) matches Some(p) ==> 0 <= p < s.len() && (s[p] == '/' || s[p] == '\\'),
    decreases s.len(),
{
    if s.len() > 0 && !(s.last() == '/' || s.last() == '\\') {
        lemma_last_sep(s.drop_last());
    }
}

/// The directory part of a path: everything before its last separator, or `.`.
pub fn dir_of(path: &str) -> (r: String)
    ensures
        r@ == match last_sep(path@) {
            Some(p) => path@.subrange(0, p),
            None => "."@,
        },
{
    let n = path.unicode_len();
    let mut k = n;
    proof {
        assert(path@.subrange(0, n as int) =~= path@);
    }
    while k > 0
        invariant
            k <= n,
            n == path@.len(),
            last_sep(path@) == last_sep(path@.subrange(0, k as int)),
        decreases k,
    {
        let c = path.get_char(k - 1);
        if c == '/' || c == '\\' {
            return own(path.substring_char(0, k - 1));
        }
        assert(path@.subrange(0, k as int).drop_last() =~= path@.subrange(0, k - 1));
        k -= 1;
    }
    own(".")
}

/// The name of an endpoint that is a bare name (no lane selection, `.side` or
/// concatenation); a mid-chain chunk must have this form.
pub fn endpoint_bare_name(ep: &Endpoint) -> (r: Option<String>)
    ensures
        match ep {
            Endpoint::Ref { name, side, sel } => if !*side && *sel is All {
                r matches Some(n) && n@ == name@
            } else {
                r is None
            },
            Endpoint::Concat(_) => r is None,
        },
{
    match ep {
        Endpoint::Ref { name, side, sel } => {
            if !*side && matches!(sel, Sel::All) {
                Some(name.clone())
            } else {
                None
            }
        },
        Endpoint::Concat(_) => None,
    }
}

/// An endpoint as name, `.side` and lane selection; a concatenation is an error here (the
/// right-hand side of `=`).
pub fn endpoint_simple(ep: Endpoint, line: i32) -> (r: RvResult<(String, bool, Sel)>)
    ensures
        match ep {
            Endpoint::Ref { name, side, sel } => r == Ok::<(String, bool, Sel), RvError>((name, side, sel)),
            Endpoint::Concat(_) => r matches Err(e) && e.line == line && e.col == 0,
        },
{
    match ep {
        Endpoint::Ref { name, side, sel } => Ok((name, side, sel)),
        Endpoint::Concat(_) => fail(
            line,
            own(
                "a concatenation '{...}' is not allowed on the right-hand side of '='; use a chain to wire a bus",
            ),
        ),
    }
}

/// An error at a line with no column.
/// The refusal of a `kind` name that reads as an element sequence.
pub open spec fn collision_msg(kind: Seq<char>, name: Seq<char>) -> Seq<char> {
    kind + " name '"@ + name + "' collides with an element name (e.g. 'd', 'r', 'cd'); pick a name that is not an element sequence"@
}

/// The width an error underlines at token `t`: its length, and at least 1.
pub open spec fn caret_len(t: TokSpec) -> int {
    if t.len >= 1 {
        t.len
    } else {
        1
    }
}

/// `e` is the plain reference to the name `s`: no side, no selector.
pub open spec fn bare_ref(e: Endpoint, s: Seq<char>) -> bool {
    e matches Endpoint::Ref { name, side, sel } && name@ == s && !side && sel is All
}

pub open spec fn line_err(line: i32, msg: Seq<char>) -> ErrSpec {
    ErrSpec { line: line as int, col: 0, len: 0, msg }
}

/// Wrapping negation.
pub open spec fn neg_wrap(v: i64) -> i64 {
    0i64.wrapping_sub(v)
}

/// Truncating division that wraps on `i64::MIN / -1` (`b != 0`).
pub open spec fn div_wrap(a: i64, b: i64) -> i64 {
    match a.checked_div(b) {
        Some(q) => q,
        None => a,
    }
}

/// Truncating remainder, 0 on `i64::MIN % -1` (`b != 0`).
pub open spec fn rem_wrap(a: i64, b: i64) -> i64 {
    match a.checked_rem(b) {
        Some(q) => q,
        None => 0,
    }
}

/// Division in constant expressions truncates toward zero: for a divisor other than
/// 0 (leaving out the one quotient that overflows, `i64::MIN / -1`), quotient times
/// divisor plus remainder gives the dividend back, the remainder is smaller than the
/// divisor in size, and it is never of the opposite sign to the dividend (so
/// `7 / 2` is 3, `-7 / 2` is -3 and `-7 % 2` is -1). Negation gives the opposite
/// number wherever that fits.
pub proof fn lemma_div_rem(x: i64, y: i64)
    requires
        y != 0,
        !(x == i64::MIN && y == -1),
    ensures
        div_wrap(x, y) * y + rem_wrap(x, y) == x,
        y > 0 ==> -y < rem_wrap(x, y) < y,
        y < 0 ==> y < rem_wrap(x, y) < -y,
        x >= 0 ==> rem_wrap(x, y) >= 0,
        x <= 0 ==> rem_wrap(x, y) <= 0,
        x != i64::MIN ==> neg_wrap(x) == -x,
{
    let xi: int = x as int;
    let d: int = y as int;
    if xi == 0 {
        assert(div_wrap(x, y) == 0);
        assert(rem_wrap(x, y) == 0);
    } else {
        let ax: int = if xi < 0 { -xi } else { xi };
        let ad: int = if d < 0 { -d } else { d };
        lemma_fundamental_div_mod(ax, ad);
        lemma_mod_pos_bound(ax, ad);
        lemma_div_pos_is_pos(ax, ad);
        lemma_div_nonincreasing(ax, ad);
        let q: int = ax / ad;
        let m: int = ax % ad;
        assert(ax == ad * q + m);
        let sq: int = if (xi < 0) == (d < 0) { q } else { -q };
        let sm: int = if xi < 0 { -m } else { m };
        assert(sq * d + sm == xi) by (nonlinear_arith)
            requires
                ax == ad * q + m,
                ax == (if xi < 0 { -xi } else { xi }),
                ad == (if d < 0 { -d } else { d }),
                sq == (if (xi < 0) == (d < 0) { q } else { -q }),
                sm == (if xi < 0 { -m } else { m }),
        ;
        if xi == i64::MIN as int {
            assert(d != -1);
            if ad > 1 {
                lemma_div_decreases(ax, ad);
            }
        }
        assert(div_wrap(x, y) == sq);
        assert(rem_wrap(x, y) == sm);
    }
}

/// Value of a constant expression over the constants `consts`: literals, constants,
/// unary `-` `!` and binary `+ - * / %`; `$time`, indexing and other operators are errors.
/// Arithmetic wraps at 64 bits.
pub open spec fn const_eval(e: Expr, consts: StrMap<i64>) -> Result<i64, ErrSpec>
    decreases e,
{
    match e {
        Expr::Num { num, .. } => Ok(num),
        Expr::Time { line } => Err(line_err(line, "$time is not allowed in a constant expression"@)),
        Expr::Var { line, name, index } => if index is Some {
            Err(line_err(line, "cannot index '"@ + name@ + "' in a constant expression"@))
        } else {
            match consts.get_spec(name@) {
                Some(v) => Ok(v),
                None => Err(line_err(
                    line,
                    "unknown constant '"@ + name@ + "' (declare it with 'param "@ + name@ + " = ...;')"@,
                )),
            }
        },
        Expr::Un { line, op, a } => match const_eval(*a, consts) {
            Err(x) => Err(x),
            Ok(v) => if op@ == "-"@ {
                Ok(neg_wrap(v))
            } else if op@ == "!"@ {
                Ok(if v == 0 { 1 } else { 0 })
            } else {
                Err(line_err(line, "operator '"@ + op@ + "' not allowed in a constant expression"@))
            },
        },
        Expr::Bin { line, op, a, b } => match const_eval(*a, consts) {
            Err(x) => Err(x),
            Ok(x) => match const_eval(*b, consts) {
                Err(y) => Err(y),
                Ok(y) => if op@ == "+"@ {
                    Ok(x.wrapping_add(y))
                } else if op@ == "-"@ {
                    Ok(x.wrapping_sub(y))
                } else if op@ == "*"@ {
                    Ok(x.wrapping_mul(y))
                } else if op@ == "/"@ {
                    if y == 0 {
                        Err(line_err(line, "division by zero in a constant expression"@))
                    } else {
                        Ok(div_wrap(x, y))
                    }
                } else if op@ == "%"@ {
                    if y == 0 {
                        Err(line_err(line, "modulo by zero in a constant expression"@))
                    } else {
                        Ok(rem_wrap(x, y))
                    }
                } else {
                    Err(line_err(line, "operator '"@ + op@ + "' not allowed in a constant expression"@))
                },
            },
        },
    }
}

/// Arithmetic in constant expressions: where both operands evaluate and the
/// exact result fits in 64 bits, `a + b`, `a - b` and `a * b` evaluate to the sum,
/// the difference of the left operand minus the right one, and the product of the
/// operands' values (so with `N = 4`, `N - 1` is 3 and `1 - N` is -3); `a / b` and
/// `a % b` are the truncating quotient and remainder of the left operand by the
/// right one (see `lemma_div_rem`), and an error for a right operand of 0; `-a` is
/// the opposite of `a`'s value.
pub proof fn lemma_const_arith(
    line: i32,
    op: String,
    a: Expr,
    b: Expr,
    consts: StrMap<i64>,
)
    requires
        const_eval(a, consts) is Ok,
        const_eval(b, consts) is Ok,
    ensures
        ({
            let x = const_eval(a, consts)->Ok_0;
            let y = const_eval(b, consts)->Ok_0;
            let r = const_eval((Expr::Bin { line, op, a: Box::new(a), b: Box::new(b) }), consts);
            &&& op@ == "+"@ && i64::MIN <= x + y <= i64::MAX ==> r == Ok::<i64, ErrSpec>((x + y) as i64)
            &&& op@ == "-"@ && i64::MIN <= x - y <= i64::MAX ==> r == Ok::<i64, ErrSpec>((x - y) as i64)
            &&& op@ == "*"@ && i64::MIN <= x * y <= i64::MAX ==> r == Ok::<i64, ErrSpec>((x * y) as i64)
            &&& (op@ == "/"@ || op@ == "%"@) && y == 0 ==> r is Err
            &&& op@ == "/"@ && y != 0 ==> r == Ok::<i64, ErrSpec>(div_wrap(x, y))
            &&& op@ == "%"@ && y != 0 ==> r == Ok::<i64, ErrSpec>(rem_wrap(x, y))
            &&& op@ == "-"@ && x != i64::MIN ==> const_eval((Expr::Un { line, op, a: Box::new(a) }), consts)
                == Ok::<i64, ErrSpec>((-x) as i64)
        }),
{
    reveal_strlit("+");
    reveal_strlit("-");
    reveal_strlit("*");
    let x = const_eval(a, consts)->Ok_0;
    let y = const_eval(b, consts)->Ok_0;
    let z: int = x * y;
    if i64::MIN <= z <= i64::MAX {
        if z >= 0 {
            assert(z % 18446744073709551616 == z);
        } else {
            assert(z % 18446744073709551616 == z + 18446744073709551616);
        }
        assert(x.wrapping_mul(y) == z);
    }
    assert(i64::MIN <= x - y <= i64::MAX ==> x.wrapping_sub(y) == x - y);
    assert(i64::MIN <= x + y <= i64::MAX ==> x.wrapping_add(y) == x + y);
    assert("+"@[0] != "-"@[0]);
    assert("+"@[0] != "*"@[0]);
    assert("-"@[0] != "*"@[0]);
    reveal_strlit("/");
    reveal_strlit("%");
    assert("+"@[0] != "/"@[0]);
    assert("-"@[0] != "/"@[0]);
    assert("*"@[0] != "/"@[0]);
    assert("+"@[0] != "%"@[0]);
    assert("-"@[0] != "%"@[0]);
    assert("*"@[0] != "%"@[0]);
    assert("/"@[0] != "%"@[0]);
}

/// Whether `e` mentions a name of `params` (also inside an index).
pub open spec fn refs_param(e: Expr, params: StrSet) -> bool
    decreases e,
{
    match e {
        Expr::Num { .. } => false,
        Expr::Time { .. } => false,
        Expr::Var { name, index, .. } => params.has(name@) || match index {
            Some(ix) => refs_param(*ix, params),
            None => false,
        },
        Expr::Un { a, .. } => refs_param(*a, params),
        Expr::Bin { a, b, .. } => refs_param(*a, params) || refs_param(*b, params),
    }
}

/// The literal key of a reference: `p`, `p[k]` or `p[h:l]`; `None` when an index is an
/// expression.
pub open spec fn key_of(name: Seq<char>, sel: Sel) -> Option<Seq<char>> {
    match sel {
        Sel::All => Some(name),
        Sel::Lane(IdxExpr::Lit(k)) => Some(name + "["@ + crate::strs::int_text(k as int, 10) + "]"@),
        Sel::Slice(IdxExpr::Lit(h), IdxExpr::Lit(l)) => Some(
            name + "["@ + crate::strs::int_text(h as int, 10) + ":"@ + crate::strs::int_text(l as int, 10) + "]"@,
        ),
        _ => None,
    }
}

/// The references of a binding target.
pub open spec fn target_refs(t: BindTarget) -> Seq<BindRef> {
    match t {
        BindTarget::Ref(b) => seq![b],
        BindTarget::Concat(v) => v@,
    }
}

/// The references of a list of binding targets, in order.
pub open spec fn flat_refs(ts: Seq<BindTarget>) -> Seq<BindRef>
    decreases ts.len(),
{
    if ts.len() == 0 {
        seq![]
    } else {
        flat_refs(ts.drop_last()) + target_refs(ts.last())
    }
}

/// The literal keys of a list of references, in order (references whose index is still
/// an expression have none).
pub open spec fn some_keys(rs: Seq<BindRef>) -> Seq<Seq<char>>
    decreases rs.len(),
{
    if rs.len() == 0 {
        seq![]
    } else {
        match key_of(rs.last().name@, rs.last().sel) {
            Some(k) => some_keys(rs.drop_last()).push(k),
            None => some_keys(rs.drop_last()),
        }
    }
}

/// No element occurs twice.
pub open spec fn nodup(s: Seq<Seq<char>>) -> bool {
    forall|a: int, b: int| 0 <= a < b < s.len() ==> s[a] != s[b]
}

/// Views of a list of strings.
pub open spec fn strs_view(v: Seq<String>) -> Seq<Seq<char>> {
    v.map_values(|x: String| x@)
}

/// Names of `#(...)` actual parameters are distinct.
pub open spec fn names_distinct(v: Seq<(String, Expr)>) -> bool {
    forall|a: int, b: int| 0 <= a < b < v.len() ==> (#[trigger] v[a]).0@ != (#[trigger] v[b]).0@
}

proof fn lemma_flat_push(ts: Seq<BindTarget>, t: BindTarget)
    ensures
        flat_refs(ts.push(t)) == flat_refs(ts) + target_refs(t),
{
    assert(ts.push(t).drop_last() =~= ts);
}

proof fn lemma_keys_push(keys: Seq<String>, rs: Seq<BindRef>, x: BindRef, k: String)
    requires
        strs_view(keys) == some_keys(rs),
        nodup(strs_view(keys)),
        key_of(x.name@, x.sel) == Some(k@),
        forall|m: int| 0 <= m < keys.len() ==> (#[trigger] keys[m])@ != k@,
    ensures
        strs_view(keys.push(k)) == some_keys(rs.push(x)),
        nodup(strs_view(keys.push(k))),
{
    assert(rs.push(x).drop_last() =~= rs);
    assert(strs_view(keys.push(k)) =~= strs_view(keys).push(k@));
    let s2 = strs_view(keys.push(k));
    assert forall|a: int, b: int| 0 <= a < b < s2.len() implies s2[a] != s2[b] by {
        if b == keys.len() {
            assert(s2[a] == keys[a]@);
        } else {
            assert(s2[a] == strs_view(keys)[a] && s2[b] == strs_view(keys)[b]);
        }
    }
}

proof fn lemma_keys_skip(rs: Seq<BindRef>, x: BindRef)
    requires
        key_of(x.name@, x.sel) is None,
    ensures
        some_keys(rs.push(x)) == some_keys(rs),
{
    assert(rs.push(x).drop_last() =~= rs);
}

/// Whether `k` occurs among `v`.
fn contains_str(v: &Vec<String>, k: &str) -> (r: bool)
    ensures
        r == exists|m: int| 0 <= m < v@.len() && (#[trigger] v@[m])@ == k@,
{
    let mut i: usize = 0;
    while i < v.len()
        invariant
            i <= v@.len(),
            forall|m: int| 0 <= m < i ==> (#[trigger] v@[m])@ != k@,
        decreases v@.len() - i,
    {
        if str_eq(v[i].as_str(), k) {
            return true;
        }
        i += 1;
    }
    false
}

/// Whether a `#(...)` parameter is named `k`.
fn param_named(v: &Vec<(String, Expr)>, k: &str) -> (r: bool)
    ensures
        r == exists|m: int| 0 <= m < v@.len() && (#[trigger] v@[m]).0@ == k@,
{
    let mut i: usize = 0;
    while i < v.len()
        invariant
            i <= v@.len(),
            forall|m: int| 0 <= m < i ==> (#[trigger] v@[m]).0@ != k@,
        decreases v@.len() - i,
    {
        if str_eq(v[i].0.as_str(), k) {
            return true;
        }
        i += 1;
    }
    false
}

/// What the parser guarantees of a logic statement: declared wire and reg names do not
/// read as element sequences, a bus reg is plain, an initializer without an element has a
/// strength, and an instance binds at least one target and names no generic parameter
/// twice.
pub open spec fn logic_stmt_ok(st: LogicStmt) -> bool {
    match st {
        LogicStmt::DeclWire { names, .. } => names@.len() >= 1 && forall|k: int| 0 <= k < names@.len() ==> !crate::interp::collides_chars(
            (#[trigger] names@[k])@,
        ),
        LogicStmt::DeclReg { name, qual, width, init, .. } => !crate::interp::collides_chars(name@) && (width is Some ==> qual
            == Qual::Plain) && (init matches Some(ri) ==> (ri.tok is None ==> ri.strength >= 0)),
        LogicStmt::Instance { outputs, params, .. } => outputs@.len() >= 1 && names_distinct(params@),
        _ => true,
    }
}

/// Names of declared generic parameters are distinct.
pub open spec fn decl_params_distinct(v: Seq<(String, Option<i64>)>) -> bool {
    forall|a: int, b: int| 0 <= a < b < v.len() ==> (#[trigger] v[a]).0@ != (#[trigger] v[b]).0@
}

/// What the parser guarantees of a logic definition: port names do not read as element
/// sequences, every statement is well formed, and no generic parameter is declared twice.
pub open spec fn logic_def_ok(d: LogicDef) -> bool {
    &&& forall|k: int| 0 <= k < d.ports@.len() ==> !crate::interp::collides_chars((#[trigger] d.ports@[k]).name@)
    &&& forall|k: int| 0 <= k < d.stmts@.len() ==> logic_stmt_ok(#[trigger] d.stmts@[k])
    &&& decl_params_distinct(d.params@)
}

/// What the parser guarantees of a testbench statement: a `?` registration is of
/// `monitor`, a binding binds at least one target and names no generic parameter twice,
/// and a variable declaration declares at least one variable.
pub open spec fn sim_stmt_ok(st: SimStmt) -> bool {
    match st {
        SimStmt::MonReg { call, .. } => call.callee@ == "monitor"@,
        SimStmt::CallBind { targets, params, .. } => targets@.len() >= 1 && names_distinct(params@),
        SimStmt::DeclVar { decls, .. } => decls@.len() >= 1,
        _ => true,
    }
}

/// Every logic of the table is stored under its own name and is well formed.
pub open spec fn logics_ok(logics: StrMap<LogicDef>) -> bool {
    forall|k: Seq<char>| #[trigger] logics.get_spec(k) matches Some(d) ==> d.name@ == k && logic_def_ok(d)
}

/// A binary operator token of testbench expressions.
pub open spec fn binop_tok(t: TokSpec) -> bool {
    t.k == Tk::Punct && (t.s == "||"@ || t.s == "&&"@ || t.s == "=="@ || t.s == "!="@ || t.s == "<"@ || t.s == "<="@
        || t.s == ">"@ || t.s == ">="@ || t.s == "+"@ || t.s == "-"@ || t.s == "*"@ || t.s == "/"@ || t.s == "%"@)
}

/// The one-character punctuation literals the parser compares tokens with.
pub proof fn lemma_punct_chars()
    ensures
        "{"@.len() == 1 && "{"@[0] == '{',
        "}"@.len() == 1 && "}"@[0] == '}',
        "("@.len() == 1 && "("@[0] == '(',
        ")"@.len() == 1 && ")"@[0] == ')',
        "["@.len() == 1 && "["@[0] == '[',
        "."@.len() == 1 && "."@[0] == '.',
        ","@.len() == 1 && ","@[0] == ',',
        "#"@.len() == 1 && "#"@[0] == '#',
        "="@.len() == 1 && "="@[0] == '=',
        "~"@.len() == 1 && "~"@[0] == '~',
        ";"@.len() == 1 && ";"@[0] == ';',
        "-"@.len() == 1 && "-"@[0] == '-',
{
    reveal_strlit("-");
    reveal_strlit("=");
    reveal_strlit("~");
    reveal_strlit(";");
    reveal_strlit("{");
    reveal_strlit("}");
    reveal_strlit("(");
    reveal_strlit(")");
    reveal_strlit("[");
    reveal_strlit(".");
    reveal_strlit(",");
    reveal_strlit("#");
}

/// `~` (the pulse mark) and `;` are no binary operators.
pub proof fn lemma_not_binop(t: TokSpec)
    requires
        t.s == "~"@ || t.s == ";"@,
    ensures
        !binop_tok(t),
{
    reveal_strlit("~");
    reveal_strlit(";");
    reveal_strlit("||");
    reveal_strlit("&&");
    reveal_strlit("==");
    reveal_strlit("!=");
    reveal_strlit("<");
    reveal_strlit("<=");
    reveal_strlit(">");
    reveal_strlit(">=");
    reveal_strlit("+");
    reveal_strlit("-");
    reveal_strlit("*");
    reveal_strlit("/");
    reveal_strlit("%");
    assert(t.s[0] == '~' || t.s[0] == ';');
}

/// What `parse_file` stopped at: the end of the tokens, or an `#include` whose source the
/// caller has to supply (`bundled` for a library compiled into the program, whose text
/// the caller holds; otherwise a file looked up among `candidates` in order).
pub enum ParseStep {
    Done,
    Include { name: String, line: i32, bundled: bool, candidates: Vec<String> },
}

/// The parser state: tokens ending in an `End` token, the position, the directory of the
/// source (for includes), the constants known so far (`param` / numeric `#define`), and
/// the generic parameters of the logic being parsed.
pub struct Parser {
    toks: Vec<Token>,
    i: usize,
    base_dir: String,
    consts: StrMap<i64>,
    logic_params: StrSet,
}

impl Parser {
    /// Tokens end in an `End` token and the position is on a token.
    pub closed spec fn wf(&self) -> bool {
        &&& self.toks@.len() >= 1
        &&& self.toks@.last().k == Tk::End
        &&& self.i < self.toks@.len()
    }

    /// The tokens.
    pub closed spec fn tokens(&self) -> Seq<TokSpec> {
        crate::lexer::toks_view(self.toks@)
    }

    /// The directory includes are looked up in.
    pub closed spec fn dir(&self) -> Seq<char> {
        self.base_dir@
    }

    /// The position.
    pub closed spec fn pos(&self) -> int {
        self.i as int
    }

    /// The generic parameters of the logic being parsed.
    pub closed spec fn generic_params(&self) -> StrSet {
        self.logic_params
    }

    /// The constants known to the parser.
    pub closed spec fn constants(&self) -> StrMap<i64> {
        self.consts
    }

    /// The current token.
    pub closed spec fn cur_tok(&self) -> TokSpec {
        self.toks@[self.i as int]@
    }

    /// The token `n` ahead (the last token when past the end).
    pub closed spec fn peek_tok(&self, n: int) -> TokSpec {
        let idx = if self.i + n < self.toks@.len() - 1 { self.i + n } else { self.toks@.len() - 1 };
        self.toks@[idx]@
    }

    /// The current token is a number with no binary operator after it.
    pub closed spec fn num_alone(&self) -> bool {
        &&& self.cur_tok().k == Tk::Num
        &&& !binop_tok(self.peek_tok(1))
    }

    /// The current token is a name with no `[` selection and no binary operator after it.
    pub closed spec fn name_alone(&self) -> bool {
        &&& self.cur_tok().k == Tk::Ident
        &&& !(self.peek_tok(1).k == Tk::Punct && self.peek_tok(1).s == "["@)
        &&& !binop_tok(self.peek_tok(1))
    }

    /// `e` reads the variable named by the current token, with no index.
    pub closed spec fn var_of(&self, e: Expr) -> bool {
        e matches Expr::Var { line, name, index } && line == self.cur_tok().line && name@ == self.cur_tok().s && index is None
    }

    /// The token `n` ahead is the punctuation `s`.
    pub closed spec fn punct_at(&self, n: int, s: Seq<char>) -> bool {
        self.peek_tok(n).k == Tk::Punct && self.peek_tok(n).s == s
    }

    /// The token `n` ahead is an identifier.
    pub closed spec fn ident_at(&self, n: int) -> bool {
        self.peek_tok(n).k == Tk::Ident
    }

    /// The token `n` ahead is a number with no binary operator after it.
    pub closed spec fn num_alone_at(&self, n: int) -> bool {
        self.peek_tok(n).k == Tk::Num && !binop_tok(self.peek_tok(n + 1))
    }

    /// The `m`-th name of a `reg` list (token `1 + 2m`) is an identifier that is no
    /// element sequence.
    pub closed spec fn reg_name_ok(&self, m: int) -> bool {
        self.ident_at(1 + 2 * m) && !crate::interp::collides_chars(self.peek_tok(1 + 2 * m).s)
    }

    /// Token `2 + 2m` of a `reg` list is a comma.
    pub closed spec fn reg_comma(&self, m: int) -> bool {
        self.punct_at(2 + 2 * m, ","@)
    }

    /// The tokens ahead read `reg n1, n2, ..., nk;` with `k` names and no widths or
    /// initializers.
    pub closed spec fn reg_plain_list(&self, k: int) -> bool {
        &&& k >= 1
        &&& self.ident_at(0) && self.cur_tok().s == "reg"@
        &&& forall|m: int| 0 <= m < k ==> #[trigger] self.reg_name_ok(m)
        &&& forall|m: int| 0 <= m < k - 1 ==> #[trigger] self.reg_comma(m)
        &&& self.punct_at(2 * k, ";"@)
    }

    /// From token `d` on, the tokens read `a1, ..., ak )`: `k >= 1` plain names as logic
    /// call arguments.
    pub closed spec fn name_args_at(&self, d: int, k: int) -> bool {
        &&& k >= 1
        &&& forall|m: int| 0 <= m < k ==> #[trigger] self.arg_name(d, m)
        &&& forall|m: int| 0 <= m < k - 1 ==> #[trigger] self.arg_comma(d, m)
        &&& self.punct_at(d + 2 * k - 1, ")"@)
    }

    /// Argument `m` read from token `d` on is a name.
    pub closed spec fn arg_name(&self, d: int, m: int) -> bool {
        self.ident_at(d + 2 * m)
    }

    /// A comma follows argument `m` read from token `d` on.
    pub closed spec fn arg_comma(&self, d: int, m: int) -> bool {
        self.punct_at(d + 2 * m + 1, ","@)
    }

    /// `args` are the `k` plain name arguments read from token `d` on.
    pub closed spec fn name_args_read(&self, d: int, k: int, args: Seq<InstArg>) -> bool {
        &&& args.len() == k
        &&& forall|m: int| 0 <= m < k ==> (#[trigger] args[m] matches InstArg::Name { name, sel } && name@ == self.peek_tok(d + 2 * m).s
            && sel is All)
    }

    /// A parser `d` tokens further on over the same tokens sees what this one sees `d` ahead.
    proof fn lemma_peek_shift(q: Parser, e: int, p: Parser, d: int)
        requires
            q.toks@ == p.toks@,
            q.i + e == p.i + d,
            0 <= d,
            0 <= e,
        ensures
            forall|x: int| 0 <= x ==> #[trigger] q.peek_tok(e + x) == p.peek_tok(d + x),
    {
        assert forall|x: int| 0 <= x implies #[trigger] q.peek_tok(e + x) == p.peek_tok(d + x) by {}
    }

    /// Name arguments read `d` tokens ahead read the same from a parser moved there.
    proof fn lemma_args_shift(q: Parser, e: int, p: Parser, d: int, k: int, args: Seq<InstArg>)
        requires
            q.toks@ == p.toks@,
            q.i + e == p.i + d,
            0 <= d,
            0 <= e,
            p.name_args_at(d, k),
        ensures
            q.name_args_at(e, k),
            q.name_args_read(e, k, args) ==> p.name_args_read(d, k, args),
    {
        Parser::lemma_peek_shift(q, e, p, d);
        assert forall|m: int| 0 <= m < k implies #[trigger] q.arg_name(e, m) by {
            assert(p.arg_name(d, m));
            assert(q.peek_tok(e + 2 * m) == p.peek_tok(d + 2 * m));
        }
        assert forall|m: int| 0 <= m < k - 1 implies #[trigger] q.arg_comma(e, m) by {
            assert(p.arg_comma(d, m));
            assert(q.peek_tok(e + (2 * m + 1)) == p.peek_tok(d + (2 * m + 1)));
        }
        assert(q.peek_tok(e + (2 * k - 1)) == p.peek_tok(d + (2 * k - 1)));
        if q.name_args_read(e, k, args) {
            assert forall|m: int| 0 <= m < k implies (#[trigger] args[m] matches InstArg::Name { name, sel } && name@
                == p.peek_tok(d + 2 * m).s && sel is All) by {
                assert(q.peek_tok(e + 2 * m) == p.peek_tok(d + 2 * m));
            }
        }
    }

    proof fn lemma_name_args_unique(&self, d: int, k1: int, k2: int)
        requires
            self.name_args_at(d, k1),
            self.name_args_at(d, k2),
        ensures
            k1 == k2,
    {
        lemma_punct_chars();
        if k1 < k2 {
            assert(self.arg_comma(d, k1 - 1));
        } else if k2 < k1 {
            assert(self.arg_comma(d, k2 - 1));
        }
    }

    /// The tokens ahead read `( y ) = g ( a1, ..., ak ) ;` with `k >= 1` plain name
    /// arguments.
    pub closed spec fn named_instance(&self, k: int) -> bool {
        &&& self.punct_at(0, "("@) && self.ident_at(1) && self.punct_at(2, ")"@) && self.punct_at(3, "="@)
        &&& self.ident_at(4) && self.punct_at(5, "("@)
        &&& self.name_args_at(6, k)
        &&& self.punct_at(6 + 2 * k, ";"@)
    }

    /// Statement `m` of a `sim` block read from token `d` on is `x = N ;` (with `x` none
    /// of the statement keywords).
    pub closed spec fn assign_item(&self, d: int, m: int) -> bool {
        &&& self.ident_at(d + 4 * m)
        &&& self.peek_tok(d + 4 * m).s != "var"@ && self.peek_tok(d + 4 * m).s != "sim"@ && self.peek_tok(d + 4 * m).s != "if"@
        &&& self.peek_tok(d + 4 * m).s != "while"@ && self.peek_tok(d + 4 * m).s != "for"@
        &&& self.punct_at(d + 4 * m + 1, "="@)
        &&& self.peek_tok(d + 4 * m + 2).k == Tk::Num
        &&& self.punct_at(d + 4 * m + 3, ";"@)
    }

    /// `st` is the assignment that statement `m` read from token `d` on declares.
    pub closed spec fn assign_read(&self, d: int, m: int, st: SimStmt) -> bool {
        &&& st matches SimStmt::Assign { line, target, index, value, pulse }
        &&& line == self.peek_tok(d + 4 * m).line
        &&& target@ == self.peek_tok(d + 4 * m).s
        &&& index is None
        &&& value == Expr::Num { line: self.peek_tok(d + 4 * m + 2).line as i32, num: self.peek_tok(d + 4 * m + 2).num }
        &&& pulse is None
    }

    /// The tokens ahead read `name { sim { x1 = N1; ... xk = Nk; } }`.
    pub closed spec fn assign_module(&self, k: int) -> bool {
        &&& k >= 0
        &&& self.ident_at(0) && self.punct_at(1, "{"@)
        &&& self.ident_at(2) && self.peek_tok(2).s == "sim"@ && self.punct_at(3, "{"@)
        &&& forall|m: int| 0 <= m < k ==> #[trigger] self.assign_item(4, m)
        &&& self.punct_at(4 + 4 * k, "}"@) && self.punct_at(5 + 4 * k, "}"@)
    }

    proof fn lemma_assign_module_unique(&self, k1: int, k2: int)
        requires
            self.assign_module(k1),
            self.assign_module(k2),
        ensures
            k1 == k2,
    {
        if k1 < k2 {
            assert(self.assign_item(4, k1));
        } else if k2 < k1 {
            assert(self.assign_item(4, k2));
        }
    }

    /// The tokens ahead read `reg n` with a name `n` that reads as an element sequence.
    pub closed spec fn reg_collides(&self) -> bool {
        &&& self.ident_at(0) && self.cur_tok().s == "reg"@
        &&& self.ident_at(1) && crate::interp::collides_chars(self.peek_tok(1).s)
    }

    /// The tokens ahead read `wire n ;` with a name `n` that reads as an element sequence.
    pub closed spec fn wire_collides(&self) -> bool {
        &&& self.ident_at(0) && self.cur_tok().s == "wire"@
        &&& self.ident_at(1) && crate::interp::collides_chars(self.peek_tok(1).s)
        &&& self.punct_at(2, ";"@)
    }

    /// The error a logic statement ahead is refused with, for the refusals stated here: a
    /// chain of plain names not ended by `;`, a concatenation mid-chain, and a reg or wire
    /// name that reads as an element sequence.
    pub closed spec fn stmt_refusal(&self) -> Option<ErrSpec> {
        if exists|n: int| self.bare_chain(n) && !self.punct_at(2 * n - 1, ";"@) {
            let n = choose|n: int| self.bare_chain(n) && !self.punct_at(2 * n - 1, ";"@);
            Some(
                ErrSpec {
                    line: self.peek_tok(2 * n - 1).line,
                    col: self.peek_tok(2 * n - 1).col,
                    len: caret_len(self.peek_tok(2 * n - 1)),
                    msg: "expected ';'"@,
                },
            )
        } else if self.concat_mid_chain() {
            Some(
                line_err(
                    self.cur_tok().line as i32,
                    "a lane/slice index, '.side', or concatenation '{...}' cannot appear on a mid-chain chunk (only the two endpoints can)"@,
                ),
            )
        } else if self.reg_collides() {
            Some(line_err(self.cur_tok().line as i32, collision_msg("reg"@, self.peek_tok(1).s)))
        } else if self.wire_collides() {
            Some(line_err(self.cur_tok().line as i32, collision_msg("wire"@, self.peek_tok(1).s)))
        } else {
            None
        }
    }

    /// The refusal of the statement ahead is the same for two parsers over the same tokens
    /// at the same place.
    proof fn lemma_same_refusal(q: Parser, p: Parser)
        requires
            q.toks@ == p.toks@,
            q.i == p.i,
        ensures
            q.stmt_refusal() == p.stmt_refusal(),
    {
        Parser::lemma_same_view(q, p);
        assert(q.peek_tok(1) == p.peek_tok(1) && q.peek_tok(2) == p.peek_tok(2) && q.peek_tok(3) == p.peek_tok(3));
        assert(q.peek_tok(4) == p.peek_tok(4) && q.peek_tok(5) == p.peek_tok(5) && q.peek_tok(6) == p.peek_tok(6));
        assert(q.peek_tok(7) == p.peek_tok(7) && q.peek_tok(0) == p.peek_tok(0));
        assert(q.concat_mid_chain() == p.concat_mid_chain());
        assert(q.reg_collides() == p.reg_collides());
        assert(q.wire_collides() == p.wire_collides());
        let qe = exists|n: int| q.bare_chain(n) && !q.punct_at(2 * n - 1, ";"@);
        let pe = exists|n: int| p.bare_chain(n) && !p.punct_at(2 * n - 1, ";"@);
        if qe {
            let nq = choose|n: int| q.bare_chain(n) && !q.punct_at(2 * n - 1, ";"@);
            assert(q.peek_tok(2 * nq - 1) == p.peek_tok(2 * nq - 1));
            assert(p.bare_chain(nq) && !p.punct_at(2 * nq - 1, ";"@));
            assert(pe);
            let np = choose|n: int| p.bare_chain(n) && !p.punct_at(2 * n - 1, ";"@);
            p.lemma_bare_chain_unique(nq, np);
        } else if pe {
            let np = choose|n: int| p.bare_chain(n) && !p.punct_at(2 * n - 1, ";"@);
            assert(q.peek_tok(2 * np - 1) == p.peek_tok(2 * np - 1));
            assert(q.bare_chain(np) && !q.punct_at(2 * np - 1, ";"@));
        }
    }

    /// A statement refused by one of the stated refusals gives exactly that error.
    proof fn lemma_refused(p: Parser, r: RvResult<()>)
        requires
            p.stmt_refusal() is Some,
            forall|n: int| #[trigger] p.bare_chain(n) && !p.punct_at(2 * n - 1, ";"@) ==> (r matches Err(e) && e.line == p.peek_tok(
                2 * n - 1,
            ).line && e.col == p.peek_tok(2 * n - 1).col && e.len == caret_len(p.peek_tok(2 * n - 1)) && e.msg@ == "expected ';'"@),
            p.concat_mid_chain() ==> (r matches Err(e) && e.line == p.cur_tok().line && e.col == 0 && e.len == 0 && e.msg@
                == "a lane/slice index, '.side', or concatenation '{...}' cannot appear on a mid-chain chunk (only the two endpoints can)"@),
            p.reg_collides() ==> (r matches Err(x) && x@ == line_err(p.cur_tok().line as i32, collision_msg("reg"@, p.peek_tok(1).s))),
            p.wire_collides() ==> (r matches Err(x) && x@ == line_err(p.cur_tok().line as i32, collision_msg("wire"@, p.peek_tok(1).s))),
            p.wf(),
        ensures
            r matches Err(x) && x@ == p.stmt_refusal()->Some_0,
    {
        if exists|n: int| p.bare_chain(n) && !p.punct_at(2 * n - 1, ";"@) {
            let n = choose|n: int| p.bare_chain(n) && !p.punct_at(2 * n - 1, ";"@);
            assert(p.bare_chain(n));
        }
    }

    /// The statement ahead starts a reg declaration: `reg`, or `const reg` / `mutable reg`.
    pub closed spec fn reg_head(&self) -> bool {
        &&& self.ident_at(0)
        &&& self.cur_tok().s == "reg"@ || ((self.cur_tok().s == "const"@ || self.cur_tok().s == "mutable"@) && self.ident_at(1)
            && self.peek_tok(1).s == "reg"@)
    }

    /// The tokens ahead read `wire n1, n2, ..., nk;` with `k` names, none an element
    /// sequence.
    pub closed spec fn wire_list(&self, k: int) -> bool {
        &&& k >= 1
        &&& self.ident_at(0) && self.cur_tok().s == "wire"@
        &&& forall|m: int| 0 <= m < k ==> #[trigger] self.reg_name_ok(m)
        &&& forall|m: int| 0 <= m < k - 1 ==> #[trigger] self.reg_comma(m)
        &&& self.punct_at(2 * k, ";"@)
    }

    proof fn lemma_wire_list_unique(&self, k1: int, k2: int)
        requires
            self.wire_list(k1),
            self.wire_list(k2),
        ensures
            k1 == k2,
    {
        lemma_punct_chars();
        if k1 < k2 {
            assert(self.reg_comma(k1 - 1));
            assert(2 + 2 * (k1 - 1) == 2 * k1);
        } else if k2 < k1 {
            assert(self.reg_comma(k2 - 1));
            assert(2 + 2 * (k2 - 1) == 2 * k2);
        }
    }

    /// The tokens ahead read `word reg name = N;` with a number `N` that fits an `i32`.
    pub closed spec fn qual_reg_strength(&self, word: Seq<char>) -> bool {
        &&& self.ident_at(0) && self.cur_tok().s == word
        &&& self.ident_at(1) && self.peek_tok(1).s == "reg"@
        &&& self.ident_at(2) && !crate::interp::collides_chars(self.peek_tok(2).s)
        &&& self.punct_at(3, "="@)
        &&& self.peek_tok(4).k == Tk::Num && 0 <= self.peek_tok(4).num <= i32::MAX
        &&& self.punct_at(5, ";"@)
    }

    /// Token `2m` of a chain is a name.
    pub closed spec fn chain_name(&self, m: int) -> bool {
        self.ident_at(2 * m)
    }

    /// Token `2m + 1` of a chain is a dash.
    pub closed spec fn chain_dash(&self, m: int) -> bool {
        self.punct_at(2 * m + 1, "-"@)
    }

    /// The tokens ahead read `a1 - a2 - ... - an` with `n >= 2` plain names (the first no
    /// `wire`, `reg` or `const`), and token `2n - 1` neither continues the chain nor
    /// selects from the last name.
    pub closed spec fn bare_chain(&self, n: int) -> bool {
        &&& n >= 2
        &&& self.cur_tok().s != "wire"@ && self.cur_tok().s != "reg"@ && self.cur_tok().s != "const"@
        &&& forall|m: int| 0 <= m < n ==> #[trigger] self.chain_name(m)
        &&& forall|m: int| 0 <= m < n - 1 ==> #[trigger] self.chain_dash(m)
        &&& !self.punct_at(2 * n - 1, "-"@) && !self.punct_at(2 * n - 1, "["@) && !self.punct_at(2 * n - 1, "."@)
    }

    /// `st` is the chain that the bare chain of `n` names ahead reads: from the first name
    /// to the last, through the names between.
    pub closed spec fn bare_chain_stmt(&self, n: int, st: LogicStmt) -> bool {
        &&& st matches LogicStmt::Chain { line, from, to, chunks }
        &&& line == self.cur_tok().line
        &&& bare_ref(from, self.cur_tok().s)
        &&& bare_ref(to, self.peek_tok(2 * n - 2).s)
        &&& chunks@.len() == n - 2
        &&& forall|m: int| 0 <= m < n - 2 ==> (#[trigger] chunks@[m])@ == self.peek_tok(2 * m + 2).s
    }

    /// The tokens ahead read `a - { p } - b ;` with plain names (`a` no `wire`, `reg` or
    /// `const`): a concatenation as the middle chunk of a chain.
    pub closed spec fn concat_mid_chain(&self) -> bool {
        &&& self.ident_at(0)
        &&& self.cur_tok().s != "wire"@ && self.cur_tok().s != "reg"@ && self.cur_tok().s != "const"@
        &&& self.punct_at(1, "-"@)
        &&& self.punct_at(2, "{"@) && self.ident_at(3) && self.punct_at(4, "}"@)
        &&& self.punct_at(5, "-"@)
        &&& self.ident_at(6)
        &&& self.punct_at(7, ";"@)
    }

    /// This parser moved `d` tokens ahead.
    pub closed spec fn at(&self, d: int) -> Parser {
        Parser {
            toks: self.toks,
            i: (self.i + d) as usize,
            base_dir: self.base_dir,
            consts: self.consts,
            logic_params: self.logic_params,
        }
    }

    /// Port `m` of a port list: `input` or `output` (token `1 + 3m`), then a name that is
    /// no element sequence (token `2 + 3m`).
    pub closed spec fn port_item(&self, m: int) -> bool {
        &&& self.ident_at(1 + 3 * m)
        &&& self.peek_tok(1 + 3 * m).s == "input"@ || self.peek_tok(1 + 3 * m).s == "output"@
        &&& self.ident_at(2 + 3 * m) && !crate::interp::collides_chars(self.peek_tok(2 + 3 * m).s)
    }

    /// Token `3 + 3m` of a port list is a comma.
    pub closed spec fn port_comma(&self, m: int) -> bool {
        self.punct_at(3 + 3 * m, ","@)
    }

    /// The tokens ahead read `( p1, ..., pk ) {` with `k >= 1` one-lane ports.
    pub closed spec fn simple_ports(&self, k: int) -> bool {
        &&& k >= 1
        &&& self.punct_at(0, "("@)
        &&& forall|m: int| 0 <= m < k ==> #[trigger] self.port_item(m)
        &&& forall|m: int| 0 <= m < k - 1 ==> #[trigger] self.port_comma(m)
        &&& self.punct_at(3 * k, ")"@)
        &&& self.punct_at(3 * k + 1, "{"@)
    }

    /// The port list ahead reads `( p1, ..., pm,` of one-lane ports and then `input` or
    /// `output` with a name that reads as an element sequence.
    pub closed spec fn port_refused(&self, m: int) -> bool {
        &&& m >= 0
        &&& self.punct_at(0, "("@)
        &&& forall|j: int| 0 <= j < m ==> #[trigger] self.port_item(j)
        &&& forall|j: int| 0 <= j < m ==> #[trigger] self.port_comma(j)
        &&& self.ident_at(1 + 3 * m)
        &&& self.peek_tok(1 + 3 * m).s == "input"@ || self.peek_tok(1 + 3 * m).s == "output"@
        &&& self.ident_at(2 + 3 * m) && crate::interp::collides_chars(self.peek_tok(2 + 3 * m).s)
    }

    /// The refusal of port `m` of such a list.
    pub closed spec fn port_refusal(&self, m: int) -> ErrSpec {
        line_err(self.peek_tok(1 + 3 * m).line as i32, collision_msg("port"@, self.peek_tok(2 + 3 * m).s))
    }

    proof fn lemma_port_refused_unique(&self, m1: int, m2: int)
        requires
            self.port_refused(m1),
            self.port_refused(m2),
        ensures
            m1 == m2,
    {
        if m1 < m2 {
            assert(self.port_item(m1));
        } else if m2 < m1 {
            assert(self.port_item(m2));
        }
    }

    /// A refused port list reads the same, with the same refusal, to a parser over the same
    /// tokens at the same place.
    proof fn lemma_same_port_view(q: Parser, p: Parser, m: int)
        requires
            q.toks@ == p.toks@,
            q.i == p.i,
            q.port_refused(m),
        ensures
            p.port_refused(m),
            p.port_refusal(m) == q.port_refusal(m),
    {
        Parser::lemma_same_view(q, p);
        assert forall|j: int| 0 <= j < m implies #[trigger] p.port_item(j) by {
            assert(q.port_item(j));
            assert(q.peek_tok(1 + 3 * j) == p.peek_tok(1 + 3 * j));
            assert(q.peek_tok(2 + 3 * j) == p.peek_tok(2 + 3 * j));
        }
        assert forall|j: int| 0 <= j < m implies #[trigger] p.port_comma(j) by {
            assert(q.port_comma(j));
            assert(q.peek_tok(3 + 3 * j) == p.peek_tok(3 + 3 * j));
        }
        assert(q.peek_tok(0) == p.peek_tok(0));
        assert(q.peek_tok(1 + 3 * m) == p.peek_tok(1 + 3 * m));
        assert(q.peek_tok(2 + 3 * m) == p.peek_tok(2 + 3 * m));
    }

    /// The tokens ahead read `( p1, ..., pk ) {` and then a statement refused with one of the
    /// stated refusals.
    pub closed spec fn body_refused(&self, k: int) -> bool {
        &&& self.simple_ports(k)
        &&& self.at(3 * k + 2).stmt_refusal() is Some
    }

    /// A refused statement starts with a name.
    proof fn lemma_refusal_ident(p: Parser)
        requires
            p.stmt_refusal() is Some,
        ensures
            p.ident_at(0),
    {
        if exists|n: int| p.bare_chain(n) && !p.punct_at(2 * n - 1, ";"@) {
            let n = choose|n: int| p.bare_chain(n) && !p.punct_at(2 * n - 1, ";"@);
            assert(p.chain_name(0));
        }
    }

    /// `ports` are the `k` one-lane ports that the list ahead declares, in order.
    pub closed spec fn ports_read(&self, k: int, ports: Seq<Port>) -> bool {
        &&& ports.len() == k
        &&& forall|m: int| 0 <= m < k ==> (#[trigger] ports[m]).name@ == self.peek_tok(2 + 3 * m).s && ports[m].input == (
        self.peek_tok(1 + 3 * m).s == "input"@) && ports[m].width is None
    }

    /// The tokens ahead read `( p1, ..., pk ) {`, a bare chain of `n` names ended by `;`,
    /// and `}`.
    pub closed spec fn body_chain_done(&self, k: int, n: int) -> bool {
        &&& self.simple_ports(k)
        &&& self.at(3 * k + 2).bare_chain(n)
        &&& self.at(3 * k + 2).punct_at(2 * n - 1, ";"@)
        &&& self.punct_at(3 * k + 2 * n + 2, "}"@)
    }

    /// The tokens ahead are `logic name ( p1, ..., pk ) { a1 - ... - an ; }` and the end.
    pub closed spec fn one_chain_logic_file(&self, k: int, n: int) -> bool {
        &&& self.ident_at(0) && self.cur_tok().s == "logic"@
        &&& self.ident_at(1)
        &&& self.at(2).body_chain_done(k, n)
        &&& self.peek_tok(3 * k + 2 * n + 5).k == Tk::End
    }

    proof fn lemma_simple_ports_unique(&self, k1: int, k2: int)
        requires
            self.simple_ports(k1),
            self.simple_ports(k2),
        ensures
            k1 == k2,
    {
        lemma_punct_chars();
        if k1 < k2 {
            assert(self.port_comma(k1 - 1));
            assert(3 + 3 * (k1 - 1) == 3 * k1);
        } else if k2 < k1 {
            assert(self.port_comma(k2 - 1));
            assert(3 + 3 * (k2 - 1) == 3 * k2);
        }
    }

    /// Two parsers over the same tokens at the same place read the same tokens ahead.
    proof fn lemma_same_view(q: Parser, p: Parser)
        requires
            q.toks@ == p.toks@,
            q.i == p.i,
        ensures
            forall|x: int| #[trigger] q.peek_tok(x) == p.peek_tok(x),
            q.cur_tok() == p.cur_tok(),
            forall|n: int| #[trigger] q.bare_chain(n) == p.bare_chain(n),
    {
        assert forall|x: int| #[trigger] q.peek_tok(x) == p.peek_tok(x) by {}
        assert(q.cur_tok() == p.cur_tok());
        assert forall|n: int| #[trigger] q.bare_chain(n) == p.bare_chain(n) by {
            assert(q.peek_tok(2 * n - 1) == p.peek_tok(2 * n - 1));
            if q.bare_chain(n) {
                assert forall|m: int| 0 <= m < n implies #[trigger] p.chain_name(m) by {
                    assert(q.chain_name(m));
                    assert(q.peek_tok(2 * m) == p.peek_tok(2 * m));
                }
                assert forall|m: int| 0 <= m < n - 1 implies #[trigger] p.chain_dash(m) by {
                    assert(q.chain_dash(m));
                    assert(q.peek_tok(2 * m + 1) == p.peek_tok(2 * m + 1));
                }
            }
            if p.bare_chain(n) {
                assert forall|m: int| 0 <= m < n implies #[trigger] q.chain_name(m) by {
                    assert(p.chain_name(m));
                    assert(q.peek_tok(2 * m) == p.peek_tok(2 * m));
                }
                assert forall|m: int| 0 <= m < n - 1 implies #[trigger] q.chain_dash(m) by {
                    assert(p.chain_dash(m));
                    assert(q.peek_tok(2 * m + 1) == p.peek_tok(2 * m + 1));
                }
            }
        }
    }

    /// A body that starts with a refused statement reads the same, with the same refusal,
    /// to a parser over the same tokens at the same place.
    proof fn lemma_same_body_view(q: Parser, p: Parser, k: int)
        requires
            q.toks@ == p.toks@,
            q.i == p.i,
            q.body_refused(k),
        ensures
            p.body_refused(k),
            p.at(3 * k + 2).stmt_refusal() == q.at(3 * k + 2).stmt_refusal(),
    {
        Parser::lemma_same_view(q, p);
        assert forall|m: int| 0 <= m < k implies #[trigger] p.port_item(m) by {
            assert(q.port_item(m));
            assert(q.peek_tok(1 + 3 * m) == p.peek_tok(1 + 3 * m));
            assert(q.peek_tok(2 + 3 * m) == p.peek_tok(2 + 3 * m));
        }
        assert forall|m: int| 0 <= m < k - 1 implies #[trigger] p.port_comma(m) by {
            assert(q.port_comma(m));
            assert(q.peek_tok(3 + 3 * m) == p.peek_tok(3 + 3 * m));
        }
        assert(q.peek_tok(0) == p.peek_tok(0));
        assert(q.peek_tok(3 * k) == p.peek_tok(3 * k));
        assert(q.peek_tok(3 * k + 1) == p.peek_tok(3 * k + 1));
        Parser::lemma_same_refusal(q.at(3 * k + 2), p.at(3 * k + 2));
    }

    /// A well-formed one-chain body, its ports and its chain read the same to a parser over
    /// the same tokens at the same place.
    proof fn lemma_same_done_view(q: Parser, p: Parser, k: int, n: int, ps: Seq<Port>, st: LogicStmt)
        requires
            q.toks@ == p.toks@,
            q.i == p.i,
            q.body_chain_done(k, n),
        ensures
            p.body_chain_done(k, n),
            q.ports_read(k, ps) == p.ports_read(k, ps),
            q.at(3 * k + 2).bare_chain_stmt(n, st) == p.at(3 * k + 2).bare_chain_stmt(n, st),
    {
        Parser::lemma_same_view(q, p);
        assert forall|m: int| 0 <= m < k implies #[trigger] p.port_item(m) by {
            assert(q.port_item(m));
            assert(q.peek_tok(1 + 3 * m) == p.peek_tok(1 + 3 * m));
            assert(q.peek_tok(2 + 3 * m) == p.peek_tok(2 + 3 * m));
        }
        assert forall|m: int| 0 <= m < k - 1 implies #[trigger] p.port_comma(m) by {
            assert(q.port_comma(m));
            assert(q.peek_tok(3 + 3 * m) == p.peek_tok(3 + 3 * m));
        }
        assert(q.peek_tok(0) == p.peek_tok(0));
        assert(q.peek_tok(3 * k) == p.peek_tok(3 * k));
        assert(q.peek_tok(3 * k + 1) == p.peek_tok(3 * k + 1));
        assert(q.peek_tok(3 * k + 2 * n + 2) == p.peek_tok(3 * k + 2 * n + 2));
        Parser::lemma_same_view(q.at(3 * k + 2), p.at(3 * k + 2));
        assert(q.at(3 * k + 2).peek_tok(2 * n - 1) == p.at(3 * k + 2).peek_tok(2 * n - 1));
        assert(q.ports_read(k, ps) == p.ports_read(k, ps)) by {
            assert forall|m: int| 0 <= m < k implies #[trigger] q.peek_tok(2 + 3 * m) == p.peek_tok(2 + 3 * m) && q.peek_tok(1 + 3 * m)
                == p.peek_tok(1 + 3 * m) by {}
        }
        assert(q.at(3 * k + 2).bare_chain_stmt(n, st) == p.at(3 * k + 2).bare_chain_stmt(n, st)) by {
            assert(q.at(3 * k + 2).peek_tok(2 * n - 2) == p.at(3 * k + 2).peek_tok(2 * n - 2));
            assert forall|m: int| 0 <= m < n - 2 implies #[trigger] q.at(3 * k + 2).peek_tok(2 * m + 2) == p.at(3 * k + 2).peek_tok(2 * m + 2) by {}
        }
    }

    /// Looking `x` ahead of this parser moved `d` ahead is looking `d + x` ahead.
    proof fn lemma_at_peek(&self, d: int, x: int)
        requires
            0 <= d,
            self.i + d < self.toks@.len(),
            self.i + d <= usize::MAX,
            0 <= x,
        ensures
            self.at(d).peek_tok(x) == self.peek_tok(d + x),
            self.at(d).cur_tok() == self.peek_tok(d),
    {
    }

    /// The tokens ahead read `{ n }` with one name.
    pub closed spec fn single_concat(&self) -> bool {
        self.punct_at(0, "{"@) && self.ident_at(1) && self.punct_at(2, "}"@)
    }

    proof fn lemma_bare_chain_unique(&self, n1: int, n2: int)
        requires
            self.bare_chain(n1),
            self.bare_chain(n2),
        ensures
            n1 == n2,
    {
        if n1 < n2 {
            assert(self.chain_dash(n1 - 1));
            assert(2 * (n1 - 1) + 1 == 2 * n1 - 1);
        } else if n2 < n1 {
            assert(self.chain_dash(n2 - 1));
            assert(2 * (n2 - 1) + 1 == 2 * n2 - 1);
        }
    }

    proof fn lemma_reg_list_unique(&self, k1: int, k2: int)
        requires
            self.reg_plain_list(k1),
            self.reg_plain_list(k2),
        ensures
            k1 == k2,
    {
        lemma_punct_chars();
        if k1 < k2 {
            assert(self.reg_comma(k1 - 1));
            assert(2 + 2 * (k1 - 1) == 2 * k1);
        } else if k2 < k1 {
            assert(self.reg_comma(k2 - 1));
            assert(2 + 2 * (k2 - 1) == 2 * k2);
        }
    }

    /// The tokens ahead are exactly `module name { }` and the end.
    pub closed spec fn empty_module_file(&self) -> bool {
        &&& self.ident_at(0) && self.cur_tok().s == "module"@
        &&& self.ident_at(1)
        &&& self.punct_at(2, "{"@)
        &&& self.punct_at(3, "}"@)
        &&& self.peek_tok(4).k == Tk::End
    }

    /// The tokens ahead are exactly `module name { sim { x1 = N1; ... xk = Nk; } }` and the
    /// end.
    pub closed spec fn assign_module_file(&self, k: int) -> bool {
        &&& self.ident_at(0) && self.cur_tok().s == "module"@
        &&& self.at(1).assign_module(k)
        &&& self.peek_tok(4 * k + 7).k == Tk::End
    }

    /// A module of assignments and its statements read the same to a parser over the same
    /// tokens at the same place.
    proof fn lemma_same_assign_view(q: Parser, p: Parser, k: int)
        requires
            q.toks@ == p.toks@,
            q.i == p.i,
            q.assign_module(k),
        ensures
            p.assign_module(k),
            forall|m: int, st: SimStmt| #[trigger] q.assign_read(4, m, st) == p.assign_read(4, m, st),
    {
        Parser::lemma_same_view(q, p);
        assert forall|m: int| 0 <= m < k implies #[trigger] p.assign_item(4, m) by {
            assert(q.assign_item(4, m));
            assert(q.peek_tok(4 + 4 * m) == p.peek_tok(4 + 4 * m));
            assert(q.peek_tok(4 + 4 * m + 1) == p.peek_tok(4 + 4 * m + 1));
            assert(q.peek_tok(4 + 4 * m + 2) == p.peek_tok(4 + 4 * m + 2));
            assert(q.peek_tok(4 + 4 * m + 3) == p.peek_tok(4 + 4 * m + 3));
        }
        assert(q.peek_tok(1) == p.peek_tok(1) && q.peek_tok(2) == p.peek_tok(2) && q.peek_tok(3) == p.peek_tok(3));
        assert(q.peek_tok(4 + 4 * k) == p.peek_tok(4 + 4 * k) && q.peek_tok(5 + 4 * k) == p.peek_tok(5 + 4 * k));
        assert forall|m: int, st: SimStmt| #[trigger] q.assign_read(4, m, st) == p.assign_read(4, m, st) by {
            assert(q.peek_tok(4 + 4 * m) == p.peek_tok(4 + 4 * m));
            assert(q.peek_tok(4 + 4 * m + 2) == p.peek_tok(4 + 4 * m + 2));
        }
    }

    /// The tokens ahead are exactly `param name = N;` and the end.
    pub closed spec fn param_file(&self) -> bool {
        &&& self.ident_at(0) && self.cur_tok().s == "param"@
        &&& self.ident_at(1)
        &&& self.punct_at(2, "="@)
        &&& self.num_alone_at(3)
        &&& self.punct_at(4, ";"@)
        &&& self.peek_tok(5).k == Tk::End
    }

    /// The tokens ahead read `( name ) = callee ( ) ;`.
    pub closed spec fn bare_instance(&self) -> bool {
        &&& self.punct_at(0, "("@)
        &&& self.ident_at(1)
        &&& self.punct_at(2, ")"@)
        &&& self.punct_at(3, "="@)
        &&& self.ident_at(4)
        &&& self.punct_at(5, "("@)
        &&& self.punct_at(6, ")"@)
        &&& self.punct_at(7, ";"@)
    }

    /// The tokens ahead read `name = other ;` with two names (the first none of the
    /// statement keywords).
    pub closed spec fn name_assign(&self) -> bool {
        &&& self.ident_at(0)
        &&& self.cur_tok().s != "var"@ && self.cur_tok().s != "sim"@ && self.cur_tok().s != "if"@
        &&& self.cur_tok().s != "while"@ && self.cur_tok().s != "for"@
        &&& self.punct_at(1, "="@)
        &&& self.ident_at(2)
        &&& self.punct_at(3, ";"@)
    }

    /// The tokens ahead read `name = N` with a number `N` followed by `rest` (a name that is
    /// none of the statement keywords).
    pub closed spec fn plain_assign_then(&self, rest: Seq<char>) -> bool {
        &&& self.ident_at(0)
        &&& self.cur_tok().s != "var"@ && self.cur_tok().s != "sim"@ && self.cur_tok().s != "if"@
        &&& self.cur_tok().s != "while"@ && self.cur_tok().s != "for"@
        &&& self.punct_at(1, "="@)
        &&& self.peek_tok(2).k == Tk::Num
        &&& self.punct_at(3, rest)
    }

    /// The current token is an identifier with no `[` selection or `.` terminal after it.
    pub closed spec fn bare_ident(&self) -> bool {
        &&& self.cur_tok().k == Tk::Ident
        &&& !(self.peek_tok(1).k == Tk::Punct && (self.peek_tok(1).s == "["@ || self.peek_tok(1).s == "."@))
    }

    /// The number expression of the current token.
    pub closed spec fn cur_num(&self) -> Expr {
        Expr::Num { line: self.cur_tok().line as i32, num: self.cur_tok().num }
    }

    /// Only the position moved.
    pub closed spec fn same_ctx(&self, o: &Parser) -> bool {
        &&& self.toks@ == o.toks@
        &&& self.base_dir@ == o.base_dir@
        &&& self.consts == o.consts
        &&& self.logic_params == o.logic_params
    }

    /// A parser at the first of `toks` (which end with an `End` token); includes are
    /// looked up relative to `base_dir`.
    pub fn new(toks: Vec<Token>, base_dir: String) -> (r: Parser)
        requires
            toks@.len() >= 1,
            toks@.last().k == Tk::End,
        ensures
            r.wf(),
            r.pos() == 0,
            r.tokens() == crate::lexer::toks_view(toks@),
            forall|k: Seq<char>| #[trigger] r.constants().get_spec(k) is None,
            r.dir() == base_dir@,
            forall|k: Seq<char>| !(#[trigger] r.generic_params().has(k)),
    {
        Parser { toks, i: 0, base_dir, consts: StrMap::new(), logic_params: StrSet::new() }
    }

    /// The current token.
    fn cur(&self) -> (r: &Token)
        requires
            self.wf(),
        ensures
            *r == self.toks@[self.i as int],
    {
        &self.toks[self.i]
    }

    /// The token `n` ahead, clamped to the last token.
    fn peek(&self, n: usize) -> (r: &Token)
        requires
            self.wf(),
            n <= 2,
        ensures
            r@ == self.peek_tok(n as int),
    {
        let last = self.toks.len() - 1;
        let idx = if n < last - self.i { self.i + n } else { last };
        &self.toks[idx]
    }

    /// An error at the current token's position and width.
    fn err_cur<T>(&self, msg: String) -> (r: RvResult<T>)
        requires
            self.wf(),
        ensures
            r matches Err(e) && e.line == self.cur_tok().line && e.col == self.cur_tok().col && e.len == (
            if self.cur_tok().len >= 1 {
                self.cur_tok().len
            } else {
                1
            }) && e.msg@ == msg@,
    {
        let t = self.cur();
        fail_at(t.line, t.col, t.len, msg)
    }

    /// The current token is the punctuation `s`.
    fn is_punct(&self, s: &str) -> (r: bool)
        requires
            self.wf(),
        ensures
            r == (self.cur_tok().k == Tk::Punct && self.cur_tok().s == s@),
    {
        let t = self.cur();
        t.k == Tk::Punct && str_eq(t.s.as_str(), s)
    }

    /// The current token is the identifier `s`.
    fn is_ident(&self, s: &str) -> (r: bool)
        requires
            self.wf(),
        ensures
            r == (self.cur_tok().k == Tk::Ident && self.cur_tok().s == s@),
    {
        let t = self.cur();
        t.k == Tk::Ident && str_eq(t.s.as_str(), s)
    }

    /// Moves past the current token (which is not the `End` token).
    fn bump(&mut self)
        requires
            old(self).wf(),
            old(self).cur_tok().k != Tk::End,
        ensures
            final(self).wf(),
            final(self).same_ctx(old(self)),
            final(self).i == old(self).i + 1,
    {
        let n = self.toks.len();
        assert(self.toks@[self.i as int].k != Tk::End);
        assert(self.i + 1 < n);
        self.i = self.i + 1;
    }

    /// Consumes the punctuation `s`, or fails at the current token with `expected 's'`.
    fn expect_punct(&mut self, s: &str) -> (r: RvResult<()>)
        requires
            old(self).wf(),
        ensures
            final(self).wf(),
            final(self).same_ctx(old(self)),
            (old(self).cur_tok().k == Tk::Punct && old(self).cur_tok().s == s@) ==> r is Ok && final(self).i
                == old(self).i + 1,
            !(old(self).cur_tok().k == Tk::Punct && old(self).cur_tok().s == s@) ==> (r matches Err(e)
                && e.line == old(self).cur_tok().line && e.col == old(self).cur_tok().col && e.len == caret_len(old(self).cur_tok())
                && e.msg@ == "expected '"@ + s@ + "'"@ && final(self).i == old(self).i),
    {
        if !self.is_punct(s) {
            return self.err_cur(cat3("expected '", s, "'"));
        }
        self.bump();
        Ok(())
    }

    /// Consumes an identifier and returns its text, or fails with `expected <what>`.
    fn expect_ident(&mut self, what: &str) -> (r: RvResult<String>)
        requires
            old(self).wf(),
        ensures
            final(self).wf(),
            final(self).same_ctx(old(self)),
            old(self).cur_tok().k == Tk::Ident ==> (r matches Ok(n) && n@ == old(self).cur_tok().s
                && final(self).i == old(self).i + 1),
            old(self).cur_tok().k != Tk::Ident ==> (r matches Err(e) && e.line == old(self).cur_tok().line
                && e.col == old(self).cur_tok().col && e.msg@ == "expected "@ + what@ && final(self).i
                == old(self).i),
    {
        if self.cur().k != Tk::Ident {
            return self.err_cur(cat2("expected ", what));
        }
        let r = self.cur().s.clone();
        self.bump();
        Ok(r)
    }

    /// Value of a constant expression over the parser's constants.
    fn eval_const(&self, e: &Expr) -> (r: RvResult<i64>)
        ensures
            match const_eval(*e, self.consts) {
                Ok(v) => r == Ok::<i64, RvError>(v),
                Err(x) => r matches Err(err) && err@ == x,
            },
        decreases e,
    {
        match e {
            Expr::Num { num, .. } => Ok(*num),
            Expr::Time { line } => fail(*line, own("$time is not allowed in a constant expression")),
            Expr::Var { line, name, index } => {
                if index.is_some() {
                    return fail(*line, cat3("cannot index '", name.as_str(), "' in a constant expression"));
                }
                match self.consts.get(name.as_str()) {
                    Some(v) => Ok(*v),
                    None => {
                        let m = cat5("unknown constant '", name.as_str(), "' (declare it with 'param ", name.as_str(), " = ...;')");
                        fail(*line, m)
                    },
                }
            },
            Expr::Un { line, op, a } => {
                let v = match self.eval_const(a) {
                    Ok(v) => v,
                    Err(x) => return Err(x),
                };
                if str_eq(op.as_str(), "-") {
                    Ok(0i64.wrapping_sub(v))
                } else if str_eq(op.as_str(), "!") {
                    Ok(if v == 0 { 1 } else { 0 })
                } else {
                    fail(*line, cat3("operator '", op.as_str(), "' not allowed in a constant expression"))
                }
            },
            Expr::Bin { line, op, a, b } => {
                let x = match self.eval_const(a) {
                    Ok(v) => v,
                    Err(err) => return Err(err),
                };
                let y = match self.eval_const(b) {
                    Ok(v) => v,
                    Err(err) => return Err(err),
                };
                if str_eq(op.as_str(), "+") {
                    Ok(x.wrapping_add(y))
                } else if str_eq(op.as_str(), "-") {
                    Ok(x.wrapping_sub(y))
                } else if str_eq(op.as_str(), "*") {
                    Ok(x.wrapping_mul(y))
                } else if str_eq(op.as_str(), "/") {
                    if y == 0 {
                        return fail(*line, own("division by zero in a constant expression"));
                    }
                    match x.checked_div(y) {
                        Some(q) => Ok(q),
                        None => Ok(x),
                    }
                } else if str_eq(op.as_str(), "%") {
                    if y == 0 {
                        return fail(*line, own("modulo by zero in a constant expression"));
                    }
                    match x.checked_rem(y) {
                        Some(q) => Ok(q),
                        None => Ok(0),
                    }
                } else {
                    fail(*line, cat3("operator '", op.as_str(), "' not allowed in a constant expression"))
                }
            },
        }
    }

    /// Whether `e` mentions one of `params`.
    fn expr_refs_logic_param(e: &Expr, params: &StrSet) -> (r: bool)
        ensures
            r == refs_param(*e, *params),
        decreases e,
    {
        match e {
            Expr::Num { .. } => false,
            Expr::Time { .. } => false,
            Expr::Var { name, index, .. } => {
                if params.contains(name.as_str()) {
                    return true;
                }
                match index {
                    Some(ix) => Self::expr_refs_logic_param(ix, params),
                    None => false,
                }
            },
            Expr::Un { a, .. } => Self::expr_refs_logic_param(a, params),
            Expr::Bin { a, b, .. } => Self::expr_refs_logic_param(a, params) || Self::expr_refs_logic_param(b, params),
        }
    }

    // ---- expressions ------------------------------------------------------

    /// A binary node.
    fn mk_bin(op: &str, a: Expr, b: Expr, ln: i32) -> (r: Expr)
        ensures
            r matches Expr::Bin { line, op: o, a: x, b: y } && line == ln && o@ == op@ && *x == a && *y == b,
    {
        Expr::Bin { line: ln, op: own(op), a: Box::new(a), b: Box::new(b) }
    }

    /// An expression (lowest precedence: `||`).
    fn parse_expr(&mut self) -> (r: RvResult<Expr>)
        requires
            old(self).wf(),
        ensures
            final(self).wf(),
            final(self).same_ctx(old(self)),
            r is Ok ==> final(self).i > old(self).i,
            old(self).num_alone() ==> r == Ok::<Expr, RvError>(old(self).cur_num()) && final(self).i == old(self).i + 1,
            old(self).name_alone() ==> (r matches Ok(e) && old(self).var_of(e)) && final(self).i == old(self).i + 1,
        decreases old(self).toks@.len() - old(self).i, 9nat,
    {
        self.parse_or()
    }

    /// `a || b || ...` (left-associative).
    fn parse_or(&mut self) -> (r: RvResult<Expr>)
        requires
            old(self).wf(),
        ensures
            final(self).wf(),
            final(self).same_ctx(old(self)),
            r is Ok ==> final(self).i > old(self).i,
            old(self).num_alone() ==> r == Ok::<Expr, RvError>(old(self).cur_num()) && final(self).i == old(self).i + 1,
            old(self).name_alone() ==> (r matches Ok(e) && old(self).var_of(e)) && final(self).i == old(self).i + 1,
        decreases old(self).toks@.len() - old(self).i, 8nat,
    {
        let mut a = match self.parse_and() {
            Ok(e) => e,
            Err(e) => return Err(e),
        };
        while self.is_punct("||")
            invariant
                self.wf(),
                self.same_ctx(old(self)),
                self.i > old(self).i,
                old(self).num_alone() ==> self.i == old(self).i + 1 && a == old(self).cur_num(),
                old(self).name_alone() ==> self.i == old(self).i + 1 && old(self).var_of(a),
            decreases self.toks@.len() - self.i,
        {
            let ln = self.cur().line;
            self.bump();
            let b = match self.parse_and() {
                Ok(e) => e,
                Err(e) => return Err(e),
            };
            a = Self::mk_bin("||", a, b, ln);
        }
        Ok(a)
    }

    /// `a && b && ...` (left-associative).
    fn parse_and(&mut self) -> (r: RvResult<Expr>)
        requires
            old(self).wf(),
        ensures
            final(self).wf(),
            final(self).same_ctx(old(self)),
            r is Ok ==> final(self).i > old(self).i,
            old(self).num_alone() ==> r == Ok::<Expr, RvError>(old(self).cur_num()) && final(self).i == old(self).i + 1,
            old(self).name_alone() ==> (r matches Ok(e) && old(self).var_of(e)) && final(self).i == old(self).i + 1,
        decreases old(self).toks@.len() - old(self).i, 7nat,
    {
        let mut a = match self.parse_eq() {
            Ok(e) => e,
            Err(e) => return Err(e),
        };
        while self.is_punct("&&")
            invariant
                self.wf(),
                self.same_ctx(old(self)),
                self.i > old(self).i,
                old(self).num_alone() ==> self.i == old(self).i + 1 && a == old(self).cur_num(),
                old(self).name_alone() ==> self.i == old(self).i + 1 && old(self).var_of(a),
            decreases self.toks@.len() - self.i,
        {
            let ln = self.cur().line;
            self.bump();
            let b = match self.parse_eq() {
                Ok(e) => e,
                Err(e) => return Err(e),
            };
            a = Self::mk_bin("&&", a, b, ln);
        }
        Ok(a)
    }

    /// `a == b`, `a != b` (left-associative).
    fn parse_eq(&mut self) -> (r: RvResult<Expr>)
        requires
            old(self).wf(),
        ensures
            final(self).wf(),
            final(self).same_ctx(old(self)),
            r is Ok ==> final(self).i > old(self).i,
            old(self).num_alone() ==> r == Ok::<Expr, RvError>(old(self).cur_num()) && final(self).i == old(self).i + 1,
            old(self).name_alone() ==> (r matches Ok(e) && old(self).var_of(e)) && final(self).i == old(self).i + 1,
        decreases old(self).toks@.len() - old(self).i, 6nat,
    {
        let mut a = match self.parse_rel() {
            Ok(e) => e,
            Err(e) => return Err(e),
        };
        while self.is_punct("==") || self.is_punct("!=")
            invariant
                self.wf(),
                self.same_ctx(old(self)),
                self.i > old(self).i,
                old(self).num_alone() ==> self.i == old(self).i + 1 && a == old(self).cur_num(),
                old(self).name_alone() ==> self.i == old(self).i + 1 && old(self).var_of(a),
            decreases self.toks@.len() - self.i,
        {
            let op = self.cur().s.clone();
            let ln = self.cur().line;
            self.bump();
            let b = match self.parse_rel() {
                Ok(e) => e,
                Err(e) => return Err(e),
            };
            a = Self::mk_bin(op.as_str(), a, b, ln);
        }
        Ok(a)
    }

    /// `a < b`, `<=`, `>`, `>=` (left-associative).
    fn parse_rel(&mut self) -> (r: RvResult<Expr>)
        requires
            old(self).wf(),
        ensures
            final(self).wf(),
            final(self).same_ctx(old(self)),
            r is Ok ==> final(self).i > old(self).i,
            old(self).num_alone() ==> r == Ok::<Expr, RvError>(old(self).cur_num()) && final(self).i == old(self).i + 1,
            old(self).name_alone() ==> (r matches Ok(e) && old(self).var_of(e)) && final(self).i == old(self).i + 1,
        decreases old(self).toks@.len() - old(self).i, 5nat,
    {
        let mut a = match self.parse_add() {
            Ok(e) => e,
            Err(e) => return Err(e),
        };
        while self.is_punct("<") || self.is_punct("<=") || self.is_punct(">") || self.is_punct(">=")
            invariant
                self.wf(),
                self.same_ctx(old(self)),
                self.i > old(self).i,
                old(self).num_alone() ==> self.i == old(self).i + 1 && a == old(self).cur_num(),
                old(self).name_alone() ==> self.i == old(self).i + 1 && old(self).var_of(a),
            decreases self.toks@.len() - self.i,
        {
            let op = self.cur().s.clone();
            let ln = self.cur().line;
            self.bump();
            let b = match self.parse_add() {
                Ok(e) => e,
                Err(e) => return Err(e),
            };
            a = Self::mk_bin(op.as_str(), a, b, ln);
        }
        Ok(a)
    }

    /// `a + b`, `a - b` (left-associative).
    fn parse_add(&mut self) -> (r: RvResult<Expr>)
        requires
            old(self).wf(),
        ensures
            final(self).wf(),
            final(self).same_ctx(old(self)),
            r is Ok ==> final(self).i > old(self).i,
            old(self).num_alone() ==> r == Ok::<Expr, RvError>(old(self).cur_num()) && final(self).i == old(self).i + 1,
            old(self).name_alone() ==> (r matches Ok(e) && old(self).var_of(e)) && final(self).i == old(self).i + 1,
        decreases old(self).toks@.len() - old(self).i, 4nat,
    {
        let mut a = match self.parse_mul() {
            Ok(e) => e,
            Err(e) => return Err(e),
        };
        while self.is_punct("+") || self.is_punct("-")
            invariant
                self.wf(),
                self.same_ctx(old(self)),
                self.i > old(self).i,
                old(self).num_alone() ==> self.i == old(self).i + 1 && a == old(self).cur_num(),
                old(self).name_alone() ==> self.i == old(self).i + 1 && old(self).var_of(a),
            decreases self.toks@.len() - self.i,
        {
            let op = self.cur().s.clone();
            let ln = self.cur().line;
            self.bump();
            let b = match self.parse_mul() {
                Ok(e) => e,
                Err(e) => return Err(e),
            };
            a = Self::mk_bin(op.as_str(), a, b, ln);
        }
        Ok(a)
    }

    /// `a * b`, `a / b`, `a % b` (left-associative).
    fn parse_mul(&mut self) -> (r: RvResult<Expr>)
        requires
            old(self).wf(),
        ensures
            final(self).wf(),
            final(self).same_ctx(old(self)),
            r is Ok ==> final(self).i > old(self).i,
            old(self).num_alone() ==> r == Ok::<Expr, RvError>(old(self).cur_num()) && final(self).i == old(self).i + 1,
            old(self).name_alone() ==> (r matches Ok(e) && old(self).var_of(e)) && final(self).i == old(self).i + 1,
        decreases old(self).toks@.len() - old(self).i, 3nat,
    {
        let mut a = match self.parse_unary() {
            Ok(e) => e,
            Err(e) => return Err(e),
        };
        while self.is_punct("*") || self.is_punct("/") || self.is_punct("%")
            invariant
                self.wf(),
                self.same_ctx(old(self)),
                self.i > old(self).i,
                old(self).num_alone() ==> self.i == old(self).i + 1 && a == old(self).cur_num(),
                old(self).name_alone() ==> self.i == old(self).i + 1 && old(self).var_of(a),
            decreases self.toks@.len() - self.i,
        {
            let op = self.cur().s.clone();
            let ln = self.cur().line;
            self.bump();
            let b = match self.parse_unary() {
                Ok(e) => e,
                Err(e) => return Err(e),
            };
            a = Self::mk_bin(op.as_str(), a, b, ln);
        }
        Ok(a)
    }

    /// `-a`, `!a`, or a primary.
    fn parse_unary(&mut self) -> (r: RvResult<Expr>)
        requires
            old(self).wf(),
        ensures
            final(self).wf(),
            final(self).same_ctx(old(self)),
            r is Ok ==> final(self).i > old(self).i,
            (old(self).cur_tok().k == Tk::Punct && (old(self).cur_tok().s == "-"@ || old(self).cur_tok().s
                == "!"@)) ==> (r matches Ok(e) ==> e matches Expr::Un { line, op, .. } && line
                == old(self).cur_tok().line && op@ == old(self).cur_tok().s),
            old(self).num_alone() ==> r == Ok::<Expr, RvError>(old(self).cur_num()) && final(self).i == old(self).i + 1,
            old(self).name_alone() ==> (r matches Ok(e) && old(self).var_of(e)) && final(self).i == old(self).i + 1,
        decreases old(self).toks@.len() - old(self).i, 2nat,
    {
        if self.is_punct("-") || self.is_punct("!") {
            let op = self.cur().s.clone();
            let ln = self.cur().line;
            self.bump();
            let a = match self.parse_unary() {
                Ok(e) => e,
                Err(e) => return Err(e),
            };
            return Ok(Expr::Un { line: ln, op, a: Box::new(a) });
        }
        self.parse_primary()
    }

    /// A number, `$time`, a variable (optionally `name[expr]`), or `( expr )`.
    fn parse_primary(&mut self) -> (r: RvResult<Expr>)
        requires
            old(self).wf(),
        ensures
            final(self).wf(),
            final(self).same_ctx(old(self)),
            r is Ok ==> final(self).i > old(self).i,
            old(self).cur_tok().k == Tk::Num ==> r == Ok::<Expr, RvError>(
                Expr::Num { line: old(self).cur_tok().line as i32, num: old(self).cur_tok().num },
            ) && final(self).i == old(self).i + 1,
            (old(self).cur_tok().k == Tk::Ident && !(old(self).peek_tok(1).k == Tk::Punct && old(self).peek_tok(
                1,
            ).s == "["@)) ==> (r matches Ok(e) && e matches Expr::Var { line, name, index } && line
                == old(self).cur_tok().line && name@ == old(self).cur_tok().s && index is None) && final(self).i == old(self).i + 1,
            (old(self).cur_tok().k != Tk::Num && old(self).cur_tok().k != Tk::Ident && !(old(self).cur_tok().k
                == Tk::Punct && (old(self).cur_tok().s == "$"@ || old(self).cur_tok().s == "("@))) ==> (r matches Err(
                e,
            ) && e.line == old(self).cur_tok().line && e.col == old(self).cur_tok().col && e.msg@
                == "expected expression"@),
        decreases old(self).toks@.len() - old(self).i, 1nat,
    {
        let ln = self.cur().line;
        if self.cur().k == Tk::Num {
            let num = self.cur().num;
            self.bump();
            return Ok(Expr::Num { line: ln, num });
        }
        if self.is_punct("$") {
            self.bump();
            let n = match self.expect_ident("system variable name after '$'") {
                Ok(n) => n,
                Err(e) => return Err(e),
            };
            if !str_eq(n.as_str(), "time") {
                return fail(ln, cat2("unknown system variable: $", n.as_str()));
            }
            return Ok(Expr::Time { line: ln });
        }
        if self.cur().k == Tk::Ident {
            let name = self.cur().s.clone();
            self.bump();
            let index = if self.is_punct("[") {
                self.bump();
                let e = match self.parse_expr() {
                    Ok(e) => e,
                    Err(e) => return Err(e),
                };
                match self.expect_punct("]") {
                    Ok(()) => {},
                    Err(e) => return Err(e),
                }
                Some(Box::new(e))
            } else {
                None
            };
            return Ok(Expr::Var { line: ln, name, index });
        }
        if self.is_punct("(") {
            self.bump();
            let e = match self.parse_expr() {
                Ok(e) => e,
                Err(e) => return Err(e),
            };
            match self.expect_punct(")") {
                Ok(()) => {},
                Err(e) => return Err(e),
            }
            return Ok(e);
        }
        self.err_cur(own("expected expression"))
    }

    // ---- widths, selections and references ----------------------------------

    /// An index expression: kept as an expression when it mentions a generic parameter of
    /// the logic being parsed, otherwise evaluated now and range-checked into `i32`.
    fn idx_expr_of(&self, e: Expr, ln: i32) -> (r: RvResult<IdxExpr>)
        ensures
            (self.logic_params.items@.len() != 0 && refs_param(e, self.logic_params)) ==> r
                == Ok::<IdxExpr, RvError>(IdxExpr::Expr(e)),
            !(self.logic_params.items@.len() != 0 && refs_param(e, self.logic_params)) ==> match const_eval(
                e,
                self.consts,
            ) {
                Err(x) => r matches Err(err) && err@ == x,
                Ok(n) => if i32::MIN <= n <= i32::MAX {
                    r == Ok::<IdxExpr, RvError>(IdxExpr::Lit(n as i32))
                } else {
                    r matches Err(err) && err@ == line_err(
                        ln,
                        "lane/slice index out of range: "@ + crate::strs::int_text(n as int, 10),
                    )
                },
            },
    {
        if !self.logic_params.is_empty() && Self::expr_refs_logic_param(&e, &self.logic_params) {
            return Ok(IdxExpr::Expr(e));
        }
        let n = match self.eval_const(&e) {
            Ok(n) => n,
            Err(x) => return Err(x),
        };
        if n < i32::MIN as i64 || n > i32::MAX as i64 {
            let t = int_str(n);
            return fail(ln, cat2("lane/slice index out of range: ", t.as_str()));
        }
        Ok(IdxExpr::Lit(n as i32))
    }

    /// A lane or slice index expression.
    fn parse_idx_expr(&mut self, ln: i32) -> (r: RvResult<IdxExpr>)
        requires
            old(self).wf(),
        ensures
            final(self).wf(),
            final(self).same_ctx(old(self)),
            r is Ok ==> final(self).i > old(self).i,
            (old(self).num_alone() && i32::MIN <= old(self).cur_tok().num <= i32::MAX) ==> r
                == Ok::<IdxExpr, RvError>(IdxExpr::Lit(old(self).cur_tok().num as i32)) && final(self).i == old(self).i + 1,
    {
        let e = match self.parse_expr() {
            Ok(e) => e,
            Err(x) => return Err(x),
        };
        self.idx_expr_of(e, ln)
    }

    /// A lane selection `[k]` / `[hi:lo]`, or `All` when no `[` follows.
    fn parse_sel(&mut self) -> (r: RvResult<Sel>)
        requires
            old(self).wf(),
        ensures
            final(self).wf(),
            final(self).same_ctx(old(self)),
            !(old(self).cur_tok().k == Tk::Punct && old(self).cur_tok().s == "["@) ==> (r matches Ok(Sel::All)
                && final(self).i == old(self).i),
            (old(self).cur_tok().k == Tk::Punct && old(self).cur_tok().s == "["@) ==> (r matches Ok(sel)
                ==> !(sel is All) && final(self).i > old(self).i + 2),
    {
        if !self.is_punct("[") {
            return Ok(Sel::All);
        }
        let ln = self.cur().line;
        self.bump();
        if self.is_punct("]") {
            return fail(ln, own("expected a lane index or slice after '['"));
        }
        let a = match self.parse_idx_expr(ln) {
            Ok(a) => a,
            Err(x) => return Err(x),
        };
        if self.is_punct(":") {
            self.bump();
            let b = match self.parse_idx_expr(ln) {
                Ok(b) => b,
                Err(x) => return Err(x),
            };
            match self.expect_punct("]") {
                Ok(()) => {},
                Err(x) => return Err(x),
            }
            Ok(Sel::Slice(a, b))
        } else {
            match self.expect_punct("]") {
                Ok(()) => {},
                Err(x) => return Err(x),
            }
            Ok(Sel::Lane(a))
        }
    }

    /// An optional bus width `[<constant expression>]` resolved now; at least 1.
    fn parse_width(&mut self, what: &str) -> (r: RvResult<Option<i32>>)
        requires
            old(self).wf(),
        ensures
            final(self).wf(),
            final(self).same_ctx(old(self)),
            !(old(self).cur_tok().k == Tk::Punct && old(self).cur_tok().s == "["@) ==> (r matches Ok(None)
                && final(self).i == old(self).i),
            r matches Ok(Some(n)) ==> final(self).i > old(self).i,
            r is Ok ==> final(self).i >= old(self).i,
    {
        if !self.is_punct("[") {
            return Ok(None);
        }
        let ln = self.cur().line;
        self.bump();
        if self.is_punct("]") {
            return fail(ln, cat2("expected a bus width after '", what));
        }
        let e = match self.parse_expr() {
            Ok(e) => e,
            Err(x) => return Err(x),
        };
        match self.expect_punct("]") {
            Ok(()) => {},
            Err(x) => return Err(x),
        }
        let n = match self.eval_const(&e) {
            Ok(n) => n,
            Err(x) => return Err(x),
        };
        if n < 1 {
            let t = int_str(n);
            return fail(ln, cat3("bus width must be >= 1 (got ", t.as_str(), ")"));
        }
        Ok(Some(#[verifier::truncate] (n as i32)))
    }

    /// An optional bus width inside a logic body: an expression over the logic's generic
    /// parameters is kept for instantiation; any other is resolved now (at least 1).
    fn parse_width_expr(&mut self, what: &str) -> (r: RvResult<Option<WidthExpr>>)
        requires
            old(self).wf(),
        ensures
            final(self).wf(),
            final(self).same_ctx(old(self)),
            !(old(self).cur_tok().k == Tk::Punct && old(self).cur_tok().s == "["@) ==> (r matches Ok(None)
                && final(self).i == old(self).i),
            r matches Ok(Some(w)) ==> final(self).i > old(self).i && (w matches WidthExpr::Expr(e) ==> refs_param(
                e,
                old(self).logic_params,
            )),
            r is Ok ==> final(self).i >= old(self).i,
    {
        if !self.is_punct("[") {
            return Ok(None);
        }
        let ln = self.cur().line;
        self.bump();
        if self.is_punct("]") {
            return fail(ln, cat2("expected a bus width after '", what));
        }
        let e = match self.parse_expr() {
            Ok(e) => e,
            Err(x) => return Err(x),
        };
        match self.expect_punct("]") {
            Ok(()) => {},
            Err(x) => return Err(x),
        }
        if self.logic_params.is_empty() || !Self::expr_refs_logic_param(&e, &self.logic_params) {
            let n = match self.eval_const(&e) {
                Ok(n) => n,
                Err(x) => return Err(x),
            };
            if n < 1 {
                let t = int_str(n);
                return fail(ln, cat3("bus width must be >= 1 (got ", t.as_str(), ")"));
            }
            return Ok(Some(WidthExpr::Lit(#[verifier::truncate] (n as i32))));
        }
        Ok(Some(WidthExpr::Expr(e)))
    }

    /// The literal key of a binding target (`p`, `p[k]`, `p[h:l]`) for the duplicate
    /// check; `None` when an index is still an expression.
    fn target_key(name: &str, sel: &Sel) -> (r: Option<String>)
        ensures
            match key_of(name@, *sel) {
                Some(k) => r matches Some(t) && t@ == k,
                None => r is None,
            },
    {
        match sel {
            Sel::All => Some(own(name)),
            Sel::Lane(IdxExpr::Lit(k)) => {
                let t = int_str(*k as i64);
                Some(cat4(name, "[", t.as_str(), "]"))
            },
            Sel::Slice(IdxExpr::Lit(h), IdxExpr::Lit(l)) => {
                let th = int_str(*h as i64);
                let tl = int_str(*l as i64);
                let a = cat4(name, "[", th.as_str(), ":");
                Some(cat3(a.as_str(), tl.as_str(), "]"))
            },
            _ => None,
        }
    }

    /// A concatenation `{e1, e2, ...}` of plain references (no `.side`, no nesting, no
    /// call), from its `{` to its `}`.
    fn parse_concat_refs(&mut self) -> (r: RvResult<Vec<BindRef>>)
        requires
            old(self).wf(),
        ensures
            final(self).wf(),
            final(self).same_ctx(old(self)),
            r matches Ok(v) ==> v@.len() >= 1 && final(self).i > old(self).i + 2,
            (old(self).punct_at(0, "{"@) && old(self).ident_at(1) && old(self).punct_at(2, "}"@)) ==> (r matches Ok(v)
                && v@.len() == 1 && v@[0].name@ == old(self).peek_tok(1).s && v@[0].sel is All) && final(self).i == old(self).i + 3,
    {
        let ghost o = *old(self);
        let ghost one = o.punct_at(0, "{"@) && o.ident_at(1) && o.punct_at(2, "}"@);
        proof {
            lemma_punct_chars();
            if one {
                assert(o.peek_tok(0) == o.cur_tok());
                assert(o.i + 2 < o.toks@.len());
            }
        }
        let ln = self.cur().line;
        match self.expect_punct("{") {
            Ok(()) => {},
            Err(x) => return Err(x),
        }
        assert(one ==> self.cur_tok() == o.peek_tok(1));
        if self.is_punct("}") {
            return fail(ln, own("empty concatenation '{}' is not allowed"));
        }
        let mut parts: Vec<BindRef> = Vec::new();
        loop
            invariant_except_break
                one ==> self.i == o.i + 1 && parts@.len() == 0 && self.cur_tok() == o.peek_tok(1),
            invariant
                self.wf(),
                self.same_ctx(old(self)),
                self.i >= old(self).i + 1 + parts@.len(),
                o == *old(self),
                one == (o.punct_at(0, "{"@) && o.ident_at(1) && o.punct_at(2, "}"@)),
            ensures
                self.wf(),
                self.same_ctx(old(self)),
                parts@.len() >= 1,
                self.i >= old(self).i + 1 + parts@.len(),
                one ==> self.i == o.i + 2 && self.cur_tok() == o.peek_tok(2) && parts@.len() == 1 && parts@[0].name@
                    == o.peek_tok(1).s && parts@[0].sel is All,
            decreases self.toks@.len() - self.i,
        {
            proof {
                lemma_punct_chars();
            }
            if self.is_punct("{") {
                return fail(self.cur().line, own("nested concatenation '{...}' is not allowed"));
            }
            let name = match self.expect_ident("concatenation element (reg/port/var name)") {
                Ok(n) => n,
                Err(x) => return Err(x),
            };
            assert(one ==> self.cur_tok() == o.peek_tok(2) && self.i == o.i + 2);
            if self.is_punct("(") || self.is_punct("#") {
                return fail(self.cur().line, own("a nested logic call cannot appear inside a concatenation '{...}'"));
            }
            let sel = match self.parse_sel() {
                Ok(s) => s,
                Err(x) => return Err(x),
            };
            if self.is_punct(".") {
                return fail(self.cur().line, own("'.side' cannot appear inside a concatenation '{...}'"));
            }
            parts.push(BindRef { name, sel });
            if self.is_punct(",") {
                self.bump();
                continue;
            }
            break;
        }
        match self.expect_punct("}") {
            Ok(()) => {},
            Err(x) => return Err(x),
        }
        Ok(parts)
    }

    /// The target tuple `(t1, t2, ...)` of a multi-output binding: each target a name with
    /// an optional lane or slice, or a concatenation; no `.side`, not empty, and no literal
    /// key twice.
    fn parse_target_tuple(&mut self, kind: &str) -> (r: RvResult<Vec<BindTarget>>)
        requires
            old(self).wf(),
        ensures
            final(self).wf(),
            final(self).same_ctx(old(self)),
            r matches Ok(v) ==> v@.len() >= 1 && final(self).i > old(self).i + 1 && nodup(some_keys(flat_refs(v@))),
            (old(self).punct_at(0, "("@) && old(self).ident_at(1) && old(self).punct_at(2, ")"@)) ==> (r matches Ok(v)
                && v@.len() == 1 && (v@[0] matches BindTarget::Ref(br) && br.name@ == old(self).peek_tok(1).s && br.sel is All))
                && final(self).i == old(self).i + 3,
    {
        let ghost o = *old(self);
        let ghost one = o.punct_at(0, "("@) && o.ident_at(1) && o.punct_at(2, ")"@);
        proof {
            lemma_punct_chars();
            if one {
                assert(o.peek_tok(0) == o.cur_tok());
                assert(o.i + 2 < o.toks@.len());
            }
        }
        let ln = self.cur().line;
        match self.expect_punct("(") {
            Ok(()) => {},
            Err(x) => return Err(x),
        }
        assert(one ==> self.cur_tok() == o.peek_tok(1));
        if self.is_punct(")") {
            return fail(ln, own("empty target tuple '()' is not allowed in a logic-instance binding"));
        }
        let mut out: Vec<BindTarget> = Vec::new();
        let mut keys: Vec<String> = Vec::new();
        proof {
            assert(flat_refs(out@) =~= Seq::<BindRef>::empty());
            assert(strs_view(keys@) =~= Seq::<Seq<char>>::empty());
        }
        loop
            invariant_except_break
                one ==> self.i == o.i + 1 && out@.len() == 0 && self.cur_tok() == o.peek_tok(1),
            invariant
                self.wf(),
                self.same_ctx(old(self)),
                self.i >= old(self).i + 1 + out@.len(),
                strs_view(keys@) == some_keys(flat_refs(out@)),
                nodup(strs_view(keys@)),
                o == *old(self),
                one == (o.punct_at(0, "("@) && o.ident_at(1) && o.punct_at(2, ")"@)),
            ensures
                self.wf(),
                self.same_ctx(old(self)),
                out@.len() >= 1,
                self.i >= old(self).i + 1 + out@.len(),
                nodup(some_keys(flat_refs(out@))),
                one ==> self.i == o.i + 2 && self.cur_tok() == o.peek_tok(2) && out@.len() == 1 && (out@[0] matches BindTarget::Ref(br)
                    && br.name@ == o.peek_tok(1).s && br.sel is All),
            decreases self.toks@.len() - self.i,
        {
            proof {
                lemma_punct_chars();
            }
            let name_ln = self.cur().line;
            let t = if self.is_punct("{") {
                match self.parse_concat_refs() {
                    Ok(v) => BindTarget::Concat(v),
                    Err(x) => return Err(x),
                }
            } else {
                let name = match self.expect_ident(kind) {
                    Ok(n) => n,
                    Err(x) => return Err(x),
                };
                assert(one ==> self.cur_tok() == o.peek_tok(2) && self.i == o.i + 2);
                let sel = match self.parse_sel() {
                    Ok(s) => s,
                    Err(x) => return Err(x),
                };
                if self.is_punct(".") {
                    return fail(name_ln, cat3("'.side' is not a valid logic-output binding target ('", name.as_str(), "')"));
                }
                BindTarget::Ref(BindRef { name, sel })
            };
            let rs = t.refs();
            let ghost base = flat_refs(out@);
            proof {
                if one {
                    assert(flat_refs(out@) =~= Seq::<BindRef>::empty());
                    assert(strs_view(keys@).len() == keys@.len());
                }
            }
            let mut ri: usize = 0;
            while ri < rs.len()
                invariant
                    one ==> keys@.len() <= ri && rs@.len() == 1,
                    o == *old(self),
                    one == (o.punct_at(0, "("@) && o.ident_at(1) && o.punct_at(2, ")"@)),
                    self.wf(),
                    self.same_ctx(old(self)),
                    ri <= rs@.len(),
                    strs_view(keys@) == some_keys(base + rs@.subrange(0, ri as int)),
                    nodup(strs_view(keys@)),
                decreases rs@.len() - ri,
            {
                let ghost pre = base + rs@.subrange(0, ri as int);
                match Self::target_key(rs[ri].name.as_str(), &rs[ri].sel) {
                    Some(key) => {
                        if contains_str(&keys, key.as_str()) {
                            return fail(name_ln, cat3("duplicate target '", key.as_str(), "' in logic-instance binding tuple"));
                        }
                        let ghost kold = keys@;
                        let ghost kk = key;
                        keys.push(key);
                        proof {
                            lemma_keys_push(kold, pre, rs@[ri as int], kk);
                        }
                    },
                    None => {
                        proof {
                            lemma_keys_skip(pre, rs@[ri as int]);
                        }
                    },
                }
                proof {
                    assert(base + rs@.subrange(0, ri + 1) =~= pre.push(rs@[ri as int]));
                }
                ri += 1;
            }
            proof {
                assert(rs@.subrange(0, rs@.len() as int) =~= rs@);
                lemma_flat_push(out@, t);
            }
            out.push(t);
            if self.is_punct(",") {
                self.bump();
                continue;
            }
            break;
        }
        match self.expect_punct(")") {
            Ok(()) => {},
            Err(x) => return Err(x),
        }
        Ok(out)
    }

    /// `#( P=v, Q=w, ... )` actual generic parameters, or none when no `#` follows; a
    /// parameter named twice is an error.
    fn parse_logic_call_params(&mut self) -> (r: RvResult<Vec<(String, Expr)>>)
        requires
            old(self).wf(),
        ensures
            final(self).wf(),
            final(self).same_ctx(old(self)),
            !(old(self).cur_tok().k == Tk::Punct && old(self).cur_tok().s == "#"@) ==> (r matches Ok(v) && v@.len()
                == 0 && final(self).i == old(self).i),
            r matches Ok(v) ==> names_distinct(v@) && final(self).i >= old(self).i,
    {
        if !self.is_punct("#") {
            return Ok(Vec::new());
        }
        self.bump();
        match self.expect_punct("(") {
            Ok(()) => {},
            Err(x) => return Err(x),
        }
        let mut out: Vec<(String, Expr)> = Vec::new();
        if !self.is_punct(")") {
            loop
                invariant
                    self.wf(),
                    self.same_ctx(old(self)),
                    self.i > old(self).i,
                    names_distinct(out@),
                    old(self).cur_tok().k == Tk::Punct && old(self).cur_tok().s == "#"@,
                decreases self.toks@.len() - self.i,
            {
                let ln = self.cur().line;
                let name = match self.expect_ident("logic parameter name") {
                    Ok(n) => n,
                    Err(x) => return Err(x),
                };
                if param_named(&out, name.as_str()) {
                    return fail(ln, cat3("duplicate logic parameter '", name.as_str(), "' in '#(...)'"));
                }
                match self.expect_punct("=") {
                    Ok(()) => {},
                    Err(x) => return Err(x),
                }
                let e = match self.parse_expr() {
                    Ok(e) => e,
                    Err(x) => return Err(x),
                };
                let ghost nv = name@;
                out.push((name, e));
                proof {
                    assert forall|a: int, b: int| 0 <= a < b < out@.len() implies out@[a].0@ != out@[b].0@ by {
                        if b == out@.len() - 1 {
                            assert(out@[b].0@ == nv);
                        }
                    }
                }
                if self.is_punct(",") {
                    self.bump();
                    continue;
                }
                break;
            }
        }
        match self.expect_punct(")") {
            Ok(()) => {},
            Err(x) => return Err(x),
        }
        Ok(out)
    }

    /// Arguments of a logic call up to (not including) its `)`: names with optional lane
    /// or slice, concatenations, and nested calls `h(x)` / `h#(W=4)(x)`.
    fn parse_inst_args(&mut self) -> (r: RvResult<Vec<InstArg>>)
        requires
            old(self).wf(),
        ensures
            final(self).wf(),
            final(self).same_ctx(old(self)),
            r is Ok ==> final(self).i >= old(self).i,
            (old(self).cur_tok().k == Tk::Punct && old(self).cur_tok().s == ")"@) ==> (r matches Ok(v) && v@.len()
                == 0 && final(self).i == old(self).i),
            forall|k: int| #[trigger] old(self).name_args_at(0, k) ==> (r matches Ok(v) && old(self).name_args_read(0, k, v@))
                && final(self).i == old(self).i + 2 * k - 1,
        decreases old(self).toks@.len() - old(self).i,
    {
        let ghost o = *old(self);
        let ghost na = exists|k: int| o.name_args_at(0, k);
        let ghost kk = choose|k: int| o.name_args_at(0, k);
        proof {
            if na {
                lemma_punct_chars();
                assert(o.arg_name(0, 0));
                assert(o.peek_tok(0) == o.cur_tok());
                assert forall|k: int| #[trigger] o.name_args_at(0, k) implies k == kk by {
                    o.lemma_name_args_unique(0, k, kk);
                }
            }
        }
        let mut args: Vec<InstArg> = Vec::new();
        if !self.is_punct(")") {
            loop
                invariant_except_break
                    na ==> args@.len() < kk && self.i == o.i + 2 * args@.len(),
                invariant
                    self.wf(),
                    self.same_ctx(old(self)),
                    self.i >= old(self).i,
                    !(old(self).cur_tok().k == Tk::Punct && old(self).cur_tok().s == ")"@),
                    o == *old(self),
                    na == exists|k: int| o.name_args_at(0, k),
                    na ==> o.name_args_at(0, kk) && forall|k: int| #[trigger] o.name_args_at(0, k) ==> k == kk,
                    na ==> forall|m: int| 0 <= m < args@.len() ==> (#[trigger] args@[m] matches InstArg::Name { name, sel }
                        && name@ == o.peek_tok(2 * m).s && sel is All),
                ensures
                    self.wf(),
                    self.same_ctx(old(self)),
                    self.i >= old(self).i,
                    o == *old(self),
                    na ==> o.name_args_at(0, kk) && forall|k: int| #[trigger] o.name_args_at(0, k) ==> k == kk,
                    na ==> args@.len() == kk && self.i == o.i + 2 * kk - 1 && o.name_args_read(0, kk, args@),
                decreases self.toks@.len() - self.i,
            {
                let ghost na0 = args@.len() as int;
                proof {
                    if na {
                        lemma_punct_chars();
                        assert(o.arg_name(0, na0));
                        assert(self.cur_tok() == o.peek_tok(2 * na0));
                        assert(self.peek_tok(1) == o.peek_tok(2 * na0 + 1));
                        if na0 < kk - 1 {
                            assert(o.arg_comma(0, na0));
                        } else {
                            assert(o.punct_at(2 * kk - 1, ")"@));
                        }
                    }
                }
                let ghost ab = args@;
                let ln = self.cur().line;
                if self.is_punct("{") {
                    match self.parse_concat_refs() {
                        Ok(v) => args.push(InstArg::Concat(v)),
                        Err(x) => return Err(x),
                    }
                    if self.is_punct(",") {
                        self.bump();
                        continue;
                    }
                    break;
                }
                let an = match self.expect_ident("logic input (reg/port/var name)") {
                    Ok(n) => n,
                    Err(x) => return Err(x),
                };
                if self.is_punct("(") || self.is_punct("#") {
                    let params = match self.parse_logic_call_params() {
                        Ok(p) => p,
                        Err(x) => return Err(x),
                    };
                    match self.expect_punct("(") {
                        Ok(()) => {},
                        Err(x) => return Err(x),
                    }
                    let sub = match self.parse_inst_args() {
                        Ok(v) => v,
                        Err(x) => return Err(x),
                    };
                    match self.expect_punct(")") {
                        Ok(()) => {},
                        Err(x) => return Err(x),
                    }
                    args.push(InstArg::Call { line: ln, callee: an, params, args: sub });
                } else {
                    let sel = match self.parse_sel() {
                        Ok(s) => s,
                        Err(x) => return Err(x),
                    };
                    args.push(InstArg::Name { name: an, sel });
                }
                proof {
                    if na {
                        assert(self.cur_tok() == o.peek_tok(2 * na0 + 1));
                        assert forall|m: int| 0 <= m < args@.len() implies (#[trigger] args@[m] matches InstArg::Name { name, sel }
                            && name@ == o.peek_tok(2 * m).s && sel is All) by {
                            if m < na0 {
                                assert(args@[m] == ab[m]);
                            }
                        }
                    }
                }
                if self.is_punct(",") {
                    proof {
                        if na && na0 == kk - 1 {
                            lemma_punct_chars();
                            assert(o.punct_at(2 * kk - 1, ")"@));
                        }
                    }
                    self.bump();
                    continue;
                }
                proof {
                    if na && na0 < kk - 1 {
                        assert(o.arg_comma(0, na0));
                    }
                }
                break;
            }
        } else {
            proof {
                if na {
                    lemma_punct_chars();
                }
            }
        }
        Ok(args)
    }

    /// `callee #(P=v, ...) (args...)` (the `;` is left to the caller): the callee name,
    /// the actual generic parameters and the arguments.
    fn parse_callee_invocation(&mut self) -> (r: RvResult<(String, Vec<(String, Expr)>, Vec<InstArg>)>)
        requires
            old(self).wf(),
        ensures
            final(self).wf(),
            final(self).same_ctx(old(self)),
            r matches Ok(c) ==> c.0@ == old(self).cur_tok().s && old(self).cur_tok().k == Tk::Ident
                && names_distinct(c.1@) && final(self).i > old(self).i + 2,
            (old(self).ident_at(0) && old(self).punct_at(1, "("@) && old(self).punct_at(2, ")"@)) ==> (r matches Ok(c)
                && c.0@ == old(self).cur_tok().s && c.1@.len() == 0 && c.2@.len() == 0) && final(self).i == old(self).i + 3,
            forall|k: int| #[trigger] old(self).name_args_at(2, k) ==> (old(self).ident_at(0) && old(self).punct_at(1, "("@) ==> (r matches Ok(
                c,
            ) && c.0@ == old(self).cur_tok().s && c.1@.len() == 0 && old(self).name_args_read(2, k, c.2@)) && final(self).i == old(
                self,
            ).i + 2 * k + 2),
    {
        let ghost o = *old(self);
        let ghost bare = o.ident_at(0) && o.punct_at(1, "("@) && o.punct_at(2, ")"@);
        proof {
            lemma_punct_chars();
            if bare {
                assert(o.peek_tok(0) == o.cur_tok());
                assert(o.i + 2 < o.toks@.len());
            }
        }
        let callee = match self.expect_ident("logic name") {
            Ok(n) => n,
            Err(x) => return Err(x),
        };
        assert(bare ==> self.cur_tok() == o.peek_tok(1));
        let call_params = match self.parse_logic_call_params() {
            Ok(p) => p,
            Err(x) => return Err(x),
        };
        match self.expect_punct("(") {
            Ok(()) => {},
            Err(x) => return Err(x),
        }
        assert(bare ==> self.cur_tok() == o.peek_tok(2) && self.i == o.i + 2);
        let ghost ca = o.ident_at(0) && o.punct_at(1, "("@) && exists|k: int| o.name_args_at(2, k);
        let ghost ck = choose|k: int| o.name_args_at(2, k);
        let ghost sv = *self;
        proof {
            if ca {
                assert(self.i == o.i + 2);
                Parser::lemma_args_shift(*self, 0, o, 2, ck, seq![]);
            }
        }
        let args = match self.parse_inst_args() {
            Ok(v) => v,
            Err(x) => return Err(x),
        };
        proof {
            if ca {
                lemma_punct_chars();
                Parser::lemma_args_shift(sv, 0, o, 2, ck, args@);
                Parser::lemma_peek_shift(sv, 0, o, 2);
                assert(sv.punct_at(2 * ck - 1, ")"@));
                assert(self.cur_tok() == sv.peek_tok(2 * ck - 1));
                assert forall|k: int| #[trigger] o.name_args_at(2, k) implies k == ck by {
                    o.lemma_name_args_unique(2, k, ck);
                }
            }
        }
        match self.expect_punct(")") {
            Ok(()) => {},
            Err(x) => return Err(x),
        }
        Ok((callee, call_params, args))
    }

    /// A name with an optional lane selection and an optional `.side` (refused when
    /// `allow_side` is false).
    fn parse_ref(&mut self, allow_side: bool) -> (r: RvResult<Endpoint>)
        requires
            old(self).wf(),
        ensures
            final(self).wf(),
            final(self).same_ctx(old(self)),
            r matches Ok(ep) ==> final(self).i > old(self).i && (ep matches Endpoint::Ref { name, side, .. }
                && name@ == old(self).cur_tok().s && (side ==> allow_side)),
            old(self).bare_ident() ==> (r matches Ok(Endpoint::Ref { name, side, sel }) && name@ == old(self).cur_tok().s
                && !side && sel is All) && final(self).i == old(self).i + 1,
    {
        let name = match self.expect_ident("element chunk or endpoint") {
            Ok(n) => n,
            Err(x) => return Err(x),
        };
        assert(old(self).bare_ident() ==> self.cur_tok() == old(self).peek_tok(1));
        let sel = match self.parse_sel() {
            Ok(s) => s,
            Err(x) => return Err(x),
        };
        let mut side = false;
        if self.is_punct(".") {
            let ln = self.cur().line;
            self.bump();
            let suf = match self.expect_ident("terminal name after '.'") {
                Ok(n) => n,
                Err(x) => return Err(x),
            };
            if !str_eq(suf.as_str(), "side") {
                return fail(ln, cat3("unknown terminal '.", suf.as_str(), "' (only '.side' is supported)"));
            }
            if !allow_side {
                return fail(ln, own("'.side' cannot appear inside a concatenation '{...}'"));
            }
            side = true;
        }
        Ok(Endpoint::Ref { name, side, sel })
    }

    /// One part of a chain: a reference or a concatenation `{...}` of references.
    fn parse_endpoint(&mut self) -> (r: RvResult<Endpoint>)
        requires
            old(self).wf(),
        ensures
            final(self).wf(),
            final(self).same_ctx(old(self)),
            r is Ok ==> final(self).i > old(self).i,
            r matches Ok(Endpoint::Concat(v)) ==> v@.len() >= 1 && forall|k: int| 0 <= k < v@.len() ==> ((#[trigger] v@[k]) matches Endpoint::Ref { side, .. } && !side),
            old(self).bare_ident() ==> (r matches Ok(Endpoint::Ref { name, side, sel }) && name@ == old(self).cur_tok().s
                && !side && sel is All) && final(self).i == old(self).i + 1,
            old(self).single_concat() ==> (r matches Ok(Endpoint::Concat(v)) && v@.len() == 1 && bare_ref(v@[0], old(self).peek_tok(
                1,
            ).s)) && final(self).i == old(self).i + 3,
    {
        let ghost sc = old(self).single_concat();
        proof {
            lemma_punct_chars();
        }
        if self.is_punct("{") {
            let ln = self.cur().line;
            self.bump();
            assert(sc ==> self.i == old(self).i + 1 && self.cur_tok() == old(self).peek_tok(1) && self.peek_tok(1) == old(self).peek_tok(2));
            if self.is_punct("}") {
                return fail(ln, own("empty concatenation '{}' is not allowed"));
            }
            let mut elems: Vec<Endpoint> = Vec::new();
            loop
                invariant_except_break
                    sc ==> elems@.len() == 0 && self.i == old(self).i + 1 && self.cur_tok() == old(self).peek_tok(1)
                        && self.peek_tok(1) == old(self).peek_tok(2),
                invariant
                    sc == old(self).single_concat(),
                    self.wf(),
                    self.same_ctx(old(self)),
                    self.i > old(self).i,
                    !old(self).bare_ident(),
                    forall|k: int| 0 <= k < elems@.len() ==> ((#[trigger] elems@[k]) matches Endpoint::Ref { side, .. } && !side),
                ensures
                    sc ==> elems@.len() == 1 && bare_ref(elems@[0], old(self).peek_tok(1).s) && self.i == old(self).i + 2
                        && self.cur_tok() == old(self).peek_tok(2),
                    self.wf(),
                    self.same_ctx(old(self)),
                    self.i > old(self).i,
                    elems@.len() >= 1,
                    forall|k: int| 0 <= k < elems@.len() ==> ((#[trigger] elems@[k]) matches Endpoint::Ref { side, .. } && !side),
                decreases self.toks@.len() - self.i,
            {
                if self.is_punct("{") {
                    return fail(self.cur().line, own("nested concatenation '{...}' is not allowed"));
                }
                proof {
                    if sc {
                        lemma_punct_chars();
                        assert(self.bare_ident());
                    }
                }
                match self.parse_ref(false) {
                    Ok(e) => elems.push(e),
                    Err(x) => return Err(x),
                }
                assert(sc ==> self.cur_tok() == old(self).peek_tok(2));
                if self.is_punct(",") {
                    self.bump();
                    continue;
                }
                break;
            }
            match self.expect_punct("}") {
                Ok(()) => {},
                Err(x) => return Err(x),
            }
            return Ok(Endpoint::Concat(elems));
        }
        self.parse_ref(true)
    }

    // ---- logic ------------------------------------------------------------

    /// Refuses a reg, wire or port name that reads as an element sequence.
    fn check_decl_name(&self, name: &str, kind: &str, line: i32) -> (r: RvResult<()>)
        ensures
            r is Ok <==> !crate::interp::collides_chars(name@),
            r matches Err(e) ==> e@ == line_err(line, collision_msg(kind@, name@)),
    {
        if crate::interp::name_collides_with_element(name) {
            let m = cat4(kind, " name '", name, "' collides with an element name (e.g. 'd', 'r', 'cd'); pick a name that is not an element sequence");
            return fail(line, m);
        }
        Ok(())
    }

    /// One statement of a logic body, appended to `stmts` (a reg declaration list gives
    /// one statement per name).
    #[verifier::loop_isolation(false)]
    #[verifier::rlimit(40)]
    fn parse_logic_stmt(&mut self, stmts: &mut Vec<LogicStmt>) -> (r: RvResult<()>)
        requires
            old(self).wf(),
        ensures
            final(self).wf(),
            final(self).same_ctx(old(self)),
            r is Ok ==> final(self).i > old(self).i && final(stmts)@.len() > old(stmts)@.len()
                && final(stmts)@.subrange(0, old(stmts)@.len() as int) == old(stmts)@
                && forall|k: int| old(stmts)@.len() <= k < final(stmts)@.len() ==> logic_stmt_ok(#[trigger] final(stmts)@[k]),
            old(self).bare_instance() ==> r is Ok && final(self).i == old(self).i + 8 && final(stmts)@.len() == old(stmts)@.len() + 1
                && (final(stmts)@.last() matches LogicStmt::Instance { outputs, callee, args, params, .. } && outputs@.len() == 1
                && callee@ == old(self).peek_tok(4).s && args@.len() == 0 && params@.len() == 0),
            forall|k: int| #[trigger] old(self).reg_plain_list(k) ==> r is Ok && final(self).i == old(self).i + 2 * k + 1
                && final(stmts)@.len() == old(stmts)@.len() + k && forall|m: int| 0 <= m < k ==> (#[trigger] final(stmts)@[old(
                stmts)@.len() + m] matches LogicStmt::DeclReg { line, name, qual, init, width } && line == old(self).cur_tok().line
                && name@ == old(self).peek_tok(1 + 2 * m).s && qual == Qual::Plain && init is None && width is None),
            (old(self).qual_reg_strength("mutable"@) || old(self).qual_reg_strength("const"@)) ==> r is Ok && final(self).i
                == old(self).i + 6 && final(stmts)@.len() == old(stmts)@.len() + 1 && (final(stmts)@.last() matches LogicStmt::DeclReg {
                line,
                name,
                qual,
                init: Some(ri),
                width,
            } && line == old(self).cur_tok().line && name@ == old(self).peek_tok(2).s && qual == (if old(self).qual_reg_strength(
                "mutable"@,
            ) {
                Qual::Mutable
            } else {
                Qual::Const
            }) && ri.strength == old(self).peek_tok(4).num as i32 && ri.tok is None && width is None),
            forall|n: int| #[trigger] old(self).bare_chain(n) ==> if old(self).punct_at(2 * n - 1, ";"@) {
                r is Ok && final(self).i == old(self).i + 2 * n && final(stmts)@.len() == old(stmts)@.len() + 1
                    && old(self).bare_chain_stmt(n, final(stmts)@.last())
            } else {
                r matches Err(e) && e.line == old(self).peek_tok(2 * n - 1).line && e.col == old(self).peek_tok(2 * n - 1).col && e.len == caret_len(old(self).peek_tok(2 * n - 1))
                    && e.msg@ == "expected ';'"@
            },
            forall|k: int| #[trigger] old(self).wire_list(k) ==> r is Ok && final(self).i == old(self).i + 2 * k + 1
                && final(stmts)@.len() == old(stmts)@.len() + 1 && (final(stmts)@.last() matches LogicStmt::DeclWire { line, names }
                && line == old(self).cur_tok().line && names@.len() == k && forall|m: int| 0 <= m < k ==> (#[trigger] names@[m])@
                == old(self).peek_tok(1 + 2 * m).s),
            forall|k: int| #[trigger] old(self).named_instance(k) ==> r is Ok && final(self).i == old(self).i + 2 * k + 7
                && final(stmts)@.len() == old(stmts)@.len() + 1 && (final(stmts)@.last() matches LogicStmt::Instance {
                outputs,
                callee,
                args,
                params,
                ..
            } && outputs@.len() == 1 && callee@ == old(self).peek_tok(4).s && old(self).name_args_read(6, k, args@) && params@.len() == 0),
            old(self).reg_collides() ==> (r matches Err(x) && x@ == line_err(old(self).cur_tok().line as i32, collision_msg("reg"@, old(
                self,
            ).peek_tok(1).s))),
            old(self).wire_collides() ==> (r matches Err(x) && x@ == line_err(old(self).cur_tok().line as i32, collision_msg("wire"@, old(
                self,
            ).peek_tok(1).s))),
            r is Err ==> final(stmts)@.len() >= old(stmts)@.len() && final(stmts)@.subrange(0, old(stmts)@.len() as int) == old(stmts)@,
            (r is Err && !old(self).reg_head()) ==> final(stmts)@ == old(stmts)@,
            old(self).concat_mid_chain() ==> (r matches Err(e) && e.line == old(self).cur_tok().line && e.col == 0 && e.len == 0
                && e.msg@ == "a lane/slice index, '.side', or concatenation '{...}' cannot appear on a mid-chain chunk (only the two endpoints can)"@),
    {
        let ghost s0 = stmts@;
        let ghost o = *old(self);
        let ghost bare = o.bare_instance();
        let ghost rl = exists|k: int| o.reg_plain_list(k);
        let ghost nn = choose|k: int| o.reg_plain_list(k);
        let ghost qm = o.qual_reg_strength("mutable"@);
        let ghost qs = o.qual_reg_strength("mutable"@) || o.qual_reg_strength("const"@);
        let ghost qv = if qm { Qual::Mutable } else { Qual::Const };
        let ghost bc = exists|n: int| o.bare_chain(n);
        let ghost cn = choose|n: int| o.bare_chain(n);
        let ghost cm = o.concat_mid_chain();
        let ghost wl = exists|k: int| o.wire_list(k);
        let ghost wk = choose|k: int| o.wire_list(k);
        proof {
            if wl {
                reveal_strlit("reg");
                reveal_strlit("wire");
                reveal_strlit("const");
                reveal_strlit("mutable");
                lemma_punct_chars();
                assert(o.peek_tok(0) == o.cur_tok());
                assert(o.cur_tok().s[0] == 'w');
                assert("reg"@[0] == 'r' && "const"@[0] == 'c' && "mutable"@[0] == 'm');
                assert(o.reg_name_ok(0));
                assert(o.i + 2 * wk < o.toks@.len() - 1);
                assert forall|k: int| #[trigger] o.wire_list(k) implies k == wk by {
                    o.lemma_wire_list_unique(k, wk);
                }
                assert(!bare);
                assert(!rl);
                assert(!qs);
                assert(!bc) by {
                    if bc {
                        assert(o.chain_dash(0));
                    }
                }
                assert(!cm);
            }
        }
        proof {
            if cm {
                lemma_punct_chars();
                assert(o.peek_tok(0) == o.cur_tok());
                assert(!bare);
                assert(!rl);
                assert(!qs);
                assert(!bc) by {
                    if bc {
                        assert(o.chain_name(1));
                    }
                }
            }
        }
        proof {
            if bc {
                lemma_punct_chars();
                assert(o.chain_name(0));
                assert(o.chain_dash(0));
                assert(o.peek_tok(0) == o.cur_tok());
                assert(o.cur_tok().k == Tk::Ident);
                assert forall|n: int| #[trigger] o.bare_chain(n) implies n == cn by {
                    o.lemma_bare_chain_unique(n, cn);
                }
                assert(!bare);
                assert(!rl);
                assert(!qs);
            }
        }
        proof {
            if qs {
                reveal_strlit("reg");
                reveal_strlit("wire");
                reveal_strlit("const");
                reveal_strlit("mutable");
                lemma_punct_chars();
                assert("wire"@[0] == 'w' && "const"@[0] == 'c' && "mutable"@[0] == 'm' && "reg"@[0] == 'r');
                assert(o.peek_tok(0) == o.cur_tok());
                assert(o.i + 5 < o.toks@.len() - 1);
            }
        }
        proof {
            if rl {
                reveal_strlit("reg");
                reveal_strlit("wire");
                reveal_strlit("const");
                reveal_strlit("mutable");
                assert(o.cur_tok().s[0] == 'r');
                assert("wire"@[0] == 'w' && "const"@[0] == 'c' && "mutable"@[0] == 'm');
                assert(o.i + 2 * nn < o.toks@.len() - 1);
                assert(o.reg_name_ok(0));
                assert forall|k: int| #[trigger] o.reg_plain_list(k) implies k == nn by {
                    o.lemma_reg_list_unique(k, nn);
                }
            }
        }
        let ghost rc = o.reg_collides();
        let ghost wc = o.wire_collides();
        proof {
            reveal_strlit("reg");
            reveal_strlit("wire");
            reveal_strlit("const");
            reveal_strlit("mutable");
            assert("wire"@[0] == 'w' && "const"@[0] == 'c' && "mutable"@[0] == 'm' && "reg"@[0] == 'r');
            assert(o.peek_tok(0) == o.cur_tok());
            if rc || wc {
                lemma_punct_chars();
                assert(!rl) by {
                    if rl {
                        assert(o.reg_name_ok(0));
                    }
                }
                assert(!wl) by {
                    if wl {
                        assert(o.reg_name_ok(0));
                    }
                }
                assert(!bc) by {
                    if bc {
                        assert(o.chain_dash(0));
                    }
                }
                assert(!cm);
                assert(!qs);
                assert(!bare);
            }
        }
        let ghost ni = exists|k: int| o.named_instance(k);
        let ghost nk = choose|k: int| o.named_instance(k);
        proof {
            lemma_punct_chars();
            if bare {
                assert(o.peek_tok(0) == o.cur_tok());
                assert(o.i + 7 < o.toks@.len());
            }
            if ni {
                assert(o.peek_tok(0) == o.cur_tok());
                assert(o.arg_name(6, 0));
                assert(o.i + 6 < o.toks@.len() - 1);
                assert(!bare);
                assert forall|k: int| #[trigger] o.named_instance(k) implies k == nk by {
                    o.lemma_name_args_unique(6, k, nk);
                }
            }
        }
        let ln = self.cur().line;
        if self.is_punct("(") {
            assert(!bc && !cm && !wl);
            let outputs = match self.parse_target_tuple("logic instance output (reg/port name)") {
                Ok(v) => v,
                Err(x) => return Err(x),
            };
            assert(bare ==> self.i == o.i + 3 && self.cur_tok() == o.peek_tok(3));
            assert(ni ==> self.i == o.i + 3 && self.cur_tok() == o.peek_tok(3));
            match self.expect_punct("=") {
                Ok(()) => {},
                Err(x) => return Err(x),
            }
            let ghost sv4 = *self;
            proof {
                if ni {
                    assert(self.i == o.i + 4);
                    Parser::lemma_args_shift(*self, 2, o, 6, nk, seq![]);
                    Parser::lemma_peek_shift(*self, 0, o, 4);
                    assert(self.peek_tok(0) == o.peek_tok(4));
                    assert(self.peek_tok(1) == o.peek_tok(5));
                    assert(self.ident_at(0) && self.punct_at(1, "("@));
                }
            }
            assert(bare ==> self.i == o.i + 4 && self.cur_tok() == o.peek_tok(4) && self.peek_tok(1) == o.peek_tok(5)
                && self.peek_tok(2) == o.peek_tok(6) && self.ident_at(0) && self.punct_at(1, "("@) && self.punct_at(2, ")"@));
            let (callee, call_params, args) = match self.parse_callee_invocation() {
                Ok(c) => c,
                Err(x) => return Err(x),
            };
            assert(bare ==> self.i == o.i + 7 && self.cur_tok() == o.peek_tok(7));
            proof {
                if ni {
                    Parser::lemma_args_shift(sv4, 2, o, 6, nk, args@);
                    assert(self.i == o.i + 2 * nk + 6);
                    assert(self.cur_tok() == o.peek_tok(2 * nk + 6));
                    assert(callee@ == o.peek_tok(4).s);
                }
            }
            match self.expect_punct(";") {
                Ok(()) => {},
                Err(x) => return Err(x),
            }
            stmts.push(LogicStmt::Instance { line: ln, outputs, callee, args, params: call_params });
            proof {
                assert(stmts@.subrange(0, s0.len() as int) =~= s0);
            }
            return Ok(());
        }
        if self.is_ident("wire") {
            assert(!bc && !cm);
            self.bump();
            assert(wl ==> self.i == o.i + 1 && self.cur_tok() == o.peek_tok(1));
            let first = match self.expect_ident("wire name") {
                Ok(n) => n,
                Err(x) => return Err(x),
            };
            let mut names: Vec<String> = Vec::new();
            names.push(first);
            while self.is_punct(",")
                invariant
                    self.wf(),
                    self.same_ctx(old(self)),
                    self.i > old(self).i,
                    names@.len() >= 1,
                    wl ==> names@.len() <= wk && self.i == o.i + 2 * names@.len() && forall|m: int| 0 <= m < names@.len()
                        ==> (#[trigger] names@[m])@ == o.peek_tok(1 + 2 * m).s,
                    wc ==> names@.len() == 1 && names@[0]@ == o.peek_tok(1).s && self.i == o.i + 2,
                decreases self.toks@.len() - self.i,
            {
                let ghost nl: int = names@.len() as int;
                proof {
                    if wc {
                        lemma_punct_chars();
                        assert(self.cur_tok() == o.peek_tok(2));
                    }
                    if wl {
                        lemma_punct_chars();
                        assert(self.cur_tok() == o.peek_tok(2 * nl));
                        if nl == wk {
                            assert(false);
                        }
                        assert(o.reg_name_ok(nl));
                    }
                }
                self.bump();
                assert(wl ==> self.cur_tok() == o.peek_tok(1 + 2 * nl));
                let ghost nb = names@;
                match self.expect_ident("wire name") {
                    Ok(n) => names.push(n),
                    Err(x) => return Err(x),
                }
                proof {
                    if wl {
                        assert forall|m: int| 0 <= m < names@.len() implies (#[trigger] names@[m])@ == o.peek_tok(1 + 2 * m).s by {
                            if m < nl {
                                assert(names@[m] == nb[m]);
                            }
                        }
                    }
                }
            }
            proof {
                if wl {
                    lemma_punct_chars();
                    let nl: int = names@.len() as int;
                    if nl < wk {
                        assert(o.reg_comma(nl - 1));
                        assert(2 + 2 * (nl - 1) == 2 * nl);
                        assert(self.cur_tok() == o.peek_tok(2 * nl));
                        assert(false);
                    }
                    assert(self.cur_tok() == o.peek_tok(2 * wk));
                    assert forall|m: int| 0 <= m < names@.len() implies !crate::interp::collides_chars((#[trigger] names@[m])@) by {
                        assert(o.reg_name_ok(m));
                    }
                }
            }
            let mut k: usize = 0;
            while k < names.len()
                invariant
                    self.wf(),
                    self.same_ctx(old(self)),
                    self.i > old(self).i,
                    k <= names@.len(),
                    forall|j: int| 0 <= j < k ==> !crate::interp::collides_chars((#[trigger] names@[j])@),
                    wc ==> k == 0 && names@.len() == 1 && names@[0]@ == o.peek_tok(1).s,
                decreases names@.len() - k,
            {
                match self.check_decl_name(names[k].as_str(), "wire", ln) {
                    Ok(()) => {},
                    Err(x) => return Err(x),
                }
                k += 1;
            }
            match self.expect_punct(";") {
                Ok(()) => {},
                Err(x) => return Err(x),
            }
            stmts.push(LogicStmt::DeclWire { line: ln, names });
            proof {
                assert(stmts@.subrange(0, s0.len() as int) =~= s0);
            }
            return Ok(());
        }
        let mut qual = Qual::Plain;
        if self.is_ident("const") {
            qual = Qual::Const;
            self.bump();
        } else if self.is_ident("mutable") {
            let p1 = self.peek(1);
            if p1.k == Tk::Ident && str_eq(p1.s.as_str(), "reg") {
                qual = Qual::Mutable;
                self.bump();
            }
        }
        assert((bc || cm) ==> self.i == o.i && qual == Qual::Plain);
        if self.is_ident("reg") {
            assert(!bare) by {
                assert(o.peek_tok(0) == o.cur_tok());
            }
            assert(!bc && !cm && !wl);
            assert(o.reg_head()) by {
                assert(o.peek_tok(0) == o.cur_tok());
            }
            self.bump();
            assert(rl ==> self.i == o.i + 1 && self.cur_tok() == o.peek_tok(1) && qual == Qual::Plain);
            assert(rc ==> self.i == o.i + 1 && self.cur_tok() == o.peek_tok(1) && qual == Qual::Plain);
            assert(qs ==> self.i == o.i + 2 && self.cur_tok() == o.peek_tok(2) && qual == qv);
            let width = match self.parse_width_expr("reg[") {
                Ok(w) => w,
                Err(x) => return Err(x),
            };
            assert(rl ==> width is None && self.i == o.i + 1);
            assert(rc ==> self.i == o.i + 1 && self.cur_tok() == o.peek_tok(1));
            assert(qs ==> width is None && self.i == o.i + 2);
            #[verifier::loop_isolation(true)]
            loop
                invariant_except_break
                    rl ==> stmts@.len() - s0.len() < nn && self.i == o.i + 1 + 2 * (stmts@.len() - s0.len()),
                    qs ==> stmts@.len() == s0.len() && self.i == o.i + 2,
                    rc ==> stmts@.len() == s0.len() && self.i == o.i + 1 && self.cur_tok() == o.peek_tok(1),
                invariant
                    qs == (o.qual_reg_strength("mutable"@) || o.qual_reg_strength("const"@)),
                    qm == o.qual_reg_strength("mutable"@),
                    qv == (if qm { Qual::Mutable } else { Qual::Const }),
                    qs ==> width is None && qual == qv && o.i + 5 < o.toks@.len() - 1,
                    rl == exists|k: int| o.reg_plain_list(k),
                    ln == o.cur_tok().line,
                    rl ==> o.reg_plain_list(nn) && o.i + 2 * nn < o.toks@.len() - 1 && width is None && qual == Qual::Plain,
                    rl ==> forall|m2: int| 0 <= m2 < stmts@.len() - s0.len() ==> ((#[trigger] stmts@[s0.len() + m2] matches LogicStmt::DeclReg {
                        line,
                        name,
                        qual,
                        init,
                        width,
                    } && line == o.cur_tok().line && name@ == o.peek_tok(1 + 2 * m2).s && qual == Qual::Plain && init is None && width is None)),
                    o == *old(self),
                    !o.bare_instance(),
                    !bc,
                    forall|n: int| !#[trigger] old(self).bare_chain(n),
                    forall|k: int| !#[trigger] old(self).wire_list(k),
                    old(self).reg_head(),
                    s0 == old(stmts)@,
                    !old(self).wire_collides(),
                    rc == old(self).reg_collides(),
                    !old(self).concat_mid_chain(),
                    self.wf(),
                    self.same_ctx(old(self)),
                    self.i > old(self).i,
                    stmts@.len() >= s0.len(),
                    stmts@.subrange(0, s0.len() as int) == s0,
                    forall|k: int| s0.len() <= k < stmts@.len() ==> logic_stmt_ok(#[trigger] stmts@[k]),
                ensures
                    qs ==> stmts@.len() == s0.len() + 1 && self.i == o.i + 5 && (stmts@.last() matches LogicStmt::DeclReg {
                        line,
                        name,
                        qual,
                        init: Some(ri),
                        width,
                    } && line == o.cur_tok().line && name@ == o.peek_tok(2).s && qual == qv && ri.strength == o.peek_tok(4).num as i32
                        && ri.tok is None && width is None),
                    rl ==> stmts@.len() - s0.len() == nn && self.i == o.i + 2 * nn,
                    !rc,
                    rl ==> forall|m2: int| 0 <= m2 < stmts@.len() - s0.len() ==> ((#[trigger] stmts@[s0.len() + m2] matches LogicStmt::DeclReg {
                        line,
                        name,
                        qual,
                        init,
                        width,
                    } && line == o.cur_tok().line && name@ == o.peek_tok(1 + 2 * m2).s && qual == Qual::Plain && init is None && width is None)),
                    self.wf(),
                    self.same_ctx(old(self)),
                    self.i > old(self).i,
                    stmts@.len() > s0.len(),
                    stmts@.subrange(0, s0.len() as int) == s0,
                    forall|k: int| s0.len() <= k < stmts@.len() ==> logic_stmt_ok(#[trigger] stmts@[k]),
                decreases self.toks@.len() - self.i,
            {
                let ghost m = stmts@.len() - s0.len();
                proof {
                    if rl {
                        lemma_punct_chars();
                        assert(o.reg_name_ok(m));
                        assert(self.cur_tok() == o.peek_tok(1 + 2 * m));
                        if m < nn - 1 {
                            assert(o.reg_comma(m));
                        }
                        assert(self.peek_tok(1) == o.peek_tok(2 + 2 * m));
                    }
                }
                proof {
                    lemma_punct_chars();
                    if qs {
                        assert(self.cur_tok() == o.peek_tok(2));
                        assert(self.peek_tok(1) == o.peek_tok(3));
                    }
                }
                let name = match self.expect_ident("reg name") {
                    Ok(n) => n,
                    Err(x) => return Err(x),
                };
                assert(qs ==> self.i == o.i + 3 && self.cur_tok() == o.peek_tok(3));
                match self.check_decl_name(name.as_str(), "reg", ln) {
                    Ok(()) => {},
                    Err(x) => return Err(x),
                }
                let mut init: Option<RegInit> = None;
                if self.is_punct("=") {
                    self.bump();
                    assert(qs ==> self.i == o.i + 4 && self.cur_tok() == o.peek_tok(4));
                    let mut strength: i32 = -1;
                    if self.cur().k == Tk::Num {
                        strength = #[verifier::truncate] (self.cur().num as i32);
                        self.bump();
                    }
                    assert(qs ==> self.i == o.i + 5 && self.cur_tok() == o.peek_tok(5) && strength == o.peek_tok(4).num as i32
                        && strength >= 0);
                    let tok = if strength >= 0 && self.cur().k != Tk::Ident {
                        None
                    } else {
                        match self.expect_ident("element") {
                            Ok(t) => Some(t),
                            Err(x) => return Err(x),
                        }
                    };
                    init = Some(RegInit { strength, tok });
                }
                if width.is_some() && qual != Qual::Plain {
                    return fail(ln, own("a bus reg must be plain (const not supported yet)"));
                }
                let w2 = match &width {
                    Some(w) => Some(w.clone()),
                    None => None,
                };
                let ghost before = stmts@;
                stmts.push(LogicStmt::DeclReg { line: ln, name, qual, init, width: w2 });
                proof {
                    assert(stmts@.subrange(0, s0.len() as int) =~= before.subrange(0, s0.len() as int));
                    if rl {
                        assert(init is None);
                        assert(w2 is None);
                        assert(name@ == o.peek_tok(1 + 2 * m).s);
                        assert(ln == o.cur_tok().line);
                        assert forall|m2: int| 0 <= m2 < stmts@.len() - s0.len() implies ((#[trigger] stmts@[s0.len() + m2] matches LogicStmt::DeclReg {
                            line,
                            name,
                            qual,
                            init,
                            width,
                        } && line == o.cur_tok().line && name@ == o.peek_tok(1 + 2 * m2).s && qual == Qual::Plain && init is None && width is None)) by {
                            if m2 < m {
                                assert(stmts@[s0.len() + m2] == before[s0.len() + m2]);
                            }
                        }
                    }
                }
                if self.is_punct(",") {
                    self.bump();
                    continue;
                }
                break;
            }
            match self.expect_punct(";") {
                Ok(()) => {},
                Err(x) => return Err(x),
            }
            return Ok(());
        }
        if qual != Qual::Plain {
            return fail(ln, own("'const' must be followed by 'reg'"));
        }
        proof {
            if bc || cm {
                assert(o.bare_ident());
            }
        }
        let head = match self.parse_endpoint() {
            Ok(e) => e,
            Err(x) => return Err(x),
        };
        assert(bc ==> self.i == o.i + 1 && self.cur_tok() == o.peek_tok(1) && bare_ref(head, o.cur_tok().s));
        if self.is_punct("-") {
            let mut parts: Vec<Endpoint> = Vec::new();
            parts.push(head);
            while self.is_punct("-")
                invariant
                    self.wf(),
                    self.same_ctx(old(self)),
                    self.i > old(self).i,
                    parts@.len() >= 1,
                    bc ==> 1 <= parts@.len() <= cn && self.i == o.i + 2 * parts@.len() - 1 && forall|m: int|
                        0 <= m < parts@.len() ==> bare_ref(#[trigger] parts@[m], o.peek_tok(2 * m).s),
                    cm ==> (parts@.len() == 1 && self.i == o.i + 1) || (parts@.len() == 2 && self.i == o.i + 5 && parts@[1] is Concat)
                        || (parts@.len() == 3 && self.i == o.i + 7 && parts@[1] is Concat),
                decreases self.toks@.len() - self.i,
            {
                let ghost np: int = parts@.len() as int;
                proof {
                    if cm {
                        lemma_punct_chars();
                        assert(self.cur_tok() == o.peek_tok(self.i - o.i));
                        if np == 3 {
                            assert(self.cur_tok() == o.peek_tok(7));
                            assert(false);
                        }
                    }
                }
                proof {
                    if bc {
                        lemma_punct_chars();
                        assert(self.cur_tok() == o.peek_tok(2 * np - 1));
                        if np == cn {
                            assert(false);
                        }
                        assert(o.chain_name(np));
                        if np + 1 < cn {
                            assert(o.chain_dash(np));
                        }
                        assert(o.peek_tok(2 * np + 1) == o.peek_tok(2 * cn - 1) || o.chain_dash(np));
                    }
                }
                self.bump();
                proof {
                    if bc {
                        assert(self.cur_tok() == o.peek_tok(2 * np));
                        assert(self.peek_tok(1) == o.peek_tok(2 * np + 1));
                        assert(self.bare_ident());
                    }
                    if cm {
                        if np == 1 {
                            assert(self.cur_tok() == o.peek_tok(2));
                            assert(self.peek_tok(1) == o.peek_tok(3));
                            assert(self.peek_tok(2) == o.peek_tok(4));
                            assert(self.single_concat());
                        } else {
                            assert(self.cur_tok() == o.peek_tok(6));
                            assert(self.peek_tok(1) == o.peek_tok(7));
                            assert(self.bare_ident());
                        }
                    }
                }
                let ghost before = parts@;
                match self.parse_endpoint() {
                    Ok(e) => parts.push(e),
                    Err(x) => return Err(x),
                }
                proof {
                    if bc {
                        assert forall|m: int| 0 <= m < parts@.len() implies bare_ref(#[trigger] parts@[m], o.peek_tok(2 * m).s) by {
                            if m < np {
                                assert(parts@[m] == before[m]);
                            }
                        }
                    }
                }
            }
            proof {
                if bc {
                    lemma_punct_chars();
                    let np: int = parts@.len() as int;
                    if np < cn {
                        assert(o.chain_dash(np - 1));
                        assert(2 * (np - 1) + 1 == 2 * np - 1);
                        assert(self.cur_tok() == o.peek_tok(2 * np - 1));
                        assert(false);
                    }
                    assert(self.cur_tok() == o.peek_tok(2 * cn - 1));
                }
                if cm {
                    lemma_punct_chars();
                    assert(self.cur_tok() == o.peek_tok(self.i - o.i));
                    assert(parts@.len() == 3);
                    assert(self.cur_tok() == o.peek_tok(7));
                }
                if bc {
                    reveal_strlit("expected '");
                    reveal_strlit("'");
                    reveal_strlit("expected ';'");
                    assert("expected '"@ + ";"@ + "'"@ =~= "expected ';'"@);
                }
            }
            match self.expect_punct(";") {
                Ok(()) => {},
                Err(x) => return Err(x),
            }
            let n = parts.len();
            if n < 2 {
                return fail(ln, own("a chain needs two endpoints"));
            }
            let mut chunks: Vec<String> = Vec::new();
            let mut k: usize = 1;
            while k + 1 < n
                invariant
                    self.wf(),
                    self.same_ctx(old(self)),
                    self.i > old(self).i,
                    n == parts@.len(),
                    1 <= k < n,
                    chunks@.len() == k - 1,
                    cm ==> k == 1 && n == 3 && parts@[1] is Concat && ln == o.cur_tok().line,
                    bc ==> forall|m: int| 0 <= m < k - 1 ==> (#[trigger] chunks@[m])@ == o.peek_tok(2 * m + 2).s,
                decreases n - k,
            {
                assert(bc ==> bare_ref(parts@[k as int], o.peek_tok(2 * k).s));
                match endpoint_bare_name(&parts[k]) {
                    Some(name) => chunks.push(name),
                    None => {
                        return fail(
                            ln,
                            own("a lane/slice index, '.side', or concatenation '{...}' cannot appear on a mid-chain chunk (only the two endpoints can)"),
                        );
                    },
                }
                k += 1;
            }
            let ghost ps = parts@;
            assert(bc ==> bare_ref(ps[0], o.peek_tok(0).s) && bare_ref(ps[n - 1], o.peek_tok(2 * n - 2).s));
            let to = parts.pop().unwrap();
            let from = parts.remove(0);
            stmts.push(LogicStmt::Chain { line: ln, from, to, chunks });
            proof {
                assert(stmts@.subrange(0, s0.len() as int) =~= s0);
                if bc {
                    assert(o.peek_tok(0) == o.cur_tok());
                    assert(o.bare_chain_stmt(cn, stmts@.last()));
                }
            }
            return Ok(());
        }
        let bind_target = match head {
            Endpoint::Ref { name, side, sel } => {
                if side {
                    return fail(ln, own("'.side' is only valid as a chain endpoint"));
                }
                BindTarget::Ref(BindRef { name, sel })
            },
            Endpoint::Concat(elems) => {
                let mut refs: Vec<BindRef> = Vec::new();
                let mut k: usize = 0;
                while k < elems.len()
                    invariant
                        self.wf(),
                        self.same_ctx(old(self)),
                        self.i > old(self).i,
                        k <= elems@.len(),
                    decreases elems@.len() - k,
                {
                    match &elems[k] {
                        Endpoint::Ref { name, sel, .. } => refs.push(BindRef { name: name.clone(), sel: sel.clone() }),
                        Endpoint::Concat(_) => {},
                    }
                    k += 1;
                }
                BindTarget::Concat(refs)
            },
        };
        match self.expect_punct("=") {
            Ok(()) => {},
            Err(x) => return Err(x),
        }
        if self.at_callee_invocation() {
            let (callee, call_params, args) = match self.parse_callee_invocation() {
                Ok(c) => c,
                Err(x) => return Err(x),
            };
            match self.expect_punct(";") {
                Ok(()) => {},
                Err(x) => return Err(x),
            }
            let mut outputs: Vec<BindTarget> = Vec::new();
            outputs.push(bind_target);
            stmts.push(LogicStmt::Instance { line: ln, outputs, callee, args, params: call_params });
            proof {
                assert(stmts@.subrange(0, s0.len() as int) =~= s0);
            }
            return Ok(());
        }
        let (tname, tsel) = match bind_target {
            BindTarget::Ref(r) => (r.name, r.sel),
            BindTarget::Concat(_) => {
                return fail(ln, own("a concatenation '{...}' target must bind a logic call (e.g. '{c, s} = g(x);')"));
            },
        };
        let target = match tsel {
            Sel::All => tname,
            Sel::Lane(_) => {
                return fail(
                    ln,
                    own("cannot assign to a bus lane '[..]'; drive it with a chain (e.g. 'src - a[0];') or bind a logic output (e.g. 'a[0] = g(x);')"),
                );
            },
            Sel::Slice(..) => {
                return fail(
                    ln,
                    own("cannot assign to a bus slice '[..:..]'; drive it with a chain (e.g. 'src - a[3:0];') or bind a logic output (e.g. 'a[3:0] = g(x);')"),
                );
            },
        };
        let st = if self.cur().k == Tk::Num {
            let strength = #[verifier::truncate] (self.cur().num as i32);
            self.bump();
            let rhs = match self.expect_ident("element after signal strength") {
                Ok(t) => t,
                Err(x) => return Err(x),
            };
            LogicStmt::AssignSingle { line: ln, target, strength, rhs }
        } else {
            let first = match self.parse_endpoint() {
                Ok(e) => e,
                Err(x) => return Err(x),
            };
            let mut parts: Vec<(String, bool, Sel)> = Vec::new();
            match endpoint_simple(first, ln) {
                Ok(p) => parts.push(p),
                Err(x) => return Err(x),
            }
            while self.is_punct("-")
                invariant
                    self.wf(),
                    self.same_ctx(old(self)),
                    self.i > old(self).i,
                    parts@.len() >= 1,
                decreases self.toks@.len() - self.i,
            {
                self.bump();
                let e = match self.parse_endpoint() {
                    Ok(e) => e,
                    Err(x) => return Err(x),
                };
                match endpoint_simple(e, ln) {
                    Ok(p) => parts.push(p),
                    Err(x) => return Err(x),
                }
            }
            let mut k: usize = 0;
            while k < parts.len()
                invariant
                    self.wf(),
                    self.same_ctx(old(self)),
                    self.i > old(self).i,
                    k <= parts@.len(),
                decreases parts@.len() - k,
            {
                if !matches!(parts[k].2, Sel::All) {
                    return fail(
                        ln,
                        cat3(
                            "a lane index '[..]' is not allowed on the right-hand side of '='; use a chain to wire a bus lane (e.g. '",
                            parts[k].0.as_str(),
                            "[..] - dst;')",
                        ),
                    );
                }
                k += 1;
            }
            let np = parts.len();
            if np == 1 {
                let (rhs, side, _sel) = parts.pop().unwrap();
                if side {
                    return fail(ln, own("'.side' is only valid as a wire endpoint"));
                }
                LogicStmt::AssignSingle { line: ln, target, strength: -1, rhs }
            } else {
                let mut k: usize = 1;
                while k + 1 < np
                    invariant
                        self.wf(),
                        self.same_ctx(old(self)),
                        self.i > old(self).i,
                        np == parts@.len(),
                        np >= 2,
                        1 <= k < np,
                    decreases np - k,
                {
                    if parts[k].1 {
                        return fail(ln, cat3("'.side' cannot appear on a mid-wire element chunk '", parts[k].0.as_str(), "'"));
                    }
                    k += 1;
                }
                let from = parts[0].0.clone();
                let from_side = parts[0].1;
                let to = parts[np - 1].0.clone();
                let to_side = parts[np - 1].1;
                let mut chunks: Vec<String> = Vec::new();
                let mut k: usize = 1;
                while k + 1 < np
                    invariant
                        self.wf(),
                        self.same_ctx(old(self)),
                        self.i > old(self).i,
                        np == parts@.len(),
                        np >= 2,
                        1 <= k < np,
                    decreases np - k,
                {
                    chunks.push(parts[k].0.clone());
                    k += 1;
                }
                LogicStmt::AssignChain { line: ln, target, from, from_side, to, to_side, chunks }
            }
        };
        match self.expect_punct(";") {
            Ok(()) => {},
            Err(x) => return Err(x),
        }
        stmts.push(st);
        proof {
            assert(stmts@.subrange(0, s0.len() as int) =~= s0);
        }
        Ok(())
    }

    /// The current position starts a logic call `callee (` or `callee #(`.
    fn at_callee_invocation(&self) -> (r: bool)
        requires
            self.wf(),
        ensures
            r == (self.cur_tok().k == Tk::Ident && self.peek_tok(1).k == Tk::Punct && (self.peek_tok(1).s == "("@
                || self.peek_tok(1).s == "#"@)),
    {
        if self.cur().k != Tk::Ident {
            return false;
        }
        let p = self.peek(1);
        p.k == Tk::Punct && (str_eq(p.s.as_str(), "(") || str_eq(p.s.as_str(), "#"))
    }

    /// The ports and body of a logic definition after its name and generic parameters;
    /// the definition is added to the program.
    fn parse_logic_body(&mut self, line: i32, name: String, params: Vec<(String, Option<i64>)>, prog: &mut Program) -> (r: RvResult<()>)
        requires
            old(self).wf(),
            decl_params_distinct(params@),
        ensures
            final(self).wf(),
            final(self).same_ctx(old(self)),
            r is Ok ==> final(self).i > old(self).i,
            r is Ok ==> (final(prog).logics.get_spec(name@) matches Some(d) && d.name@ == name@ && d.line == line
                && logic_def_ok(d)),
            r is Ok ==> forall|k: Seq<char>| k != name@ ==> #[trigger] final(prog).logics.get_spec(k) == old(prog).logics.get_spec(k),
            r is Err ==> final(prog).logics == old(prog).logics,
            final(prog).defines == old(prog).defines,
            final(prog).modules == old(prog).modules,
            final(prog).included_stdlibs == old(prog).included_stdlibs,
            (old(self).punct_at(0, "("@) && old(self).punct_at(1, ")"@) && old(self).punct_at(2, "{"@) && old(self).punct_at(3, "}"@))
                ==> r is Ok && final(self).i == old(self).i + 4 && (final(prog).logics.get_spec(name@) matches Some(d)
                && d.ports@.len() == 0 && d.stmts@.len() == 0 && d.params@ == params@),
            forall|k: int| #[trigger] old(self).body_refused(k) ==> (r matches Err(x) && x@ == old(self).at(3 * k + 2).stmt_refusal()->Some_0),
            forall|m: int| #[trigger] old(self).port_refused(m) ==> (r matches Err(x) && x@ == old(self).port_refusal(m)),
            forall|k: int, n: int| #[trigger] old(self).body_chain_done(k, n) ==> r is Ok && final(self).i == old(self).i + 3 * k + 2 * n + 3
                && (final(prog).logics.get_spec(name@) matches Some(d) && old(self).ports_read(k, d.ports@) && d.stmts@.len() == 1
                && old(self).at(3 * k + 2).bare_chain_stmt(n, d.stmts@[0]) && d.params@ == params@),
    {
        let ghost o = *old(self);
        let ghost bare = o.punct_at(0, "("@) && o.punct_at(1, ")"@) && o.punct_at(2, "{"@) && o.punct_at(3, "}"@);
        let ghost bk = exists|k: int| o.body_refused(k);
        let ghost kk = choose|k: int| o.body_refused(k);
        let ghost pr = exists|m: int| o.port_refused(m);
        let ghost mm = choose|m: int| o.port_refused(m);
        let ghost sp = exists|k: int| o.simple_ports(k);
        let ghost kp = choose|k: int| o.simple_ports(k);
        let ghost bd = exists|k: int, n: int| o.body_chain_done(k, n);
        let ghost kd2 = choose|k: int, n: int| o.body_chain_done(k, n);
        let ghost nd = kd2.1;
        proof {
            if sp {
                lemma_punct_chars();
                assert(o.peek_tok(0) == o.cur_tok());
                assert(o.port_item(0));
                assert(!bare);
                assert(o.i + 3 * kp + 1 < o.toks@.len() - 1);
                assert forall|k: int| #[trigger] o.simple_ports(k) implies k == kp by {
                    o.lemma_simple_ports_unique(k, kp);
                }
            }
            if bd {
                assert(o.simple_ports(kd2.0));
                assert(kd2.0 == kp);
                assert forall|k: int, n: int| #[trigger] o.body_chain_done(k, n) implies k == kp && n == nd by {
                    o.lemma_simple_ports_unique(k, kp);
                    o.at(3 * kp + 2).lemma_bare_chain_unique(n, nd);
                }
            }
        }
        proof {
            lemma_punct_chars();
            if bare {
                assert(o.peek_tok(0) == o.cur_tok());
                assert(o.i + 3 < o.toks@.len());
            }
            if bk {
                assert(o.peek_tok(0) == o.cur_tok());
                assert(o.port_item(0));
                assert(!bare);
                assert(o.i + 3 * kk + 1 < o.toks@.len() - 1);
                assert forall|k: int| #[trigger] o.body_refused(k) implies k == kk by {
                    o.lemma_simple_ports_unique(k, kk);
                }
            }
        }
        let mut ports: Vec<Port> = Vec::new();
        match self.expect_punct("(") {
            Ok(()) => {},
            Err(x) => return Err(x),
        }
        assert(bare ==> self.cur_tok() == o.peek_tok(1));
        assert(bk ==> self.i == o.i + 1 && self.cur_tok() == o.peek_tok(1));
        assert(sp ==> self.i == o.i + 1 && self.cur_tok() == o.peek_tok(1));
        proof {
            if pr {
                lemma_punct_chars();
                assert(o.peek_tok(0) == o.cur_tok());
                assert(o.ident_at(1)) by {
                    if mm > 0 {
                        assert(o.port_item(0));
                    }
                }
                assert(!bare);
                assert(o.i + 2 + 3 * mm < o.toks@.len() - 1);
                assert forall|m: int| #[trigger] o.port_refused(m) implies m == mm by {
                    o.lemma_port_refused_unique(m, mm);
                }
                assert(self.i == o.i + 1 && self.cur_tok() == o.peek_tok(1));
            }
        }
        if !self.is_punct(")") {
            loop
                invariant_except_break
                    bk ==> ports@.len() < kk && self.i == o.i + 1 + 3 * ports@.len(),
                    sp ==> ports@.len() < kp && self.i == o.i + 1 + 3 * ports@.len(),
                    pr ==> ports@.len() <= mm && self.i == o.i + 1 + 3 * ports@.len(),
                invariant
                    pr == exists|m: int| o.port_refused(m),
                    pr ==> o.port_refused(mm) && o.i + 2 + 3 * mm < o.toks@.len() - 1 && forall|m: int| #[trigger] o.port_refused(m) ==> m == mm,
                    sp == exists|k: int| o.simple_ports(k),
                    sp ==> o.simple_ports(kp) && o.i + 3 * kp + 1 < o.toks@.len() - 1,
                    sp ==> forall|m: int| 0 <= m < ports@.len() ==> (#[trigger] ports@[m]).name@ == o.peek_tok(2 + 3 * m).s
                        && ports@[m].input == (o.peek_tok(1 + 3 * m).s == "input"@) && ports@[m].width is None,
                    bk == exists|k: int| o.body_refused(k),
                    bk ==> o.body_refused(kk) && o.i + 3 * kk + 1 < o.toks@.len() - 1,
                    !bare,
                    o == *old(self),
                    bare == (o.punct_at(0, "("@) && o.punct_at(1, ")"@) && o.punct_at(2, "{"@) && o.punct_at(3, "}"@)),
                    self.wf(),
                    self.same_ctx(old(self)),
                    self.i > old(self).i,
                    forall|k: int| 0 <= k < ports@.len() ==> !crate::interp::collides_chars((#[trigger] ports@[k]).name@),
                ensures
                    !pr,
                    sp == exists|k: int| o.simple_ports(k),
                    sp ==> ports@.len() == kp && self.i == o.i + 3 * kp,
                    sp ==> o.simple_ports(kp) && o.i + 3 * kp + 1 < o.toks@.len() - 1,
                    sp ==> forall|m: int| 0 <= m < ports@.len() ==> (#[trigger] ports@[m]).name@ == o.peek_tok(2 + 3 * m).s
                        && ports@[m].input == (o.peek_tok(1 + 3 * m).s == "input"@) && ports@[m].width is None,
                    bk ==> ports@.len() == kk && self.i == o.i + 3 * kk,
                    bk == exists|k: int| o.body_refused(k),
                    bk ==> o.body_refused(kk) && o.i + 3 * kk + 1 < o.toks@.len() - 1,
                    !bare,
                    o == *old(self),
                    bare == (o.punct_at(0, "("@) && o.punct_at(1, ")"@) && o.punct_at(2, "{"@) && o.punct_at(3, "}"@)),
                    self.wf(),
                    self.same_ctx(old(self)),
                    self.i > old(self).i,
                    forall|k: int| 0 <= k < ports@.len() ==> !crate::interp::collides_chars((#[trigger] ports@[k]).name@),
                decreases self.toks@.len() - self.i,
            {
                let ghost np: int = ports@.len() as int;
                proof {
                    if pr {
                        lemma_punct_chars();
                        assert(self.cur_tok() == o.peek_tok(1 + 3 * np));
                        assert(self.peek_tok(1) == o.peek_tok(2 + 3 * np));
                        assert(self.peek_tok(2) == o.peek_tok(3 + 3 * np));
                        if np < mm {
                            assert(o.port_item(np));
                            assert(o.port_comma(np));
                        }
                    }
                    if sp {
                        lemma_punct_chars();
                        assert(o.port_item(np));
                        assert(self.cur_tok() == o.peek_tok(1 + 3 * np));
                        assert(self.peek_tok(1) == o.peek_tok(2 + 3 * np));
                        assert(self.peek_tok(2) == o.peek_tok(3 + 3 * np));
                        if np < kp - 1 {
                            assert(o.port_comma(np));
                        }
                    }
                    if bk {
                        lemma_punct_chars();
                        assert(o.port_item(np));
                        assert(self.cur_tok() == o.peek_tok(1 + 3 * np));
                        assert(self.peek_tok(1) == o.peek_tok(2 + 3 * np));
                        assert(self.peek_tok(2) == o.peek_tok(3 + 3 * np));
                        if np < kk - 1 {
                            assert(o.port_comma(np));
                        }
                    }
                }
                let pl = self.cur().line;
                let pk = match self.expect_ident("'input' or 'output'") {
                    Ok(t) => t,
                    Err(x) => return Err(x),
                };
                let is_in = str_eq(pk.as_str(), "input");
                if !is_in && !str_eq(pk.as_str(), "output") {
                    return fail(pl, own("port must start with 'input' or 'output'"));
                }
                let what = cat2(pk.as_str(), "[");
                let width = match self.parse_width_expr(what.as_str()) {
                    Ok(w) => w,
                    Err(x) => return Err(x),
                };
                let pname = match self.expect_ident("port name") {
                    Ok(n) => n,
                    Err(x) => return Err(x),
                };
                match self.check_decl_name(pname.as_str(), "port", pl) {
                    Ok(()) => {},
                    Err(x) => return Err(x),
                }
                let ghost pb = ports@;
                ports.push(Port { input: is_in, name: pname, line: pl, width });
                assert(bk ==> self.i == o.i + 3 + 3 * np && self.cur_tok() == o.peek_tok(3 + 3 * np));
                assert(sp ==> self.i == o.i + 3 + 3 * np && self.cur_tok() == o.peek_tok(3 + 3 * np));
                proof {
                    if sp {
                        assert forall|m: int| 0 <= m < ports@.len() implies (#[trigger] ports@[m]).name@ == o.peek_tok(2 + 3 * m).s
                            && ports@[m].input == (o.peek_tok(1 + 3 * m).s == "input"@) && ports@[m].width is None by {
                            if m < np {
                                assert(ports@[m] == pb[m]);
                            }
                        }
                    }
                }
                assert(pr ==> np < mm && self.cur_tok() == o.peek_tok(3 + 3 * np));
                if self.is_punct(",") {
                    proof {
                        if sp {
                            lemma_punct_chars();
                            if np == kp - 1 {
                                assert(3 + 3 * np == 3 * kp);
                            }
                        }
                        if bk {
                            lemma_punct_chars();
                            if np == kk - 1 {
                                assert(3 + 3 * np == 3 * kk);
                            }
                        }
                    }
                    self.bump();
                    continue;
                }
                proof {
                    if bk && np < kk - 1 {
                        assert(o.port_comma(np));
                    }
                    if sp && np < kp - 1 {
                        assert(o.port_comma(np));
                    }
                    if pr {
                        assert(o.port_comma(np));
                    }
                }
                break;
            }
        } else {
            assert(!bk);
            assert(!sp);
            assert(!pr);
        }
        proof {
            if bk {
                lemma_punct_chars();
                assert(self.cur_tok() == o.peek_tok(3 * kk));
            }
            if sp {
                lemma_punct_chars();
                assert(self.cur_tok() == o.peek_tok(3 * kp));
            }
        }
        match self.expect_punct(")") {
            Ok(()) => {},
            Err(x) => return Err(x),
        }
        assert(bare ==> self.cur_tok() == o.peek_tok(2) && self.i == o.i + 2 && ports@.len() == 0);
        assert(bk ==> self.i == o.i + 3 * kk + 1 && self.cur_tok() == o.peek_tok(3 * kk + 1));
        assert(sp ==> self.i == o.i + 3 * kp + 1 && self.cur_tok() == o.peek_tok(3 * kp + 1));
        match self.expect_punct("{") {
            Ok(()) => {},
            Err(x) => return Err(x),
        }
        proof {
            if bd {
                o.lemma_at_peek(3 * kp + 2, 0);
                assert(o.at(3 * kp + 2).chain_name(0));
                assert(self.cur_tok() == o.peek_tok(3 * kp + 2));
                assert(self.cur_tok().k == Tk::Ident);
            }
        }
        proof {
            if bk {
                o.lemma_at_peek(3 * kk + 2, 0);
                Parser::lemma_refusal_ident(o.at(3 * kk + 2));
                assert(self.cur_tok() == o.peek_tok(3 * kk + 2));
                assert(self.cur_tok().k == Tk::Ident);
            }
        }
        let mut stmts: Vec<LogicStmt> = Vec::new();
        while !self.is_punct("}")
            invariant
                o == *old(self),
                bare == (o.punct_at(0, "("@) && o.punct_at(1, ")"@) && o.punct_at(2, "{"@) && o.punct_at(3, "}"@)),
                bare ==> self.i == o.i + 3 && self.cur_tok() == o.peek_tok(3) && stmts@.len() == 0 && ports@.len() == 0,
                !pr,
                pr == exists|m: int| o.port_refused(m),
                bk == exists|k: int| o.body_refused(k),
                bk ==> o.body_refused(kk) && self.i == o.i + 3 * kk + 2 && self.cur_tok().k == Tk::Ident,
                bk ==> forall|k: int| #[trigger] o.body_refused(k) ==> k == kk,
                sp ==> o.simple_ports(kp) && o.ports_read(kp, ports@),
                bd == exists|k: int, n: int| o.body_chain_done(k, n),
                bd ==> o.body_chain_done(kp, nd) && ((stmts@.len() == 0 && self.i == o.i + 3 * kp + 2 && self.cur_tok().k == Tk::Ident)
                    || (stmts@.len() == 1 && self.i == o.i + 3 * kp + 2 * nd + 2 && o.at(3 * kp + 2).bare_chain_stmt(nd, stmts@[0]))),
                bd ==> forall|k: int, n: int| #[trigger] o.body_chain_done(k, n) ==> k == kp && n == nd,
                self.wf(),
                self.same_ctx(old(self)),
                self.i > old(self).i,
                forall|k: int| 0 <= k < stmts@.len() ==> logic_stmt_ok(#[trigger] stmts@[k]),
            decreases self.toks@.len() - self.i,
        {
            let ghost st0 = stmts@;
            proof {
                if bk {
                    Parser::lemma_same_refusal(*self, o.at(3 * kk + 2));
                }
            }
            proof {
                if bd {
                    lemma_punct_chars();
                    o.lemma_at_peek(3 * kp + 2, 2 * nd);
                    if stmts@.len() == 1 {
                        assert(self.cur_tok() == o.peek_tok(3 * kp + 2 * nd + 2));
                        assert(false);
                    }
                    Parser::lemma_same_view(*self, o.at(3 * kp + 2));
                    assert(self.bare_chain(nd));
                    assert(self.peek_tok(2 * nd - 1) == o.at(3 * kp + 2).peek_tok(2 * nd - 1));
                    assert(self.punct_at(2 * nd - 1, ";"@));
                }
            }
            let ghost sv = *self;
            let res = self.parse_logic_stmt(&mut stmts);
            proof {
                if bk {
                    Parser::lemma_refused(sv, res);
                }
            }
            match res {
                Ok(()) => {},
                Err(x) => return Err(x),
            }
            proof {
                if bd {
                    Parser::lemma_same_view(sv, o.at(3 * kp + 2));
                    assert(sv.bare_chain_stmt(nd, stmts@.last()));
                    assert(o.at(3 * kp + 2).bare_chain_stmt(nd, stmts@[0]));
                }
            }
            assert(!bk);
            proof {
                assert forall|k: int| 0 <= k < stmts@.len() implies logic_stmt_ok(#[trigger] stmts@[k]) by {
                    if k < st0.len() {
                        assert(stmts@.subrange(0, st0.len() as int)[k] == stmts@[k]);
                    }
                }
            }
        }
        proof {
            if bd {
                if stmts@.len() == 0 {
                    assert(false);
                }
                o.lemma_at_peek(3 * kp + 2, 2 * nd);
            }
        }
        match self.expect_punct("}") {
            Ok(()) => {},
            Err(x) => return Err(x),
        }
        let key = name.clone();
        let ghost nm = name@;
        let d = LogicDef { name, line, ports, stmts, params };
        prog.logics.insert(key, d);
        Ok(())
    }

    /// A logic definition after the `logic` keyword: its name (not defined before), its
    /// optional generic parameters `#(W=4, X)` with constant defaults, its ports and body.
    fn parse_logic(&mut self, prog: &mut Program) -> (r: RvResult<()>)
        requires
            old(self).wf(),
        ensures
            final(self).wf(),
            final(self).toks@ == old(self).toks@,
            final(self).base_dir@ == old(self).base_dir@,
            final(self).consts == old(self).consts,
            final(self).logic_params.items@.len() == 0 || final(self).logic_params == old(self).logic_params,
            r is Ok ==> final(self).i > old(self).i,
            (old(self).cur_tok().k == Tk::Ident && old(prog).logics.has(old(self).cur_tok().s)) ==> (r matches Err(e)
                && e.msg@ == "duplicate logic definition: "@ + old(self).cur_tok().s),
            r is Ok ==> old(self).cur_tok().k == Tk::Ident && !old(prog).logics.has(old(self).cur_tok().s)
                && (final(prog).logics.get_spec(old(self).cur_tok().s) matches Some(d) && logic_def_ok(d) && d.name@
                == old(self).cur_tok().s)
                && forall|k: Seq<char>| k != old(self).cur_tok().s ==> #[trigger] final(prog).logics.get_spec(k)
                    == old(prog).logics.get_spec(k),
            r is Err ==> final(prog).logics == old(prog).logics,
            final(prog).defines == old(prog).defines,
            final(prog).modules == old(prog).modules,
            final(prog).included_stdlibs == old(prog).included_stdlibs,
            forall|k: int| #[trigger] old(self).at(1).body_refused(k) ==> (old(self).ident_at(0) && !old(prog).logics.has(
                old(self).cur_tok().s,
            ) ==> (r matches Err(x) && x@ == old(self).at(1).at(3 * k + 2).stmt_refusal()->Some_0)),
            forall|m: int| #[trigger] old(self).at(1).port_refused(m) ==> (old(self).ident_at(0) && !old(prog).logics.has(
                old(self).cur_tok().s,
            ) ==> (r matches Err(x) && x@ == old(self).at(1).port_refusal(m))),
            forall|k: int, n: int| #[trigger] old(self).at(1).body_chain_done(k, n) ==> (old(self).ident_at(0) && !old(
                prog,
            ).logics.has(old(self).cur_tok().s) ==> r is Ok && final(self).i == old(self).i + 3 * k + 2 * n + 4
                && (final(prog).logics.get_spec(old(self).cur_tok().s) matches Some(d) && old(self).at(1).ports_read(k, d.ports@) && d.stmts@.len() == 1
                && old(self).at(1).at(3 * k + 2).bare_chain_stmt(n, d.stmts@[0]) && d.params@.len() == 0)),
    {
        let ghost o = *old(self);
        let ghost lb = o.ident_at(0) && !old(prog).logics.has(o.cur_tok().s) && exists|k: int| o.at(1).body_refused(k);
        let ghost ld = o.ident_at(0) && !old(prog).logics.has(o.cur_tok().s) && exists|k: int, n: int| o.at(1).body_chain_done(k, n);
        let ghost lp = o.ident_at(0) && !old(prog).logics.has(o.cur_tok().s) && exists|m: int| o.at(1).port_refused(m);
        let line = self.cur().line;
        let name = match self.expect_ident("logic name") {
            Ok(n) => n,
            Err(x) => return Err(x),
        };
        if prog.logics.contains_key(name.as_str()) {
            return fail(line, cat2("duplicate logic definition: ", name.as_str()));
        }
        proof {
            if ld {
                let (k1, n1) = choose|k: int, n: int| o.at(1).body_chain_done(k, n);
                lemma_punct_chars();
                assert(o.peek_tok(0) == o.cur_tok());
                assert(o.at(1).simple_ports(k1));
                assert(o.at(1).punct_at(0, "("@));
                o.lemma_at_peek(1, 0);
                assert(self.cur_tok() == o.peek_tok(1));
            }
            if lp {
                let m1 = choose|m: int| o.at(1).port_refused(m);
                lemma_punct_chars();
                assert(o.peek_tok(0) == o.cur_tok());
                assert(o.at(1).punct_at(0, "("@));
                o.lemma_at_peek(1, 0);
                assert(self.cur_tok() == o.peek_tok(1));
            }
            if lb {
                let k1 = choose|k: int| o.at(1).body_refused(k);
                lemma_punct_chars();
                assert(o.peek_tok(0) == o.cur_tok());
                assert(o.at(1).simple_ports(k1));
                assert(o.at(1).punct_at(0, "("@));
                o.lemma_at_peek(1, 0);
                assert(self.cur_tok() == o.peek_tok(1));
            }
        }
        let mut params: Vec<(String, Option<i64>)> = Vec::new();
        let mut local_params = StrSet::new();
        if self.is_punct("#") {
            assert(!lb);
            assert(!ld);
            assert(!lp);
            self.bump();
            match self.expect_punct("(") {
                Ok(()) => {},
                Err(x) => return Err(x),
            }
            if !self.is_punct(")") {
                loop
                    invariant
                        self.wf(),
                        self.same_ctx(old(self)),
                        self.i > old(self).i,
                        decl_params_distinct(params@),
                        *prog == *old(prog),
                        old(self).cur_tok().k == Tk::Ident,
                        !old(prog).logics.has(old(self).cur_tok().s),
                        !lb,
                        !ld,
                        !lp,
                        lp == (o.ident_at(0) && !old(prog).logics.has(o.cur_tok().s) && exists|m: int| o.at(1).port_refused(m)),
                        ld == (o.ident_at(0) && !old(prog).logics.has(o.cur_tok().s) && exists|k: int, n: int| o.at(1).body_chain_done(k, n)),
                        lb == (o.ident_at(0) && !old(prog).logics.has(o.cur_tok().s) && exists|k: int| o.at(1).body_refused(k)),
                        o == *old(self),
                        forall|q: Seq<char>| local_params.has(q) <==> exists|m: int| 0 <= m < params@.len() && (#[trigger] params@[m]).0@ == q,
                    decreases self.toks@.len() - self.i,
                {
                    let ln = self.cur().line;
                    let pname = match self.expect_ident("logic parameter name") {
                        Ok(n) => n,
                        Err(x) => return Err(x),
                    };
                    if local_params.contains(pname.as_str()) {
                        return fail(ln, cat3("duplicate logic parameter '", pname.as_str(), "' in '#(...)'"));
                    }
                    let default = if self.is_punct("=") {
                        self.bump();
                        let e = match self.parse_expr() {
                            Ok(e) => e,
                            Err(x) => return Err(x),
                        };
                        match self.eval_const(&e) {
                            Ok(v) => Some(v),
                            Err(x) => return Err(x),
                        }
                    } else {
                        None
                    };
                    let ghost pv = pname@;
                    let ghost p0 = params@;
                    local_params.insert(pname.clone());
                    params.push((pname, default));
                    proof {
                        assert forall|a: int, b: int| 0 <= a < b < params@.len() implies (#[trigger] params@[a]).0@ != (#[trigger] params@[b]).0@ by {
                            if b == params@.len() - 1 {
                                assert(params@[a] == p0[a]);
                            } else {
                                assert(params@[a] == p0[a] && params@[b] == p0[b]);
                            }
                        }
                        assert forall|q: Seq<char>| local_params.has(q) <==> exists|m: int| 0 <= m < params@.len() && (#[trigger] params@[m]).0@ == q by {
                            if local_params.has(q) {
                                if q == pv {
                                    assert(params@[params@.len() - 1].0@ == q);
                                } else {
                                    let m = choose|m: int| 0 <= m < p0.len() && (#[trigger] p0[m]).0@ == q;
                                    assert(params@[m] == p0[m]);
                                }
                            }
                            if exists|m: int| 0 <= m < params@.len() && (#[trigger] params@[m]).0@ == q {
                                let m = choose|m: int| 0 <= m < params@.len() && (#[trigger] params@[m]).0@ == q;
                                if m < p0.len() {
                                    assert(params@[m] == p0[m]);
                                }
                            }
                        }
                    }
                    if self.is_punct(",") {
                        self.bump();
                        continue;
                    }
                    break;
                }
            }
            match self.expect_punct(")") {
                Ok(()) => {},
                Err(x) => return Err(x),
            }
        }
        self.logic_params = local_params;
        let ghost sb = *self;
        let result = self.parse_logic_body(line, name, params, prog);
        proof {
            assert forall|k: int| #[trigger] o.at(1).body_refused(k) && o.ident_at(0) && !old(prog).logics.has(o.cur_tok().s) implies (
            result matches Err(x) && x@ == o.at(1).at(3 * k + 2).stmt_refusal()->Some_0) by {
                Parser::lemma_same_body_view(o.at(1), sb, k);
            }
            assert forall|m: int| #[trigger] o.at(1).port_refused(m) && o.ident_at(0) && !old(prog).logics.has(o.cur_tok().s) implies (
            result matches Err(x) && x@ == o.at(1).port_refusal(m)) by {
                Parser::lemma_same_port_view(o.at(1), sb, m);
            }
            assert forall|k: int, n: int| #[trigger] o.at(1).body_chain_done(k, n) && o.ident_at(0) && !old(prog).logics.has(
                o.cur_tok().s,
            ) implies result is Ok && self.i == o.i + 3 * k + 2 * n + 4 && (prog.logics.get_spec(o.cur_tok().s) matches Some(d)
                && o.at(1).ports_read(k, d.ports@) && d.stmts@.len() == 1 && o.at(1).at(3 * k + 2).bare_chain_stmt(n, d.stmts@[0])
                && d.params@.len() == 0) by {
                let d = prog.logics.get_spec(o.cur_tok().s)->Some_0;
                Parser::lemma_same_done_view(o.at(1), sb, k, n, d.ports@, d.stmts@[0]);
            }
        }
        self.logic_params.clear();
        result
    }

    // ---- module -----------------------------------------------------------

    /// The current token is the punctuation `s` one token ahead.
    fn peek_is_punct(&self, s: &str) -> (r: bool)
        requires
            self.wf(),
        ensures
            r == (self.peek_tok(1).k == Tk::Punct && self.peek_tok(1).s == s@),
    {
        let p = self.peek(1);
        p.k == Tk::Punct && str_eq(p.s.as_str(), s)
    }

    /// A module after the `module` keyword: `name { var ...; sim { ... } ... }`; the
    /// module is appended to the program.
    fn parse_module(&mut self, prog: &mut Program) -> (r: RvResult<()>)
        requires
            old(self).wf(),
        ensures
            final(self).wf(),
            final(self).same_ctx(old(self)),
            r is Ok ==> final(self).i > old(self).i,
            r is Ok ==> final(prog).modules@.len() == old(prog).modules@.len() + 1 && final(prog).modules@.drop_last()
                == old(prog).modules@ && final(prog).modules@.last().name@ == old(self).cur_tok().s
                && old(self).cur_tok().k == Tk::Ident,
            r is Err ==> final(prog).modules == old(prog).modules,
            final(prog).defines == old(prog).defines,
            final(prog).logics == old(prog).logics,
            final(prog).included_stdlibs == old(prog).included_stdlibs,
            (old(self).ident_at(0) && old(self).punct_at(1, "("@)) ==> (r matches Err(e) && e.line == old(self).peek_tok(1).line
                && e.col == old(self).peek_tok(1).col && e.len == caret_len(old(self).peek_tok(1)) && e.msg@ == "module takes no arguments; write `module name { ... }`"@),
            (old(self).ident_at(0) && old(self).punct_at(1, "{"@) && old(self).punct_at(2, "}"@)) ==> r is Ok
                && final(self).i == old(self).i + 3 && final(prog).modules@.last().pre@.len() == 0
                && final(prog).modules@.last().sim@.len() == 0,
            forall|k: int| #[trigger] old(self).assign_module(k) ==> r is Ok && final(self).i == old(self).i + 4 * k + 6
                && final(prog).modules@.last().pre@.len() == 0 && final(prog).modules@.last().sim@.len() == k && forall|m: int|
                0 <= m < k ==> old(self).assign_read(4, m, #[trigger] final(prog).modules@.last().sim@[m]),
    {
        let ghost o = *old(self);
        let ghost empty = o.ident_at(0) && o.punct_at(1, "{"@) && o.punct_at(2, "}"@);
        let ghost am = exists|k: int| o.assign_module(k);
        let ghost ak = choose|k: int| o.assign_module(k);
        proof {
            if am {
                lemma_punct_chars();
                reveal_strlit("var");
                reveal_strlit("sim");
                assert("var"@[0] != "sim"@[0]);
                assert(o.i + 5 + 4 * ak < o.toks@.len() - 1 || o.punct_at(5 + 4 * ak, "}"@));
                assert(o.i + 4 + 4 * ak < o.toks@.len() - 1);
                assert(!empty);
                assert forall|k: int| #[trigger] o.assign_module(k) implies k == ak by {
                    o.lemma_assign_module_unique(k, ak);
                }
            }
        }
        proof {
            assert(o.peek_tok(0) == o.cur_tok());
            if empty {
                assert(o.peek_tok(0) == o.cur_tok());
                assert(o.i + 2 < o.toks@.len());
            }
        }
        let line = self.cur().line;
        let name = match self.expect_ident("module name") {
            Ok(n) => n,
            Err(x) => return Err(x),
        };
        assert(o.ident_at(0) ==> self.cur_tok() == o.peek_tok(1));
        if self.is_punct("(") {
            assert(!empty) by {
                reveal_strlit("(");
                reveal_strlit("{");
                assert("("@[0] != "{"@[0]);
            }
            return self.err_cur(own("module takes no arguments; write `module name { ... }`"));
        }
        let ghost paren = o.ident_at(0) && o.punct_at(1, "("@);
        assert(!paren);
        match self.expect_punct("{") {
            Ok(()) => {},
            Err(x) => return Err(x),
        }
        let mut pre: Vec<SimStmt> = Vec::new();
        let mut sim: Vec<SimStmt> = Vec::new();
        while !self.is_punct("}")
            invariant
                self.wf(),
                self.same_ctx(old(self)),
                self.i > old(self).i,
                o == *old(self),
                !paren,
                paren == (o.ident_at(0) && o.punct_at(1, "("@)),
                empty == (o.ident_at(0) && o.punct_at(1, "{"@) && o.punct_at(2, "}"@)),
                empty ==> self.i == o.i + 2 && self.cur_tok() == o.peek_tok(2) && pre@.len() == 0 && sim@.len() == 0,
                am == exists|k: int| o.assign_module(k),
                am ==> o.assign_module(ak) && o.i + 4 + 4 * ak < o.toks@.len() - 1 && pre@.len() == 0 && ((self.i == o.i + 2
                    && sim@.len() == 0) || (self.i == o.i + 4 * ak + 5 && sim@.len() == ak && forall|m: int| 0 <= m < ak
                    ==> o.assign_read(4, m, #[trigger] sim@[m]))),
                am ==> forall|k: int| #[trigger] o.assign_module(k) ==> k == ak,
            decreases self.toks@.len() - self.i,
        {
            proof {
                if am {
                    lemma_punct_chars();
                    if self.i == o.i + 4 * ak + 5 {
                        assert(self.cur_tok() == o.peek_tok(5 + 4 * ak));
                    }
                    assert(self.i == o.i + 2);
                    assert(self.cur_tok() == o.peek_tok(2));
                    assert(self.peek_tok(1) == o.peek_tok(3));
                    reveal_strlit("var");
                    reveal_strlit("sim");
                    assert("var"@[0] != "sim"@[0]);
                    assert(self.cur_tok().s != "var"@);
                }
            }
            if self.is_ident("var") {
                match self.parse_var_decl() {
                    Ok(st) => pre.push(st),
                    Err(x) => return Err(x),
                }
            } else if self.is_ident("sim") {
                let ghost it0 = self.i;
                self.bump();
                assert(am ==> self.i == o.i + 3 && self.cur_tok() == o.peek_tok(3));
                match self.expect_punct("{") {
                    Ok(()) => {},
                    Err(x) => return Err(x),
                }
                while !self.is_punct("}")
                    invariant
                        self.wf(),
                        self.same_ctx(old(self)),
                        self.i > old(self).i,
                        self.i > it0,
                        o == *old(self),
                        !paren,
                        paren == (o.ident_at(0) && o.punct_at(1, "("@)),
                        empty == (o.ident_at(0) && o.punct_at(1, "{"@) && o.punct_at(2, "}"@)),
                        !empty,
                        am == exists|k: int| o.assign_module(k),
                        am ==> o.assign_module(ak) && o.i + 4 + 4 * ak < o.toks@.len() - 1 && pre@.len() == 0 && sim@.len() <= ak
                            && self.i == o.i + 4 + 4 * sim@.len() && forall|m: int| 0 <= m < sim@.len() ==> o.assign_read(
                            4,
                            m,
                            #[trigger] sim@[m],
                        ),
                        am ==> forall|k: int| #[trigger] o.assign_module(k) ==> k == ak,
                    decreases self.toks@.len() - self.i,
                {
                    let ghost ns: int = sim@.len() as int;
                    let ghost sb = sim@;
                    proof {
                        if am {
                            lemma_punct_chars();
                            if ns == ak {
                                assert(self.cur_tok() == o.peek_tok(4 + 4 * ak));
                                assert(false);
                            }
                            assert(o.assign_item(4, ns));
                            Parser::lemma_peek_shift(*self, 0, o, 4 + 4 * ns);
                            assert(self.peek_tok(0) == self.cur_tok());
                            assert(self.peek_tok(1) == o.peek_tok(4 + 4 * ns + 1));
                            assert(self.peek_tok(2) == o.peek_tok(4 + 4 * ns + 2));
                            assert(self.peek_tok(3) == o.peek_tok(4 + 4 * ns + 3));
                            assert(self.plain_assign_then(";"@));
                        }
                    }
                    match self.parse_sim_stmt() {
                        Ok(st) => sim.push(st),
                        Err(x) => return Err(x),
                    }
                    proof {
                        if am {
                            assert(o.assign_read(4, ns, sim@[ns]));
                            assert forall|m: int| 0 <= m < sim@.len() implies o.assign_read(4, m, #[trigger] sim@[m]) by {
                                if m < ns {
                                    assert(sim@[m] == sb[m]);
                                }
                            }
                        }
                    }
                }
                proof {
                    if am {
                        lemma_punct_chars();
                        if sim@.len() < ak {
                            assert(o.assign_item(4, sim@.len() as int));
                            assert(self.cur_tok() == o.peek_tok(4 + 4 * (sim@.len() as int)));
                            assert(false);
                        }
                        assert(self.cur_tok() == o.peek_tok(4 + 4 * ak));
                    }
                }
                match self.expect_punct("}") {
                    Ok(()) => {},
                    Err(x) => return Err(x),
                }
                assert(am ==> self.i == o.i + 4 * ak + 5 && sim@.len() == ak);
            } else {
                return self.err_cur(own("expected 'var' or 'sim' in module body"));
            }
        }
        match self.expect_punct("}") {
            Ok(()) => {},
            Err(x) => return Err(x),
        }
        prog.modules.push(ModuleDef { name, line, pre, sim });
        Ok(())
    }

    /// `var[W] a = e, b, ...;` (the current token is `var`).
    fn parse_var_decl(&mut self) -> (r: RvResult<SimStmt>)
        requires
            old(self).wf(),
            old(self).cur_tok().k == Tk::Ident,
        ensures
            final(self).wf(),
            final(self).same_ctx(old(self)),
            r is Ok ==> final(self).i > old(self).i + 1,
            r matches Ok(st) ==> (st matches SimStmt::DeclVar { line, decls } && line == old(self).cur_tok().line
                && decls@.len() >= 1),
            (old(self).ident_at(1) && old(self).punct_at(2, ";"@)) ==> (r matches Ok(SimStmt::DeclVar { decls, .. })
                && decls@.len() == 1 && decls@[0].0@ == old(self).peek_tok(1).s && decls@[0].1 is None && decls@[0].2 is None)
                && final(self).i == old(self).i + 3,
    {
        let ghost o = *old(self);
        let ghost simple = o.ident_at(1) && o.punct_at(2, ";"@);
        proof {
            if simple {
                assert(o.i + 2 < o.toks@.len());
            }
        }
        let ln = self.cur().line;
        self.bump();
        assert(simple ==> self.cur_tok() == o.peek_tok(1));
        let width = match self.parse_width("var[") {
            Ok(w) => w,
            Err(x) => return Err(x),
        };
        let mut decls: Vec<(String, Option<Expr>, Option<i32>)> = Vec::new();
        loop
            invariant_except_break
                simple ==> self.i == o.i + 1 && decls@.len() == 0 && self.cur_tok() == o.peek_tok(1),
            invariant
                self.wf(),
                self.same_ctx(old(self)),
                self.i > old(self).i,
                o == *old(self),
                simple == (o.ident_at(1) && o.punct_at(2, ";"@)),
                simple ==> width is None,
            ensures
                self.wf(),
                self.same_ctx(old(self)),
                self.i > old(self).i + 1,
                decls@.len() >= 1,
                simple ==> self.i == o.i + 2 && decls@.len() == 1 && decls@[0].0@ == o.peek_tok(1).s && decls@[0].1 is None
                    && decls@[0].2 is None && self.cur_tok() == o.peek_tok(2),
            decreases self.toks@.len() - self.i,
        {
            let n = match self.expect_ident("variable name") {
                Ok(n) => n,
                Err(x) => return Err(x),
            };
            assert(simple ==> self.cur_tok() == o.peek_tok(2) && self.i == o.i + 2);
            let e = if self.is_punct("=") {
                assert(!simple) by {
                    reveal_strlit(";");
                    reveal_strlit("=");
                    assert(";"@[0] != "="@[0]);
                }
                self.bump();
                match self.parse_expr() {
                    Ok(e) => Some(e),
                    Err(x) => return Err(x),
                }
            } else {
                None
            };
            decls.push((n, e, width));
            if self.is_punct(",") {
                assert(!simple) by {
                    reveal_strlit(";");
                    reveal_strlit(",");
                    assert(";"@[0] != ","@[0]);
                }
                self.bump();
                continue;
            }
            break;
        }
        match self.expect_punct(";") {
            Ok(()) => {},
            Err(x) => return Err(x),
        }
        Ok(SimStmt::DeclVar { line: ln, decls })
    }

    /// A braced block of statements, or a single statement.
    fn parse_block_or_single(&mut self) -> (r: RvResult<Vec<SimStmt>>)
        requires
            old(self).wf(),
        ensures
            final(self).wf(),
            final(self).same_ctx(old(self)),
            r is Ok ==> final(self).i > old(self).i,
            r matches Ok(v) ==> forall|k: int| 0 <= k < v@.len() ==> sim_stmt_ok(#[trigger] v@[k]),
            (old(self).punct_at(0, "{"@) && old(self).punct_at(1, "}"@)) ==> (r matches Ok(v) && v@.len() == 0)
                && final(self).i == old(self).i + 2,
        decreases old(self).toks@.len() - old(self).i, 2nat,
    {
        let ghost o = *old(self);
        let mut out: Vec<SimStmt> = Vec::new();
        assert(o.peek_tok(0) == o.cur_tok());
        if self.is_punct("{") {
            self.bump();
            assert(o.punct_at(1, "}"@) ==> self.cur_tok() == o.peek_tok(1));
            while !self.is_punct("}")
                invariant
                    self.wf(),
                    self.same_ctx(old(self)),
                    self.i > old(self).i,
                    forall|k: int| 0 <= k < out@.len() ==> sim_stmt_ok(#[trigger] out@[k]),
                    o == *old(self),
                    o.punct_at(1, "}"@) ==> self.i == o.i + 1 && out@.len() == 0 && self.cur_tok() == o.peek_tok(1),
                decreases self.toks@.len() - self.i,
            {
                match self.parse_sim_stmt() {
                    Ok(st) => out.push(st),
                    Err(x) => return Err(x),
                }
            }
            match self.expect_punct("}") {
                Ok(()) => {},
                Err(x) => return Err(x),
            }
        } else {
            match self.parse_sim_stmt() {
                Ok(st) => out.push(st),
                Err(x) => return Err(x),
            }
        }
        Ok(out)
    }

    /// `target = value` or `target[index] = value` without the `;` (the parts of `for`).
    fn parse_assign_no_semi(&mut self) -> (r: RvResult<SimStmt>)
        requires
            old(self).wf(),
        ensures
            final(self).wf(),
            final(self).same_ctx(old(self)),
            r is Ok ==> final(self).i > old(self).i + 2,
            r matches Ok(st) ==> (st matches SimStmt::Assign { line, target, pulse, .. } && line == old(self).cur_tok().line
                && target@ == old(self).cur_tok().s && pulse is None),
            (old(self).ident_at(0) && old(self).punct_at(1, "="@) && old(self).num_alone_at(2)) ==> (r matches Ok(
                SimStmt::Assign { index, value, .. }) && index is None && value == Expr::Num {
                line: old(self).peek_tok(2).line as i32,
                num: old(self).peek_tok(2).num,
            }) && final(self).i == old(self).i + 3,
    {
        let ghost o = *old(self);
        proof {
            if o.ident_at(0) && o.punct_at(1, "="@) && o.num_alone_at(2) {
                assert(o.peek_tok(0) == o.cur_tok());
                assert(o.i + 2 < o.toks@.len());
            }
        }
        let ln = self.cur().line;
        let target = match self.expect_ident("assignment target") {
            Ok(t) => t,
            Err(x) => return Err(x),
        };
        assert(o.ident_at(0) && o.punct_at(1, "="@) && o.num_alone_at(2) ==> self.cur_tok() == o.peek_tok(1));
        let index = if self.is_punct("[") {
            assert(!(o.ident_at(0) && o.punct_at(1, "="@) && o.num_alone_at(2))) by {
                reveal_strlit("[");
                reveal_strlit("=");
                assert("["@[0] != "="@[0]);
            }
            self.bump();
            let e = match self.parse_expr() {
                Ok(e) => e,
                Err(x) => return Err(x),
            };
            match self.expect_punct("]") {
                Ok(()) => {},
                Err(x) => return Err(x),
            }
            Some(Box::new(e))
        } else {
            None
        };
        match self.expect_punct("=") {
            Ok(()) => {},
            Err(x) => return Err(x),
        }
        assert(o.ident_at(0) && o.punct_at(1, "="@) && o.num_alone_at(2) ==> self.i == o.i + 2 && index is None
            && self.cur_tok() == o.peek_tok(2) && self.peek_tok(1) == o.peek_tok(3) && self.num_alone());
        let value = match self.parse_expr() {
            Ok(e) => e,
            Err(x) => return Err(x),
        };
        Ok(SimStmt::Assign { line: ln, target, index, value, pulse: None })
    }

    /// A call `name(...);` with an optional leading format string, through its `;`.
    fn parse_call(&mut self) -> (r: RvResult<CallData>)
        requires
            old(self).wf(),
        ensures
            final(self).wf(),
            final(self).same_ctx(old(self)),
            r is Ok ==> final(self).i > old(self).i + 2,
            r matches Ok(c) ==> c.callee@ == old(self).cur_tok().s && old(self).cur_tok().k == Tk::Ident,
            (old(self).ident_at(0) && old(self).punct_at(1, "("@) && old(self).punct_at(2, ")"@) && old(self).punct_at(3, ";"@))
                ==> (r matches Ok(c) && c.callee@ == old(self).cur_tok().s && !c.has_fmt && c.args@.len() == 0)
                && final(self).i == old(self).i + 4,
    {
        let ghost o = *old(self);
        proof {
            if o.ident_at(0) && o.punct_at(1, "("@) && o.punct_at(2, ")"@) && o.punct_at(3, ";"@) {
                assert(o.peek_tok(0) == o.cur_tok());
                assert(o.i + 3 < o.toks@.len());
            }
        }
        let callee = match self.expect_ident("function name") {
            Ok(n) => n,
            Err(x) => return Err(x),
        };
        let mut has_fmt = false;
        let mut fmt = String::new();
        let mut args: Vec<Expr> = Vec::new();
        match self.expect_punct("(") {
            Ok(()) => {},
            Err(x) => return Err(x),
        }
        if !self.is_punct(")") {
            if self.cur().k == Tk::Str {
                has_fmt = true;
                fmt = self.cur().s.clone();
                self.bump();
                if self.is_punct(",") {
                    self.bump();
                } else if !self.is_punct(")") {
                    return self.err_cur(own("expected ',' or ')' after format string"));
                }
            }
            if !self.is_punct(")") {
                loop
                    invariant
                        self.wf(),
                        self.same_ctx(old(self)),
                        self.i > old(self).i,
                        o == *old(self),
                        !(o.ident_at(0) && o.punct_at(1, "("@) && o.punct_at(2, ")"@) && o.punct_at(3, ";"@)),
                    decreases self.toks@.len() - self.i,
                {
                    match self.parse_expr() {
                        Ok(e) => args.push(e),
                        Err(x) => return Err(x),
                    }
                    if self.is_punct(",") {
                        self.bump();
                        continue;
                    }
                    break;
                }
            }
        }
        assert(o.ident_at(0) && o.punct_at(1, "("@) && o.punct_at(2, ")"@) && o.punct_at(3, ";"@) ==> self.i == o.i + 2
            && !has_fmt && args@.len() == 0);
        match self.expect_punct(")") {
            Ok(()) => {},
            Err(x) => return Err(x),
        }
        match self.expect_punct(";") {
            Ok(()) => {},
            Err(x) => return Err(x),
        }
        Ok(CallData { callee, has_fmt, fmt, args })
    }

    /// The rest of a one-target binding `target = callee#(...)(args);` from the callee
    /// (`scan` also takes a format string as its argument).
    fn parse_call_bind_rest(&mut self, ln: i32, target: BindTarget) -> (r: RvResult<SimStmt>)
        requires
            old(self).wf(),
        ensures
            final(self).wf(),
            final(self).same_ctx(old(self)),
            r is Ok ==> final(self).i > old(self).i + 2,
            r matches Ok(st) ==> sim_stmt_ok(st) && (st matches SimStmt::CallBind { callee, .. } && callee@
                == old(self).cur_tok().s),
            (old(self).ident_at(0) && old(self).cur_tok().s != "scan"@ && old(self).punct_at(1, "("@) && old(self).punct_at(2, ")"@)
                && old(self).punct_at(3, ";"@)) ==> (r matches Ok(SimStmt::CallBind { targets, callee, bind_args, params, fmt, .. })
                && targets@ == seq![target] && callee@ == old(self).cur_tok().s && bind_args@.len() == 0 && params@.len() == 0
                && fmt is None) && final(self).i == old(self).i + 4,
    {
        let ghost o = *old(self);
        let ghost bare = o.ident_at(0) && o.cur_tok().s != "scan"@ && o.punct_at(1, "("@) && o.punct_at(2, ")"@) && o.punct_at(3, ";"@);
        proof {
            lemma_punct_chars();
            if bare {
                assert(o.peek_tok(0) == o.cur_tok());
                assert(o.i + 3 < o.toks@.len());
            }
        }
        if self.cur().k == Tk::End {
            return self.err_cur(own("expected logic name"));
        }
        let callee = self.cur().s.clone();
        self.bump();
        assert(bare ==> self.cur_tok() == o.peek_tok(1));
        let call_params = match self.parse_logic_call_params() {
            Ok(p) => p,
            Err(x) => return Err(x),
        };
        match self.expect_punct("(") {
            Ok(()) => {},
            Err(x) => return Err(x),
        }
        assert(bare ==> self.cur_tok() == o.peek_tok(2) && self.i == o.i + 2);
        let mut bind_args: Vec<InstArg> = Vec::new();
        let mut scan_fmt: Option<String> = None;
        if str_eq(callee.as_str(), "scan") && self.cur().k == Tk::Str {
            scan_fmt = Some(self.cur().s.clone());
            self.bump();
        } else {
            bind_args = match self.parse_inst_args() {
                Ok(v) => v,
                Err(x) => return Err(x),
            };
        }
        match self.expect_punct(")") {
            Ok(()) => {},
            Err(x) => return Err(x),
        }
        match self.expect_punct(";") {
            Ok(()) => {},
            Err(x) => return Err(x),
        }
        let mut targets: Vec<BindTarget> = Vec::new();
        targets.push(target);
        Ok(SimStmt::CallBind { line: ln, targets, callee, bind_args, params: call_params, fmt: scan_fmt })
    }

    /// One statement of a `sim` block: waits (`#N`, `#init`, `#until(c)`), `?monitor(..)`,
    /// var declarations, bindings to logic calls (tuple, concatenation, lane, slice or plain
    /// targets), `if`/`while`/`for`, calls, and assignments (optionally pulsed with `~ w`).
    fn parse_sim_stmt(&mut self) -> (r: RvResult<SimStmt>)
        requires
            old(self).wf(),
        ensures
            final(self).wf(),
            final(self).same_ctx(old(self)),
            r is Ok ==> final(self).i > old(self).i,
            r matches Ok(st) ==> sim_stmt_ok(st),
            (old(self).punct_at(0, "#"@) && old(self).peek_tok(1).k == Tk::Num) ==> (r matches Ok(SimStmt::WaitTicks { ticks, line })
                && ticks == old(self).peek_tok(1).num && line == old(self).cur_tok().line) && final(self).i == old(self).i + 2 + (
            if old(self).punct_at(2, ";"@) {
                1int
            } else {
                0int
            }),
            (old(self).punct_at(0, "#"@) && old(self).ident_at(1) && old(self).peek_tok(1).s == "init"@) ==> (r matches Ok(
                SimStmt::WaitInit { line },
            ) && line == old(self).cur_tok().line) && final(self).i == old(self).i + 2 + (if old(self).punct_at(2, ";"@) {
                1int
            } else {
                0int
            }),
            (old(self).punct_at(0, "#"@) && old(self).ident_at(1) && old(self).peek_tok(1).s == "until"@) ==> (r is Ok ==> (r matches Ok(
                SimStmt::WaitUntil { line, .. },
            ) && line == old(self).cur_tok().line)),
            (old(self).punct_at(0, "#"@) && old(self).peek_tok(1).k != Tk::Num && !(old(self).ident_at(1) && (old(self).peek_tok(1).s
                == "init"@ || old(self).peek_tok(1).s == "until"@))) ==> (r matches Err(e) && e.line == old(self).peek_tok(1).line
                && e.col == old(self).peek_tok(1).col && e.len == caret_len(old(self).peek_tok(1)) && e.msg@ == "expected '#<ticks>', '#init', or '#until(cond)'"@),
            old(self).plain_assign_then(";"@) ==> (r matches Ok(SimStmt::Assign { line, target, index, value, pulse })
                && line == old(self).cur_tok().line && target@ == old(self).cur_tok().s && index is None && value == Expr::Num {
                line: old(self).peek_tok(2).line as i32,
                num: old(self).peek_tok(2).num,
            } && pulse is None) && final(self).i == old(self).i + 4,
            (old(self).plain_assign_then("~"@) && old(self).peek_tok(4).k == Tk::Num && old(self).punct_at(5, ";"@)) ==> (r matches Ok(
                SimStmt::Assign { line, target, index, value, pulse },
            ) && line == old(self).cur_tok().line && target@ == old(self).cur_tok().s && index is None && value == Expr::Num {
                line: old(self).peek_tok(2).line as i32,
                num: old(self).peek_tok(2).num,
            } && pulse == Some(Expr::Num { line: old(self).peek_tok(4).line as i32, num: old(self).peek_tok(4).num }))
                && final(self).i == old(self).i + 6,
            (old(self).ident_at(0) && old(self).cur_tok().s == "var"@ && old(self).ident_at(1) && old(self).punct_at(2, ";"@)) ==> (
            r matches Ok(SimStmt::DeclVar { line, decls }) && line == old(self).cur_tok().line && decls@.len() == 1 && decls@[0].0@
                == old(self).peek_tok(1).s && decls@[0].1 is None && decls@[0].2 is None) && final(self).i == old(self).i + 3,
            old(self).name_assign() ==> (r matches Ok(SimStmt::Assign { line, target, index, value, pulse }) && line
                == old(self).cur_tok().line && target@ == old(self).cur_tok().s && index is None && (value matches Expr::Var {
                line: vl,
                name: vn,
                index: vi,
            } && vl == old(self).peek_tok(2).line && vn@ == old(self).peek_tok(2).s && vi is None) && pulse is None)
                && final(self).i == old(self).i + 4,
        decreases old(self).toks@.len() - old(self).i, 1nat,
    {
        let ghost o = *old(self);
        assert(o.peek_tok(0) == o.cur_tok());
        let ghost a1 = o.plain_assign_then(";"@);
        let ghost a2 = o.plain_assign_then("~"@) && o.peek_tok(4).k == Tk::Num && o.punct_at(5, ";"@);
        let ghost a3 = o.name_assign();
        proof {
            lemma_punct_chars();
            if a3 {
                assert(o.i + 3 < o.toks@.len());
                lemma_not_binop(o.peek_tok(3));
            }
            if a1 || a2 {
                assert(o.i + 3 < o.toks@.len());
                lemma_not_binop(o.peek_tok(3));
            }
            if a2 {
                assert(o.i + 5 < o.toks@.len());
                lemma_not_binop(o.peek_tok(5));
            }
        }
        let ln = self.cur().line;
        if self.is_punct("#") {
            self.bump();
            assert(self.cur_tok() == o.peek_tok(1));
            proof {
                reveal_strlit("until");
                reveal_strlit("init");
                assert("until"@[0] != "init"@[0]);
            }
            let st = if self.cur().k == Tk::Num {
                let ticks = self.cur().num;
                self.bump();
                SimStmt::WaitTicks { line: ln, ticks }
            } else if self.is_ident("init") {
                self.bump();
                SimStmt::WaitInit { line: ln }
            } else if self.is_ident("until") {
                self.bump();
                match self.expect_punct("(") {
                    Ok(()) => {},
                    Err(x) => return Err(x),
                }
                let cond = match self.parse_expr() {
                    Ok(e) => e,
                    Err(x) => return Err(x),
                };
                match self.expect_punct(")") {
                    Ok(()) => {},
                    Err(x) => return Err(x),
                }
                SimStmt::WaitUntil { line: ln, cond }
            } else {
                return self.err_cur(own("expected '#<ticks>', '#init', or '#until(cond)'"));
            };
            if self.is_punct(";") {
                self.bump();
            }
            return Ok(st);
        }
        if self.is_punct("?") {
            self.bump();
            let call = match self.parse_call() {
                Ok(c) => c,
                Err(x) => return Err(x),
            };
            if !str_eq(call.callee.as_str(), "monitor") {
                return fail(ln, own("'?' prefix is only supported for monitor()"));
            }
            return Ok(SimStmt::MonReg { line: ln, call });
        }
        if self.is_ident("var") {
            return self.parse_var_decl();
        }
        if self.is_ident("sim") {
            return self.err_cur(own("nested sim block is not allowed"));
        }
        if self.is_punct("(") {
            let targets = match self.parse_target_tuple("variable name (logic outputs bind to vars)") {
                Ok(v) => v,
                Err(x) => return Err(x),
            };
            match self.expect_punct("=") {
                Ok(()) => {},
                Err(x) => return Err(x),
            }
            let (callee, call_params, bind_args) = match self.parse_callee_invocation() {
                Ok(c) => c,
                Err(x) => return Err(x),
            };
            match self.expect_punct(";") {
                Ok(()) => {},
                Err(x) => return Err(x),
            }
            return Ok(SimStmt::CallBind { line: ln, targets, callee, bind_args, params: call_params, fmt: None });
        }
        if self.is_punct("{") {
            let parts = match self.parse_concat_refs() {
                Ok(v) => v,
                Err(x) => return Err(x),
            };
            match self.expect_punct("=") {
                Ok(()) => {},
                Err(x) => return Err(x),
            }
            return self.parse_call_bind_rest(ln, BindTarget::Concat(parts));
        }
        if self.is_ident("if") {
            self.bump();
            match self.expect_punct("(") {
                Ok(()) => {},
                Err(x) => return Err(x),
            }
            let cond = match self.parse_expr() {
                Ok(e) => e,
                Err(x) => return Err(x),
            };
            match self.expect_punct(")") {
                Ok(()) => {},
                Err(x) => return Err(x),
            }
            let body = match self.parse_block_or_single() {
                Ok(v) => v,
                Err(x) => return Err(x),
            };
            let else_body = if self.is_ident("else") {
                self.bump();
                match self.parse_block_or_single() {
                    Ok(v) => v,
                    Err(x) => return Err(x),
                }
            } else {
                Vec::new()
            };
            return Ok(SimStmt::If { line: ln, cond, body, else_body });
        }
        if self.is_ident("while") {
            self.bump();
            match self.expect_punct("(") {
                Ok(()) => {},
                Err(x) => return Err(x),
            }
            let cond = match self.parse_expr() {
                Ok(e) => e,
                Err(x) => return Err(x),
            };
            match self.expect_punct(")") {
                Ok(()) => {},
                Err(x) => return Err(x),
            }
            let body = match self.parse_block_or_single() {
                Ok(v) => v,
                Err(x) => return Err(x),
            };
            return Ok(SimStmt::While { line: ln, cond, body });
        }
        if self.is_ident("for") {
            self.bump();
            match self.expect_punct("(") {
                Ok(()) => {},
                Err(x) => return Err(x),
            }
            let init = if !self.is_punct(";") {
                match self.parse_assign_no_semi() {
                    Ok(st) => Some(Box::new(st)),
                    Err(x) => return Err(x),
                }
            } else {
                None
            };
            match self.expect_punct(";") {
                Ok(()) => {},
                Err(x) => return Err(x),
            }
            let cond = if !self.is_punct(";") {
                match self.parse_expr() {
                    Ok(e) => Some(e),
                    Err(x) => return Err(x),
                }
            } else {
                None
            };
            match self.expect_punct(";") {
                Ok(()) => {},
                Err(x) => return Err(x),
            }
            let post = if !self.is_punct(")") {
                match self.parse_assign_no_semi() {
                    Ok(st) => Some(Box::new(st)),
                    Err(x) => return Err(x),
                }
            } else {
                None
            };
            match self.expect_punct(")") {
                Ok(()) => {},
                Err(x) => return Err(x),
            }
            let body = match self.parse_block_or_single() {
                Ok(v) => v,
                Err(x) => return Err(x),
            };
            return Ok(SimStmt::For { line: ln, init, cond, post, body });
        }
        if self.cur().k == Tk::Ident {
            let name = self.cur().s.clone();
            assert((a1 || a2 || a3) ==> self.i == o.i && self.peek_tok(1) == o.peek_tok(1));
            if self.peek_is_punct("(") {
                let call = match self.parse_call() {
                    Ok(c) => c,
                    Err(x) => return Err(x),
                };
                return Ok(SimStmt::Call { line: ln, call });
            }
            if self.peek_is_punct("[") {
                self.bump();
                match self.expect_punct("[") {
                    Ok(()) => {},
                    Err(x) => return Err(x),
                }
                let idx = match self.parse_expr() {
                    Ok(e) => e,
                    Err(x) => return Err(x),
                };
                if self.is_punct(":") {
                    self.bump();
                    let lo = match self.parse_expr() {
                        Ok(e) => e,
                        Err(x) => return Err(x),
                    };
                    match self.expect_punct("]") {
                        Ok(()) => {},
                        Err(x) => return Err(x),
                    }
                    match self.expect_punct("=") {
                        Ok(()) => {},
                        Err(x) => return Err(x),
                    }
                    if !self.at_callee_invocation() {
                        return fail(
                            ln,
                            own("a bus slice '[..:..]' can only be the target of a logic call binding (e.g. 'y[3:0] = g(x);')"),
                        );
                    }
                    let hi = match self.idx_expr_of(idx, ln) {
                        Ok(v) => v,
                        Err(x) => return Err(x),
                    };
                    let lo2 = match self.idx_expr_of(lo, ln) {
                        Ok(v) => v,
                        Err(x) => return Err(x),
                    };
                    let sel = Sel::Slice(hi, lo2);
                    return self.parse_call_bind_rest(ln, BindTarget::Ref(BindRef { name, sel }));
                }
                match self.expect_punct("]") {
                    Ok(()) => {},
                    Err(x) => return Err(x),
                }
                match self.expect_punct("=") {
                    Ok(()) => {},
                    Err(x) => return Err(x),
                }
                if self.at_callee_invocation() {
                    let k = match self.idx_expr_of(idx, ln) {
                        Ok(v) => v,
                        Err(x) => return Err(x),
                    };
                    return self.parse_call_bind_rest(ln, BindTarget::Ref(BindRef { name, sel: Sel::Lane(k) }));
                }
                let value = match self.parse_expr() {
                    Ok(e) => e,
                    Err(x) => return Err(x),
                };
                let pulse = if self.is_punct("~") {
                    self.bump();
                    match self.parse_expr() {
                        Ok(e) => Some(e),
                        Err(x) => return Err(x),
                    }
                } else {
                    None
                };
                match self.expect_punct(";") {
                    Ok(()) => {},
                    Err(x) => return Err(x),
                }
                return Ok(SimStmt::Assign { line: ln, target: name, index: Some(Box::new(idx)), value, pulse });
            }
            if self.peek_is_punct("=") {
                self.bump();
                self.bump();
                assert((a1 || a2) ==> self.i == o.i + 2 && self.cur_tok() == o.peek_tok(2) && self.peek_tok(1) == o.peek_tok(3)
                    && self.num_alone());
                assert(a3 ==> self.i == o.i + 2 && self.cur_tok() == o.peek_tok(2) && self.peek_tok(1) == o.peek_tok(3)
                    && self.name_alone());
                if self.at_callee_invocation() {
                    return self.parse_call_bind_rest(ln, BindTarget::Ref(BindRef { name, sel: Sel::All }));
                }
                let value = match self.parse_expr() {
                    Ok(e) => e,
                    Err(x) => return Err(x),
                };
                assert((a1 || a2 || a3) ==> self.i == o.i + 3 && self.cur_tok() == o.peek_tok(3));
                let pulse = if self.is_punct("~") {
                    self.bump();
                    assert(a2 ==> self.i == o.i + 4 && self.cur_tok() == o.peek_tok(4) && self.peek_tok(1) == o.peek_tok(5)
                        && self.num_alone());
                    match self.parse_expr() {
                        Ok(e) => Some(e),
                        Err(x) => return Err(x),
                    }
                } else {
                    None
                };
                match self.expect_punct(";") {
                    Ok(()) => {},
                    Err(x) => return Err(x),
                }
                return Ok(SimStmt::Assign { line: ln, target: name, index: None, value, pulse });
            }
        }
        fail(ln, own("unexpected token in sim block"))
    }

    // ---- directives, params, files ----------------------------------------

    /// Every constant of the parser is a numeric define of the program with the same value.
    pub closed spec fn consts_agree(&self, prog: &Program) -> bool {
        forall|k: Seq<char>| #[trigger] self.consts.get_spec(k) is Some ==> prog.defines.get_spec(k) == self.consts.get_spec(k)
    }

    /// The tokens, directory and logic parameters are unchanged.
    pub closed spec fn same_source(&self, o: &Parser) -> bool {
        &&& self.toks@ == o.toks@
        &&& self.base_dir@ == o.base_dir@
        &&& self.logic_params == o.logic_params
    }

    /// Binds a constant in the parser and in the program.
    fn define_const(&mut self, prog: &mut Program, name: String, v: i64)
        ensures
            final(self).same_source(old(self)),
            final(self).i == old(self).i,
            forall|k: Seq<char>| #[trigger] final(self).consts.get_spec(k) == if k == name@ {
                Some(v)
            } else {
                old(self).consts.get_spec(k)
            },
            forall|k: Seq<char>| #[trigger] final(prog).defines.get_spec(k) == if k == name@ {
                Some(v)
            } else {
                old(prog).defines.get_spec(k)
            },
            old(self).consts_agree(old(prog)) ==> final(self).consts_agree(final(prog)),
            final(prog).logics == old(prog).logics,
            final(prog).modules == old(prog).modules,
            final(prog).included_stdlibs == old(prog).included_stdlibs,
    {
        let n2 = name.clone();
        self.consts.insert(name, v);
        prog.defines.insert(n2, v);
        proof {
            assert forall|k: Seq<char>| #[trigger] self.consts.get_spec(k) is Some && old(self).consts_agree(old(prog)) implies prog.defines.get_spec(k)
                == self.consts.get_spec(k) by {
                if k != n2@ {
                    assert(old(self).consts.get_spec(k) is Some);
                }
            }
        }
    }

    /// `param NAME = <constant expression> ;` after the `param` keyword.
    fn parse_param(&mut self, prog: &mut Program) -> (r: RvResult<()>)
        requires
            old(self).wf(),
        ensures
            final(self).wf(),
            final(self).same_source(old(self)),
            r is Err ==> final(self).consts == old(self).consts && *final(prog) == *old(prog),
            r is Ok ==> final(self).i > old(self).i + 3 && old(self).cur_tok().k == Tk::Ident && (exists|v: i64| {
                &&& #[trigger] final(self).consts.get_spec(old(self).cur_tok().s) == Some(v)
                &&& final(prog).defines.get_spec(old(self).cur_tok().s) == Some(v)
            }) && (forall|k: Seq<char>| k != old(self).cur_tok().s ==> #[trigger] final(self).consts.get_spec(k)
                == old(self).consts.get_spec(k) && final(prog).defines.get_spec(k) == old(prog).defines.get_spec(k)),
            old(self).consts_agree(old(prog)) ==> final(self).consts_agree(final(prog)),
            final(prog).logics == old(prog).logics,
            final(prog).modules == old(prog).modules,
            final(prog).included_stdlibs == old(prog).included_stdlibs,
            (old(self).ident_at(0) && old(self).punct_at(1, "="@) && old(self).num_alone_at(2) && old(self).punct_at(3, ";"@))
                ==> r is Ok && final(self).i == old(self).i + 4 && final(self).consts.get_spec(old(self).cur_tok().s) == Some(
                old(self).peek_tok(2).num),
            (old(self).ident_at(0) && old(self).punct_at(1, "="@) && old(self).ident_at(2) && old(self).punct_at(3, ";"@)) ==> (
            old(self).consts.get_spec(old(self).peek_tok(2).s) matches Some(v) ==> r is Ok && final(self).i == old(self).i + 4
                && final(self).consts.get_spec(old(self).cur_tok().s) == Some(v) && final(prog).defines.get_spec(old(self).cur_tok().s)
                == Some(v)),
    {
        let ghost o = *old(self);
        let ghost simple = o.ident_at(0) && o.punct_at(1, "="@) && o.num_alone_at(2) && o.punct_at(3, ";"@);
        let ghost named = o.ident_at(0) && o.punct_at(1, "="@) && o.ident_at(2) && o.punct_at(3, ";"@);
        proof {
            if named {
                lemma_punct_chars();
                assert(o.peek_tok(0) == o.cur_tok());
                assert(o.i + 3 < o.toks@.len());
                lemma_not_binop(o.peek_tok(3));
            }
        }
        proof {
            if simple {
                assert(o.peek_tok(0) == o.cur_tok());
                assert(o.i + 3 < o.toks@.len());
            }
        }
        let name = match self.expect_ident("param name") {
            Ok(n) => n,
            Err(x) => return Err(x),
        };
        assert(simple ==> self.cur_tok() == o.peek_tok(1));
        match self.expect_punct("=") {
            Ok(()) => {},
            Err(x) => return Err(x),
        }
        assert(simple ==> self.cur_tok() == o.peek_tok(2) && self.peek_tok(1) == o.peek_tok(3) && self.num_alone());
        assert(named ==> self.cur_tok() == o.peek_tok(2) && self.peek_tok(1) == o.peek_tok(3) && self.name_alone());
        let e = match self.parse_expr() {
            Ok(e) => e,
            Err(x) => return Err(x),
        };
        match self.expect_punct(";") {
            Ok(()) => {},
            Err(x) => return Err(x),
        }
        let v = match self.eval_const(&e) {
            Ok(v) => v,
            Err(x) => return Err(x),
        };
        self.define_const(prog, name, v);
        assert(self.consts.get_spec(old(self).cur_tok().s) == Some(v));
        Ok(())
    }

    /// The file names tried for `#include "name"`, in order: relative to the including
    /// file's directory, with and without `.rv`, then as given, with and without `.rv`.
    pub fn include_candidates(&self, name: &str) -> (r: Vec<String>)
        ensures
            r@.len() == 4,
            r@[0]@ == self.dir() + "/"@ + name@,
            r@[1]@ == self.dir() + "/"@ + name@ + ".rv"@,
            r@[2]@ == name@,
            r@[3]@ == name@ + ".rv"@,
    {
        let mut v: Vec<String> = Vec::new();
        v.push(cat3(self.base_dir.as_str(), "/", name));
        v.push(cat4(self.base_dir.as_str(), "/", name, ".rv"));
        v.push(own(name));
        v.push(cat2(name, ".rv"));
        v
    }

    /// The error for an include file that none of the candidates could open.
    pub fn include_error(name: &str, line: i32) -> (r: RvError)
        ensures
            r.line == line,
            r.col == 0,
            r.len == 0,
            r.msg@ == "cannot open include file: "@ + name@,
    {
        RvError { line, col: 0, len: 0, msg: cat2("cannot open include file: ", name) }
    }

    /// A directive after `#`: `#define NAME <constant expression>` or `#include "name"`.
    /// An include returns the request for its source; a bundled library already included
    /// is skipped.
    fn parse_directive(&mut self, prog: &mut Program) -> (r: RvResult<Option<ParseStep>>)
        requires
            old(self).wf(),
        ensures
            final(self).wf(),
            final(self).same_source(old(self)),
            r is Ok ==> final(self).i > old(self).i,
            old(self).consts_agree(old(prog)) ==> final(self).consts_agree(final(prog)),
            r matches Ok(Some(step)) ==> (step matches ParseStep::Include { bundled, candidates, .. } && (!bundled
                ==> candidates@.len() == 4)),
            final(prog).logics == old(prog).logics,
            final(prog).modules == old(prog).modules,
            (old(self).ident_at(0) && old(self).cur_tok().s == "include"@ && old(self).peek_tok(1).k == Tk::Str
                && !is_bundled(old(self).peek_tok(1).s)) ==> (r matches Ok(Some(ParseStep::Include { name, bundled, .. }))
                && name@ == old(self).peek_tok(1).s && !bundled) && final(self).i == old(self).i + 2 && *final(prog) == *old(prog),
            (old(self).ident_at(0) && old(self).cur_tok().s == "include"@ && old(self).peek_tok(1).k == Tk::Str && is_bundled(
                old(self).peek_tok(1).s,
            )) ==> final(self).i == old(self).i + 2 && if old(prog).included_stdlibs.has(old(self).peek_tok(1).s) {
                &&& r matches Ok(None)
                &&& *final(prog) == (Program { included_stdlibs: final(prog).included_stdlibs, ..*old(prog) })
                &&& forall|q: Seq<char>| #[trigger] final(prog).included_stdlibs.has(q) == old(prog).included_stdlibs.has(q)
            } else {
                &&& r matches Ok(Some(ParseStep::Include { name, bundled, .. })) && name@ == old(self).peek_tok(1).s && bundled
                &&& *final(prog) == (Program { included_stdlibs: final(prog).included_stdlibs, ..*old(prog) })
                &&& forall|q: Seq<char>| #[trigger] final(prog).included_stdlibs.has(q) == (old(prog).included_stdlibs.has(q) || q
                    == old(self).peek_tok(1).s)
            },
            (old(self).ident_at(0) && old(self).cur_tok().s == "define"@ && old(self).ident_at(1) && old(self).peek_tok(1).s == "MODE"@
                && old(self).ident_at(2)) ==> (r matches Ok(None)) && final(self).i == old(self).i + 3 && (if old(self).peek_tok(2).s
                == "element"@ {
                *final(prog) == *old(prog)
            } else {
                &&& *final(prog) == (Program { warnings: final(prog).warnings, ..*old(prog) })
                &&& final(prog).warnings@.len() == old(prog).warnings@.len() + 1
                &&& final(prog).warnings@.drop_last() == old(prog).warnings@
                &&& final(prog).warnings@.last().line == old(self).cur_tok().line
                &&& final(prog).warnings@.last().rule is None
                &&& final(prog).warnings@.last().msg@ == "MODE '"@ + old(self).peek_tok(2).s + "' is not supported yet; running in element mode"@
            }),
    {
        let ghost o = *old(self);
        let ghost md = o.ident_at(0) && o.cur_tok().s == "define"@ && o.ident_at(1) && o.peek_tok(1).s == "MODE"@ && o.ident_at(2);
        proof {
            if md {
                assert(o.peek_tok(0) == o.cur_tok());
                assert(o.i + 2 < o.toks@.len() - 1);
            }
        }
        let ghost inc = o.ident_at(0) && o.cur_tok().s == "include"@ && o.peek_tok(1).k == Tk::Str && !is_bundled(o.peek_tok(1).s);
        let ghost incb = o.ident_at(0) && o.cur_tok().s == "include"@ && o.peek_tok(1).k == Tk::Str && is_bundled(o.peek_tok(1).s);
        proof {
            if incb {
                assert(o.peek_tok(0) == o.cur_tok());
                reveal_strlit("include");
                reveal_strlit("define");
                assert("include"@[0] != "define"@[0]);
            }
            if inc {
                assert(o.peek_tok(0) == o.cur_tok());
                reveal_strlit("include");
                reveal_strlit("define");
                assert("include"@[0] != "define"@[0]);
            }
        }
        let ln = self.cur().line;
        let d = match self.expect_ident("directive name after '#'") {
            Ok(n) => n,
            Err(x) => return Err(x),
        };
        assert(inc ==> self.cur_tok() == o.peek_tok(1));
        assert(incb ==> self.cur_tok() == o.peek_tok(1));
        if str_eq(d.as_str(), "define") {
            let name = match self.expect_ident("define name") {
                Ok(n) => n,
                Err(x) => return Err(x),
            };
            assert(md ==> self.cur_tok() == o.peek_tok(2) && name@ == "MODE"@);
            if str_eq(name.as_str(), "MODE") {
                let mode = match self.expect_ident("mode name after '#define MODE'") {
                    Ok(n) => n,
                    Err(x) => return Err(x),
                };
                if !str_eq(mode.as_str(), "element") {
                    let m = cat3("MODE '", mode.as_str(), "' is not supported yet; running in element mode");
                    let ghost w0 = prog.warnings@;
                    prog.warnings.push(Warning { line: ln, rule: None, msg: m });
                    proof {
                        assert(prog.warnings@.drop_last() =~= w0);
                    }
                }
                return Ok(None);
            }
            let e = match self.parse_expr() {
                Ok(e) => e,
                Err(x) => return Err(x),
            };
            let v = match self.eval_const(&e) {
                Ok(v) => v,
                Err(x) => return Err(x),
            };
            self.define_const(prog, name, v);
            return Ok(None);
        }
        if str_eq(d.as_str(), "include") {
            let fname = if self.cur().k == Tk::Str {
                let f = self.cur().s.clone();
                self.bump();
                f
            } else if self.cur().k == Tk::Ident {
                return fail(ln, cat3("#include expects a quoted file name: #include \"", self.cur().s.as_str(), "\""));
            } else {
                return fail(ln, own("#include expects a quoted file name"));
            };
            if bundled_stdlib(fname.as_str()) {
                if prog.included_stdlibs.insert(fname.clone()) {
                    return Ok(Some(ParseStep::Include { name: fname, line: ln, bundled: true, candidates: Vec::new() }));
                }
                return Ok(None);
            }
            let candidates = self.include_candidates(fname.as_str());
            return Ok(Some(ParseStep::Include { name: fname, line: ln, bundled: false, candidates }));
        }
        fail(ln, cat2("unknown directive: #", d.as_str()))
    }

    /// Parses top-level items (`param`, `logic`, `module`, `#` directives) into `prog`
    /// until the end of the tokens (`Done`) or an `#include` whose source the caller must
    /// parse with `sub_parser` before calling this again (`Include`).
    pub fn parse_file(&mut self, prog: &mut Program) -> (r: RvResult<ParseStep>)
        requires
            old(self).wf(),
        ensures
            final(self).wf(),
            final(self).tokens() == old(self).tokens(),
            r is Ok ==> final(self).pos() >= old(self).pos(),
            r matches Ok(ParseStep::Done) ==> final(self).cur_tok().k == Tk::End,
            r matches Ok(ParseStep::Include { .. }) ==> final(self).pos() > old(self).pos(),
            old(self).consts_agree(old(prog)) ==> final(self).consts_agree(final(prog)),
            r is Ok ==> forall|k: Seq<char>| #[trigger] old(prog).logics.has(k) ==> final(prog).logics.has(k),
            r is Ok ==> final(prog).modules@.len() >= old(prog).modules@.len(),
            logics_ok(old(prog).logics) ==> logics_ok(final(prog).logics),
            old(self).cur_tok().k == Tk::End ==> (r matches Ok(ParseStep::Done)) && final(self).pos() == old(self).pos()
                && *final(prog) == *old(prog),
            (old(self).ident_at(0) && old(self).cur_tok().s == "module"@ && old(self).ident_at(1) && old(self).punct_at(2, "("@))
                ==> (r matches Err(e) && e.line == old(self).peek_tok(2).line && e.col == old(self).peek_tok(2).col && e.len == caret_len(old(self).peek_tok(2)) && e.msg@
                == "module takes no arguments; write `module name { ... }`"@) && final(prog).modules == old(prog).modules,
            old(self).empty_module_file() ==> (r matches Ok(ParseStep::Done)) && final(prog).modules@.len() == old(prog).modules@.len() + 1
                && final(prog).modules@.drop_last() == old(prog).modules@ && final(prog).modules@.last().name@ == old(self).peek_tok(1).s
                && final(prog).modules@.last().pre@.len() == 0 && final(prog).modules@.last().sim@.len() == 0,
            (old(self).punct_at(0, "#"@) && old(self).ident_at(1) && old(self).peek_tok(1).s == "define"@ && old(self).ident_at(2)
                && old(self).peek_tok(2).s == "MODE"@ && old(self).ident_at(3) && old(self).peek_tok(4).k == Tk::End) ==> (r matches Ok(
                ParseStep::Done,
            )) && final(prog).modules == old(prog).modules && final(prog).logics == old(prog).logics && final(prog).defines
                == old(prog).defines && (old(self).peek_tok(3).s == "element"@ ==> final(prog).warnings == old(prog).warnings),
            (old(self).punct_at(0, "#"@) && old(self).ident_at(1) && old(self).peek_tok(1).s == "include"@ && old(self).peek_tok(2).k
                == Tk::Str && !is_bundled(old(self).peek_tok(2).s)) ==> (r matches Ok(ParseStep::Include { name, bundled, .. }) && name@
                == old(self).peek_tok(2).s && !bundled) && *final(prog) == *old(prog),
            old(self).param_file() ==> (r matches Ok(ParseStep::Done)) && final(prog).defines.get_spec(old(self).peek_tok(1).s) == Some(
                old(self).peek_tok(3).num,
            ) && final(prog).modules == old(prog).modules,
            forall|m: int| #[trigger] old(self).at(2).port_refused(m) ==> (old(self).ident_at(0) && old(self).cur_tok().s == "logic"@
                && old(self).ident_at(1) && !old(prog).logics.has(old(self).peek_tok(1).s) ==> (r matches Err(x) && x@ == old(self).at(
                2,
            ).port_refusal(m))),
            forall|k: int| #[trigger] old(self).at(2).body_refused(k) ==> (old(self).ident_at(0) && old(self).cur_tok().s == "logic"@
                && old(self).ident_at(1) && !old(prog).logics.has(old(self).peek_tok(1).s) ==> (r matches Err(x) && x@ == old(self).at(2).at(
                3 * k + 2,
            ).stmt_refusal()->Some_0)),
            forall|k: int| #[trigger] old(self).assign_module_file(k) ==> (r matches Ok(ParseStep::Done)) && final(prog).modules@.len()
                == old(prog).modules@.len() + 1 && final(prog).modules@.drop_last() == old(prog).modules@ && final(prog).modules@.last().name@
                == old(self).peek_tok(1).s && final(prog).modules@.last().pre@.len() == 0 && final(prog).modules@.last().sim@.len() == k
                && forall|m: int| 0 <= m < k ==> old(self).at(1).assign_read(4, m, #[trigger] final(prog).modules@.last().sim@[m]),
            forall|k: int, n: int| #[trigger] old(self).one_chain_logic_file(k, n) ==> (!old(prog).logics.has(old(self).peek_tok(1).s)
                ==> (r matches Ok(ParseStep::Done)) && final(prog).modules == old(prog).modules && (final(prog).logics.get_spec(
                old(self).peek_tok(1).s,
            ) matches Some(d) && old(self).at(2).ports_read(k, d.ports@) && d.stmts@.len() == 1 && old(self).at(2).at(3 * k + 2).bare_chain_stmt(
                n,
                d.stmts@[0],
            ) && d.params@.len() == 0)),
    {
        let ghost o = *old(self);
        let ghost lf2 = !old(prog).logics.has(o.peek_tok(1).s) && exists|k: int, n: int| o.one_chain_logic_file(k, n);
        let ghost kn2 = choose|k: int, n: int| o.one_chain_logic_file(k, n);
        let ghost kf = kn2.0;
        let ghost nf = kn2.1;
        proof {
            if lf2 {
                assert forall|k: int, n: int| #[trigger] o.one_chain_logic_file(k, n) implies k == kf && n == nf by {
                    o.at(2).lemma_simple_ports_unique(k, kf);
                    o.at(2).at(3 * kf + 2).lemma_bare_chain_unique(n, nf);
                }
                assert(o.peek_tok(1).k == Tk::Ident);
                assert(o.i + 2 < o.toks@.len());
                assert(o.toks.len() == o.toks@.len());
                assert(o.at(2).simple_ports(kf));
                assert(o.at(2).punct_at(3 * kf + 2 * nf + 2, "}"@));
                o.lemma_at_peek(2, 3 * kf + 2 * nf + 2);
                assert(o.peek_tok(3 * kf + 2 * nf + 4).k == Tk::Punct);
                assert(o.i + 3 * kf + 2 * nf + 5 < o.toks@.len());
            }
        }
        let ghost lf = o.ident_at(0) && o.cur_tok().s == "logic"@ && o.ident_at(1) && !old(prog).logics.has(o.peek_tok(1).s) && exists|k: int| o.at(2).body_refused(k);
        let ghost em = o.empty_module_file();
        let ghost pf = o.param_file();
        let ghost dm = o.punct_at(0, "#"@) && o.ident_at(1) && o.peek_tok(1).s == "define"@ && o.ident_at(2) && o.peek_tok(2).s == "MODE"@
            && o.ident_at(3) && o.peek_tok(4).k == Tk::End;
        proof {
            if dm {
                lemma_punct_chars();
                assert(o.peek_tok(0) == o.cur_tok());
                assert(o.i + 3 < o.toks@.len() - 1);
            }
        }
        let ghost ip = o.punct_at(0, "#"@) && o.ident_at(1) && o.peek_tok(1).s == "include"@ && o.peek_tok(2).k == Tk::Str && !is_bundled(
            o.peek_tok(2).s,
        );
        proof {
            if ip {
                lemma_punct_chars();
                assert(o.peek_tok(0) == o.cur_tok());
                assert(o.i + 2 < o.toks@.len() - 1 || o.peek_tok(2).k == Tk::Str);
                assert(o.i + 1 < o.toks@.len() - 1);
            }
        }
        let ghost lfp = o.ident_at(0) && o.cur_tok().s == "logic"@ && o.ident_at(1) && !old(prog).logics.has(o.peek_tok(1).s) && exists|
            m: int,
        | o.at(2).port_refused(m);
        let ghost amf = exists|k: int| o.assign_module_file(k);
        let ghost ka = choose|k: int| o.assign_module_file(k);
        proof {
            if amf {
                assert(o.ident_at(0));
                assert(o.i + 1 < o.toks@.len());
                assert(o.toks.len() == o.toks@.len());
                o.lemma_at_peek(1, 5 + 4 * ka);
                o.lemma_at_peek(1, 0);
                assert(o.at(1).ident_at(0));
                assert(o.peek_tok(4 * ka + 6).k == Tk::Punct);
                assert(o.i + 4 * ka + 7 < o.toks@.len());
                assert forall|k: int| #[trigger] o.assign_module_file(k) implies k == ka by {
                    o.at(1).lemma_assign_module_unique(k, ka);
                }
            }
        }
        proof {
            reveal_strlit("module");
            reveal_strlit("param");
            reveal_strlit("logic");
            assert("module"@[0] != "param"@[0]);
            assert("module"@[0] != "logic"@[0]);
            assert("param"@[0] != "logic"@[0]);
            assert(o.peek_tok(0) == o.cur_tok());
            if em {
                assert(o.i + 4 < o.toks@.len());
            }
            if pf {
                assert(o.i + 5 < o.toks@.len());
            }
        }
        let ghost mp = o.ident_at(0) && o.cur_tok().s == "module"@ && o.ident_at(1) && o.punct_at(2, "("@);
        proof {
            assert(o.peek_tok(0) == o.cur_tok());
            if mp {
                reveal_strlit("module");
                reveal_strlit("param");
                reveal_strlit("logic");
                assert("module"@[0] != "param"@[0]);
                assert("module"@[0] != "logic"@[0]);
                assert(o.i + 2 < o.toks@.len());
            }
        }
        proof {
            if lf || lfp {
                reveal_strlit("param");
                reveal_strlit("logic");
                assert("param"@[0] != "logic"@[0]);
                assert(o.peek_tok(0) == o.cur_tok());
                assert(o.i + 1 < o.toks@.len() - 1);
            }
        }
        while self.cur().k != Tk::End
            invariant
                o == *old(self),
                mp == (o.ident_at(0) && o.cur_tok().s == "module"@ && o.ident_at(1) && o.punct_at(2, "("@)),
                mp ==> self.i == o.i && *prog == *old(prog) && o.cur_tok().s != "param"@ && o.cur_tok().s != "logic"@,
                lf == (o.ident_at(0) && o.cur_tok().s == "logic"@ && o.ident_at(1) && !old(prog).logics.has(o.peek_tok(1).s) && exists|k: int| o.at(2).body_refused(k)),
                lf ==> self.i == o.i && *prog == *old(prog) && o.cur_tok().s != "param"@ && o.i + 1 < o.toks@.len() - 1,
                lfp == (o.ident_at(0) && o.cur_tok().s == "logic"@ && o.ident_at(1) && !old(prog).logics.has(o.peek_tok(1).s) && exists|
                    m: int,
                | o.at(2).port_refused(m)),
                lfp ==> self.i == o.i && *prog == *old(prog) && o.cur_tok().s != "param"@ && o.i + 1 < o.toks@.len() - 1,
                ip == (o.punct_at(0, "#"@) && o.ident_at(1) && o.peek_tok(1).s == "include"@ && o.peek_tok(2).k == Tk::Str && !is_bundled(
                    o.peek_tok(2).s,
                )),
                ip ==> self.i == o.i && *prog == *old(prog) && o.cur_tok().k == Tk::Punct && o.i + 1 < o.toks@.len() - 1,
                dm == (o.punct_at(0, "#"@) && o.ident_at(1) && o.peek_tok(1).s == "define"@ && o.ident_at(2) && o.peek_tok(2).s == "MODE"@
                    && o.ident_at(3) && o.peek_tok(4).k == Tk::End),
                dm ==> o.cur_tok().k == Tk::Punct && o.i + 3 < o.toks@.len() - 1 && ((self.i == o.i && *prog == *old(prog)) || (self.i
                    == o.i + 4 && prog.modules == old(prog).modules && prog.logics == old(prog).logics && prog.defines == old(prog).defines
                    && (o.peek_tok(3).s == "element"@ ==> prog.warnings == old(prog).warnings))),
                lf2 == (!old(prog).logics.has(o.peek_tok(1).s) && exists|k: int, n: int| o.one_chain_logic_file(k, n)),
                lf2 ==> o.one_chain_logic_file(kf, nf) && o.i + 3 * kf + 2 * nf + 5 < o.toks@.len() && o.cur_tok().s != "param"@
                    && forall|k: int, n: int| #[trigger] o.one_chain_logic_file(k, n) ==> k == kf && n == nf,
                lf2 ==> (self.i == o.i && *prog == *old(prog)) || (self.i == o.i + 3 * kf + 2 * nf + 5 && prog.modules == old(prog).modules
                    && (prog.logics.get_spec(o.peek_tok(1).s) matches Some(d) && o.at(2).ports_read(kf, d.ports@) && d.stmts@.len() == 1
                    && o.at(2).at(3 * kf + 2).bare_chain_stmt(nf, d.stmts@[0]) && d.params@.len() == 0)),
                em == o.empty_module_file(),
                amf == exists|k: int| o.assign_module_file(k),
                amf ==> o.assign_module_file(ka) && o.i + 4 * ka + 7 < o.toks@.len() && o.cur_tok().s != "param"@
                    && o.cur_tok().s != "logic"@ && forall|k: int| #[trigger] o.assign_module_file(k) ==> k == ka,
                amf ==> (self.i == o.i && *prog == *old(prog)) || (self.i == o.i + 4 * ka + 7 && prog.modules@.len()
                    == old(prog).modules@.len() + 1 && prog.modules@.drop_last() == old(prog).modules@ && prog.modules@.last().name@
                    == o.peek_tok(1).s && prog.modules@.last().pre@.len() == 0 && prog.modules@.last().sim@.len() == ka
                    && forall|m: int| 0 <= m < ka ==> o.at(1).assign_read(4, m, #[trigger] prog.modules@.last().sim@[m])),
                pf == o.param_file(),
                em ==> o.cur_tok().s != "param"@ && o.cur_tok().s != "logic"@ && o.i + 4 < o.toks@.len() && ((self.i == o.i && *prog == *old(prog))
                    || (self.i == o.i + 4 && prog.modules@.len() == old(prog).modules@.len() + 1 && prog.modules@.drop_last() == old(prog).modules@
                    && prog.modules@.last().name@ == o.peek_tok(1).s && prog.modules@.last().pre@.len() == 0
                    && prog.modules@.last().sim@.len() == 0)),
                pf ==> o.i + 5 < o.toks@.len() && ((self.i == o.i && *prog == *old(prog)) || (self.i == o.i + 5
                    && prog.defines.get_spec(o.peek_tok(1).s) == Some(o.peek_tok(3).num) && prog.modules == old(prog).modules)),
                old(self).cur_tok().k == Tk::End ==> self.i == old(self).i && *prog == *old(prog),
                self.wf(),
                self.toks@ == old(self).toks@,
                self.base_dir@ == old(self).base_dir@,
                self.i >= old(self).i,
                old(self).consts_agree(old(prog)) ==> self.consts_agree(prog),
                forall|k: Seq<char>| #[trigger] old(prog).logics.has(k) ==> prog.logics.has(k),
                prog.modules@.len() >= old(prog).modules@.len(),
                logics_ok(old(prog).logics) ==> logics_ok(prog.logics),
            decreases self.toks@.len() - self.i,
        {
            let ghost lg = prog.logics;
            if self.is_punct("#") {
                self.bump();
                assert(ip ==> self.i == o.i + 1 && self.cur_tok() == o.peek_tok(1) && self.peek_tok(1) == o.peek_tok(2));
                assert(dm ==> self.i == o.i + 1 && self.cur_tok() == o.peek_tok(1) && self.peek_tok(1) == o.peek_tok(2) && self.peek_tok(
                    2,
                ) == o.peek_tok(3));
                match self.parse_directive(prog) {
                    Ok(Some(step)) => return Ok(step),
                    Ok(None) => {},
                    Err(x) => return Err(x),
                }
            } else if self.is_ident("param") {
                self.bump();
                assert(pf ==> self.i == o.i + 1 && self.cur_tok() == o.peek_tok(1) && self.peek_tok(1) == o.peek_tok(2) && self.peek_tok(
                    2,
                ) == o.peek_tok(3) && self.peek_tok(3) == o.peek_tok(4) && self.peek_tok(4) == o.peek_tok(5));
                match self.parse_param(prog) {
                    Ok(()) => {},
                    Err(x) => return Err(x),
                }
            } else if self.is_ident("logic") {
                self.bump();
                let ghost nm = self.cur_tok().s;
                let ghost sb = *self;
                let ghost pb = *prog;
                let res = self.parse_logic(prog);
                proof {
                    if lf2 {
                        assert(sb.i == o.i + 1);
                        Parser::lemma_same_view(sb, o.at(1));
                        o.lemma_at_peek(1, 0);
                        o.lemma_at_peek(1, 1);
                        let d = prog.logics.get_spec(o.peek_tok(1).s)->Some_0;
                        Parser::lemma_same_done_view(o.at(2), sb.at(1), kf, nf, d.ports@, d.stmts@[0]);
                        assert(sb.at(1).body_chain_done(kf, nf));
                        assert(sb.cur_tok() == o.peek_tok(1));
                        assert(res is Ok);
                    }
                }
                proof {
                    assert forall|k: int| #[trigger] o.at(2).body_refused(k) && o.ident_at(0) && o.cur_tok().s == "logic"@ && o.ident_at(1)
                        && !old(prog).logics.has(o.peek_tok(1).s) implies (res matches Err(x) && x@ == o.at(2).at(
                        3 * k + 2,
                    ).stmt_refusal()->Some_0) by {
                        assert(lf);
                        Parser::lemma_same_view(sb, o.at(1));
                        o.lemma_at_peek(1, 0);
                        Parser::lemma_same_body_view(o.at(2), sb.at(1), k);
                    }
                    assert forall|m: int| #[trigger] o.at(2).port_refused(m) && o.ident_at(0) && o.cur_tok().s == "logic"@ && o.ident_at(1)
                        && !old(prog).logics.has(o.peek_tok(1).s) implies (res matches Err(x) && x@ == o.at(2).port_refusal(m)) by {
                        assert(lfp);
                        Parser::lemma_same_view(sb, o.at(1));
                        o.lemma_at_peek(1, 0);
                        Parser::lemma_same_port_view(o.at(2), sb.at(1), m);
                    }
                }
                match res {
                    Ok(()) => {},
                    Err(x) => return Err(x),
                }
                proof {
                    assert forall|k: Seq<char>| #[trigger] old(prog).logics.has(k) implies prog.logics.has(k) by {
                        assert(lg.has(k));
                        if k != nm {
                            assert(prog.logics.get_spec(k) == lg.get_spec(k));
                        }
                    }
                    if logics_ok(old(prog).logics) {
                        assert forall|k: Seq<char>| #[trigger] prog.logics.get_spec(k) is Some implies prog.logics.get_spec(k).unwrap().name@ == k
                            && logic_def_ok(prog.logics.get_spec(k).unwrap()) by {
                            if k != nm {
                                assert(prog.logics.get_spec(k) == lg.get_spec(k));
                            }
                        }
                    }
                }
            } else if self.is_ident("module") {
                self.bump();
                assert(mp ==> self.cur_tok() == o.peek_tok(1) && self.peek_tok(1) == o.peek_tok(2) && self.ident_at(0)
                    && self.punct_at(1, "("@));
                assert(em ==> self.i == o.i + 1 && self.cur_tok() == o.peek_tok(1) && self.peek_tok(1) == o.peek_tok(2)
                    && self.peek_tok(2) == o.peek_tok(3) && self.peek_tok(3) == o.peek_tok(4));
                let ghost sm = *self;
                proof {
                    if amf {
                        assert(self.i == o.i + 1);
                        Parser::lemma_same_assign_view(o.at(1), sm, ka);
                    }
                }
                match self.parse_module(prog) {
                    Ok(()) => {},
                    Err(x) => return Err(x),
                }
                proof {
                    if amf {
                        Parser::lemma_same_assign_view(o.at(1), sm, ka);
                        Parser::lemma_same_view(sm, o.at(1));
                        o.lemma_at_peek(1, 0);
                        o.lemma_at_peek(1, 4 * ka + 6);
                        assert(self.i == o.i + 4 * ka + 7);
                        assert(self.cur_tok() == o.peek_tok(4 * ka + 7));
                    }
                }
            } else {
                return self.err_cur(own("expected 'param', 'logic', 'module', or '#' directive at top level"));
            }
        }
        Ok(ParseStep::Done)
    }

    /// A parser for an included source that continues with this parser's constants; they
    /// move to it until `absorb` takes them back with the included file's additions.
    pub fn sub_parser(&mut self, toks: Vec<Token>, base_dir: String) -> (r: Parser)
        requires
            toks@.len() >= 1,
            toks@.last().k == Tk::End,
        ensures
            r.wf(),
            r.pos() == 0,
            r.tokens() == crate::lexer::toks_view(toks@),
            r.constants() == old(self).constants(),
            forall|k: Seq<char>| #[trigger] final(self).constants().get_spec(k) is None,
            final(self).tokens() == old(self).tokens(),
            final(self).pos() == old(self).pos(),
            final(self).wf() == old(self).wf(),
    {
        let mut consts = StrMap::new();
        core::mem::swap(&mut consts, &mut self.consts);
        Parser { toks, i: 0, base_dir, consts, logic_params: StrSet::new() }
    }

    /// Takes back the constants from the parser of an included source (the constants this
    /// parser had, with what the included source defined).
    pub fn absorb(&mut self, sub: Parser)
        ensures
            final(self).constants() == sub.constants(),
            final(self).tokens() == old(self).tokens(),
            final(self).pos() == old(self).pos(),
            final(self).wf() == old(self).wf(),
            forall|prog: Program| #[trigger] sub.consts_agree(&prog) ==> final(self).consts_agree(&prog),
    {
        self.consts = sub.consts;
    }
}

} // verus!
