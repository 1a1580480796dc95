//! Running a module's testbench: variables, logic instances bound to them, ticks of the
//! circuit, monitors, self-checks and `scan()` input. What the testbench prints, the trace,
//! the waveform and the warnings are collected in order for the caller to write out, and
//! `scan()` reads from the input bytes the caller supplies.
use crate::ast::{BindRef, BindTarget, CallData, Expr, InstArg, LogicDef, ModuleDef, Program, Sel, SimStmt};
use crate::circuit::{lemma_root_bound, unsettled, Circuit, Config, NodeKind, SeqKind};
use crate::diag::{fail, RvError, RvResult, Warning};
use crate::parser::{div_wrap, line_err, neg_wrap, rem_wrap};
use crate::strs::{assoc, keys_unique, lemma_assoc_unique_at, lemma_seen_all, lemma_seen_step, seen, cat2, cat3, cat4, cat5, char_string, format_int, format_uint, int_str, int_text, own, str_eq, uint_text, StrMap, StrSet};
use crate::interp::{bind_target_desc, check_binding_arity, check_target_overlap, concat_desc, expr_to_string, lookup_logic, param_env_key, build_callee_param_env, parse_scan_fmt, require_output_ports, require_single_output, sel_lane_indices, sel_suffix, sim_arg_key, shape_width, pad_value, padded, PortShape};
use crate::elab::{connect_ports, shape_ok, ports_fit, shape_lanes, stack_ok, Elaborator, Ports};
use crate::parser::{logics_ok, strs_view};
use crate::lexer::ErrSpec;
use vstd::prelude::*;

verus! {

/// A logic instance of a testbench: for each input lane, the variable (`x` or `x[k]`) that
/// drives it and its node; and for each output port, its lane nodes (in declaration order).
pub struct Instance {
    pub in_vars: Vec<String>,
    pub in_nodes: Vec<usize>,
    pub out_ports: Vec<Vec<usize>>,
}

/// Time spent running the modules' ticks (in nanoseconds, as the caller measured it) and
/// the number of modules run.
pub struct RunTimings {
    pub sim: u128,
    pub modules: usize,
}

/// The toggling of `clock(var, N)`: each level is held `hold` ticks; `counter` ticks are
/// left before the next toggle; `level` is 0 or 15.
#[derive(Clone, Copy)]
pub struct ClockState {
    pub hold: i64,
    pub counter: i64,
    pub level: i64,
}

/// One piece of what a run writes: text for standard output, a line for standard error,
/// or a warning (rendered by the caller).
pub enum Out {
    Stdout(String),
    Stderr(String),
    Warn(Warning),
}

/// A waveform signal: its node, its identifier and the last value written.
pub struct VcdSig {
    pub node: usize,
    pub code: String,
    pub last: i32,
}

/// The waveform being written: its scope (the module name), its signals once the header
/// is out, and the lines written so far.
pub struct VcdState {
    pub scope: String,
    pub sigs: Vec<VcdSig>,
    pub started: bool,
    pub lines: Vec<String>,
}

/// The key of lane `k` of bus variable `name`: `name[k]`.
pub open spec fn lane_key_spec(name: Seq<char>, k: int) -> Seq<char> {
    name + "["@ + int_text(k, 10) + "]"@
}

/// A name with no `[` in it.
pub open spec fn plain_name(s: Seq<char>) -> bool {
    forall|i: int| 0 <= i < s.len() ==> s[i] != '['
}

/// Two lane keys of plain names are keys of the same name, and a lane key is no plain name.
pub proof fn lemma_lane_key_name(n1: Seq<char>, k1: int, n2: Seq<char>, k2: int)
    requires
        plain_name(n1),
        plain_name(n2),
    ensures
        lane_key_spec(n1, k1) == lane_key_spec(n2, k2) ==> n1 == n2,
        !plain_name(lane_key_spec(n1, k1)),
{
    reveal_strlit("[");
    let s = lane_key_spec(n1, k1);
    let t = lane_key_spec(n2, k2);
    assert(s[n1.len() as int] == '[');
    assert(t[n2.len() as int] == '[');
    if s == t {
        if n1.len() < n2.len() {
            assert(t[n1.len() as int] == n2[n1.len() as int]);
        } else if n2.len() < n1.len() {
            assert(s[n2.len() as int] == n1[n2.len() as int]);
        }
        assert(n1 =~= s.subrange(0, n1.len() as int));
        assert(n2 =~= t.subrange(0, n2.len() as int));
    }
}

/// The value a declaration starts from when its initializer is absent (0) or a number.
pub open spec fn const_init(d: (String, Option<Expr>, Option<i32>)) -> Option<i64> {
    match d.1 {
        None => Some(0i64),
        Some(e) => match e {
            Expr::Num { num, .. } => Some(num),
            _ => None,
        },
    }
}

/// The key of lane `k` of bus variable `name`.
pub fn lane_key(name: &str, k: i64) -> (r: String)
    ensures
        r@ == lane_key_spec(name@, k as int),
{
    let t = int_str(k);
    cat4(name, "[", t.as_str(), "]")
}

/// The value of a testbench expression: numbers, `$time`, variables (then numeric
/// defines), lanes of bus variables, `-` and `!`, and the binary operators, `&&` and `||`
/// evaluating their right side only when needed. Arithmetic wraps at 64 bits; division
/// and remainder by zero are errors.
pub open spec fn eval_spec(e: Expr, vars: StrMap<i64>, buses: StrMap<i32>, defines: StrMap<i64>, time: i64) -> Result<i64, crate::lexer::ErrSpec>
    decreases e,
{
    match e {
        Expr::Num { num, .. } => Ok(num),
        Expr::Time { .. } => Ok(time),
        Expr::Var { line, name, index } => match index {
            None => match vars.get_spec(name@) {
                Some(v) => Ok(v),
                None => if buses.has(name@) {
                    Err(line_err(line, "'"@ + name@ + "' is a bus var; index a lane (e.g. '"@ + name@ + "[0]')"@))
                } else {
                    match defines.get_spec(name@) {
                        Some(v) => Ok(v),
                        None => Err(line_err(line, "undeclared variable: "@ + name@)),
                    }
                },
            },
            Some(ix) => match buses.get_spec(name@) {
                None => Err(line_err(line, "'"@ + name@ + "' is not a bus var; cannot index it"@)),
                Some(w) => match eval_spec(*ix, vars, buses, defines, time) {
                    Err(x) => Err(x),
                    Ok(k) => if k < 0 || k >= w {
                        Err(line_err(
                            line,
                            "bus var index out of range: "@ + name@ + "["@ + int_text(k as int, 10) + "] (width "@ + int_text(
                                w as int,
                                10,
                            ) + ")"@,
                        ))
                    } else {
                        match vars.get_spec(lane_key_spec(name@, k as int)) {
                            Some(v) => Ok(v),
                            None => Err(line_err(line, "undeclared variable: "@ + lane_key_spec(name@, k as int))),
                        }
                    },
                },
            },
        },
        Expr::Un { a, op, .. } => match eval_spec(*a, vars, buses, defines, time) {
            Err(x) => Err(x),
            Ok(v) => Ok(
                if op@ == "-"@ {
                    neg_wrap(v)
                } else if op@ == "!"@ {
                    if v == 0 {
                        1
                    } else {
                        0
                    }
                } else {
                    v
                },
            ),
        },
        Expr::Bin { line, op, a, b } => match eval_spec(*a, vars, buses, defines, time) {
            Err(x) => Err(x),
            Ok(x) => if op@ == "&&"@ && x == 0 {
                Ok(0)
            } else if op@ == "||"@ && x != 0 {
                Ok(1)
            } else {
                match eval_spec(*b, vars, buses, defines, time) {
                    Err(y) => Err(y),
                    Ok(y) => if op@ == "&&"@ || op@ == "||"@ {
                        Ok(if y != 0 { 1 } else { 0 })
                    } else {
                        bin_spec(line, op@, x, y)
                    },
                }
            },
        },
    }
}

/// A binary arithmetic or comparison operator applied to two values.
pub open spec fn bin_spec(line: i32, op: Seq<char>, x: i64, y: i64) -> Result<i64, crate::lexer::ErrSpec> {
    if op == "+"@ {
        Ok(x.wrapping_add(y))
    } else if op == "-"@ {
        Ok(x.wrapping_sub(y))
    } else if op == "*"@ {
        Ok(x.wrapping_mul(y))
    } else if op == "/"@ {
        if y == 0 {
            Err(line_err(line, "division by zero"@))
        } else {
            Ok(div_wrap(x, y))
        }
    } else if op == "%"@ {
        if y == 0 {
            Err(line_err(line, "modulo by zero"@))
        } else {
            Ok(rem_wrap(x, y))
        }
    } else if op == "<"@ {
        Ok(if x < y { 1 } else { 0 })
    } else if op == "<="@ {
        Ok(if x <= y { 1 } else { 0 })
    } else if op == ">"@ {
        Ok(if x > y { 1 } else { 0 })
    } else if op == ">="@ {
        Ok(if x >= y { 1 } else { 0 })
    } else if op == "=="@ {
        Ok(if x == y { 1 } else { 0 })
    } else if op == "!="@ {
        Ok(if x != y { 1 } else { 0 })
    } else {
        Err(line_err(line, "unknown operator: "@ + op))
    }
}

/// Applies a binary arithmetic or comparison operator (see `bin_spec`).
pub fn apply_bin(line: i32, op: &str, x: i64, y: i64) -> (r: RvResult<i64>)
    ensures
        match bin_spec(line, op@, x, y) {
            Ok(v) => r == Ok::<i64, RvError>(v),
            Err(m) => r matches Err(e) && e@ == m,
        },
{
    if str_eq(op, "+") {
        Ok(x.wrapping_add(y))
    } else if str_eq(op, "-") {
        Ok(x.wrapping_sub(y))
    } else if str_eq(op, "*") {
        Ok(x.wrapping_mul(y))
    } else if str_eq(op, "/") {
        if y == 0 {
            return fail(line, own("division by zero"));
        }
        match x.checked_div(y) {
            Some(q) => Ok(q),
            None => Ok(x),
        }
    } else if str_eq(op, "%") {
        if y == 0 {
            return fail(line, own("modulo by zero"));
        }
        match x.checked_rem(y) {
            Some(q) => Ok(q),
            None => Ok(0),
        }
    } else if str_eq(op, "<") {
        Ok(if x < y { 1 } else { 0 })
    } else if str_eq(op, "<=") {
        Ok(if x <= y { 1 } else { 0 })
    } else if str_eq(op, ">") {
        Ok(if x > y { 1 } else { 0 })
    } else if str_eq(op, ">=") {
        Ok(if x >= y { 1 } else { 0 })
    } else if str_eq(op, "==") {
        Ok(if x == y { 1 } else { 0 })
    } else if str_eq(op, "!=") {
        Ok(if x != y { 1 } else { 0 })
    } else {
        fail(line, cat2("unknown operator: ", op))
    }
}

/// Evaluates a testbench expression (see `eval_spec`).
pub fn eval_expr(e: &Expr, vars: &StrMap<i64>, buses: &StrMap<i32>, defines: &StrMap<i64>, time: i64) -> (r: RvResult<i64>)
    ensures
        match eval_spec(*e, *vars, *buses, *defines, time) {
            Ok(v) => r == Ok::<i64, RvError>(v),
            Err(m) => r matches Err(x) && x@ == m,
        },
    decreases e,
{
    match e {
        Expr::Num { num, .. } => Ok(*num),
        Expr::Time { .. } => Ok(time),
        Expr::Var { line, name, index } => match index {
            None => match vars.get(name.as_str()) {
                Some(v) => Ok(*v),
                None => {
                    if buses.contains_key(name.as_str()) {
                        let m = cat5("'", name.as_str(), "' is a bus var; index a lane (e.g. '", name.as_str(), "[0]')");
                        return fail(*line, m);
                    }
                    match defines.get(name.as_str()) {
                        Some(v) => Ok(*v),
                        None => fail(*line, cat2("undeclared variable: ", name.as_str())),
                    }
                },
            },
            Some(ix) => {
                let w = match buses.get(name.as_str()) {
                    Some(w) => *w as i64,
                    None => return fail(*line, cat3("'", name.as_str(), "' is not a bus var; cannot index it")),
                };
                let k = match eval_expr(ix, vars, buses, defines, time) {
                    Ok(k) => k,
                    Err(x) => return Err(x),
                };
                if k < 0 || k >= w {
                    let tk = int_str(k);
                    let tw = int_str(w);
                    let m = cat5("bus var index out of range: ", name.as_str(), "[", tk.as_str(), "] (width ");
                    return fail(*line, cat3(m.as_str(), tw.as_str(), ")"));
                }
                let key = lane_key(name.as_str(), k);
                match vars.get(key.as_str()) {
                    Some(v) => Ok(*v),
                    None => fail(*line, cat2("undeclared variable: ", key.as_str())),
                }
            },
        },
        Expr::Un { a, op, .. } => {
            let v = match eval_expr(a, vars, buses, defines, time) {
                Ok(v) => v,
                Err(x) => return Err(x),
            };
            if str_eq(op.as_str(), "-") {
                Ok(0i64.wrapping_sub(v))
            } else if str_eq(op.as_str(), "!") {
                Ok(if v == 0 { 1 } else { 0 })
            } else {
                Ok(v)
            }
        },
        Expr::Bin { line, op, a, b } => {
            let x = match eval_expr(a, vars, buses, defines, time) {
                Ok(v) => v,
                Err(err) => return Err(err),
            };
            let and = str_eq(op.as_str(), "&&");
            let or = str_eq(op.as_str(), "||");
            if and && x == 0 {
                return Ok(0);
            }
            if or && x != 0 {
                return Ok(1);
            }
            let y = match eval_expr(b, vars, buses, defines, time) {
                Ok(v) => v,
                Err(err) => return Err(err),
            };
            if and || or {
                return Ok(if y != 0 { 1 } else { 0 });
            }
            apply_bin(*line, op.as_str(), x, y)
        },
    }
}

// ---- monitor output ----------------------------------------------------------------

/// A decimal digit.
pub open spec fn is_dig(c: char) -> bool {
    '0' <= c && c <= '9'
}

/// End of the run of digits of `f` from `j`.
pub open spec fn dig_end(f: Seq<char>, j: int) -> int
    decreases f.len() - j,
{
    if 0 <= j < f.len() && is_dig(f[j]) {
        dig_end(f, j + 1)
    } else {
        j
    }
}

/// One more decimal digit `d` of a width (kept within `usize`).
pub open spec fn width_step(acc: nat, d: nat) -> nat {
    if acc * 10 + d > usize::MAX {
        usize::MAX as nat
    } else {
        acc * 10 + d
    }
}

/// The width read from the run of digits of `f` from `j`, after `acc`.
pub open spec fn width_from(f: Seq<char>, j: int, acc: nat) -> nat
    decreases f.len() - j,
{
    if 0 <= j < f.len() && is_dig(f[j]) {
        width_from(f, j + 1, width_step(acc, (f[j] as u32 - 48) as nat))
    } else {
        acc
    }
}

/// The number base of a directive letter (`b`, `x`, `o`), if any.
pub open spec fn base_of(f: Seq<char>, j: int) -> Option<u32> {
    if 0 <= j < f.len() && f[j] == 'b' {
        Some(2)
    } else if 0 <= j < f.len() && f[j] == 'x' {
        Some(16)
    } else if 0 <= j < f.len() && f[j] == 'o' {
        Some(8)
    } else {
        None
    }
}

/// Text of a monitored value in base `base` (10 when none). A packed bus variable of `w`
/// lanes is unsigned and keeps its lane boundaries: `4w` binary digits or `w` hex digits.
pub open spec fn mon_body(a: (i64, Option<i32>), base: Option<u32>) -> Seq<char> {
    let b: u32 = match base {
        Some(x) => x,
        None => 10,
    };
    match a.1 {
        Some(w) => {
            let raw = uint_text((a.0 as u64) as nat, b);
            let lanes: nat = if w >= 0 { w as nat } else { 0 };
            if base == Some(2u32) {
                padded(raw, lanes * 4, true)
            } else if base == Some(16u32) {
                padded(raw, lanes, true)
            } else {
                raw
            }
        },
        None => int_text(a.0 as int, b),
    }
}

/// Prepends text to a successful result.
pub open spec fn prepend_text(pre: Seq<char>, r: Result<Seq<char>, ErrSpec>) -> Result<Seq<char>, ErrSpec> {
    match r {
        Ok(t) => Ok(pre + t),
        Err(e) => Err(e),
    }
}

/// A directive of format `f` at `%` (index `i`), with the values `av` from `ai`: `%%` is
/// `%`; `%[0][N][b|x|o]` is the next value (or `<?>` when none is left) in that base,
/// padded to width N (with zeros after `0`); `%Nt` and `%Nd` are refused. Gives the text,
/// where the format goes on, and the next value.
pub open spec fn directive(f: Seq<char>, i: int, av: Seq<(i64, Option<i32>)>, ai: int, line: i32) -> Result<(Seq<char>, int, int), ErrSpec> {
    let j = i + 1;
    if j < f.len() && f[j] == '%' {
        Ok((seq!['%'], j + 1, ai))
    } else {
        let zp = j < f.len() && f[j] == '0' && j + 1 < f.len() && is_dig(f[j + 1]);
        let j1 = if zp { j + 1 } else { j };
        let j2 = dig_end(f, j1);
        let width = width_from(f, j1, 0);
        if j2 < f.len() && (f[j2] == 't' || f[j2] == 'd') {
            Err(line_err(
                line,
                "monitor format: type suffix '%"@ + seq![f[j2]] + "' is not supported; use '%' or '%N' for width (e.g. '%2' instead of '%2"@
                    + seq![f[j2]] + "')"@,
            ))
        } else {
            let base = base_of(f, j2);
            let j3 = if base is Some { j2 + 1 } else { j2 };
            if 0 <= ai < av.len() {
                Ok((padded(mon_body(av[ai], base), width, zp), j3, ai + 1))
            } else {
                Ok((padded("<?>"@, width, zp), j3, ai))
            }
        }
    }
}

/// The monitor text of format `f` from character `i` with the values `av` from `ai`:
/// directives (see `directive`) are replaced, other characters are copied.
pub open spec fn mon_from(f: Seq<char>, i: int, av: Seq<(i64, Option<i32>)>, ai: int, line: i32) -> Result<Seq<char>, ErrSpec>
    decreases f.len() - i,
{
    if i < 0 || i >= f.len() {
        Ok(seq![])
    } else if f[i] != '%' {
        prepend_text(seq![f[i]], mon_from(f, i + 1, av, ai, line))
    } else {
        match directive(f, i, av, ai, line) {
            Err(e) => Err(e),
            Ok(d) => {
                proof {
                    lemma_directive_adv(f, i, av, ai, line);
                }
                if d.1 > i {
                    prepend_text(d.0, mon_from(f, d.1, av, d.2, line))
                } else {
                    Ok(seq![])
                }
            },
        }
    }
}

pub proof fn lemma_directive_adv(f: Seq<char>, i: int, av: Seq<(i64, Option<i32>)>, ai: int, line: i32)
    requires
        0 <= i < f.len(),
    ensures
        directive(f, i, av, ai, line) matches Ok(d) ==> i < d.1 <= f.len() && (0 <= ai <= av.len() ==> 0 <= d.2 <= av.len()),
{
    let j = i + 1;
    let zp = j < f.len() && f[j] == '0' && j + 1 < f.len() && is_dig(f[j + 1]);
    let j1 = if zp { j + 1 } else { j };
    lemma_dig_end(f, j1);
}

pub proof fn lemma_dig_end(f: Seq<char>, j: int)
    requires
        0 <= j,
    ensures
        j <= dig_end(f, j),
        j <= f.len() ==> dig_end(f, j) <= f.len(),
    decreases f.len() - j,
{
    if 0 <= j < f.len() && is_dig(f[j]) {
        lemma_dig_end(f, j + 1);
    }
}

/// Reads the directive at `%` (index `i`) of `fmt` (see `directive`).
fn read_directive(fmt: &str, n: usize, i: usize, av: &Vec<(i64, Option<i32>)>, ai: usize, line: i32) -> (r: RvResult<(String, usize, usize)>)
    requires
        n == fmt@.len(),
        i < n,
        ai <= av@.len(),
        forall|k: int| 0 <= k < av@.len() ==> ((#[trigger] av@[k]).1 matches Some(w) ==> w <= 16),
    ensures
        match directive(fmt@, i as int, av@, ai as int, line) {
            Ok(d) => r matches Ok(x) && x.0@ == d.0 && x.1 == d.1 && x.2 == d.2,
            Err(m) => r matches Err(e) && e@ == m,
        },
{
    let ghost f = fmt@;
    let mut j = i + 1;
    if j < n && fmt.get_char(j) == '%' {
        proof {
            reveal_strlit("%");
        }
        return Ok((own("%"), j + 1, ai));
    }
    let mut zero_pad = false;
    if j < n && fmt.get_char(j) == '0' && j + 1 < n {
        let d = fmt.get_char(j + 1);
        if '0' <= d && d <= '9' {
            zero_pad = true;
            j += 1;
        }
    }
    let ghost j1 = j as int;
    let mut width: usize = 0;
    proof {
        lemma_dig_end(f, j1);
    }
    while j < n && ('0' <= fmt.get_char(j) && fmt.get_char(j) <= '9')
        invariant
            n == f.len(),
            f == fmt@,
            j1 <= j <= n,
            dig_end(f, j1) == dig_end(f, j as int),
            width_from(f, j1, 0) == width_from(f, j as int, width as nat),
        decreases n - j,
    {
        let d = (fmt.get_char(j) as u32 - 48) as usize;
        if width > (usize::MAX - d) / 10 {
            width = usize::MAX;
        } else {
            width = width * 10 + d;
        }
        j += 1;
    }
    if j < n {
        let t = fmt.get_char(j);
        if t == 't' || t == 'd' {
            let ts = char_string(t);
            let m = cat5("monitor format: type suffix '%", ts.as_str(), "' is not supported; use '%' or '%N' for width (e.g. '%2' instead of '%2", ts.as_str(), "')");
            return fail(line, m);
        }
    }
    let base: Option<u32> = if j < n && fmt.get_char(j) == 'b' {
        Some(2)
    } else if j < n && fmt.get_char(j) == 'x' {
        Some(16)
    } else if j < n && fmt.get_char(j) == 'o' {
        Some(8)
    } else {
        None
    };
    if base.is_some() {
        j += 1;
    }
    if ai < av.len() {
        let (v, bus_w) = av[ai];
        let b = match base {
            Some(x) => x,
            None => 10,
        };
        let body = match bus_w {
            Some(w) => {
                let raw = format_uint(v as u64, b);
                let lanes: usize = if w >= 0 { w as usize } else { 0 };
                if base == Some(2u32) {
                    pad_value(raw.as_str(), lanes * 4, true)
                } else if base == Some(16u32) {
                    pad_value(raw.as_str(), lanes, true)
                } else {
                    raw
                }
            },
            None => format_int(v, b),
        };
        Ok((pad_value(body.as_str(), width, zero_pad), j, ai + 1))
    } else {
        Ok((pad_value("<?>", width, zero_pad), j, ai))
    }
}

/// The monitor text of format `fmt` with values `av` (see `mon_from`); a packed bus value
/// has at most 16 lanes.
pub fn format_monitor(fmt: &str, av: &Vec<(i64, Option<i32>)>, line: i32) -> (r: RvResult<String>)
    requires
        forall|k: int| 0 <= k < av@.len() ==> ((#[trigger] av@[k]).1 matches Some(w) ==> w <= 16),
    ensures
        match mon_from(fmt@, 0, av@, 0, line) {
            Ok(t) => r matches Ok(s) && s@ == t,
            Err(m) => r matches Err(e) && e@ == m,
        },
{
    let ghost f = fmt@;
    let n = fmt.unicode_len();
    let mut out = String::new();
    let mut ai: usize = 0;
    let mut i: usize = 0;
    proof {
        assert(out@ =~= Seq::<char>::empty());
        if let Ok(t) = mon_from(f, 0, av@, 0, line) {
            assert(Seq::<char>::empty() + t =~= t);
        }
    }
    while i < n
        invariant
            n == f.len(),
            f == fmt@,
            i <= n,
            ai <= av@.len(),
            forall|k: int| 0 <= k < av@.len() ==> ((#[trigger] av@[k]).1 matches Some(w) ==> w <= 16),
            mon_from(f, 0, av@, 0, line) == prepend_text(out@, mon_from(f, i as int, av@, ai as int, line)),
        decreases n - i,
    {
        let c = fmt.get_char(i);
        let ghost o0 = out@;
        if c != '%' {
            out.append(char_string(c).as_str());
            proof {
                assert(out@ =~= o0 + seq![c]);
                if let Ok(t) = mon_from(f, i + 1, av@, ai as int, line) {
                    assert(o0 + (seq![c] + t) =~= out@ + t);
                }
            }
            i += 1;
        } else {
            proof {
                lemma_directive_adv(f, i as int, av@, ai as int, line);
            }
            let (t, j, a2) = match read_directive(fmt, n, i, av, ai, line) {
                Ok(x) => x,
                Err(e) => return Err(e),
            };
            out.append(t.as_str());
            proof {
                if let Ok(rest) = mon_from(f, j as int, av@, a2 as int, line) {
                    assert(o0 + (t@ + rest) =~= out@ + rest);
                }
            }
            i = j;
            ai = a2;
        }
    }
    proof {
        if let Ok(t) = mon_from(f, i as int, av@, ai as int, line) {
            assert(t =~= Seq::<char>::empty());
            assert(out@ + t =~= out@);
        }
    }
    Ok(out)
}

// ---- packed bus values ----------------------------------------------------------------

/// Lanes `vals` packed four bits each, lane 0 lowest.
pub open spec fn packed(vals: Seq<i64>) -> u64
    decreases vals.len(),
{
    if vals.len() == 0 {
        0
    } else {
        packed(vals.drop_last()) | (((vals.last() as u64) & 0xF) << ((4 * (vals.len() - 1)) as u64))
    }
}

// ---- JSON text ----------------------------------------------------------------------------

/// A hexadecimal digit of a nibble (lower case).
pub open spec fn hex_digit(d: nat) -> char {
    if d < 10 {
        ((d + 48) as u8) as char
    } else {
        ((d + 87) as u8) as char
    }
}

/// The JSON escape of one character: `"` and `\` escaped, `\n`, `\r`, `\t`, other
/// control characters as `\u00XX`.
pub open spec fn json_char(c: char) -> Seq<char> {
    if c == '"' {
        seq!['\\', '"']
    } else if c == '\\' {
        seq!['\\', '\\']
    } else if c == '\n' {
        seq!['\\', 'n']
    } else if c == '\r' {
        seq!['\\', 'r']
    } else if c == '\t' {
        seq!['\\', 't']
    } else if (c as u32) < 0x20 {
        seq!['\\', 'u', '0', '0', hex_digit((c as u32 / 16) as nat), hex_digit((c as u32 % 16) as nat)]
    } else {
        seq![c]
    }
}

/// The JSON escapes of the characters of `s` from `i`.
pub open spec fn json_body(s: Seq<char>, i: int) -> Seq<char>
    decreases s.len() - i,
{
    if i < 0 || i >= s.len() {
        seq![]
    } else {
        json_char(s[i]) + json_body(s, i + 1)
    }
}

/// `s` as a JSON string literal.
pub open spec fn json_str(s: Seq<char>) -> Seq<char> {
    seq!['"'] + json_body(s, 0) + seq!['"']
}

/// Appends `s` as a JSON string literal to `out`.
pub fn json_escape_into(s: &str, out: &mut String)
    ensures
        final(out)@ == old(out)@ + json_str(s@),
{
    let n = s.unicode_len();
    let ghost o0 = out@;
    out.append("\"");
    proof {
        reveal_strlit("\"");
        assert(json_body(s@, 0) =~= json_body(s@, 0));
    }
    let mut i: usize = 0;
    while i < n
        invariant
            n == s@.len(),
            i <= n,
            o0 + seq!['"'] + json_body(s@, 0) == out@ + json_body(s@, i as int),
        decreases n - i,
    {
        let c = s.get_char(i);
        let ghost before = out@;
        if c == '"' {
            out.append("\\\"");
            proof {
                reveal_strlit("\\\"");
            }
        } else if c == '\\' {
            out.append("\\\\");
            proof {
                reveal_strlit("\\\\");
            }
        } else if c == '\n' {
            out.append("\\n");
            proof {
                reveal_strlit("\\n");
            }
        } else if c == '\r' {
            out.append("\\r");
            proof {
                reveal_strlit("\\r");
            }
        } else if c == '\t' {
            out.append("\\t");
            proof {
                reveal_strlit("\\t");
            }
        } else if (c as u32) < 0x20 {
            let v = c as u32;
            out.append("\\u00");
            out.append(char_string(hex_char(v / 16)).as_str());
            out.append(char_string(hex_char(v % 16)).as_str());
            proof {
                reveal_strlit("\\u00");
            }
        } else {
            out.append(char_string(c).as_str());
        }
        proof {
            assert(out@ =~= before + json_char(c));
            assert(json_body(s@, i as int) =~= json_char(c) + json_body(s@, i + 1));
            assert(before + json_body(s@, i as int) =~= out@ + json_body(s@, i + 1));
        }
        i += 1;
    }
    out.append("\"");
    proof {
        assert(json_body(s@, n as int) =~= Seq::<char>::empty());
        assert(final(out)@ =~= o0 + json_str(s@));
    }
}

/// The hexadecimal digit of `d` (below 16).
fn hex_char(d: u32) -> (r: char)
    requires
        d < 16,
    ensures
        r == hex_digit(d as nat),
{
    if d < 10 {
        ((d + 48) as u8) as char
    } else {
        ((d + 87) as u8) as char
    }
}

// ---- waveform identifiers -------------------------------------------------------------

/// The waveform identifier of signal `i`: printable characters 33-126 in base 94 (least
/// significant first, bijective).
pub open spec fn vcd_id_spec(i: nat) -> Seq<char>
    decreases i,
{
    let c = ((33 + i % 94) as u8) as char;
    if i / 94 == 0 {
        seq![c]
    } else {
        seq![c] + vcd_id_spec((i / 94 - 1) as nat)
    }
}

/// The waveform identifier of signal `i` (see `vcd_id_spec`).
pub fn vcd_id(i: usize) -> (r: String)
    ensures
        r@ == vcd_id_spec(i as nat),
{
    let mut n = i;
    let mut s = String::new();
    let ghost s0 = s@;
    proof {
        assert(s@ + vcd_id_spec(n as nat) =~= vcd_id_spec(i as nat));
    }
    loop
        invariant_except_break
            s@ + vcd_id_spec(n as nat) == vcd_id_spec(i as nat),
        ensures
            s@ == vcd_id_spec(i as nat),
        decreases n,
    {
        let c = ((33 + n % 94) as u8) as char;
        let ghost before = s@;
        let ghost n0 = n as nat;
        s.append(char_string(c).as_str());
        n = n / 94;
        if n == 0 {
            proof {
                assert(s@ =~= before + seq![c]);
                assert(vcd_id_spec(n0) == seq![c]);
            }
            break;
        }
        n -= 1;
        proof {
            assert(vcd_id_spec(n0) == seq![c] + vcd_id_spec(n as nat));
            assert(s@ + vcd_id_spec(n as nat) =~= before + vcd_id_spec(n0));
        }
    }
    s
}

// ---- scan() input -------------------------------------------------------------------------

/// A byte read as a character that is white space.
pub open spec fn ws_byte(c: u8) -> bool {
    c == 9 || c == 10 || c == 11 || c == 12 || c == 13 || c == 32 || c == 0x85 || c == 0xA0
}

/// The value of a digit character of byte `c` (0-9, a-f, A-F), or 99 when it is none.
pub open spec fn digit_val(c: u8) -> nat {
    if 48 <= c <= 57 {
        (c - 48) as nat
    } else if 97 <= c <= 102 {
        (c - 87) as nat
    } else if 65 <= c <= 70 {
        (c - 55) as nat
    } else {
        99
    }
}

/// Digit values read by `scan`: `0`..`9` are 0..9, and a hex digit `a`..`f` and its
/// upper-case form `A`..`F` both stand for 10..15; so in base 16 every one of them
/// is a digit, while in base 10 no letter is.
pub proof fn lemma_scan_digit_values(k: u8)
    requires
        k < 16,
    ensures
        k < 10 ==> digit_val((48 + k) as u8) == k,
        10 <= k ==> digit_val((97 + k - 10) as u8) == k,
        10 <= k ==> digit_val((65 + k - 10) as u8) == k,
        is_base_digit((48 + k % 10) as u8, 10),
        10 <= k ==> is_base_digit((65 + k - 10) as u8, 16) && is_base_digit((97 + k - 10) as u8, 16),
        10 <= k ==> !is_base_digit((65 + k - 10) as u8, 10) && !is_base_digit((97 + k - 10) as u8, 10),
{
}

/// `scan` does not mind letter case: where two inputs agree from `p` on but for hex
/// letters written in lower case in one and upper case in the other, the run of
/// digits ends at the same place and has the same value in every base (so `FF`
/// and `ff` both read as 255 in base 16).
pub proof fn lemma_scan_case_blind(b1: Seq<u8>, b2: Seq<u8>, p: int, e: int, base: u32, acc: Option<i64>)
    requires
        0 <= p,
        b1.len() == b2.len(),
        forall|i: int| p <= i < b1.len() ==> b1[i] == b2[i] || (97 <= b1[i] <= 102 && b2[i] == b1[i] - 32),
    ensures
        digits_to(b1, p, base) == digits_to(b2, p, base),
        digits_value(b1, p, e, base, acc) == digits_value(b2, p, e, base, acc),
    decreases b1.len() - p,
{
    if p < b1.len() {
        lemma_scan_case_blind(b1, b2, p + 1, e, base, match acc {
            Some(a) => {
                let v = a * base + digit_val(b1[p]);
                if v <= i64::MAX { Some(v as i64) } else { None }
            },
            None => None,
        });
    }
}

/// Byte `c` is a digit in base `base`.
pub open spec fn is_base_digit(c: u8, base: u32) -> bool {
    digit_val(c) < base
}

/// First non-white-space position of `b` from `p`.
pub open spec fn skip_ws_from(b: Seq<u8>, p: int) -> int
    decreases b.len() - p,
{
    if 0 <= p < b.len() && ws_byte(b[p]) {
        skip_ws_from(b, p + 1)
    } else {
        p
    }
}

/// End of the run of base-`base` digits of `b` from `p`.
pub open spec fn digits_to(b: Seq<u8>, p: int, base: u32) -> int
    decreases b.len() - p,
{
    if 0 <= p < b.len() && is_base_digit(b[p], base) {
        digits_to(b, p + 1, base)
    } else {
        p
    }
}

/// The value of the base-`base` digits `b[p..e]` after `acc`, or `None` when it leaves
/// `i64`.
pub open spec fn digits_value(b: Seq<u8>, p: int, e: int, base: u32, acc: Option<i64>) -> Option<i64>
    decreases e - p,
{
    if p >= e || p < 0 || p >= b.len() {
        acc
    } else {
        let next = match acc {
            Some(a) => {
                let v = a * base + digit_val(b[p]);
                if v <= i64::MAX {
                    Some(v as i64)
                } else {
                    None
                }
            },
            None => None,
        };
        digits_value(b, p + 1, e, base, next)
    }
}

/// The characters of bytes `b[p..e]`.
pub open spec fn byte_chars(b: Seq<u8>, p: int, e: int) -> Seq<char> {
    Seq::new((e - p) as nat, |k: int| b[p + k] as char)
}

/// `scan()` on input `b` from position `p`: white space is skipped; the integer is an
/// optional sign and base-`base` digits, ended by the input's end or by one more byte,
/// which is consumed. Gives the value and the position after it, or the error message.
pub open spec fn scan_spec(b: Seq<u8>, p: int, base: u32) -> Result<(i64, int), Seq<char>> {
    let q = skip_ws_from(b, p);
    if q >= b.len() {
        Err("scan(): unexpected end of input (no more integers on stdin)"@)
    } else if !(b[q] == 45 || b[q] == 43 || is_base_digit(b[q], base)) {
        Err("scan(): expected an integer but found '"@ + seq![b[q] as char] + "'"@)
    } else {
        let e = digits_to(b, q + 1, base);
        let next = if e < b.len() { e + 1 } else { e };
        let signed = b[q] == 45 || b[q] == 43;
        let start = if signed { q + 1 } else { q };
        let v = if start >= e { None } else { digits_value(b, start, e, base, Some(0)) };
        match v {
            None => Err("scan(): invalid integer literal '"@ + byte_chars(b, q, e) + "'"@),
            Some(x) => Ok((if b[q] == 45 { (-x) as i64 } else { x }, next)),
        }
    }
}

proof fn lemma_skip_ws(b: Seq<u8>, p: int)
    requires
        0 <= p <= b.len(),
    ensures
        p <= skip_ws_from(b, p) <= b.len(),
    decreases b.len() - p,
{
    if p < b.len() && ws_byte(b[p]) {
        lemma_skip_ws(b, p + 1);
    }
}

proof fn lemma_digits_to(b: Seq<u8>, p: int, base: u32)
    requires
        0 <= p <= b.len(),
    ensures
        p <= digits_to(b, p, base) <= b.len(),
    decreases b.len() - p,
{
    if p < b.len() && is_base_digit(b[p], base) {
        lemma_digits_to(b, p + 1, base);
    }
}

fn digit_of(c: u8) -> (r: u32)
    ensures
        r == digit_val(c),
{
    if 48 <= c && c <= 57 {
        (c - 48) as u32
    } else if 97 <= c && c <= 102 {
        (c - 87) as u32
    } else if 65 <= c && c <= 70 {
        (c - 55) as u32
    } else {
        99
    }
}

/// Reads one integer for `scan()` from `b` at `p` (see `scan_spec`).
pub fn scan_int(b: &Vec<u8>, p: usize, base: u32, line: i32) -> (r: RvResult<(i64, usize)>)
    requires
        p <= b@.len(),
        2 <= base <= 16,
    ensures
        match scan_spec(b@, p as int, base) {
            Ok((v, q)) => r matches Ok(x) && x.0 == v && x.1 == q,
            Err(m) => r matches Err(e) && e.line == line && e.msg@ == m,
        },
        r matches Ok(x) ==> x.1 <= b@.len(),
{
    let n = b.len();
    let mut q = p;
    proof {
        lemma_skip_ws(b@, p as int);
    }
    while q < n && (b[q] == 9 || b[q] == 10 || b[q] == 11 || b[q] == 12 || b[q] == 13 || b[q] == 32 || b[q] == 0x85 || b[q] == 0xA0)
        invariant
            n == b@.len(),
            p <= q <= n,
            skip_ws_from(b@, p as int) == skip_ws_from(b@, q as int),
        decreases n - q,
    {
        q += 1;
    }
    assert(skip_ws_from(b@, q as int) == q);
    if q >= n {
        assert(scan_spec(b@, p as int, base) == Err::<(i64, int), Seq<char>>("scan(): unexpected end of input (no more integers on stdin)"@));
        return fail(line, own("scan(): unexpected end of input (no more integers on stdin)"));
    }
    let c = b[q];
    if !(c == 45 || c == 43 || digit_of(c) < base) {
        let m = cat3("scan(): expected an integer but found '", char_string(c as char).as_str(), "'");
        assert(scan_spec(b@, p as int, base) == Err::<(i64, int), Seq<char>>(m@));
        return fail(line, m);
    }
    let mut e = q + 1;
    proof {
        lemma_digits_to(b@, e as int, base);
    }
    while e < n && digit_of(b[e]) < base
        invariant
            n == b@.len(),
            q < e <= n,
            digits_to(b@, q + 1, base) == digits_to(b@, e as int, base),
        decreases n - e,
    {
        e += 1;
    }
    assert(digits_to(b@, e as int, base) == e);
    let next = if e < n { e + 1 } else { e };
    let signed = c == 45 || c == 43;
    let start = if signed { q + 1 } else { q };
    let mut ok = start < e;
    let mut acc: i64 = 0;
    let mut k = start;
    proof {
        assert(digits_value(b@, start as int, e as int, base, Some(0)) == digits_value(b@, k as int, e as int, base, Some(acc)));
    }
    while ok && k < e
        invariant
            n == b@.len(),
            start <= k <= e <= n,
            2 <= base <= 16,
            start < e ==> digits_value(b@, start as int, e as int, base, Some(0)) == if ok {
                digits_value(b@, k as int, e as int, base, Some(acc))
            } else {
                None
            },
            acc >= 0,
            ok ==> start < e,
        decreases e - k, (if ok { 1int } else { 0int }),
    {
        let d = digit_of(b[k]) as i64;
        proof {
            assert(digits_value(b@, k as int, e as int, base, None) == None::<i64>) by {
                lemma_digits_none(b@, k as int, e as int, base);
            }
        }
        match acc.checked_mul(base as i64) {
            Some(m) => match m.checked_add(d) {
                Some(v) => {
                    acc = v;
                    k += 1;
                },
                None => {
                    proof {
                        lemma_digits_none(b@, k + 1, e as int, base);
                    }
                    ok = false;
                },
            },
            None => {
                proof {
                    lemma_digits_none(b@, k + 1, e as int, base);
                }
                ok = false;
            },
        }
    }
    if !ok {
        let mut t: Vec<u8> = Vec::new();
        let mut j = q;
        while j < e
            invariant
                q <= j <= e <= n,
                n == b@.len(),
                t@ == b@.subrange(q as int, j as int),
            decreases e - j,
        {
            t.push(b[j]);
            j += 1;
            assert(t@ =~= b@.subrange(q as int, j as int));
        }
        let txt = latin1_string(&t);
        proof {
            assert(txt@ =~= byte_chars(b@, q as int, e as int));
        }
        let m = cat3("scan(): invalid integer literal '", txt.as_str(), "'");
        assert(scan_spec(b@, p as int, base) == Err::<(i64, int), Seq<char>>(m@));
        return fail(line, m);
    }
    assert(k == e);
    assert(digits_value(b@, e as int, e as int, base, Some(acc)) == Some(acc));
    assert(start < e);
    assert(digits_value(b@, start as int, e as int, base, Some(0)) == Some(acc));
    assert(skip_ws_from(b@, p as int) == q);
    assert(digits_to(b@, q + 1, base) == e);
    let v = if c == 45 { -acc } else { acc };
    assert(scan_spec(b@, p as int, base) == Ok::<(i64, int), Seq<char>>((v, next as int)));
    Ok((v, next))
}

proof fn lemma_digits_none(b: Seq<u8>, p: int, e: int, base: u32)
    ensures
        digits_value(b, p, e, base, None) == None::<i64>,
    decreases e - p,
{
    if !(p >= e || p < 0 || p >= b.len()) {
        lemma_digits_none(b, p + 1, e, base);
    }
}

/// The characters of bytes `t`, one per byte.
fn latin1_string(t: &Vec<u8>) -> (r: String)
    ensures
        r@ == Seq::new(t@.len(), |k: int| t@[k] as char),
{
    let mut s = String::new();
    let mut j: usize = 0;
    while j < t.len()
        invariant
            j <= t@.len(),
            s@ == Seq::new(j as nat, |k: int| t@[k] as char),
        decreases t@.len() - j,
    {
        s.append(char_string(t[j] as char).as_str());
        j += 1;
        assert(s@ =~= Seq::new(j as nat, |k: int| t@[k] as char));
    }
    s
}

// ---- the testbench run --------------------------------------------------------------------

/// The lanes of an instance are nodes of a circuit with `n` nodes, one node per input
/// variable.
pub open spec fn inst_ok(x: Instance, n: nat) -> bool {
    &&& x.in_vars@.len() == x.in_nodes@.len()
    &&& forall|k: int| 0 <= k < x.in_nodes@.len() ==> #[trigger] x.in_nodes@[k] < n
    &&& forall|p: int| 0 <= p < x.out_ports@.len() ==> crate::interp::lanes_ok(#[trigger] x.out_ports@[p]@, n)
}

/// The state of one module's run: its name, the circuit, the variables, the instances
/// (kept in key order), the variables bound to instance outputs, the registered monitors,
/// the variables whose clamping was reported, `$time`, pending pulses, clocks, bus
/// variables and their widths, the self-check counts, whether there are several modules,
/// the logics already linted, the output options (JSON, trace, waveform), what was
/// written, and the input of `scan()` with the position read to.
pub struct ModuleExec {
    pub name: String,
    pub c: Circuit,
    pub vars: StrMap<i64>,
    pub insts: Vec<(String, Instance)>,
    pub out_bind: StrMap<usize>,
    pub mons: Vec<(i32, CallData)>,
    pub clamp_warned: StrSet,
    pub sim_time: i64,
    pub pulses: StrMap<i64>,
    pub clocks: StrMap<ClockState>,
    pub var_buses: StrMap<i32>,
    pub assert_total: i64,
    pub assert_failed: i64,
    pub many_modules: bool,
    pub linted_logics: StrSet,
    pub json: bool,
    pub trace: bool,
    pub vcd: Option<VcdState>,
    pub out: Vec<Out>,
    pub input: Vec<u8>,
    pub in_pos: usize,
}

/// The instances are in strictly increasing key order (so no key occurs twice).
pub open spec fn insts_sorted(v: Seq<(String, Instance)>) -> bool {
    forall|i: int, j: int| 0 <= i < j < v.len() ==> crate::strs::lex_lt((#[trigger] v[i]).0@, (#[trigger] v[j]).0@)
}

/// One instance per key: in any run state, two instances never share a key, so a
/// logic called again with the same argument list reuses its instance.
pub proof fn lemma_one_instance_per_key(x: ModuleExec, i: int, j: int)
    requires
        x.inv(),
        0 <= i < j < x.insts@.len(),
    ensures
        x.insts@[i].0@ != x.insts@[j].0@,
{
    crate::strs::lemma_lex_irrefl(x.insts@[i].0@);
}

impl ModuleExec {
    /// Every node the run refers to is a node of its well-formed circuit, the instances
    /// are in key order, and the input position is within the input.
    pub open spec fn inv(&self) -> bool {
        &&& self.core_ok()
        &&& (self.vcd matches Some(v) ==> forall|i: int| 0 <= i < v.sigs@.len() ==> (#[trigger] v.sigs@[i]).node
            < self.c.nodes@.len())
    }

    /// The invariant apart from the waveform.
    pub open spec fn core_ok(&self) -> bool {
        let n = self.c.nodes@.len();
        &&& self.c.wf()
        &&& insts_sorted(self.insts@)
        &&& keys_unique(self.pulses.entries@)
        &&& keys_unique(self.clocks.entries@)
        &&& forall|i: int| 0 <= i < self.insts@.len() ==> inst_ok((#[trigger] self.insts@[i]).1, n)
        &&& forall|k: Seq<char>| #[trigger] self.out_bind.get_spec(k) matches Some(x) ==> x < n
        &&& self.in_pos <= self.input@.len()
    }

    /// A fresh run of module `name` with configuration `cfg`; `input` is what `scan()`
    /// reads.
    pub fn new(name: String, cfg: Config, trace: bool, vcd: bool, many_modules: bool, json: bool, input: Vec<u8>) -> (r: ModuleExec)
        ensures
            r.inv(),
            r.c.cfg == cfg,
            r.name == name,
            r.out@.len() == 0,
            r.sim_time == 0,
            r.assert_total == 0 && r.assert_failed == 0,
            r.input == input && r.in_pos == 0,
    {
        let vs = if vcd {
            Some(VcdState { scope: name.clone(), sigs: Vec::new(), started: false, lines: Vec::new() })
        } else {
            None
        };
        ModuleExec {
            name,
            c: Circuit::new(cfg),
            vars: StrMap::new(),
            insts: Vec::new(),
            out_bind: StrMap::new(),
            mons: Vec::new(),
            clamp_warned: StrSet::new(),
            sim_time: 0,
            pulses: StrMap::new(),
            clocks: StrMap::new(),
            var_buses: StrMap::new(),
            assert_total: 0,
            assert_failed: 0,
            many_modules,
            linted_logics: StrSet::new(),
            json,
            trace,
            vcd: vs,
            out: Vec::new(),
            input,
            in_pos: 0,
        }
    }

    /// The width of bus variable `name`, if it is one.
    pub fn bus_width(&self, name: &str) -> (r: Option<i32>)
        ensures
            r == self.var_buses.get_spec(name@),
    {
        match self.var_buses.get(name) {
            Some(w) => Some(*w),
            None => None,
        }
    }

    /// Evaluates an expression in the current variables and `$time` (see `eval_spec`).
    pub fn eval_e(&self, e: &Expr, defines: &StrMap<i64>) -> (r: RvResult<i64>)
        ensures
            match eval_spec(*e, self.vars, self.var_buses, *defines, self.sim_time) {
                Ok(v) => r == Ok::<i64, RvError>(v),
                Err(m) => r matches Err(x) && x@ == m,
            },
    {
        eval_expr(e, &self.vars, &self.var_buses, defines, self.sim_time)
    }

    /// The index of instance `key`, if there is one.
    fn inst_index(&self, key: &str) -> (r: Option<usize>)
        ensures
            r matches Some(i) ==> i < self.insts@.len() && self.insts@[i as int].0@ == key@,
            r is None ==> !has_inst(*self, key@),
    {
        let mut i: usize = 0;
        while i < self.insts.len()
            invariant
                i <= self.insts@.len(),
                forall|j: int| 0 <= j < i ==> (#[trigger] self.insts@[j]).0@ != key@,
            decreases self.insts@.len() - i,
        {
            if str_eq(self.insts[i].0.as_str(), key) {
                return Some(i);
            }
            i += 1;
        }
        None
    }

    /// Adds instance `key`, keeping the instances in key order.
    fn add_inst(&mut self, key: String, inst: Instance)
        requires
            old(self).inv(),
            inst_ok(inst, old(self).c.nodes@.len()),
            !has_inst(*old(self), key@),
        ensures
            final(self).inv(),
            final(self).vars == old(self).vars,
            final(self).var_buses == old(self).var_buses,
            final(self).c == old(self).c,
            final(self).out == old(self).out,
            forall|k: Seq<char>| has_inst(*old(self), k) ==> has_inst(*final(self), k),
            has_inst(*final(self), key@),
    {
        let mut pos: usize = 0;
        while pos < self.insts.len() && crate::strs::str_lt(self.insts[pos].0.as_str(), key.as_str())
            invariant
                self.vars == old(self).vars,
                self.var_buses == old(self).var_buses,
                pos <= self.insts@.len(),
                forall|i: int| 0 <= i < pos ==> crate::strs::lex_lt((#[trigger] self.insts@[i]).0@, key@),
            decreases self.insts@.len() - pos,
        {
            pos += 1;
        }
        let ghost v0 = self.insts@;
        let ghost k0 = key@;
        let ghost before = *self;
        proof {
            if pos < v0.len() {
                crate::strs::lemma_lex_total(v0[pos as int].0@, k0);
                assert(v0[pos as int].0@ != k0);
                assert(crate::strs::lex_lt(k0, v0[pos as int].0@));
            }
        }
        self.insts.insert(pos, (key, inst));
        proof {
            assert forall|i: int, j: int| 0 <= i < j < self.insts@.len() implies crate::strs::lex_lt(
                (#[trigger] self.insts@[i]).0@,
                (#[trigger] self.insts@[j]).0@,
            ) by {
                if j < pos {
                    assert(self.insts@[i] == v0[i] && self.insts@[j] == v0[j]);
                } else if j == pos {
                    assert(self.insts@[i] == v0[i]);
                } else if i < pos {
                    assert(self.insts@[i] == v0[i] && self.insts@[j] == v0[j - 1]);
                    assert(crate::strs::lex_lt(v0[i].0@, k0));
                    if j - 1 > pos {
                        assert(crate::strs::lex_lt(v0[pos as int].0@, v0[j - 1].0@));
                        crate::strs::lemma_lex_trans(k0, v0[pos as int].0@, v0[j - 1].0@);
                    }
                    crate::strs::lemma_lex_trans(v0[i].0@, k0, v0[j - 1].0@);
                } else if i == pos {
                    assert(self.insts@[j] == v0[j - 1]);
                    if j - 1 > pos {
                        assert(crate::strs::lex_lt(v0[pos as int].0@, v0[j - 1].0@));
                        crate::strs::lemma_lex_trans(k0, v0[pos as int].0@, v0[j - 1].0@);
                    }
                } else {
                    assert(self.insts@[i] == v0[i - 1] && self.insts@[j] == v0[j - 1]);
                }
            }
            assert forall|i: int| 0 <= i < self.insts@.len() implies inst_ok((#[trigger] self.insts@[i]).1, self.c.nodes@.len()) by {
                if i < pos {
                    assert(self.insts@[i] == v0[i]);
                } else if i > pos {
                    assert(self.insts@[i] == v0[i - 1]);
                }
            }
            assert forall|k: Seq<char>| has_inst(before, k) implies has_inst(*self, k) by {
                let w = choose|w: int| 0 <= w < v0.len() && (#[trigger] v0[w]).0@ == k;
                if w < pos {
                    assert(self.insts@[w] == v0[w]);
                } else {
                    assert(self.insts@[w + 1] == v0[w]);
                }
            }
            assert(self.insts@[pos as int].0@ == k0);
        }
    }

    /// Records a warning.
    fn warn_out(&mut self, line: i32, msg: String)
        ensures
            *final(self) == (ModuleExec { out: final(self).out, ..*old(self) }),
            final(self).out@ == old(self).out@.push(Out::Warn(Warning { line, rule: None, msg })),
    {
        self.out.push(Out::Warn(Warning { line, rule: None, msg }));
    }

    /// Drives each instance input from its variable (clamped to 0-15; the first clamp of a
    /// variable warns). An unknown variable is an error.
    fn apply_inputs(&mut self) -> (r: RvResult<()>)
        requires
            old(self).inv(),
        ensures
            final(self).inv(),
            final(self).c.nodes@.len() == old(self).c.nodes@.len(),
            final(self).c.tick == old(self).c.tick,
            final(self).c.cfg == old(self).c.cfg,
            final(self).sim_time == old(self).sim_time,
            final(self).pulses == old(self).pulses,
            final(self).clocks == old(self).clocks,
            final(self).vars == old(self).vars,
            final(self).insts == old(self).insts,
            (r is Ok) == inputs_declared(*old(self)),
            final(self).out_bind == old(self).out_bind,
            final(self).mons == old(self).mons,
    {
        let mut i: usize = 0;
        while i < self.insts.len()
            invariant
                self.out_bind == old(self).out_bind,
                self.mons == old(self).mons,
                self.vars == old(self).vars,
                forall|a: int, b: int| 0 <= a < i && 0 <= b < self.insts@[a].1.in_vars@.len() ==> old(self).vars.has(
                    (#[trigger] self.insts@[a].1.in_vars@[b])@,
                ),
                self.pulses == old(self).pulses,
                self.clocks == old(self).clocks,
                self.sim_time == old(self).sim_time,
                self.inv(),
                self.c.nodes@.len() == old(self).c.nodes@.len(),
                self.c.tick == old(self).c.tick,
                self.c.cfg == old(self).c.cfg,
                self.insts == old(self).insts,
            decreases self.insts@.len() - i,
        {
            let mut k: usize = 0;
            assert(inst_ok(self.insts@[i as int].1, self.c.nodes@.len()));
            while k < self.insts[i].1.in_nodes.len()
                invariant
                    self.out_bind == old(self).out_bind,
                    self.mons == old(self).mons,
                    self.vars == old(self).vars,
                    k <= self.insts@[i as int].1.in_nodes@.len(),
                    forall|a: int, b: int| 0 <= a < i && 0 <= b < self.insts@[a].1.in_vars@.len() ==> old(self).vars.has(
                        (#[trigger] self.insts@[a].1.in_vars@[b])@,
                    ),
                    forall|b: int| 0 <= b < k ==> old(self).vars.has((#[trigger] self.insts@[i as int].1.in_vars@[b])@),
                    self.pulses == old(self).pulses,
                    self.clocks == old(self).clocks,
                    self.sim_time == old(self).sim_time,
                    i < self.insts@.len(),
                    self.inv(),
                    self.c.nodes@.len() == old(self).c.nodes@.len(),
                    self.c.tick == old(self).c.tick,
                    self.c.cfg == old(self).c.cfg,
                    self.insts == old(self).insts,
                decreases self.insts@[i as int].1.in_nodes@.len() - k,
            {
                assert(inst_ok(self.insts@[i as int].1, self.c.nodes@.len()));
                let node = self.insts[i].1.in_nodes[k];
                let var = self.insts[i].1.in_vars[k].clone();
                let v = match self.vars.get(var.as_str()) {
                    Some(v) => *v,
                    None => {
                        proof {
                            assert(!old(self).vars.has(self.insts@[i as int].1.in_vars@[k as int]@));
                        }
                        return fail(0, cat2("undeclared variable bound to logic input: ", var.as_str()));
                    },
                };
                let mut vv = v;
                if v < 0 || v > 15 {
                    let cv: i64 = if v < 0 { 0 } else { 15 };
                    if !self.clamp_warned.contains(var.as_str()) {
                        let tv = int_str(v);
                        let tc = int_str(cv);
                        let m = cat5("variable '", var.as_str(), "' value ", tv.as_str(), " is outside signal range 0-15; clamped to ");
                        self.warn_out(0, cat2(m.as_str(), tc.as_str()));
                        self.clamp_warned.insert(var.clone());
                    }
                    vv = cv;
                }
                let ghost n0 = self.c.nodes@;
                assert(self.inv());
                assert(node < n0.len());
                proof {
                    lemma_root_bound(&self.c, node as int);
                }
                self.c.set_input(node, vv as i32);
                proof {
                    assert(self.c.nodes@.len() == n0.len());
                    lemma_inv_nodes(self);
                }
                k += 1;
            }
            i += 1;
        }
        Ok(())
    }
}

/// The run's invariant holds after the circuit changed without adding nodes.
proof fn lemma_inv_nodes(x: &ModuleExec)
    requires
        x.c.wf(),
        forall|i: int| 0 <= i < x.insts@.len() ==> inst_ok((#[trigger] x.insts@[i]).1, x.c.nodes@.len()),
        insts_sorted(x.insts@),
        keys_unique(x.pulses.entries@),
        keys_unique(x.clocks.entries@),
        forall|k: Seq<char>| #[trigger] x.out_bind.get_spec(k) matches Some(v) ==> v < x.c.nodes@.len(),
        x.vcd matches Some(v) ==> forall|i: int| 0 <= i < v.sigs@.len() ==> (#[trigger] v.sigs@[i]).node < x.c.nodes@.len(),
        x.in_pos <= x.input@.len(),
    ensures
        x.inv(),
{
}

/// Whether `s` contains `#` (a hidden node).
fn has_hash(s: &str) -> (r: bool)
    ensures
        r == s@.contains('#'),
{
    let n = s.unicode_len();
    let mut i: usize = 0;
    while i < n
        invariant
            n == s@.len(),
            i <= n,
            forall|j: int| 0 <= j < i ==> s@[j] != '#',
        decreases n - i,
    {
        if s.get_char(i) == '#' {
            return true;
        }
        i += 1;
    }
    false
}

/// The tick counter can advance: it stays well inside the 64-bit range.
pub open spec fn tick_room(t: int) -> bool {
    i64::MIN + 0x1_0000_0000 < t < i64::MAX - 0x1_0000_0000 - 1
}

/// Every variable bound to an instance input is declared.
pub open spec fn inputs_declared(x: ModuleExec) -> bool {
    forall|a: int, b: int| 0 <= a < x.insts@.len() && 0 <= b < x.insts@[a].1.in_vars@.len() ==> x.vars.has(
        (#[trigger] x.insts@[a].1.in_vars@[b])@,
    )
}

/// Node `n` is shown in traces: a representative with a nonempty name without `#`.
pub open spec fn visible(c: Circuit, n: int) -> bool {
    c.root(n) == n && c.nodes@[n].name@.len() > 0 && !c.nodes@[n].name@.contains('#')
}

/// ` name=value` of each visible node among the first `n`, in node order.
pub open spec fn trace_items(c: Circuit, n: int) -> Seq<char>
    decreases n,
{
    if n <= 0 {
        seq![]
    } else {
        trace_items(c, n - 1) + if visible(c, n - 1) {
            " "@ + c.nodes@[n - 1].name@ + "="@ + int_text(c.nodes@[n - 1].value as int, 10)
        } else {
            seq![]
        }
    }
}

/// A 4-bit waveform value `b0101`.
fn vcd_bits(v: i32) -> (r: String)
    ensures
        r@ == "b"@ + padded(uint_text((v & 0xF) as nat, 2), 4, true),
{
    assert(0 <= (v & 0xF) < 16) by (bit_vector);
    let t = format_uint((v & 0xF) as u64, 2);
    cat2("b", pad_value(t.as_str(), 4, true).as_str())
}

impl ModuleExec {
    /// Copies each bound instance output into its variable.
    fn apply_outputs(&mut self)
        requires
            old(self).inv(),
        ensures
            final(self).inv(),
            final(self).c.nodes@.len() == old(self).c.nodes@.len(),
            final(self).c.tick == old(self).c.tick,
            final(self).c.cfg == old(self).c.cfg,
            final(self).sim_time == old(self).sim_time,
            final(self).c.seqs == old(self).c.seqs,
            final(self).pulses == old(self).pulses,
            final(self).clocks == old(self).clocks,
            *final(self) == (ModuleExec { vars: final(self).vars, c: final(self).c, ..*old(self) }),
            final(self).c.nodes == old(self).c.nodes,
            forall|y: int| 0 <= y < old(self).c.nodes@.len() ==> #[trigger] final(self).c.root(y) == old(self).c.root(y),
            forall|q: Seq<char>| #[trigger] final(self).vars.get_spec(q) == match old(self).out_bind.get_spec(q) {
                Some(x) => Some(old(self).c.val(x as int) as i64),
                None => old(self).vars.get_spec(q),
            },
    {
        let mut i: usize = 0;
        while i < self.out_bind.entries.len()
            invariant
                *self == (ModuleExec { vars: self.vars, c: self.c, ..*old(self) }),
                self.c.nodes == old(self).c.nodes,
                forall|y: int| 0 <= y < old(self).c.nodes@.len() ==> #[trigger] self.c.root(y) == old(self).c.root(y),
                i <= self.out_bind.entries@.len(),
                forall|q: Seq<char>| #[trigger] self.vars.get_spec(q) == if crate::strs::seen(old(self).out_bind.entries@, i as int, q) {
                    Some(old(self).c.val(old(self).out_bind.get_spec(q)->Some_0 as int) as i64)
                } else {
                    old(self).vars.get_spec(q)
                },
                self.c.seqs == old(self).c.seqs,
                self.pulses == old(self).pulses,
                self.clocks == old(self).clocks,
                self.sim_time == old(self).sim_time,
                self.inv(),
                self.c.nodes@.len() == old(self).c.nodes@.len(),
                self.c.tick == old(self).c.tick,
                self.c.cfg == old(self).c.cfg,
                self.out_bind == old(self).out_bind,
            decreases self.out_bind.entries@.len() - i,
        {
            proof {
                crate::strs::lemma_seen_step(old(self).out_bind.entries@, i as int);
            }
            let var = self.out_bind.entries[i].0.clone();
            let node = match self.out_bind.get(var.as_str()) {
                Some(x) => *x,
                None => {
                    proof {
                        crate::strs::lemma_seen_all(old(self).out_bind.entries@, var@);
                        crate::strs::lemma_assoc_idx(old(self).out_bind.entries@, var@);
                        assert(old(self).out_bind.entries@[i as int].0@ == var@);
                    }
                    i += 1;
                    continue;
                },
            };
            let val = self.c.read(node) as i64;
            self.vars.insert(var, val);
            i += 1;
        }
        proof {
            assert forall|q: Seq<char>| #[trigger] self.vars.get_spec(q) == match old(self).out_bind.get_spec(q) {
                Some(x) => Some(old(self).c.val(x as int) as i64),
                None => old(self).vars.get_spec(q),
            } by {
                crate::strs::lemma_seen_all(old(self).out_bind.entries@, q);
            }
        }
    }

    /// Ends a tick for the pulses: each has one tick less; an expired one sets its
    /// variable back to 0.
    fn tick_pulses(&mut self)
        requires
            keys_unique(old(self).pulses.entries@),
        ensures
            *final(self) == (ModuleExec { pulses: final(self).pulses, vars: final(self).vars, ..*old(self) }),
            keys_unique(final(self).pulses.entries@),
            forall|q: Seq<char>| #[trigger] final(self).pulses.get_spec(q) == pulse_left(old(self).pulses.get_spec(q)),
            forall|q: Seq<char>| #[trigger] final(self).vars.get_spec(q) == if pulse_ends(old(self).pulses.get_spec(q)) {
                Some(0i64)
            } else {
                old(self).vars.get_spec(q)
            },
    {
        if self.pulses.entries.len() == 0 {
            return;
        }
        let ghost ent = self.pulses.entries@;
        let mut kept: StrMap<i64> = StrMap::new();
        let mut expired: Vec<String> = Vec::new();
        let mut i: usize = 0;
        while i < self.pulses.entries.len()
            invariant
                i <= self.pulses.entries@.len(),
                ent == self.pulses.entries@,
                keys_unique(ent),
                keys_unique(kept.entries@),
                forall|q: Seq<char>| #[trigger] kept.get_spec(q) == if seen(ent, i as int, q) {
                    pulse_left(assoc(ent, q))
                } else {
                    None
                },
                forall|q: Seq<char>| #[trigger] strs_view(expired@).contains(q) == (seen(ent, i as int, q) && pulse_ends(assoc(ent, q))),
            decreases self.pulses.entries@.len() - i,
        {
            let left = self.pulses.entries[i].1;
            let next = if left > i64::MIN { left - 1 } else { left };
            let ghost ki = ent[i as int].0@;
            proof {
                lemma_assoc_unique_at(ent, i as int);
                lemma_seen_step(ent, i as int);
            }
            if next <= 0 {
                let ghost ex0 = strs_view(expired@);
                expired.push(self.pulses.entries[i].0.clone());
                proof {
                    assert(strs_view(expired@) =~= ex0.push(ki));
                    assert forall|q: Seq<char>| #[trigger] strs_view(expired@).contains(q) == (seen(ent, i + 1, q) && pulse_ends(
                        assoc(ent, q),
                    )) by {
                        if q == ki {
                            assert(strs_view(expired@)[ex0.len() as int] == q);
                        } else {
                            if ex0.contains(q) {
                                let w = choose|w: int| 0 <= w < ex0.len() && #[trigger] ex0[w] == q;
                                assert(strs_view(expired@)[w] == q);
                            }
                            if strs_view(expired@).contains(q) {
                                let w = choose|w: int| 0 <= w < ex0.len() + 1 && #[trigger] strs_view(expired@)[w] == q;
                                assert(ex0[w] == q);
                            }
                        }
                    }
                }
            } else {
                kept.insert(self.pulses.entries[i].0.clone(), next);
            }
            i += 1;
        }
        self.pulses = kept;
        let ghost mid = *self;
        let ghost ex = strs_view(expired@);
        let mut k: usize = 0;
        while k < expired.len()
            invariant
                k <= expired@.len(),
                ex == strs_view(expired@),
                *self == (ModuleExec { vars: self.vars, ..mid }),
                forall|q: Seq<char>| #[trigger] self.vars.get_spec(q) == if ex.subrange(0, k as int).contains(q) {
                    Some(0i64)
                } else {
                    old(self).vars.get_spec(q)
                },
            decreases expired@.len() - k,
        {
            self.vars.insert(expired[k].clone(), 0);
            proof {
                assert forall|q: Seq<char>| #[trigger] self.vars.get_spec(q) == if ex.subrange(0, k + 1).contains(q) {
                    Some(0i64)
                } else {
                    old(self).vars.get_spec(q)
                } by {
                    assert(ex.subrange(0, k + 1)[k as int] == ex[k as int]);
                    if ex.subrange(0, k as int).contains(q) {
                        let w = choose|w: int| 0 <= w < k && #[trigger] ex.subrange(0, k as int)[w] == q;
                        assert(ex.subrange(0, k + 1)[w] == q);
                    }
                    if ex.subrange(0, k + 1).contains(q) && q != ex[k as int] {
                        let w = choose|w: int| 0 <= w < k + 1 && #[trigger] ex.subrange(0, k + 1)[w] == q;
                        assert(ex.subrange(0, k as int)[w] == q);
                    }
                }
            }
            k += 1;
        }
        proof {
            assert(ex.subrange(0, ex.len() as int) =~= ex);
            assert forall|q: Seq<char>| #[trigger] self.pulses.get_spec(q) == pulse_left(old(self).pulses.get_spec(q)) by {
                lemma_seen_all(ent, q);
            }
            assert forall|q: Seq<char>| #[trigger] self.vars.get_spec(q) == if pulse_ends(old(self).pulses.get_spec(q)) {
                Some(0i64)
            } else {
                old(self).vars.get_spec(q)
            } by {
                lemma_seen_all(ent, q);
                assert(ex.contains(q) == (seen(ent, ent.len() as int, q) && pulse_ends(assoc(ent, q))));
            }
        }
    }

    /// Ends a tick for the clocks: each has one tick less; one that reaches 0 toggles its
    /// level (0 and 15), starts a new period, and sets its variable to the level.
    fn tick_clocks(&mut self)
        requires
            keys_unique(old(self).clocks.entries@),
        ensures
            *final(self) == (ModuleExec { clocks: final(self).clocks, vars: final(self).vars, ..*old(self) }),
            keys_unique(final(self).clocks.entries@),
            forall|q: Seq<char>| #[trigger] final(self).clocks.get_spec(q) == match old(self).clocks.get_spec(q) {
                Some(st) => Some(clock_next(st)),
                None => None,
            },
            forall|q: Seq<char>| #[trigger] final(self).vars.get_spec(q) == match old(self).clocks.get_spec(q) {
                Some(st) => if clock_flips(st) {
                    Some(clock_next(st).level)
                } else {
                    old(self).vars.get_spec(q)
                },
                None => old(self).vars.get_spec(q),
            },
    {
        if self.clocks.entries.len() == 0 {
            return;
        }
        let ghost ent = self.clocks.entries@;
        let mut next_clocks: StrMap<ClockState> = StrMap::new();
        let mut toggled: Vec<(String, i64)> = Vec::new();
        let mut i: usize = 0;
        while i < self.clocks.entries.len()
            invariant
                i <= self.clocks.entries@.len(),
                ent == self.clocks.entries@,
                keys_unique(ent),
                keys_unique(next_clocks.entries@),
                forall|q: Seq<char>| #[trigger] next_clocks.get_spec(q) == if seen(ent, i as int, q) {
                    Some(clock_next(assoc(ent, q)->Some_0))
                } else {
                    None
                },
                forall|t: int| 0 <= t < toggled@.len() ==> seen(ent, i as int, (#[trigger] toggled@[t]).0@) && assoc(ent, toggled@[t].0@)
                    is Some && clock_flips(assoc(ent, toggled@[t].0@)->Some_0) && toggled@[t].1 == clock_next(
                    assoc(ent, toggled@[t].0@)->Some_0,
                ).level,
                forall|q: Seq<char>| seen(ent, i as int, q) && #[trigger] assoc(ent, q) is Some && clock_flips(assoc(ent, q)->Some_0)
                    ==> exists|t: int| 0 <= t < toggled@.len() && (#[trigger] toggled@[t]).0@ == q,
            decreases self.clocks.entries@.len() - i,
        {
            let st = self.clocks.entries[i].1;
            let mut ns = st;
            ns.counter = if st.counter > i64::MIN { st.counter - 1 } else { st.counter };
            let ghost ki = ent[i as int].0@;
            proof {
                lemma_assoc_unique_at(ent, i as int);
                lemma_seen_step(ent, i as int);
            }
            if ns.counter <= 0 {
                ns.level = if st.level == 0 { 15 } else { 0 };
                ns.counter = st.hold;
                let ghost t0 = toggled@;
                toggled.push((self.clocks.entries[i].0.clone(), ns.level));
                proof {
                    assert(toggled@[t0.len() as int].0@ == ki);
                    assert forall|t: int| 0 <= t < t0.len() implies toggled@[t] == t0[t] by {}
                    assert forall|q: Seq<char>| seen(ent, i + 1, q) && #[trigger] assoc(ent, q) is Some && clock_flips(assoc(ent, q)->Some_0)
                        implies exists|t: int| 0 <= t < toggled@.len() && (#[trigger] toggled@[t]).0@ == q by {
                        if q == ki {
                            assert(toggled@[t0.len() as int].0@ == q);
                        } else {
                            let t = choose|t: int| 0 <= t < t0.len() && (#[trigger] t0[t]).0@ == q;
                            assert(toggled@[t].0@ == q);
                        }
                    }
                }
            }
            proof {
                assert(ns == clock_next(st));
            }
            next_clocks.insert(self.clocks.entries[i].0.clone(), ns);
            i += 1;
        }
        self.clocks = next_clocks;
        let ghost mid = *self;
        let ghost tg = toggled@;
        let mut k: usize = 0;
        while k < toggled.len()
            invariant
                k <= toggled@.len(),
                tg == toggled@,
                *self == (ModuleExec { vars: self.vars, ..mid }),
                forall|t: int| 0 <= t < tg.len() ==> (#[trigger] tg[t]).1 == clock_next(assoc(ent, tg[t].0@)->Some_0).level,
                forall|q: Seq<char>| #[trigger] self.vars.get_spec(q) == if exists|t: int| 0 <= t < k && (#[trigger] tg[t]).0@ == q {
                    Some(clock_next(assoc(ent, q)->Some_0).level)
                } else {
                    old(self).vars.get_spec(q)
                },
            decreases toggled@.len() - k,
        {
            self.vars.insert(toggled[k].0.clone(), toggled[k].1);
            proof {
                assert forall|q: Seq<char>| #[trigger] self.vars.get_spec(q) == if exists|t: int| 0 <= t < k + 1 && (#[trigger] tg[t]).0@ == q {
                    Some(clock_next(assoc(ent, q)->Some_0).level)
                } else {
                    old(self).vars.get_spec(q)
                } by {
                    if q == tg[k as int].0@ {
                        assert(tg[k as int].0@ == q);
                        assert(tg[k as int].1 == clock_next(assoc(ent, q)->Some_0).level);
                    } else {
                        if exists|t: int| 0 <= t < k + 1 && (#[trigger] tg[t]).0@ == q {
                            let t = choose|t: int| 0 <= t < k + 1 && (#[trigger] tg[t]).0@ == q;
                            assert(t < k);
                        }
                    }
                }
            }
            k += 1;
        }
        proof {
            assert forall|q: Seq<char>| #[trigger] self.clocks.get_spec(q) == match old(self).clocks.get_spec(q) {
                Some(st) => Some(clock_next(st)),
                None => None,
            } by {
                lemma_seen_all(ent, q);
            }
            assert forall|q: Seq<char>| #[trigger] self.vars.get_spec(q) == match old(self).clocks.get_spec(q) {
                Some(st) => if clock_flips(st) {
                    Some(clock_next(st).level)
                } else {
                    old(self).vars.get_spec(q)
                },
                None => old(self).vars.get_spec(q),
            } by {
                lemma_seen_all(ent, q);
                if exists|t: int| 0 <= t < tg.len() && (#[trigger] tg[t]).0@ == q {
                    let t = choose|t: int| 0 <= t < tg.len() && (#[trigger] tg[t]).0@ == q;
                    assert(seen(ent, ent.len() as int, tg[t].0@));
                }
            }
        }
    }

    /// The trace line of the current tick: `[tick N]` and `name=value` of every visible
    /// point (a representative with a name that has no `#`), see `trace_items`.
    fn trace_line(&mut self) -> (r: String)
        requires
            old(self).c.wf(),
        ensures
            final(self).c.wf(),
            final(self).c.nodes == old(self).c.nodes,
            final(self).c.edges == old(self).c.edges,
            final(self).c.seqs == old(self).c.seqs,
            final(self).c.tick == old(self).c.tick,
            final(self).c.cfg == old(self).c.cfg,
            *final(self) == (ModuleExec { c: final(self).c, ..*old(self) }),
            r@ == "[tick "@ + int_text(old(self).c.tick as int, 10) + "]"@ + trace_items(old(self).c, old(self).c.nodes@.len() as int),
    {
        let t = int_str(self.c.tick);
        let mut line = cat3("[tick ", t.as_str(), "]");
        let ghost c0 = self.c;
        let ghost head = line@;
        let mut n: usize = 0;
        while n < self.c.nodes.len()
            invariant
                n <= self.c.nodes@.len(),
                line@ == head + trace_items(c0, n as int),
                c0 == old(self).c,
                forall|y: int| 0 <= y < c0.nodes@.len() ==> #[trigger] self.c.root(y) == c0.root(y),
                self.c.wf(),
                self.c.nodes == old(self).c.nodes,
                self.c.edges == old(self).c.edges,
                self.c.seqs == old(self).c.seqs,
                self.c.tick == old(self).c.tick,
                self.c.cfg == old(self).c.cfg,
                *self == (ModuleExec { c: self.c, ..*old(self) }),
            decreases self.c.nodes@.len() - n,
        {
            if self.c.find(n) == n {
                let nd = &self.c.nodes[n];
                if nd.name.unicode_len() > 0 && !has_hash(nd.name.as_str()) {
                    let v = int_str(nd.value as i64);
                    line = cat5(line.as_str(), " ", nd.name.as_str(), "=", v.as_str());
                }
            }
            n += 1;
        }
        line
    }

    /// Writes this tick to the waveform: the header and the initial values on the first
    /// call (signals: the visible points), then the signals whose value changed.
    fn dump_vcd(&mut self)
        requires
            old(self).inv(),
        ensures
            final(self).inv(),
            final(self).vars == old(self).vars,
            final(self).insts == old(self).insts,
            final(self).out_bind == old(self).out_bind,
            final(self).c.nodes@.len() == old(self).c.nodes@.len(),
            final(self).c.tick == old(self).c.tick,
            final(self).c.cfg == old(self).c.cfg,
            final(self).sim_time == old(self).sim_time,
            final(self).c.seqs == old(self).c.seqs,
            final(self).pulses == old(self).pulses,
            final(self).clocks == old(self).clocks,
            old(self).vcd is None ==> *final(self) == *old(self),
            final(self).mons == old(self).mons,
            old(self).vcd matches Some(v0) ==> (final(self).vcd matches Some(w) && w.started && w.lines@.len() >= v0.lines@.len()
                && w.sigs@.len() == (if v0.started { v0.sigs@.len() } else { w.sigs@.len() })
                && forall|i: int| 0 <= i < w.sigs@.len() ==> (#[trigger] w.sigs@[i]).node < final(self).c.nodes@.len()
                && w.sigs@[i].last == final(self).c.nodes@[w.sigs@[i].node as int].value),
    {
        let mut v = match self.vcd.take() {
            Some(v) => v,
            None => return,
        };
        let ghost l0 = v.lines@.len();
        let ghost g0 = v.sigs@.len();
        let ghost st0 = v.started;
        let ghost nn = self.c.nodes@.len();
        if !v.started {
            let mut idx: usize = 0;
            let mut n: usize = 0;
            while n < self.c.nodes.len()
                invariant
                    self.out_bind == old(self).out_bind,
                    self.mons == old(self).mons,
                    v.lines@.len() >= l0,
                    !st0,
                    self.vars == old(self).vars,
                    self.insts == old(self).insts,
                    self.c.seqs == old(self).c.seqs,
                    self.pulses == old(self).pulses,
                    self.clocks == old(self).clocks,
                    self.sim_time == old(self).sim_time,
                    self.c.wf(),
                    self.c.nodes@.len() == nn,
                    self.c.tick == old(self).c.tick,
                    self.c.cfg == old(self).c.cfg,
                    forall|i: int| 0 <= i < v.sigs@.len() ==> (#[trigger] v.sigs@[i]).node < nn,
                    forall|i: int| 0 <= i < self.insts@.len() ==> inst_ok((#[trigger] self.insts@[i]).1, nn),
                    insts_sorted(self.insts@),
                    forall|k: Seq<char>| #[trigger] self.out_bind.get_spec(k) matches Some(x) ==> x < nn,
                    self.in_pos <= self.input@.len(),
                    self.vcd is None,
                decreases self.c.nodes@.len() - n,
            {
                if self.c.find(n) == n {
                    let nd = &self.c.nodes[n];
                    if nd.name.unicode_len() > 0 && !has_hash(nd.name.as_str()) {
                        let ghost s0 = v.sigs@;
                        v.sigs.push(VcdSig { node: n, code: vcd_id(idx), last: 0 });
                        proof {
                            assert forall|i: int| 0 <= i < v.sigs@.len() implies (#[trigger] v.sigs@[i]).node < nn by {
                                if i < s0.len() {
                                    assert(v.sigs@[i] == s0[i]);
                                }
                            }
                        }
                        idx = if idx < usize::MAX { idx + 1 } else { idx };
                    }
                }
                n += 1;
            }
            v.lines.push(own("$comment redv VCD output $end"));
            v.lines.push(own("$timescale 100 ms $end"));
            v.lines.push(cat3("$scope module ", v.scope.as_str(), " $end"));
            let mut k: usize = 0;
            while k < v.sigs.len()
                invariant
                    self.out_bind == old(self).out_bind,
                    self.mons == old(self).mons,
                    v.lines@.len() >= l0,
                    !st0,
                    self.vars == old(self).vars,
                    self.insts == old(self).insts,
                    self.c.seqs == old(self).c.seqs,
                    self.pulses == old(self).pulses,
                    self.clocks == old(self).clocks,
                    self.sim_time == old(self).sim_time,
                    forall|i: int| 0 <= i < v.sigs@.len() ==> (#[trigger] v.sigs@[i]).node < nn,
                    self.c.nodes@.len() == nn,
                    self.core_ok(),
                    self.vcd is None,
                    self.c.tick == old(self).c.tick,
                    self.c.cfg == old(self).c.cfg,
                decreases v.sigs@.len() - k,
            {
                let node = v.sigs[k].node;
                let l = cat5("$var wire 4 ", v.sigs[k].code.as_str(), " ", self.c.nodes[node].name.as_str(), " $end");
                v.lines.push(l);
                k += 1;
            }
            v.lines.push(own("$upscope $end"));
            v.lines.push(own("$enddefinitions $end"));
            v.lines.push(own("#0"));
            v.lines.push(own("$dumpvars"));
            let mut k: usize = 0;
            while k < v.sigs.len()
                invariant
                    self.out_bind == old(self).out_bind,
                    self.mons == old(self).mons,
                    v.lines@.len() >= l0,
                    !st0,
                    self.vars == old(self).vars,
                    self.insts == old(self).insts,
                    self.c.seqs == old(self).c.seqs,
                    self.pulses == old(self).pulses,
                    self.clocks == old(self).clocks,
                    self.sim_time == old(self).sim_time,
                    forall|i: int| 0 <= i < v.sigs@.len() ==> (#[trigger] v.sigs@[i]).node < nn,
                    self.c.nodes@.len() == nn,
                    self.core_ok(),
                    self.vcd is None,
                    self.c.tick == old(self).c.tick,
                    self.c.cfg == old(self).c.cfg,
                decreases v.sigs@.len() - k,
            {
                let l = cat3(vcd_bits(v.sigs[k].last).as_str(), " ", v.sigs[k].code.as_str());
                v.lines.push(l);
                k += 1;
            }
            v.lines.push(own("$end"));
            v.started = true;
        }
        let mut changes: Vec<(String, i32)> = Vec::new();
        let mut k: usize = 0;
        while k < v.sigs.len()
            invariant
                self.out_bind == old(self).out_bind,
                self.mons == old(self).mons,
                k <= v.sigs@.len(),
                forall|i: int| 0 <= i < k ==> (#[trigger] v.sigs@[i]).last == self.c.nodes@[v.sigs@[i].node as int].value,
                v.started,
                v.lines@.len() >= l0,
                st0 ==> v.sigs@.len() == g0,
                self.vars == old(self).vars,
                self.insts == old(self).insts,
                self.c.seqs == old(self).c.seqs,
                self.pulses == old(self).pulses,
                self.clocks == old(self).clocks,
                self.sim_time == old(self).sim_time,
                forall|i: int| 0 <= i < v.sigs@.len() ==> (#[trigger] v.sigs@[i]).node < nn,
                self.c.nodes@.len() == nn,
                self.core_ok(),
                self.vcd is None,
                self.c.tick == old(self).c.tick,
                self.c.cfg == old(self).c.cfg,
            decreases v.sigs@.len() - k,
        {
            let node = v.sigs[k].node;
            let cur = self.c.nodes[node].value;
            if cur != v.sigs[k].last {
                changes.push((v.sigs[k].code.clone(), cur));
                let code = v.sigs[k].code.clone();
                let ghost s0 = v.sigs@;
                v.sigs.set(k, VcdSig { node, code, last: cur });
                proof {
                    assert forall|i: int| 0 <= i < v.sigs@.len() implies (#[trigger] v.sigs@[i]).node < nn by {
                        if i != k {
                            assert(v.sigs@[i] == s0[i]);
                        }
                    }
                    assert forall|i: int| 0 <= i < k + 1 implies (#[trigger] v.sigs@[i]).last == self.c.nodes@[v.sigs@[i].node as int].value by {
                        if i != k {
                            assert(v.sigs@[i] == s0[i]);
                        }
                    }
                }
            }
            k += 1;
        }
        if changes.len() > 0 {
            let t = int_str(self.c.tick);
            v.lines.push(cat2("#", t.as_str()));
            let mut k: usize = 0;
            while k < changes.len()
                invariant
                    self.out_bind == old(self).out_bind,
                    self.mons == old(self).mons,
                    forall|i: int| 0 <= i < v.sigs@.len() ==> (#[trigger] v.sigs@[i]).last == self.c.nodes@[v.sigs@[i].node as int].value,
                    v.started,
                    v.lines@.len() >= l0,
                    st0 ==> v.sigs@.len() == g0,
                    self.vars == old(self).vars,
                    self.insts == old(self).insts,
                    self.c.seqs == old(self).c.seqs,
                    self.pulses == old(self).pulses,
                    self.clocks == old(self).clocks,
                    self.sim_time == old(self).sim_time,
                    k <= changes@.len(),
                    forall|i: int| 0 <= i < v.sigs@.len() ==> (#[trigger] v.sigs@[i]).node < nn,
                    self.c.nodes@.len() == nn,
                    self.core_ok(),
                    self.vcd is None,
                    self.c.tick == old(self).c.tick,
                    self.c.cfg == old(self).c.cfg,
                decreases changes@.len() - k,
            {
                let l = cat3(vcd_bits(changes[k].1).as_str(), " ", changes[k].0.as_str());
                v.lines.push(l);
                k += 1;
            }
        }
        self.vcd = Some(v);
    }
}

/// A pending pulse count after one more tick (not below the smallest value).
pub open spec fn dec_count(l: i64) -> i64 {
    if l > i64::MIN {
        (l - 1) as i64
    } else {
        l
    }
}

/// What is left of a pending pulse after a tick: `None` once it has run out.
pub open spec fn pulse_left(p: Option<i64>) -> Option<i64> {
    match p {
        Some(l) => if dec_count(l) > 0 {
            Some(dec_count(l))
        } else {
            None
        },
        None => None,
    }
}

/// Whether a pending pulse runs out at this tick.
pub open spec fn pulse_ends(p: Option<i64>) -> bool {
    p matches Some(l) && dec_count(l) <= 0
}

/// A clock after one more tick: its count goes down, and when it runs out its level
/// flips (0 and 15) and a new period of `hold` ticks starts.
pub open spec fn clock_next(st: ClockState) -> ClockState {
    if dec_count(st.counter) <= 0 {
        ClockState { hold: st.hold, counter: st.hold, level: if st.level == 0 { 15 } else { 0 } }
    } else {
        ClockState { counter: dec_count(st.counter), ..st }
    }
}

/// Whether a clock flips at this tick.
pub open spec fn clock_flips(st: ClockState) -> bool {
    dec_count(st.counter) <= 0
}

/// A pending pulse after `k` ticks.
pub open spec fn pulse_after(p: Option<i64>, k: nat) -> Option<i64>
    decreases k,
{
    if k == 0 {
        p
    } else {
        pulse_left(pulse_after(p, (k - 1) as nat))
    }
}

/// A clock after `k` ticks.
pub open spec fn clock_after(st: ClockState, k: nat) -> ClockState
    decreases k,
{
    if k == 0 {
        st
    } else {
        clock_next(clock_after(st, (k - 1) as nat))
    }
}

/// A clock's state after `k` ticks (no clock stays none).
/// What a variable that no clock drives and no logic output binds reads after `k` ticks,
/// from value `v` with pending pulse `p`: it drops to 0 at the tick where the pulse runs
/// out, and keeps its value otherwise.
pub open spec fn var_after(v: Option<i64>, p: Option<i64>, k: nat) -> Option<i64>
    decreases k,
{
    if k == 0 {
        v
    } else if pulse_ends(pulse_after(p, (k - 1) as nat)) {
        Some(0i64)
    } else {
        var_after(v, p, (k - 1) as nat)
    }
}

pub open spec fn clock_after_opt(c: Option<ClockState>, k: nat) -> Option<ClockState> {
    match c {
        Some(st) => Some(clock_after(st, k)),
        None => None,
    }
}

/// `x = v ~ w`: the pulse is pending with `w - k` ticks left after `k < w` ticks, and it
/// runs out (its variable returning to 0) exactly at the `w`-th tick.
pub proof fn lemma_pulse_width(w: i64, k: nat)
    requires
        w >= 1,
        k < w,
    ensures
        pulse_after(Some(w), k) == Some((w - k) as i64),
        pulse_ends(pulse_after(Some(w), k)) <==> k == w - 1,
    decreases k,
{
    if k > 0 {
        lemma_pulse_width(w, (k - 1) as nat);
    }
}

/// No pulse stays no pulse.
proof fn lemma_no_pulse(k: nat)
    ensures
        pulse_after(None, k) is None,
    decreases k,
{
    if k > 0 {
        lemma_no_pulse((k - 1) as nat);
    }
}

/// A pulse of width `w` has run out after `w` or more ticks.
proof fn lemma_pulse_gone(w: i64, j: nat)
    requires
        w >= 1,
        j >= w,
    ensures
        pulse_after(Some(w), j) is None,
    decreases j,
{
    if j == w {
        lemma_pulse_width(w, (w - 1) as nat);
    } else {
        lemma_pulse_gone(w, (j - 1) as nat);
    }
}

/// A variable with a pending pulse of width `w` (as `x = v ~ w` leaves it), that no
/// clock drives and no logic output binds, keeps its value `v` for the first `w - 1`
/// ticks and reads 0 from the `w`-th tick on.
pub proof fn lemma_pulse_var(v: Option<i64>, w: i64, k: nat)
    requires
        w >= 1,
    ensures
        k < w ==> var_after(v, Some(w), k) == v,
        k >= w ==> var_after(v, Some(w), k) == Some(0i64),
    decreases k,
{
    if k > 0 {
        lemma_pulse_var(v, w, (k - 1) as nat);
        if k - 1 < w {
            lemma_pulse_width(w, (k - 1) as nat);
        } else {
            lemma_pulse_gone(w, (k - 1) as nat);
        }
    }
}

/// `clock(v, N)`: after `k` ticks the clock has `N - k % N` ticks left in its period and
/// its level is 0 in even periods and 15 in odd ones; it flips exactly at the ticks that
/// end a period.
#[verifier::spinoff_prover]
#[verifier::rlimit(30)]
pub proof fn lemma_clock_period(n: i64, k: nat)
    requires
        n >= 1,
    ensures
        clock_after(ClockState { hold: n, counter: n, level: 0 }, k) == (ClockState {
            hold: n,
            counter: (n - (k % (n as nat)) as int) as i64,
            level: if (k / (n as nat)) % 2 == 1 { 15 } else { 0 },
        }),
        clock_flips(clock_after(ClockState { hold: n, counter: n, level: 0 }, k)) <==> (k + 1) % (n as nat) == 0,
    decreases k,
{
    let nn = n as nat;
    if k > 0 {
        lemma_clock_period(n, (k - 1) as nat);
        let j = (k - 1) as nat;
        lemma_div_mod_step(j, nn);
    }
    lemma_div_mod_step(k, nn);
}

proof fn lemma_div_mod_step(j: nat, n: nat)
    requires
        n >= 1,
    ensures
        j % n < n,
        (j + 1) % n == if j % n == n - 1 { 0 } else { j % n + 1 },
        (j + 1) / n == if j % n == n - 1 { j / n + 1 } else { j / n },
{
    let q = (j / n) as int;
    let r = (j % n) as int;
    vstd::arithmetic::div_mod::lemma_fundamental_div_mod(j as int, n as int);
    vstd::arithmetic::div_mod::lemma_mod_bound(j as int, n as int);
    assert(j == n * q + r);
    if r == n - 1 {
        assert((q + 1) * n + 0 == n * q + r + 1) by (nonlinear_arith)
            requires
                r == n - 1,
        ;
        vstd::arithmetic::div_mod::lemma_fundamental_div_mod_converse((j + 1) as int, n as int, q + 1, 0);
    } else {
        assert(q * n + (r + 1) == n * q + r + 1) by (nonlinear_arith);
        vstd::arithmetic::div_mod::lemma_fundamental_div_mod_converse((j + 1) as int, n as int, q, r + 1);
    }
}

/// No element of the circuit is unsettled or cooling down: another tick changes no
/// element's output.
pub open spec fn steady(c: Circuit) -> bool {
    forall|i: int| 0 <= i < c.seqs@.len() ==> !unsettled(#[trigger] c.seqs@[i]) && c.seqs@[i].cooldown <= 0
}

/// Condition `cond` evaluates to a nonzero value in state `x`.
pub open spec fn holds_in(x: ModuleExec, cond: Expr, defines: StrMap<i64>) -> bool {
    eval_spec(cond, x.vars, x.var_buses, defines, x.sim_time) matches Ok(v) && v != 0
}

/// The error of `#init` when the circuit does not settle within `timeout` ticks.
pub open spec fn init_timeout_msg(timeout: i64) -> Seq<char> {
    "#init did not reach a steady state within "@ + int_text(timeout as int, 10)
        + " ticks (oscillating circuit? raise INIT_TIMEOUT or use wait(n) instead)"@
}

/// `$time` after `n` ticks from `t`, advancing by one per tick (wrapping).
pub open spec fn time_after(t: i64, n: nat) -> i64
    decreases n,
{
    if n == 0 {
        t
    } else {
        vstd::wrapping::i64_specs::wrapping_add(time_after(t, (n - 1) as nat), 1)
    }
}

/// The lane values of bus variable `name` of width `w` (0 for a missing lane).
pub open spec fn lane_vals(vars: StrMap<i64>, name: Seq<char>, w: int) -> Seq<i64> {
    Seq::new(if w >= 0 { w as nat } else { 0 }, |k: int| match vars.get_spec(lane_key_spec(name, k)) {
        Some(v) => v,
        None => 0,
    })
}

/// `clock(v, N)` can start in state `a`: a format-free call with two arguments, the first
/// a declared scalar variable taken whole, the second evaluating to at least 1.
pub open spec fn clock_ok(a: ModuleExec, call: CallData, defines: StrMap<i64>) -> bool {
    &&& !call.has_fmt
    &&& call.args@.len() == 2
    &&& call.args@[0] matches Expr::Var { name, index: None, .. }
    &&& !a.var_buses.has(call.args@[0]->Var_name@)
    &&& a.vars.has(call.args@[0]->Var_name@)
    &&& eval_spec(call.args@[1], a.vars, a.var_buses, defines, a.sim_time) matches Ok(n)
    &&& n >= 1
}

/// `clock(v, N)` took effect from `a` to `b`: `v` is a declared scalar variable, `N`
/// evaluates to at least 1, `v` is now 0 with a clock of hold `N` starting low and no
/// pending pulse, and no other variable changed.
pub open spec fn clock_started(a: ModuleExec, b: ModuleExec, call: CallData, defines: StrMap<i64>) -> bool {
    match call.args@[0] {
        Expr::Var { name, index: None, .. } => {
            &&& a.vars.has(name@)
            &&& !a.var_buses.has(name@)
            &&& match eval_spec(call.args@[1], a.vars, a.var_buses, defines, a.sim_time) {
                Ok(n) => n >= 1 && b.clocks.get_spec(name@) == Some(ClockState { hold: n, counter: n, level: 0 }),
                Err(_) => false,
            }
            &&& b.vars.get_spec(name@) == Some(0i64)
            &&& !b.pulses.has(name@)
            &&& forall|q: Seq<char>| q != name@ ==> #[trigger] b.vars.get_spec(q) == a.vars.get_spec(q)
        },
        _ => false,
    }
}

impl ModuleExec {
    /// One tick: inputs are applied, the circuit steps (its warnings, the trace line and
    /// the waveform are written), outputs are copied to their variables, and pulses and
    /// clocks advance. Returns whether the circuit changed.
    pub fn tick_once(&mut self) -> (r: RvResult<bool>)
        requires
            old(self).inv(),
        ensures
            final(self).inv(),
            final(self).c.nodes@.len() == old(self).c.nodes@.len(),
            final(self).c.cfg == old(self).c.cfg,
            final(self).sim_time == old(self).sim_time,
            r is Ok ==> final(self).c.tick == old(self).c.tick + 1,
            (r is Ok) == (inputs_declared(*old(self)) && tick_room(old(self).c.tick as int)),
            final(self).mons == old(self).mons,
            final(self).insts == old(self).insts,
            forall|k: Seq<char>| old(self).vars.has(k) ==> #[trigger] final(self).vars.has(k),
            r matches Ok(ch) ==> (!ch ==> steady(final(self).c)),
            r is Ok ==> forall|q: Seq<char>| #[trigger] final(self).pulses.get_spec(q) == pulse_left(old(self).pulses.get_spec(q)),
            r is Ok ==> forall|q: Seq<char>| #[trigger] final(self).clocks.get_spec(q) == match old(self).clocks.get_spec(q) {
                Some(st) => Some(clock_next(st)),
                None => None,
            },
            r is Ok ==> forall|q: Seq<char>| #[trigger] old(self).clocks.get_spec(q) is Some && clock_flips(
                old(self).clocks.get_spec(q)->Some_0,
            ) ==> final(self).vars.get_spec(q) == Some(clock_next(old(self).clocks.get_spec(q)->Some_0).level),
            r is Ok ==> forall|q: Seq<char>| pulse_ends(#[trigger] old(self).pulses.get_spec(q)) && old(self).clocks.get_spec(q)
                is None ==> final(self).vars.get_spec(q) == Some(0i64),
            r is Ok ==> final(self).out_bind == old(self).out_bind,
            r is Ok ==> forall|q: Seq<char>| old(self).out_bind.get_spec(q) is None && old(self).clocks.get_spec(q) is None
                ==> #[trigger] final(self).vars.get_spec(q) == if pulse_ends(old(self).pulses.get_spec(q)) {
                Some(0i64)
            } else {
                old(self).vars.get_spec(q)
            },
            r is Ok ==> forall|q: Seq<char>| #[trigger] old(self).out_bind.get_spec(q) is Some && !pulse_ends(old(self).pulses.get_spec(q))
                && old(self).clocks.get_spec(q) is None ==> final(self).vars.get_spec(q) == Some(
                final(self).c.val(old(self).out_bind.get_spec(q)->Some_0 as int) as i64,
            ),
    {
        match self.apply_inputs() {
            Ok(()) => {},
            Err(x) => return Err(x),
        }
        if !(i64::MIN + 0x1_0000_0000 < self.c.tick && self.c.tick < i64::MAX - 0x1_0000_0000 - 1) {
            return fail(0, own("tick counter exhausted"));
        }
        let ghost n = self.c.nodes@.len();
        let w0 = self.c.warnings.len();
        let ch = self.c.step();
        proof {
            lemma_inv_nodes_same(self, n);
        }
        let mut k = w0;
        while k < self.c.warnings.len()
            invariant
                self.inv(),
                self.c.nodes@.len() == n,
                self.c.cfg == old(self).c.cfg,
                self.sim_time == old(self).sim_time,
                self.c.tick == old(self).c.tick + 1,
                self.pulses == old(self).pulses,
                self.clocks == old(self).clocks,
                !ch ==> steady(self.c),
                self.insts == old(self).insts,
                self.vars == old(self).vars,
                self.mons == old(self).mons,
                self.out_bind == old(self).out_bind,
            decreases self.c.warnings@.len() - k,
        {
            let w = self.c.warnings[k].clone();
            self.out.push(Out::Warn(w));
            k += 1;
        }
        if self.trace {
            let line = self.trace_line();
            self.out.push(Out::Stderr(line));
        }
        self.dump_vcd();
        let ghost v0 = self.vars;
        let ghost c0 = self.c;
        self.apply_outputs();
        let ghost v1 = self.vars;
        let ghost c1 = self.c;
        self.tick_pulses();
        let ghost v2 = self.vars;
        self.tick_clocks();
        proof {
            assert forall|q: Seq<char>| #[trigger] old(self).out_bind.get_spec(q) is Some && !pulse_ends(old(self).pulses.get_spec(q))
                && old(self).clocks.get_spec(q) is None implies self.vars.get_spec(q) == Some(
                self.c.val(old(self).out_bind.get_spec(q)->Some_0 as int) as i64,
            ) by {
                let x = old(self).out_bind.get_spec(q)->Some_0;
                assert(self.out_bind.get_spec(q) == Some(x));
                assert((x as int) < c0.nodes@.len());
                assert(c1.root(x as int) == c0.root(x as int));
                assert(self.c == c1);
            }
            assert forall|k: Seq<char>| old(self).vars.has(k) implies #[trigger] self.vars.has(k) by {
                assert(v0.get_spec(k) is Some);
                assert(v1.get_spec(k) is Some);
                assert(v2.get_spec(k) is Some);
                assert(self.vars.get_spec(k) is Some);
            }
        }
        Ok(ch)
    }

    /// Runs `n` ticks (none when `n <= 0`); `$time` advances with each when
    /// `advance_time`.
    pub fn run_ticks(&mut self, n: i64, advance_time: bool) -> (r: RvResult<()>)
        requires
            old(self).inv(),
        ensures
            final(self).inv(),
            final(self).c.cfg == old(self).c.cfg,
            r is Ok ==> final(self).c.tick == old(self).c.tick + (if n > 0 { n as int } else { 0 }),
            (r is Ok) == (n <= 0 || (inputs_declared(*old(self)) && tick_room(old(self).c.tick as int) && tick_room(
                old(self).c.tick + n - 1,
            ))),
            r is Ok ==> final(self).sim_time == if advance_time {
                time_after(old(self).sim_time, if n > 0 { n as nat } else { 0 })
            } else {
                old(self).sim_time
            },
            final(self).mons == old(self).mons,
            r is Ok ==> forall|q: Seq<char>| #[trigger] final(self).pulses.get_spec(q) == pulse_after(old(self).pulses.get_spec(q),
                if n > 0 { n as nat } else { 0 }),
            r is Ok ==> forall|q: Seq<char>| #[trigger] final(self).clocks.get_spec(q) == clock_after_opt(old(self).clocks.get_spec(q),
                if n > 0 { n as nat } else { 0 }),
            r is Ok ==> final(self).out_bind == old(self).out_bind,
            r is Ok ==> forall|q: Seq<char>| old(self).out_bind.get_spec(q) is None && old(self).clocks.get_spec(q) is None
                ==> #[trigger] final(self).vars.get_spec(q) == var_after(old(self).vars.get_spec(q), old(self).pulses.get_spec(q),
                if n > 0 { n as nat } else { 0 }),
            (r is Ok && n > 0) ==> forall|q: Seq<char>| #[trigger] old(self).out_bind.get_spec(q) is Some && old(self).pulses.get_spec(q)
                is None && old(self).clocks.get_spec(q) is None ==> final(self).vars.get_spec(q) == Some(
                final(self).c.val(old(self).out_bind.get_spec(q)->Some_0 as int) as i64,
            ),
    {
        let mut i: i64 = 0;
        while i < n
            invariant
                self.inv(),
                self.c.cfg == old(self).c.cfg,
                0 <= i,
                i <= n || i == 0,
                self.c.tick == old(self).c.tick + i,
                self.sim_time == if advance_time { time_after(old(self).sim_time, i as nat) } else { old(self).sim_time },
                i > 0 ==> inputs_declared(*old(self)) && tick_room(old(self).c.tick as int) && tick_room(old(self).c.tick + i - 1),
                i == 0 ==> *self == *old(self),
                self.insts == old(self).insts,
                forall|k: Seq<char>| old(self).vars.has(k) ==> #[trigger] self.vars.has(k),
                self.mons == old(self).mons,
                forall|q: Seq<char>| #[trigger] self.pulses.get_spec(q) == pulse_after(old(self).pulses.get_spec(q), i as nat),
                forall|q: Seq<char>| #[trigger] self.clocks.get_spec(q) == clock_after_opt(old(self).clocks.get_spec(q), i as nat),
                self.out_bind == old(self).out_bind,
                forall|q: Seq<char>| old(self).out_bind.get_spec(q) is None && old(self).clocks.get_spec(q) is None
                    ==> #[trigger] self.vars.get_spec(q) == var_after(old(self).vars.get_spec(q), old(self).pulses.get_spec(q), i as nat),
                i > 0 ==> forall|q: Seq<char>| #[trigger] old(self).out_bind.get_spec(q) is Some && old(self).pulses.get_spec(q) is None
                    && old(self).clocks.get_spec(q) is None ==> self.vars.get_spec(q) == Some(
                    self.c.val(old(self).out_bind.get_spec(q)->Some_0 as int) as i64,
                ),
            decreases n - i,
        {
            let ghost before = *self;
            proof {
                if i > 0 {
                    assert forall|a: int, b: int| 0 <= a < self.insts@.len() && 0 <= b < self.insts@[a].1.in_vars@.len() implies self.vars.has(
                        (#[trigger] self.insts@[a].1.in_vars@[b])@,
                    ) by {
                        assert(old(self).vars.has(old(self).insts@[a].1.in_vars@[b]@));
                    }
                }
            }
            match self.tick_once() {
                Ok(_) => {},
                Err(x) => return Err(x),
            }
            proof {
                assert forall|q: Seq<char>| old(self).out_bind.get_spec(q) is None && old(self).clocks.get_spec(q) is None implies
                    #[trigger] self.vars.get_spec(q) == var_after(old(self).vars.get_spec(q), old(self).pulses.get_spec(q), (i + 1) as nat) by {
                    assert(before.clocks.get_spec(q) == clock_after_opt(old(self).clocks.get_spec(q), i as nat));
                    assert(before.pulses.get_spec(q) == pulse_after(old(self).pulses.get_spec(q), i as nat));
                    assert(before.vars.get_spec(q) == var_after(old(self).vars.get_spec(q), old(self).pulses.get_spec(q), i as nat));
                }
                assert forall|q: Seq<char>| #[trigger] old(self).out_bind.get_spec(q) is Some && old(self).pulses.get_spec(q) is None
                    && old(self).clocks.get_spec(q) is None implies self.vars.get_spec(q) == Some(
                    self.c.val(old(self).out_bind.get_spec(q)->Some_0 as int) as i64,
                ) by {
                    lemma_no_pulse(i as nat);
                    assert(before.pulses.get_spec(q) == pulse_after(old(self).pulses.get_spec(q), i as nat));
                    assert(before.clocks.get_spec(q) == clock_after_opt(old(self).clocks.get_spec(q), i as nat));
                    assert(before.out_bind.get_spec(q) is Some);
                }
            }
            if advance_time {
                self.sim_time = self.sim_time.wrapping_add(1);
            }
            i += 1;
        }
        Ok(())
    }

    /// `#init`: ticks until the circuit stops changing (the init budget is a limit);
    /// `$time` restarts at 0.
    pub fn do_init(&mut self, line: i32) -> (r: RvResult<()>)
        requires
            old(self).inv(),
        ensures
            final(self).inv(),
            final(self).c.cfg == old(self).c.cfg,
            r is Ok ==> final(self).sim_time == 0,
            r is Ok ==> steady(final(self).c),
            (inputs_declared(*old(self)) && tick_room(old(self).c.tick as int) && tick_room(
                old(self).c.tick + if old(self).c.cfg.init_timeout > 0 { old(self).c.cfg.init_timeout as int } else { 0 },
            )) ==> (r matches Err(e) ==> e.line == line && e.msg@ == init_timeout_msg(old(self).c.cfg.init_timeout)),
    {
        let timeout = self.c.cfg.init_timeout;
        let mut t: i64 = 0;
        loop
            invariant_except_break
                self.c.tick == old(self).c.tick + t,
                self.insts == old(self).insts,
                forall|k: Seq<char>| old(self).vars.has(k) ==> #[trigger] self.vars.has(k),
            invariant
                self.inv(),
                self.c.cfg == old(self).c.cfg,
                timeout == self.c.cfg.init_timeout,
                0 <= t,
                t == 0 || t <= timeout,
            ensures
                self.inv(),
                self.c.cfg == old(self).c.cfg,
                steady(self.c),
            decreases (if t <= timeout { timeout - t } else { 0 }),
        {
            proof {
                if inputs_declared(*old(self)) {
                    assert forall|a: int, b: int| 0 <= a < self.insts@.len() && 0 <= b < self.insts@[a].1.in_vars@.len() implies self.vars.has(
                        (#[trigger] self.insts@[a].1.in_vars@[b])@,
                    ) by {
                        assert(old(self).vars.has(old(self).insts@[a].1.in_vars@[b]@));
                    }
                }
            }
            let ch = match self.tick_once() {
                Ok(ch) => ch,
                Err(x) => return Err(x),
            };
            if !ch {
                break;
            }
            if t >= timeout {
                let tt = int_str(timeout);
                let m = cat3("#init did not reach a steady state within ", tt.as_str(), " ticks (oscillating circuit? raise INIT_TIMEOUT or use wait(n) instead)");
                return fail(line, m);
            }
            t += 1;
        }
        self.sim_time = 0;
        Ok(())
    }

    /// `#until(cond)`: ticks (advancing `$time`) until `cond` holds; the init budget is a
    /// limit.
    pub fn do_until(&mut self, line: i32, cond: &Expr, defines: &StrMap<i64>) -> (r: RvResult<()>)
        requires
            old(self).inv(),
        ensures
            final(self).inv(),
            final(self).c.cfg == old(self).c.cfg,
            r is Ok ==> (eval_spec(*cond, final(self).vars, final(self).var_buses, *defines, final(self).sim_time) matches Ok(v)
                && v != 0),
            r is Ok ==> exists|k: nat| #![trigger time_after(old(self).sim_time, k)]
                k <= (if old(self).c.cfg.init_timeout > 0 { old(self).c.cfg.init_timeout as int } else { 0 })
                && final(self).c.tick == old(self).c.tick + k && final(self).sim_time == time_after(old(self).sim_time, k),
            holds_in(*old(self), *cond, *defines) ==> r is Ok && *final(self) == *old(self),
    {
        let timeout = self.c.cfg.init_timeout;
        let mut t: i64 = 0;
        loop
            invariant
                self.inv(),
                self.c.cfg == old(self).c.cfg,
                timeout == self.c.cfg.init_timeout,
                0 <= t,
                t == 0 || t <= timeout,
                self.c.tick == old(self).c.tick + t,
                self.sim_time == time_after(old(self).sim_time, t as nat),
                t == 0 ==> *self == *old(self),
                t > 0 ==> !holds_in(*old(self), *cond, *defines),
            ensures
                self.inv(),
                self.c.cfg == old(self).c.cfg,
                0 <= t,
                t == 0 || t <= timeout,
                self.c.tick == old(self).c.tick + t,
                self.sim_time == time_after(old(self).sim_time, t as nat),
                eval_spec(*cond, self.vars, self.var_buses, *defines, self.sim_time) matches Ok(v) && v != 0,
                holds_in(*old(self), *cond, *defines) ==> *self == *old(self),
            decreases (if t <= timeout { timeout - t } else { 0 }),
        {
            let v = match self.eval_e(cond, defines) {
                Ok(v) => v,
                Err(x) => return Err(x),
            };
            if v != 0 {
                break;
            }
            match self.tick_once() {
                Ok(_) => {},
                Err(x) => return Err(x),
            }
            self.sim_time = self.sim_time.wrapping_add(1);
            if t >= timeout {
                let tt = int_str(timeout);
                let m = cat3("#until(...) condition not satisfied within ", tt.as_str(), " ticks (oscillating circuit or unreachable condition? raise INIT_TIMEOUT or use wait(n) instead)");
                return fail(line, m);
            }
            t += 1;
        }
        Ok(())
    }

    /// `clock(var, N)`: the scalar variable starts low and toggles between 0 and 15 every
    /// N ticks (cancelling a pending pulse on it).
    pub fn do_clock(&mut self, line: i32, call: &CallData, defines: &StrMap<i64>) -> (r: RvResult<()>)
        requires
            old(self).inv(),
        ensures
            final(self).inv(),
            final(self).c == old(self).c,
            final(self).sim_time == old(self).sim_time,
            r is Ok ==> call.args@.len() == 2,
            r is Ok ==> clock_started(*old(self), *final(self), *call, *defines),
            (r is Ok) == clock_ok(*old(self), *call, *defines),
    {
        if call.has_fmt || call.args.len() != 2 {
            return fail(line, own("clock(var, N) takes a var name and a period"));
        }
        let name = match &call.args[0] {
            Expr::Var { name, index, .. } => {
                if index.is_some() {
                    return fail(line, own("clock(var, N): first argument must be a scalar var, not a bus lane"));
                }
                name.clone()
            },
            _ => return fail(line, own("clock(var, N): first argument must be a var name")),
        };
        if self.var_buses.contains_key(name.as_str()) {
            return fail(line, cat3("clock on a bus var '", name.as_str(), "' is not supported"));
        }
        if !self.vars.contains_key(name.as_str()) {
            return fail(line, cat2("undeclared variable: ", name.as_str()));
        }
        let n = match self.eval_e(&call.args[1], defines) {
            Ok(v) => v,
            Err(x) => return Err(x),
        };
        if n < 1 {
            let t = int_str(n);
            return fail(line, cat3("clock period must be >= 1 (got ", t.as_str(), ")"));
        }
        let ghost a = *old(self);
        let ghost nm = name@;
        self.vars.insert(name.clone(), 0);
        self.pulses.remove(name.as_str());
        self.clocks.insert(name, ClockState { hold: n, counter: n, level: 0 });
        proof {
            assert(self.vars.get_spec(nm) == Some(0i64));
            assert(self.pulses.get_spec(nm) is None);
            assert(!self.pulses.has(nm));
            assert(self.clocks.get_spec(nm) == Some(ClockState { hold: n, counter: n, level: 0 }));
            assert(call.args@[0] matches Expr::Var { name, index: None, .. } && name@ == nm);
            assert(eval_spec(call.args@[1], a.vars, a.var_buses, *defines, a.sim_time) == Ok::<i64, ErrSpec>(n));
        }
        Ok(())
    }

    /// One monitor argument: a whole bus variable (at most 16 lanes) is its lanes packed
    /// four bits each, with its width; anything else is its value.
    pub fn eval_monitor_arg(&self, line: i32, e: &Expr, defines: &StrMap<i64>) -> (r: RvResult<(i64, Option<i32>)>)
        ensures
            r matches Ok(p) ==> (p.1 matches Some(w) ==> w <= 16),
            match *e {
                Expr::Var { name, index: None, .. } => match self.var_buses.get_spec(name@) {
                    Some(w) => if w > 16 {
                        r is Err
                    } else {
                        r == Ok::<(i64, Option<i32>), RvError>((packed(lane_vals(self.vars, name@, w as int)) as i64, Some(w)))
                    },
                    None => match eval_spec(*e, self.vars, self.var_buses, *defines, self.sim_time) {
                        Ok(v) => r == Ok::<(i64, Option<i32>), RvError>((v, None)),
                        Err(m) => r matches Err(x) && x@ == m,
                    },
                },
                _ => match eval_spec(*e, self.vars, self.var_buses, *defines, self.sim_time) {
                    Ok(v) => r == Ok::<(i64, Option<i32>), RvError>((v, None)),
                    Err(m) => r matches Err(x) && x@ == m,
                },
            },
    {
        if let Expr::Var { name, index, .. } = e {
            if index.is_none() {
                if let Some(w) = self.var_buses.get(name.as_str()) {
                    let w = *w;
                    if w > 16 {
                        let tw = int_str(w as i64);
                        let m = cat5("monitor: bus var '", name.as_str(), "' width ", tw.as_str(), " > 16 cannot be packed into one integer; monitor lanes individually with '");
                        return fail(line, cat3(m.as_str(), name.as_str(), "[k]'"));
                    }
                    let mut packed_v: u64 = 0;
                    let mut k: i32 = 0;
                    let ghost lv = lane_vals(self.vars, name@, w as int);
                    while k < w
                        invariant
                            0 <= k,
                            k <= w || w < 0,
                            w < 0 ==> k == 0,
                            w <= 16,
                            lv == lane_vals(self.vars, name@, w as int),
                            packed_v == packed(lv.subrange(0, k as int)),
                        decreases w - k,
                    {
                        let key = lane_key(name.as_str(), k as i64);
                        let lane: i64 = match self.vars.get(key.as_str()) {
                            Some(v) => *v,
                            None => 0,
                        };
                        proof {
                            assert(lv[k as int] == lane);
                            assert(lv.subrange(0, k + 1).drop_last() =~= lv.subrange(0, k as int));
                        }
                        packed_v = packed_v | (((lane as u64) & 0xF) << ((4 * k) as u64));
                        k += 1;
                    }
                    proof {
                        if w >= 0 {
                            assert(k == w);
                            assert(lv.len() == w);
                            assert(lv.subrange(0, w as int) =~= lv);
                            assert(packed(lv.subrange(0, k as int)) == packed(lv));
                        } else {
                            assert(lv =~= Seq::<i64>::empty());
                            assert(lv.subrange(0, 0) =~= lv);
                        }
                        assert(packed_v == packed(lv));
                        assert(lv == lane_vals(self.vars, name@, w as int));
                    }
                    return Ok((packed_v as i64, Some(w)));
                }
            }
        }
        match self.eval_e(e, defines) {
            Ok(v) => Ok((v, None)),
            Err(x) => Err(x),
        }
    }
}

/// The run's invariant holds after a step (nodes kept, only flags and values changed).
proof fn lemma_inv_nodes_same(x: &ModuleExec, n: nat)
    requires
        x.c.wf(),
        x.c.nodes@.len() == n,
        forall|i: int| 0 <= i < x.insts@.len() ==> inst_ok((#[trigger] x.insts@[i]).1, n),
        insts_sorted(x.insts@),
        keys_unique(x.pulses.entries@),
        keys_unique(x.clocks.entries@),
        forall|k: Seq<char>| #[trigger] x.out_bind.get_spec(k) matches Some(v) ==> v < n,
        x.vcd matches Some(v) ==> forall|i: int| 0 <= i < v.sigs@.len() ==> (#[trigger] v.sigs@[i]).node < n,
        x.in_pos <= x.input@.len(),
    ensures
        x.inv(),
{
}

/// The text of a piece of standard output.
pub open spec fn stdout_text(o: Out) -> Option<Seq<char>> {
    match o {
        Out::Stdout(x) => Some(x@),
        _ => None,
    }
}

/// The comma-separated decimal values of monitor arguments.
pub open spec fn values_csv(av: Seq<(i64, Option<i32>)>) -> Seq<char>
    decreases av.len(),
{
    if av.len() == 0 {
        seq![]
    } else if av.len() == 1 {
        int_text(av[0].0 as int, 10)
    } else {
        values_csv(av.drop_last()) + ","@ + int_text(av.last().0 as int, 10)
    }
}

impl ModuleExec {
    /// A monitor argument's value (see `eval_monitor_arg`), or `None` where it fails.
    pub open spec fn mon_arg(&self, e: Expr, defines: StrMap<i64>) -> Option<(i64, Option<i32>)> {
        let plain = match eval_spec(e, self.vars, self.var_buses, defines, self.sim_time) {
            Ok(v) => Some((v, None::<i32>)),
            Err(_) => None,
        };
        match e {
            Expr::Var { name, index: None, .. } => match self.var_buses.get_spec(name@) {
                Some(w) => if w > 16 {
                    None
                } else {
                    Some((packed(lane_vals(self.vars, name@, w as int)) as i64, Some(w)))
                },
                None => plain,
            },
            _ => plain,
        }
    }

    /// The values of the first `n` monitor arguments, or `None` if one fails.
    pub open spec fn mon_args(&self, args: Seq<Expr>, n: int, defines: StrMap<i64>) -> Option<Seq<(i64, Option<i32>)>>
        decreases n,
    {
        if n <= 0 {
            Some(seq![])
        } else {
            match self.mon_args(args, n - 1, defines) {
                Some(p) => match self.mon_arg(args[n - 1], defines) {
                    Some(a) => Some(p.push(a)),
                    None => None,
                },
                None => None,
            }
        }
    }

    proof fn lemma_mon_args_none(&self, args: Seq<Expr>, n: int, m: int, defines: StrMap<i64>)
        requires
            0 <= n <= m,
            self.mon_args(args, n, defines) is None,
        ensures
            self.mon_args(args, m, defines) is None,
        decreases m - n,
    {
        if n < m {
            self.lemma_mon_args_none(args, n, m - 1, defines);
        }
    }

    /// The line `monitor` writes for argument values `av`: in JSON mode
    /// `{"module":..,"time":T,"values":[..],"fmt":..}` (the module only when several run),
    /// else the formatted text (see `mon_from`).
    pub open spec fn mon_text(&self, call: CallData, av: Seq<(i64, Option<i32>)>, line: i32) -> Result<Seq<char>, ErrSpec> {
        if self.json {
            Ok("{"@ + (if self.many_modules { "\"module\":"@ + json_str(self.name@) + ","@ } else { seq![] })
                + "\"time\":"@ + int_text(self.sim_time as int, 10) + ",\"values\":["@ + values_csv(av)
                + "],\"fmt\":"@ + json_str(call.fmt@) + "}\n"@)
        } else {
            mon_from(call.fmt@, 0, av, 0, line)
        }
    }

    /// Monitor argument values do not depend on what was written so far.
    proof fn lemma_mon_args_out(a: ModuleExec, b: ModuleExec, args: Seq<Expr>, n: int, defines: StrMap<i64>)
        requires
            b == (ModuleExec { out: b.out, ..a }),
        ensures
            a.mon_args(args, n, defines) == b.mon_args(args, n, defines),
        decreases n,
    {
        if n > 0 {
            Self::lemma_mon_args_out(a, b, args, n - 1, defines);
        }
    }

    /// A monitor's line does not depend on what was written so far, nor on which copy of
    /// its call data is used.
    proof fn lemma_monitor_line_out(a: ModuleExec, b: ModuleExec, c1: CallData, c2: CallData, defines: StrMap<i64>, line: i32)
        requires
            b == (ModuleExec { out: b.out, ..a }),
            c1.has_fmt == c2.has_fmt,
            c1.fmt@ == c2.fmt@,
            c1.args@ == c2.args@,
        ensures
            a.monitor_line(c1, defines, line) == b.monitor_line(c2, defines, line),
    {
        Self::lemma_mon_args_out(a, b, c1.args@, c1.args@.len() as int, defines);
    }

    /// The line `monitor` writes for `call`, or `None` where it fails (no format string,
    /// an argument that fails, or a format error).
    pub open spec fn monitor_line(&self, call: CallData, defines: StrMap<i64>, line: i32) -> Option<Seq<char>> {
        if !call.has_fmt {
            None
        } else {
            match self.mon_args(call.args@, call.args@.len() as int, defines) {
                Some(av) => match self.mon_text(call, av, line) {
                    Ok(t) => Some(t),
                    Err(_) => None,
                },
                None => None,
            }
        }
    }

    /// `monitor("fmt", args...)`: writes the formatted text (see `mon_from`), or in JSON
    /// mode a JSON line with `$time`, the values and the format.
    pub fn do_monitor(&mut self, line: i32, call: &CallData, defines: &StrMap<i64>) -> (r: RvResult<()>)
        requires
            old(self).inv(),
        ensures
            final(self).inv(),
            *final(self) == (ModuleExec { out: final(self).out, ..*old(self) }),
            (r is Ok) == (old(self).monitor_line(*call, *defines, line) is Some),
            r is Ok ==> final(self).out@.len() == old(self).out@.len() + 1 && final(self).out@.drop_last() == old(self).out@
                && stdout_text(final(self).out@.last()) == old(self).monitor_line(*call, *defines, line),
            r is Err ==> final(self).out == old(self).out,
    {
        if !call.has_fmt {
            return fail(line, own("monitor() requires a format string as its first argument"));
        }
        let ghost me = *old(self);
        let mut av: Vec<(i64, Option<i32>)> = Vec::new();
        let mut i: usize = 0;
        while i < call.args.len()
            invariant
                i <= call.args@.len(),
                *self == *old(self),
                self.inv(),
                me == *old(self),
                me.mon_args(call.args@, i as int, *defines) == Some(av@),
                forall|k: int| 0 <= k < av@.len() ==> ((#[trigger] av@[k]).1 matches Some(w) ==> w <= 16),
            decreases call.args@.len() - i,
        {
            let a = match self.eval_monitor_arg(line, &call.args[i], defines) {
                Ok(a) => a,
                Err(x) => {
                    proof {
                        me.lemma_mon_args_none(call.args@, i + 1, call.args@.len() as int, *defines);
                    }
                    return Err(x);
                },
            };
            let ghost v0 = av@;
            av.push(a);
            proof {
                assert forall|k: int| 0 <= k < av@.len() implies ((#[trigger] av@[k]).1 matches Some(w) ==> w <= 16) by {
                    if k < v0.len() {
                        assert(av@[k] == v0[k]);
                    }
                }
            }
            i += 1;
        }
        if self.json {
            proof {
                reveal_strlit("{");
                reveal_strlit(",");
            }
            let mut s = own("{");
            if self.many_modules {
                s.append("\"module\":");
                json_escape_into(self.name.as_str(), &mut s);
                s.append(",");
            }
            s.append("\"time\":");
            s.append(int_str(self.sim_time).as_str());
            s.append(",\"values\":[");
            let ghost s0 = s@;
            let mut k: usize = 0;
            while k < av.len()
                invariant
                    k <= av@.len(),
                    s@ == s0 + values_csv(av@.subrange(0, k as int)),
                decreases av@.len() - k,
            {
                let ghost before = s@;
                if k > 0 {
                    s.append(",");
                }
                s.append(int_str(av[k].0).as_str());
                proof {
                    let p = av@.subrange(0, k + 1);
                    assert(p.drop_last() =~= av@.subrange(0, k as int));
                    if k == 0 {
                        assert(av@.subrange(0, 0) =~= Seq::<(i64, Option<i32>)>::empty());
                        assert(s@ =~= s0 + values_csv(p));
                    } else {
                        assert(s@ =~= s0 + values_csv(p));
                    }
                }
                k += 1;
            }
            proof {
                assert(av@.subrange(0, av@.len() as int) =~= av@);
            }
            s.append("],\"fmt\":");
            json_escape_into(call.fmt.as_str(), &mut s);
            s.append("}\n");
            proof {
                assert(s@ =~= me.mon_text(*call, av@, line)->Ok_0);
            }
            self.out.push(Out::Stdout(s));
            return Ok(());
        }
        let text = match format_monitor(call.fmt.as_str(), &av, line) {
            Ok(t) => t,
            Err(x) => return Err(x),
        };
        self.out.push(Out::Stdout(text));
        Ok(())
    }

    /// `,"module":"name"` when several modules run (else nothing).
    fn json_module(&self, s: &mut String)
        ensures
            final(s)@ == old(s)@ + if self.many_modules {
                ",\"module\":"@ + json_str(self.name@)
            } else {
                seq![]
            },
    {
        if self.many_modules {
            s.append(",\"module\":");
            json_escape_into(self.name.as_str(), s);
        }
    }

    /// The `,"module":name` part of a JSON report when several modules run.
    pub open spec fn module_json(&self) -> Seq<char> {
        if self.many_modules {
            ",\"module\":"@ + json_str(self.name@)
        } else {
            seq![]
        }
    }

    /// The report of a failed `assert(expr)` at `line`.
    pub open spec fn assert_report(&self, line: i32, expr: Seq<char>) -> Seq<char> {
        if self.json {
            "{\"kind\":\"assert\""@ + self.module_json() + ",\"line\":"@ + int_text(line as int, 10) + ",\"expr\":"@ + json_str(expr)
                + "}"@
        } else {
            "[assert] line "@ + int_text(line as int, 10) + ": assertion failed: "@ + expr
        }
    }

    /// The report of a failed `expect(expr, ..)` at `line` with the two values.
    pub open spec fn expect_report(&self, line: i32, expr: Seq<char>, actual: i64, expected: i64) -> Seq<char> {
        if self.json {
            "{\"kind\":\"expect\""@ + self.module_json() + ",\"line\":"@ + int_text(line as int, 10) + ",\"expr\":"@ + json_str(expr)
                + ",\"actual\":"@ + int_text(actual as int, 10) + ",\"expected\":"@ + int_text(expected as int, 10) + "}"@
        } else {
            "[assert] line "@ + int_text(line as int, 10) + ": expect failed: "@ + expr + " = "@ + int_text(actual as int, 10)
                + ", expected "@ + int_text(expected as int, 10)
        }
    }

    /// `assert(cond)`: counts a check; a false condition counts a failure and is reported
    /// (the run goes on).
    pub fn do_assert(&mut self, line: i32, call: &CallData, defines: &StrMap<i64>) -> (r: RvResult<()>)
        requires
            old(self).inv(),
        ensures
            final(self).inv(),
            final(self).c == old(self).c,
            (call.has_fmt || call.args@.len() != 1) ==> r is Err,
            (!call.has_fmt && call.args@.len() == 1) ==> match eval_spec(call.args@[0], old(self).vars, old(self).var_buses, *defines, old(self).sim_time) {
                Ok(v) => r is Ok && final(self).assert_total == old(self).assert_total.wrapping_add(1)
                    && final(self).assert_failed == if v == 0 { old(self).assert_failed.wrapping_add(1) } else { old(self).assert_failed }
                    && final(self).out@ == if v == 0 {
                        old(self).out@.push(Out::Stderr(final(self).out@.last()->Stderr_0))
                    } else {
                        old(self).out@
                    } && (v == 0 ==> final(self).out@.last()->Stderr_0@ == old(self).assert_report(line, crate::interp::expr_text(call.args@[0]))),
                Err(m) => r matches Err(e) && e@ == m,
            },
    {
        if call.has_fmt || call.args.len() != 1 {
            return fail(line, own("assert(cond) takes exactly one condition expression"));
        }
        let v = match self.eval_e(&call.args[0], defines) {
            Ok(v) => v,
            Err(x) => return Err(x),
        };
        self.assert_total = self.assert_total.wrapping_add(1);
        if v == 0 {
            self.assert_failed = self.assert_failed.wrapping_add(1);
            let expr = expr_to_string(&call.args[0]);
            let tl = int_str(line as i64);
            if self.json {
                let mut s = own("{\"kind\":\"assert\"");
                self.json_module(&mut s);
                s.append(",\"line\":");
                s.append(tl.as_str());
                s.append(",\"expr\":");
                json_escape_into(expr.as_str(), &mut s);
                s.append("}");
                self.out.push(Out::Stderr(s));
            } else {
                let m = cat4("[assert] line ", tl.as_str(), ": assertion failed: ", expr.as_str());
                self.out.push(Out::Stderr(m));
            }
        }
        Ok(())
    }

    /// `expect(actual, expected)`: counts a check; different values count a failure and
    /// are reported (the run goes on).
    pub fn do_expect(&mut self, line: i32, call: &CallData, defines: &StrMap<i64>) -> (r: RvResult<()>)
        requires
            old(self).inv(),
        ensures
            final(self).inv(),
            final(self).c == old(self).c,
            (call.has_fmt || call.args@.len() != 2) ==> r is Err,
            (!call.has_fmt && call.args@.len() == 2) ==> match (
                eval_spec(call.args@[0], old(self).vars, old(self).var_buses, *defines, old(self).sim_time),
                eval_spec(call.args@[1], old(self).vars, old(self).var_buses, *defines, old(self).sim_time),
            ) {
                (Ok(a), Ok(b)) => r is Ok && final(self).assert_total == old(self).assert_total.wrapping_add(1)
                    && final(self).assert_failed == if a != b { old(self).assert_failed.wrapping_add(1) } else { old(self).assert_failed }
                    && final(self).out@ == if a != b {
                        old(self).out@.push(Out::Stderr(final(self).out@.last()->Stderr_0))
                    } else {
                        old(self).out@
                    } && (a != b ==> final(self).out@.last()->Stderr_0@ == old(self).expect_report(line, crate::interp::expr_text(call.args@[0]), a, b)),
                (Err(m), _) => r matches Err(e) && e@ == m,
                (Ok(_), Err(m)) => r matches Err(e) && e@ == m,
            },
    {
        if call.has_fmt || call.args.len() != 2 {
            return fail(line, own("expect(actual, expected) takes exactly two expressions"));
        }
        let actual = match self.eval_e(&call.args[0], defines) {
            Ok(v) => v,
            Err(x) => return Err(x),
        };
        let expected = match self.eval_e(&call.args[1], defines) {
            Ok(v) => v,
            Err(x) => return Err(x),
        };
        self.assert_total = self.assert_total.wrapping_add(1);
        if actual != expected {
            self.assert_failed = self.assert_failed.wrapping_add(1);
            let expr = expr_to_string(&call.args[0]);
            let tl = int_str(line as i64);
            let ta = int_str(actual);
            let te = int_str(expected);
            if self.json {
                let mut s = own("{\"kind\":\"expect\"");
                self.json_module(&mut s);
                s.append(",\"line\":");
                s.append(tl.as_str());
                s.append(",\"expr\":");
                json_escape_into(expr.as_str(), &mut s);
                s.append(",\"actual\":");
                s.append(ta.as_str());
                s.append(",\"expected\":");
                s.append(te.as_str());
                s.append("}");
                self.out.push(Out::Stderr(s));
            } else {
                let m = cat5("[assert] line ", tl.as_str(), ": expect failed: ", expr.as_str(), " = ");
                let m = cat4(m.as_str(), ta.as_str(), ", expected ", te.as_str());
                self.out.push(Out::Stderr(m));
            }
        }
        Ok(())
    }

    /// Runs every registered monitor.
    pub fn fire_monitors(&mut self, defines: &StrMap<i64>) -> (r: RvResult<()>)
        requires
            old(self).inv(),
        ensures
            final(self).inv(),
            *final(self) == (ModuleExec { out: final(self).out, ..*old(self) }),
            r is Ok ==> final(self).out@.len() == old(self).out@.len() + old(self).mons@.len(),
            (r is Ok) == forall|j: int| 0 <= j < old(self).mons@.len() ==> (#[trigger] old(self).monitor_line(
                old(self).mons@[j].1,
                *defines,
                old(self).mons@[j].0,
            )) is Some,
            r is Ok ==> final(self).out@.subrange(0, old(self).out@.len() as int) == old(self).out@ && forall|j: int|
                0 <= j < old(self).mons@.len() ==> stdout_text(#[trigger] final(self).out@[old(self).out@.len() + j])
                == old(self).monitor_line(old(self).mons@[j].1, *defines, old(self).mons@[j].0),
    {
        let mut i: usize = 0;
        while i < self.mons.len()
            invariant
                self.inv(),
                *self == (ModuleExec { out: self.out, ..*old(self) }),
                i <= self.mons@.len(),
                self.out@.len() == old(self).out@.len() + i,
                self.out@.subrange(0, old(self).out@.len() as int) == old(self).out@,
                forall|j: int| 0 <= j < i ==> (#[trigger] old(self).monitor_line(old(self).mons@[j].1, *defines, old(self).mons@[j].0)) is Some
                    && stdout_text(self.out@[old(self).out@.len() + j]) == old(self).monitor_line(old(self).mons@[j].1, *defines, old(self).mons@[j].0),
            decreases self.mons@.len() - i,
        {
            let line = self.mons[i].0;
            let call = self.mons[i].1.clone();
            let ghost before = *self;
            proof {
                Self::lemma_monitor_line_out(*old(self), before, old(self).mons@[i as int].1, call, *defines, line);
            }
            match self.do_monitor(line, &call, defines) {
                Ok(()) => {},
                Err(x) => return Err(x),
            }
            proof {
                assert forall|j: int| 0 <= j < i + 1 implies (#[trigger] old(self).monitor_line(old(self).mons@[j].1, *defines, old(self).mons@[j].0)) is Some
                    && stdout_text(self.out@[old(self).out@.len() + j]) == old(self).monitor_line(old(self).mons@[j].1, *defines, old(self).mons@[j].0) by {
                    if j < i {
                        assert(self.out@[old(self).out@.len() + j] == before.out@[old(self).out@.len() + j]);
                    }
                }
                assert(self.out@.subrange(0, old(self).out@.len() as int) =~= old(self).out@) by {
                    assert forall|k: int| 0 <= k < old(self).out@.len() implies self.out@[k] == before.out@[k] by {
                        assert(self.out@.drop_last()[k] == before.out@[k]);
                    }
                    assert forall|k: int| 0 <= k < old(self).out@.len() implies before.out@[k] == old(self).out@[k] by {
                        assert(before.out@.subrange(0, old(self).out@.len() as int)[k] == before.out@[k]);
                    }
                }
            }
            i += 1;
        }
        Ok(())
    }

    /// `v = scan(fmt)`: reads the next integer of the input (see `scan_spec`) into scalar
    /// variable `v`, in base 2, 8, 10 or 16 as the format says.
    pub fn do_scan(&mut self, line: i32, target: &BindTarget, bind_args: &Vec<InstArg>, fmt: Option<&str>) -> (r: RvResult<()>)
        requires
            old(self).inv(),
        ensures
            final(self).inv(),
            final(self).c == old(self).c,
            bind_args@.len() > 0 ==> r is Err,
            r is Ok ==> scanned(*old(self), *final(self), *target, match fmt {
                Some(f) => Some(f@),
                None => None,
            }),
            (r is Ok) == (bind_args@.len() == 0 && scan_ok(*old(self), *target, match fmt {
                Some(f) => Some(f@),
                None => None,
            })),
    {
        if bind_args.len() > 0 {
            return fail(line, own("scan() takes no arguments"));
        }
        let name = match target {
            BindTarget::Ref(r) => match r.sel {
                Sel::All => r.name.as_str(),
                _ => {
                    let d = bind_target_desc(target);
                    return fail(line, cat3("scan() cannot target a bus lane/slice or concatenation '", d.as_str(), "'; scan into a scalar var"));
                },
            },
            _ => {
                let d = bind_target_desc(target);
                return fail(line, cat3("scan() cannot target a bus lane/slice or concatenation '", d.as_str(), "'; scan into a scalar var"));
            },
        };
        if self.var_buses.contains_key(name) {
            return fail(line, cat3("scan() cannot target a whole bus var '", name, "'; scan into a scalar var"));
        }
        if !self.vars.contains_key(name) {
            return fail(line, cat2("undeclared variable: ", name));
        }
        let base = match parse_scan_fmt(line, fmt) {
            Ok(b) => b,
            Err(x) => return Err(x),
        };
        let (v, np) = match scan_int(&self.input, self.in_pos, base, line) {
            Ok(p) => p,
            Err(x) => return Err(x),
        };
        self.in_pos = np;
        self.vars.insert(own(name), v);
        Ok(())
    }
}

/// The base a `scan()` format selects (see `parse_scan_fmt`), or `None` for a bad format.
pub open spec fn scan_base(fmt: Option<Seq<char>>) -> Option<u32> {
    match fmt {
        None => Some(10),
        Some(f) => if f == "%"@ {
            Some(10)
        } else if f == "%b"@ {
            Some(2)
        } else if f == "%x"@ {
            Some(16)
        } else if f == "%o"@ {
            Some(8)
        } else {
            None
        },
    }
}

/// `v = scan(fmt)` can run in state `a`: `v` is a declared scalar variable taken whole, the
/// format is valid and the input holds a next integer in its base (see `scan_spec`).
pub open spec fn scan_ok(a: ModuleExec, target: BindTarget, fmt: Option<Seq<char>>) -> bool {
    match (target, scan_base(fmt)) {
        (BindTarget::Ref(r), Some(base)) => {
            &&& r.sel is All
            &&& !a.var_buses.has(r.name@)
            &&& a.vars.has(r.name@)
            &&& scan_spec(a.input@, a.in_pos as int, base) is Ok
        },
        _ => false,
    }
}

/// `v = scan(fmt)` took effect from `a` to `b`: `v` is a declared scalar variable taken
/// whole, the next integer of the input in the format's base (see `scan_spec`) is now its
/// value, the input position moved past it, and nothing else changed.
pub open spec fn scanned(a: ModuleExec, b: ModuleExec, target: BindTarget, fmt: Option<Seq<char>>) -> bool {
    match (target, scan_base(fmt)) {
        (BindTarget::Ref(r), Some(base)) => {
            &&& r.sel is All
            &&& !a.var_buses.has(r.name@)
            &&& a.vars.has(r.name@)
            &&& match scan_spec(a.input@, a.in_pos as int, base) {
                Ok((v, np)) => {
                    &&& b == (ModuleExec { vars: b.vars, in_pos: b.in_pos, ..a })
                    &&& b.in_pos == np
                    &&& b.vars.get_spec(r.name@) == Some(v)
                    &&& forall|q: Seq<char>| q != r.name@ ==> #[trigger] b.vars.get_spec(q) == a.vars.get_spec(q)
                },
                Err(_) => false,
            }
        },
        _ => false,
    }
}

/// Instance `k` exists in the run.
pub open spec fn has_inst(x: ModuleExec, k: Seq<char>) -> bool {
    exists|i: int| 0 <= i < x.insts@.len() && (#[trigger] x.insts@[i]).0@ == k
}

/// The node prefix of an instance key: `#(` (the parameter part) is written `(`, since a
/// name with `#` is hidden from traces.
pub open spec fn key_prefix(k: Seq<char>) -> Seq<char>
    decreases k.len(),
{
    if k.len() == 0 {
        seq![]
    } else if k.len() >= 2 && k[0] == '#' && k[1] == '(' {
        seq!['('] + key_prefix(k.drop_first().drop_first())
    } else {
        seq![k[0]] + key_prefix(k.drop_first())
    }
}

/// The node prefix of an instance key (see `key_prefix`).
pub fn instance_prefix(key: &str) -> (r: String)
    ensures
        r@ == key_prefix(key@),
{
    let n = key.unicode_len();
    let mut out = String::new();
    let mut i: usize = 0;
    proof {
        assert(key@.skip(0) =~= key@);
        assert(out@ + key_prefix(key@.skip(0)) =~= key_prefix(key@));
    }
    while i < n
        invariant
            n == key@.len(),
            i <= n,
            out@ + key_prefix(key@.skip(i as int)) == key_prefix(key@),
        decreases n - i,
    {
        let c = key.get_char(i);
        let ghost rest = key@.skip(i as int);
        let ghost o0 = out@;
        if c == '#' && i + 1 < n && key.get_char(i + 1) == '(' {
            out.append("(");
            proof {
                reveal_strlit("(");
                assert(rest.drop_first().drop_first() =~= key@.skip(i + 2));
                assert(out@ + key_prefix(key@.skip(i + 2)) =~= o0 + key_prefix(rest));
            }
            i += 2;
        } else {
            out.append(char_string(c).as_str());
            proof {
                assert(rest.drop_first() =~= key@.skip(i + 1));
                assert(out@ + key_prefix(key@.skip(i + 1)) =~= o0 + key_prefix(rest));
            }
            i += 1;
        }
    }
    proof {
        assert(key@.skip(n as int) =~= Seq::<char>::empty());
        assert(out@ + Seq::<char>::empty() =~= out@);
    }
    out
}

/// Numbering table invariant: every bound number is below the count of entries, and
/// distinct keys have distinct numbers.
spec fn ids_ok(t: StrMap<usize>) -> bool {
    &&& keys_unique(t.entries@)
    &&& forall|k: Seq<char>| #[trigger] t.get_spec(k) matches Some(x) ==> x < t.entries@.len()
    &&& forall|k1: Seq<char>, k2: Seq<char>|
        #[trigger] t.get_spec(k1) is Some && #[trigger] t.get_spec(k2) is Some && k1 != k2 ==> t.get_spec(k1) != t.get_spec(k2)
}

/// Numbers the distinct strings of `keys` (equal strings get equal numbers).
fn key_ids(keys: &Vec<Vec<String>>) -> (r: Vec<Vec<usize>>)
    ensures
        r@.len() == keys@.len(),
        forall|i: int| 0 <= i < keys@.len() ==> (#[trigger] r@[i])@.len() == keys@[i]@.len(),
        forall|i1: int, j1: int, i2: int, j2: int|
            0 <= i1 < keys@.len() && 0 <= j1 < keys@[i1]@.len() && 0 <= i2 < keys@.len() && 0 <= j2 < keys@[i2]@.len()
                ==> ((#[trigger] r@[i1]@[j1] == #[trigger] r@[i2]@[j2]) <==> keys@[i1]@[j1]@ == keys@[i2]@[j2]@),
{
    let mut table: StrMap<usize> = StrMap::new();
    let mut out: Vec<Vec<usize>> = Vec::new();
    let mut i: usize = 0;
    while i < keys.len()
        invariant
            i <= keys@.len(),
            out@.len() == i,
            ids_ok(table),
            forall|a: int| 0 <= a < i ==> (#[trigger] out@[a])@.len() == keys@[a]@.len(),
            forall|a: int, b: int| 0 <= a < i && 0 <= b < keys@[a]@.len() ==> table.get_spec(keys@[a]@[b]@) == Some(
                #[trigger] out@[a]@[b],
            ),
        decreases keys@.len() - i,
    {
        let mut ids: Vec<usize> = Vec::new();
        let mut j: usize = 0;
        while j < keys[i].len()
            invariant
                i < keys@.len(),
                j <= keys@[i as int]@.len(),
                ids@.len() == j,
                out@.len() == i,
                ids_ok(table),
                forall|a: int, b: int| 0 <= a < i && 0 <= b < keys@[a]@.len() ==> table.get_spec(keys@[a]@[b]@) == Some(
                    #[trigger] out@[a]@[b],
                ),
                forall|b: int| 0 <= b < j ==> table.get_spec(keys@[i as int]@[b]@) == Some(#[trigger] ids@[b]),
            decreases keys@[i as int]@.len() - j,
        {
            let k = keys[i][j].as_str();
            let ghost t0 = table;
            let id = match table.get(k) {
                Some(x) => *x,
                None => {
                    let x = table.len();
                    table.insert(own(k), x);
                    proof {
                        assert forall|q: Seq<char>| #[trigger] table.get_spec(q) is Some implies table.get_spec(q)->Some_0 < table.entries@.len() by {
                            if q != k@ {
                                assert(t0.get_spec(q) == table.get_spec(q));
                            }
                        }
                        assert forall|k1: Seq<char>, k2: Seq<char>|
                            #[trigger] table.get_spec(k1) is Some && #[trigger] table.get_spec(k2) is Some && k1 != k2 implies table.get_spec(k1)
                            != table.get_spec(k2) by {
                            if k1 != k@ && k2 != k@ {
                                assert(t0.get_spec(k1) != t0.get_spec(k2));
                            } else if k1 == k@ {
                                assert(t0.get_spec(k2) is Some);
                                assert(t0.get_spec(k2)->Some_0 < t0.entries@.len());
                            } else {
                                assert(t0.get_spec(k1) is Some);
                                assert(t0.get_spec(k1)->Some_0 < t0.entries@.len());
                            }
                        }
                        assert forall|a: int, b: int| 0 <= a < i && 0 <= b < keys@[a]@.len() implies table.get_spec(keys@[a]@[b]@)
                            == Some(#[trigger] out@[a]@[b]) by {
                            assert(t0.get_spec(keys@[a]@[b]@) == Some(out@[a]@[b]));
                        }
                        assert forall|b: int| 0 <= b < j implies table.get_spec(keys@[i as int]@[b]@) == Some(#[trigger] ids@[b]) by {
                            assert(t0.get_spec(keys@[i as int]@[b]@) == Some(ids@[b]));
                        }
                    }
                    x
                },
            };
            ids.push(id);
            j += 1;
        }
        let ghost o0 = out@;
        out.push(ids);
        proof {
            assert forall|a: int, b: int| 0 <= a < i + 1 && 0 <= b < keys@[a]@.len() implies table.get_spec(keys@[a]@[b]@) == Some(
                #[trigger] out@[a]@[b],
            ) by {
                if a < i {
                    assert(out@[a] == o0[a]);
                }
            }
            assert forall|a: int| 0 <= a < i + 1 implies (#[trigger] out@[a])@.len() == keys@[a]@.len() by {
                if a < i {
                    assert(out@[a] == o0[a]);
                }
            }
        }
        i += 1;
    }
    proof {
        assert forall|i1: int, j1: int, i2: int, j2: int|
            0 <= i1 < keys@.len() && 0 <= j1 < keys@[i1]@.len() && 0 <= i2 < keys@.len() && 0 <= j2 < keys@[i2]@.len()
                implies ((#[trigger] out@[i1]@[j1] == #[trigger] out@[i2]@[j2]) <==> keys@[i1]@[j1]@ == keys@[i2]@[j2]@) by {
            assert(table.get_spec(keys@[i1]@[j1]@) == Some(out@[i1]@[j1]));
            assert(table.get_spec(keys@[i2]@[j2]@) == Some(out@[i2]@[j2]));
        }
    }
    out
}

/// Strings joined with `,`.
fn join_commas(v: &Vec<String>) -> (r: String)
    ensures
        r@ == crate::interp::join(strs_view(v@), ","@),
{
    let mut s = String::new();
    let mut i: usize = 0;
    while i < v.len()
        invariant
            i <= v@.len(),
            s@ == crate::interp::join(strs_view(v@.subrange(0, i as int)), ","@),
        decreases v@.len() - i,
    {
        let ghost s0 = s@;
        if i > 0 {
            s.append(",");
        }
        s.append(v[i].as_str());
        proof {
            let p = strs_view(v@.subrange(0, i + 1));
            assert(p.drop_last() =~= strs_view(v@.subrange(0, i as int)));
            assert(p.last() == v@[i as int]@);
            if i == 0 {
                assert(s@ =~= crate::interp::join(p, ","@));
            } else {
                assert(s@ =~= crate::interp::join(p, ","@));
            }
        }
        i += 1;
    }
    proof {
        assert(v@.subrange(0, v@.len() as int) =~= v@);
    }
    s
}

impl ModuleExec {
    /// The instance key of one argument of a testbench binding: a variable (with its lane
    /// selection), a concatenation `{a,b}` (a single part stands alone), or a nested call,
    /// which is instantiated first and gives its own key.
    fn arg_key(&mut self, prog: &Program, line: i32, a: &InstArg) -> (r: RvResult<String>)
        requires
            old(self).inv(),
            logics_ok(prog.logics),
        ensures
            final(self).inv(),
            final(self).vars == old(self).vars,
            final(self).var_buses == old(self).var_buses,
            forall|k: Seq<char>| has_inst(*old(self), k) ==> has_inst(*final(self), k),
            final(self).c.cfg == old(self).c.cfg,
            (a is Call && r is Ok) ==> has_inst(*final(self), r->Ok_0@),
            !(a is Call) ==> *final(self) == *old(self),
            a matches InstArg::Name { name, sel } ==> match crate::interp::arg_key_text(name@, *sel, prog.defines.entries@, line) {
                Ok(t) => r matches Ok(s) && s@ == t,
                Err(x) => r matches Err(e) && e@ == x,
            },
            a matches InstArg::Call { line: cl, callee, .. } ==> (callee@ == "scan"@ ==> (r matches Err(e) && e.line == cl)),
        decreases a, 0int,
    {
        match a {
            InstArg::Name { name, sel } => sim_arg_key(name.as_str(), sel, &prog.defines, line),
            InstArg::Concat(parts) => {
                let mut ks: Vec<String> = Vec::new();
                let mut i: usize = 0;
                while i < parts.len()
                    invariant
                        self.vars == old(self).vars,
                        self.var_buses == old(self).var_buses,
                        i <= parts@.len(),
                        ks@.len() == i,
                        *self == *old(self),
                        self.inv(),
                        a is Concat,
                    decreases parts@.len() - i,
                {
                    let k = match sim_arg_key(parts[i].name.as_str(), &parts[i].sel, &prog.defines, line) {
                        Ok(k) => k,
                        Err(x) => return Err(x),
                    };
                    ks.push(k);
                    i += 1;
                }
                if ks.len() == 1 {
                    Ok(ks[0].clone())
                } else {
                    let j = join_commas(&ks);
                    Ok(cat3("{", j.as_str(), "}"))
                }
            },
            InstArg::Call { line: cl, callee, params, args } => {
                if str_eq(callee.as_str(), "scan") {
                    return fail(*cl, own("scan() cannot be nested in a logic call argument"));
                }
                self.ensure_instance(prog, *cl, callee.as_str(), args, params)
            },
        }
    }

    /// The instance of `callee` with these arguments and `#(...)` parameters, created
    /// (elaborated at top level under a prefix made from its key, with its inputs bound to
    /// the argument variables lane by lane, or linked from nested instances) unless it
    /// exists; returns its key `callee#(P=v)(args)`. The same call shares one instance.
    pub fn ensure_instance(
        &mut self,
        prog: &Program,
        line: i32,
        callee: &str,
        bind_args: &Vec<InstArg>,
        call_params: &Vec<(String, Expr)>,
    ) -> (r: RvResult<String>)
        requires
            old(self).inv(),
            logics_ok(prog.logics),
        ensures
            final(self).inv(),
            final(self).vars == old(self).vars,
            final(self).var_buses == old(self).var_buses,
            forall|k: Seq<char>| has_inst(*old(self), k) ==> has_inst(*final(self), k),
            final(self).c.cfg == old(self).c.cfg,
            r matches Ok(k) ==> has_inst(*final(self), k@),
            ((prog.logics.get_spec(callee@) matches Some(d) && d.params@.len() == 0) && call_params@.len() == 0 && (name_arg_keys(
                bind_args@, bind_args@.len() as int, prog.defines.entries@, line) matches Some(ks) && has_inst(*old(self), callee@ + "("@
                + crate::interp::join(ks, ","@) + ")"@))) ==> (r matches Ok(k) && k@ == callee@ + "("@
                + crate::interp::join(name_arg_keys(bind_args@, bind_args@.len() as int, prog.defines.entries@, line)->Some_0, ","@) + ")"@)
                && *final(self) == *old(self),
            ((prog.logics.get_spec(callee@) matches Some(d) && d.params@.len() == 0) && call_params@.len() == 0 && name_arg_keys(
                bind_args@, bind_args@.len() as int, prog.defines.entries@, line) is Some) ==> (r matches Ok(k) ==> k@ == callee@ + "("@
                + crate::interp::join(name_arg_keys(bind_args@, bind_args@.len() as int, prog.defines.entries@, line)->Some_0, ","@) + ")"@),
            (prog.logics.get_spec(callee@) is Some && name_arg_keys(bind_args@, bind_args@.len() as int, prog.defines.entries@, line)
                is Some) ==> (r matches Ok(k) ==> k@ == callee@ + crate::interp::param_key(prog.logics.get_spec(callee@)->Some_0.params@,
                call_params@, prog.defines.entries@, line)
                + "("@ + crate::interp::join(name_arg_keys(bind_args@, bind_args@.len() as int, prog.defines.entries@, line)->Some_0, ","@)
                + ")"@),
            (call_key(*prog, callee@, bind_args@, call_params@, line) is Some && has_inst(*old(self), call_key(*prog, callee@, bind_args@, call_params@, line)->Some_0))
                ==> (r matches Ok(k) && k@ == call_key(*prog, callee@, bind_args@, call_params@, line)->Some_0) && *final(self) == *old(self),
        decreases bind_args, 1int,
    {
        let ghost hyp = (((prog.logics.get_spec(callee@) matches Some(d) && d.params@.len() == 0) && call_params@.len() == 0 && (name_arg_keys(
                bind_args@, bind_args@.len() as int, prog.defines.entries@, line) matches Some(ks) && has_inst(*old(self), callee@ + "("@
                + crate::interp::join(ks, ","@) + ")"@))) || (call_key(*prog, callee@, bind_args@, call_params@, line) is Some && has_inst(*old(self), call_key(*prog, callee@, bind_args@, call_params@, line)->Some_0)));
        let lit = match lookup_logic(&prog.logics, callee, line) {
            Ok(l) => l,
            Err(x) => return Err(x),
        };
        let caller_env: StrMap<i64> = StrMap::new();
        proof {
            assert(caller_env.entries@ =~= seq![]);
            assert(prog.logics.get_spec(callee@) == Some(*lit));
            assert(crate::parser::logic_def_ok(*lit));
        }
        let env = match build_callee_param_env(callee, &lit.params, call_params, &caller_env, &prog.defines, line) {
            Ok(e) => e,
            Err(x) => return Err(x),
        };
        let param_part = param_env_key(&lit.params, &env);
        proof {
            assert forall|k: int| 0 <= k < lit.params@.len() implies #[trigger] env.get_spec(lit.params@[k].0@) == crate::interp::bound_param(
                lit.params@,
                k,
                call_params@,
                prog.defines.entries@,
                line,
            ) by {
                let p = lit.params@[k];
                assert(crate::parser::decl_params_distinct(lit.params@));
                if let Some(j) = crate::interp::find_actual(call_params@, p.0@) {
                    assert(crate::interp::width_eval(call_params@[j].1, caller_env.entries@, prog.defines.entries@, line) == Ok::<
                        i64,
                        ErrSpec,
                    >(env.get_spec(p.0@).unwrap()));
                }
            }
            crate::interp::lemma_env_items_bound(lit.params@, call_params@, env, prog.defines.entries@, line, lit.params@.len() as int);
            assert(lit.params@.subrange(0, lit.params@.len() as int) =~= lit.params@);
            assert(param_part@ == crate::interp::param_key(lit.params@, call_params@, prog.defines.entries@, line));
        }
        let mut arg_keys: Vec<String> = Vec::new();
        let mut i: usize = 0;
        let ghost nk = name_arg_keys(bind_args@, bind_args@.len() as int, prog.defines.entries@, line) is Some;
        while i < bind_args.len()
            invariant
                bind_args@.len() == 0 ==> *self == *old(self),
                nk == (name_arg_keys(bind_args@, bind_args@.len() as int, prog.defines.entries@, line) is Some),
                nk ==> *self == *old(self) && name_arg_keys(bind_args@, i as int, prog.defines.entries@, line) == Some(strs_view(arg_keys@)),
                self.vars == old(self).vars,
                self.var_buses == old(self).var_buses,
                i <= bind_args@.len(),
                arg_keys@.len() == i,
                self.inv(),
                logics_ok(prog.logics),
                forall|k: Seq<char>| has_inst(*old(self), k) ==> has_inst(*self, k),
                self.c.cfg == old(self).c.cfg,
                forall|j: int| 0 <= j < i ==> ((#[trigger] bind_args@[j]) matches InstArg::Call { .. } ==> has_inst(*self, arg_keys@[j]@)),
            decreases bind_args@.len() - i,
        {
            proof {
                assert(decreases_to!(bind_args => bind_args@[i as int]));
            }
            let ghost before = *self;
            proof {
                if nk {
                    lemma_name_arg_keys_prefix(bind_args@, bind_args@.len() as int, i + 1, prog.defines.entries@, line);
                }
            }
            let ghost ak0 = arg_keys@;
            let k = match self.arg_key(prog, line, &bind_args[i]) {
                Ok(k) => k,
                Err(x) => return Err(x),
            };
            arg_keys.push(k);
            proof {
                if nk {
                    assert(strs_view(arg_keys@) =~= strs_view(ak0).push(k@));
                }
                assert forall|j: int| 0 <= j < i + 1 implies ((#[trigger] bind_args@[j]) matches InstArg::Call { .. } ==> has_inst(*self, arg_keys@[j]@)) by {
                    if j < i {
                        if bind_args@[j] is Call {
                            assert(has_inst(before, arg_keys@[j]@));
                        }
                    }
                }
            }
            i += 1;
        }
        let aj = join_commas(&arg_keys);
        let key = cat5(callee, param_part.as_str(), "(", aj.as_str(), ")");
        proof {
            if nk && lit.params@.len() == 0 {
                assert(key@ =~= callee@ + "("@ + crate::interp::join(strs_view(arg_keys@), ","@) + ")"@);
            }
        }
        let ghost key_named = (nk && lit.params@.len() == 0) ==> key@ == callee@ + "("@ + crate::interp::join(
            name_arg_keys(bind_args@, bind_args@.len() as int, prog.defines.entries@, line)->Some_0, ","@) + ")"@;
        assert(key_named);
        proof {
            if nk {
                assert(key@ =~= callee@ + crate::interp::param_key(lit.params@, call_params@, prog.defines.entries@, line) + "("@
                    + crate::interp::join(strs_view(arg_keys@), ","@) + ")"@);
            }
        }
        if self.inst_index(key.as_str()).is_some() {
            proof {
                let ix = choose|ix: int| 0 <= ix < self.insts@.len() && self.insts@[ix].0@ == key@;
            }
            return Ok(key);
        }
        assert(!hyp);
        let ghost ins0 = self.insts;
        let ghost snap = *self;
        let mut i: usize = 0;
        while i < bind_args.len()
            invariant
                !hyp,
                hyp == (((prog.logics.get_spec(callee@) matches Some(d) && d.params@.len() == 0) && call_params@.len() == 0 && (name_arg_keys(
                bind_args@, bind_args@.len() as int, prog.defines.entries@, line) matches Some(ks) && has_inst(*old(self), callee@ + "("@
                + crate::interp::join(ks, ","@) + ")"@))) || (call_key(*prog, callee@, bind_args@, call_params@, line) is Some && has_inst(*old(self), call_key(*prog, callee@, bind_args@, call_params@, line)->Some_0))),
                self.vars == old(self).vars,
                self.var_buses == old(self).var_buses,
                i <= bind_args@.len(),
                *self == snap,
                self.inv(),
                self.c.cfg == old(self).c.cfg,
                forall|k: Seq<char>| has_inst(*old(self), k) ==> has_inst(*self, k),
            decreases bind_args@.len() - i,
        {
            let refs: Vec<BindRef> = match &bind_args[i] {
                InstArg::Name { name, sel } => {
                    let mut v: Vec<BindRef> = Vec::new();
                    v.push(BindRef { name: name.clone(), sel: sel.clone() });
                    v
                },
                InstArg::Concat(parts) => crate::ast::clone_refs(parts),
                InstArg::Call { .. } => Vec::new(),
            };
            let mut j: usize = 0;
            while j < refs.len()
                invariant
                    !hyp,
                    hyp == (((prog.logics.get_spec(callee@) matches Some(d) && d.params@.len() == 0) && call_params@.len() == 0 && (name_arg_keys(
                bind_args@, bind_args@.len() as int, prog.defines.entries@, line) matches Some(ks) && has_inst(*old(self), callee@ + "("@
                + crate::interp::join(ks, ","@) + ")"@))) || (call_key(*prog, callee@, bind_args@, call_params@, line) is Some && has_inst(*old(self), call_key(*prog, callee@, bind_args@, call_params@, line)->Some_0))),
                    self.vars == old(self).vars,
                    self.var_buses == old(self).var_buses,
                    j <= refs@.len(),
                    *self == snap,
                    self.inv(),
                    self.c.cfg == old(self).c.cfg,
                    forall|k: Seq<char>| has_inst(*old(self), k) ==> has_inst(*self, k),
                decreases refs@.len() - j,
            {
                let n = refs[j].name.as_str();
                if !self.vars.contains_key(n) && !self.var_buses.contains_key(n) {
                    return fail(line, cat2("undeclared variable passed to logic: ", n));
                }
                let all = match refs[j].sel {
                    Sel::All => true,
                    _ => false,
                };
                if !all && !self.var_buses.contains_key(n) {
                    return fail(line, cat3("'", n, "' is not a bus var; cannot index it"));
                }
                j += 1;
            }
            i += 1;
        }
        let prefix = instance_prefix(key.as_str());
        proof {
            assert(prog.logics.get_spec(callee@) == Some(*lit));
        }
        let res = self.elaborate_top(prog, lit, prefix.as_str(), line, bind_args.len(), env);
        let (inputs, outputs) = match res {
            Ok(p) => p,
            Err(x) => return Err(x),
        };
        match require_output_ports(callee, outputs.len(), line) {
            Ok(()) => {},
            Err(x) => return Err(x),
        }
        let mut in_vars: Vec<String> = Vec::new();
        let mut in_nodes: Vec<usize> = Vec::new();
        let mut i: usize = 0;
        while i < bind_args.len() && i < inputs.len()
            invariant
                !hyp,
                hyp == (((prog.logics.get_spec(callee@) matches Some(d) && d.params@.len() == 0) && call_params@.len() == 0 && (name_arg_keys(
                bind_args@, bind_args@.len() as int, prog.defines.entries@, line) matches Some(ks) && has_inst(*old(self), callee@ + "("@
                + crate::interp::join(ks, ","@) + ")"@))) || (call_key(*prog, callee@, bind_args@, call_params@, line) is Some && has_inst(*old(self), call_key(*prog, callee@, bind_args@, call_params@, line)->Some_0))),
                self.vars == old(self).vars,
                self.var_buses == old(self).var_buses,
                i <= bind_args@.len(),
                self.insts == ins0,
                !has_inst(*self, key@),
                self.inv(),
                self.c.cfg == old(self).c.cfg,
                forall|k: Seq<char>| has_inst(*old(self), k) ==> has_inst(*self, k),
                forall|j: int| 0 <= j < bind_args@.len() ==> ((#[trigger] bind_args@[j]) matches InstArg::Call { .. } ==> has_inst(*self, arg_keys@[j]@)),
                arg_keys@.len() == bind_args@.len(),
                ports_fit(inputs@, outputs@, self.c.nodes@.len()),
                in_vars@.len() == in_nodes@.len(),
                crate::interp::lanes_ok(in_nodes@, self.c.nodes@.len()),
            decreases bind_args@.len() - i,
        {
            let pname = inputs[i].0.as_str();
            let lanes = inputs[i].1.lanes();
            assert(shape_ok(inputs@[i as int].1, self.c.nodes@.len()));
            assert(crate::interp::lanes_ok(lanes@, self.c.nodes@.len()));
            match &bind_args[i] {
                InstArg::Name { name, sel } => match self.bus_width(name.as_str()) {
                    Some(w) => {
                        let wu: usize = if w < 0 { 0 } else { w as usize };
                        let idxs = match sel_lane_indices(sel, wu, name.as_str(), &prog.defines, line) {
                            Ok(v) => v,
                            Err(x) => return Err(x),
                        };
                        if lanes.len() != idxs.len() {
                            let what = match sel {
                                Sel::All => {
                                    let tw = int_str(w as i64);
                                    cat5("argument '", name.as_str(), "' (bus var width ", tw.as_str(), ")")
                                },
                                _ => {
                                    let ss = sel_suffix(sel);
                                    let tl = format_uint(idxs.len() as u64, 10);
                                    let m = cat4("argument '", name.as_str(), ss.as_str(), "' (width ");
                                    cat3(m.as_str(), tl.as_str(), ")")
                                },
                            };
                            let tp = format_uint(lanes.len() as u64, 10);
                            let m = cat5(what.as_str(), " does not match ", callee, " input port '", pname);
                            return fail(line, cat4(m.as_str(), "' (width ", tp.as_str(), ")"));
                        }
                        let ghost snap = *self;
                        let mut j: usize = 0;
                        while j < lanes.len()
                            invariant
                                !hyp,
                                hyp == (((prog.logics.get_spec(callee@) matches Some(d) && d.params@.len() == 0) && call_params@.len() == 0 && (name_arg_keys(
                bind_args@, bind_args@.len() as int, prog.defines.entries@, line) matches Some(ks) && has_inst(*old(self), callee@ + "("@
                + crate::interp::join(ks, ","@) + ")"@))) || (call_key(*prog, callee@, bind_args@, call_params@, line) is Some && has_inst(*old(self), call_key(*prog, callee@, bind_args@, call_params@, line)->Some_0))),
                                self.vars == old(self).vars,
                                self.var_buses == old(self).var_buses,
                                *self == snap,
                                self.inv(),
                                self.c.cfg == old(self).c.cfg,
                                forall|k: Seq<char>| has_inst(*old(self), k) ==> has_inst(*self, k),
                                j <= lanes@.len(),
                                lanes@.len() == idxs@.len(),
                                crate::interp::lanes_ok(lanes@, self.c.nodes@.len()),
                                in_vars@.len() == in_nodes@.len(),
                                crate::interp::lanes_ok(in_nodes@, self.c.nodes@.len()),
                            decreases lanes@.len() - j,
                        {
                            in_vars.push(lane_key(name.as_str(), idxs[j] as i64));
                            in_nodes.push(lanes[j]);
                            j += 1;
                        }
                    },
                    None => {
                        if lanes.len() != 1 {
                            let tp = format_uint(lanes.len() as u64, 10);
                            let m = cat5("argument '", name.as_str(), "' is a scalar var but ", callee, " input port '");
                            return fail(line, cat5(m.as_str(), pname, "' is a bus (width ", tp.as_str(), ")"));
                        }
                        in_vars.push(name.clone());
                        in_nodes.push(lanes[0]);
                    },
                },
                InstArg::Concat(parts) => {
                    let mut keys: Vec<String> = Vec::new();
                    let ghost snap = *self;
                    let mut q: usize = 0;
                    while q < parts.len()
                        invariant
                            !hyp,
                            hyp == (((prog.logics.get_spec(callee@) matches Some(d) && d.params@.len() == 0) && call_params@.len() == 0 && (name_arg_keys(
                bind_args@, bind_args@.len() as int, prog.defines.entries@, line) matches Some(ks) && has_inst(*old(self), callee@ + "("@
                + crate::interp::join(ks, ","@) + ")"@))) || (call_key(*prog, callee@, bind_args@, call_params@, line) is Some && has_inst(*old(self), call_key(*prog, callee@, bind_args@, call_params@, line)->Some_0))),
                            self.vars == old(self).vars,
                            self.var_buses == old(self).var_buses,
                            *self == snap,
                            self.inv(),
                            self.c.cfg == old(self).c.cfg,
                            forall|k: Seq<char>| has_inst(*old(self), k) ==> has_inst(*self, k),
                            q <= parts@.len(),
                        decreases parts@.len() - q,
                    {
                        let r = &parts[q];
                        match self.bus_width(r.name.as_str()) {
                            Some(w) => {
                                let wu: usize = if w < 0 { 0 } else { w as usize };
                                let idxs = match sel_lane_indices(&r.sel, wu, r.name.as_str(), &prog.defines, line) {
                                    Ok(v) => v,
                                    Err(x) => return Err(x),
                                };
                                let mut j: usize = 0;
                                while j < idxs.len()
                                    invariant
                                        !hyp,
                                        hyp == (((prog.logics.get_spec(callee@) matches Some(d) && d.params@.len() == 0) && call_params@.len() == 0 && (name_arg_keys(
                bind_args@, bind_args@.len() as int, prog.defines.entries@, line) matches Some(ks) && has_inst(*old(self), callee@ + "("@
                + crate::interp::join(ks, ","@) + ")"@))) || (call_key(*prog, callee@, bind_args@, call_params@, line) is Some && has_inst(*old(self), call_key(*prog, callee@, bind_args@, call_params@, line)->Some_0))),
                                        self.vars == old(self).vars,
                                        self.var_buses == old(self).var_buses,
                                        *self == snap,
                                        self.inv(),
                                        self.c.cfg == old(self).c.cfg,
                                        forall|k: Seq<char>| has_inst(*old(self), k) ==> has_inst(*self, k),
                                        j <= idxs@.len(),
                                    decreases idxs@.len() - j,
                                {
                                    keys.push(lane_key(r.name.as_str(), idxs[j] as i64));
                                    j += 1;
                                }
                            },
                            None => keys.push(r.name.clone()),
                        }
                        q += 1;
                    }
                    if lanes.len() != keys.len() {
                        let d = concat_desc(parts);
                        let tk = format_uint(keys.len() as u64, 10);
                        let tp = format_uint(lanes.len() as u64, 10);
                        let m = cat5("argument '", d.as_str(), "' (width ", tk.as_str(), ") does not match ");
                        let m = cat5(m.as_str(), callee, " input port '", pname, "' (width ");
                        return fail(line, cat3(m.as_str(), tp.as_str(), ")"));
                    }
                    let mut j: usize = 0;
                    while j < lanes.len()
                        invariant
                            !hyp,
                            hyp == (((prog.logics.get_spec(callee@) matches Some(d) && d.params@.len() == 0) && call_params@.len() == 0 && (name_arg_keys(
                bind_args@, bind_args@.len() as int, prog.defines.entries@, line) matches Some(ks) && has_inst(*old(self), callee@ + "("@
                + crate::interp::join(ks, ","@) + ")"@))) || (call_key(*prog, callee@, bind_args@, call_params@, line) is Some && has_inst(*old(self), call_key(*prog, callee@, bind_args@, call_params@, line)->Some_0))),
                            self.vars == old(self).vars,
                            self.var_buses == old(self).var_buses,
                            *self == snap,
                            self.inv(),
                            self.c.cfg == old(self).c.cfg,
                            forall|k: Seq<char>| has_inst(*old(self), k) ==> has_inst(*self, k),
                            j <= lanes@.len(),
                            lanes@.len() == keys@.len(),
                            crate::interp::lanes_ok(lanes@, self.c.nodes@.len()),
                            in_vars@.len() == in_nodes@.len(),
                            crate::interp::lanes_ok(in_nodes@, self.c.nodes@.len()),
                        decreases lanes@.len() - j,
                    {
                        in_vars.push(keys[j].clone());
                        in_nodes.push(lanes[j]);
                        j += 1;
                    }
                },
                InstArg::Call { line: cl, callee: sub, .. } => {
                    assert(has_inst(*self, arg_keys@[i as int]@));
                    let ix = match self.inst_index(arg_keys[i].as_str()) {
                        Some(ix) => ix,
                        None => {
                            proof {
                                let w = choose|w: int| 0 <= w < self.insts@.len() && (#[trigger] self.insts@[w]).0@ == arg_keys@[i as int]@;
                            }
                            return fail(*cl, own("nested instance missing"));
                        },
                    };
                    assert(inst_ok(self.insts@[ix as int].1, self.c.nodes@.len()));
                    let sub_out = &self.insts[ix].1.out_ports;
                    match require_single_output(sub.as_str(), sub_out.len(), *cl) {
                        Ok(()) => {},
                        Err(x) => return Err(x),
                    }
                    let src = PortShape::Bus(sub_out[0].clone());
                    let ctx = cat4(callee, " input port '", pname, "'");
                    let ghost n0 = self.c.nodes@.len();
                    let ghost before = *self;
                    match connect_ports(&mut self.c, &src, &inputs[i].1, ctx.as_str(), *cl) {
                        Ok(()) => {},
                        Err(x) => {
                            proof {
                                lemma_inv_nodes_same(self, n0);
                            }
                            return Err(x);
                        },
                    }
                    proof {
                        lemma_inv_nodes_same(self, n0);
                        assert forall|k: Seq<char>| has_inst(before, k) implies has_inst(*self, k) by {
                            let w = choose|w: int| 0 <= w < before.insts@.len() && (#[trigger] before.insts@[w]).0@ == k;
                            assert(self.insts@[w].0@ == k);
                        }
                    }
                },
            }
            i += 1;
        }
        let mut out_ports: Vec<Vec<usize>> = Vec::new();
        let mut i: usize = 0;
        while i < outputs.len()
            invariant
                !hyp,
                hyp == (((prog.logics.get_spec(callee@) matches Some(d) && d.params@.len() == 0) && call_params@.len() == 0 && (name_arg_keys(
                bind_args@, bind_args@.len() as int, prog.defines.entries@, line) matches Some(ks) && has_inst(*old(self), callee@ + "("@
                + crate::interp::join(ks, ","@) + ")"@))) || (call_key(*prog, callee@, bind_args@, call_params@, line) is Some && has_inst(*old(self), call_key(*prog, callee@, bind_args@, call_params@, line)->Some_0))),
                self.vars == old(self).vars,
                self.var_buses == old(self).var_buses,
                i <= outputs@.len(),
                out_ports@.len() == i,
                ports_fit(inputs@, outputs@, self.c.nodes@.len()),
                forall|p: int| 0 <= p < i ==> crate::interp::lanes_ok(#[trigger] out_ports@[p]@, self.c.nodes@.len()),
            decreases outputs@.len() - i,
        {
            assert(shape_ok(outputs@[i as int].1, self.c.nodes@.len()));
            let ghost v0 = out_ports@;
            out_ports.push(outputs[i].1.lanes());
            proof {
                assert forall|p: int| 0 <= p < i + 1 implies crate::interp::lanes_ok(#[trigger] out_ports@[p]@, self.c.nodes@.len()) by {
                    if p < i {
                        assert(out_ports@[p] == v0[p]);
                    }
                }
            }
            i += 1;
        }
        proof {
            assert(inst_ok(Instance { in_vars, in_nodes, out_ports }, self.c.nodes@.len()));
        }
        self.add_inst(key.clone(), Instance { in_vars, in_nodes, out_ports });
        Ok(key)
    }

    /// Elaborates `lit` at top level into this run's circuit (the logics already linted
    /// are kept across instances), recording the elaboration's warnings.
    fn elaborate_top(
        &mut self,
        prog: &Program,
        lit: &LogicDef,
        prefix: &str,
        line: i32,
        arg_count: usize,
        env: StrMap<i64>,
    ) -> (r: RvResult<(Ports, Ports)>)
        requires
            old(self).inv(),
            logics_ok(prog.logics),
            prog.logics.get_spec(lit.name@) == Some(*lit),
        ensures
            final(self).inv(),
            final(self).vars == old(self).vars,
            final(self).var_buses == old(self).var_buses,
            final(self).c.nodes@.len() >= old(self).c.nodes@.len(),
            final(self).insts == old(self).insts,
            final(self).c.cfg == old(self).c.cfg,
            r matches Ok(p) ==> ports_fit(p.0@, p.1@, final(self).c.nodes@.len()) && p.0@.len() == arg_count,
            (lit.ports@.len() == 0 && lit.stmts@.len() == 0 && arg_count == 0) ==> r is Ok,
    {
        let ghost before = *self;
        let cfg = self.c.cfg;
        let mut c = Circuit::new(cfg);
        std::mem::swap(&mut c, &mut self.c);
        let mut linted = StrSet::new();
        std::mem::swap(&mut linted, &mut self.linted_logics);
        let ghost n0 = c.nodes@.len();
        let mut el = Elaborator::new(c, linted);
        proof {
            assert(strs_view(el.stack@) =~= Seq::<Seq<char>>::empty());
        }
        let res = el.elaborate(&prog.logics, &prog.defines, lit, prefix, true, line, arg_count, env);
        std::mem::swap(&mut self.c, &mut el.c);
        std::mem::swap(&mut self.linted_logics, &mut el.linted);
        proof {
            lemma_inv_grow(&before, self);
        }
        let mut k: usize = 0;
        while k < el.warnings.len()
            invariant
                self.vars == old(self).vars,
                self.var_buses == old(self).var_buses,
                k <= el.warnings@.len(),
                self.inv(),
                self.c.nodes@.len() >= before.c.nodes@.len(),
                self.insts == before.insts,
                self.c.cfg == before.c.cfg,
                res matches Ok(p) ==> ports_fit(p.0@, p.1@, self.c.nodes@.len()) && p.0@.len() == arg_count,
                (lit.ports@.len() == 0 && lit.stmts@.len() == 0 && arg_count == 0) ==> res is Ok,
            decreases el.warnings@.len() - k,
        {
            self.out.push(Out::Warn(el.warnings[k].clone()));
            k += 1;
        }
        res
    }
}

/// The run's invariant holds after the circuit grew.
proof fn lemma_inv_grow(a: &ModuleExec, b: &ModuleExec)
    requires
        a.inv(),
        b.c.wf(),
        b.c.nodes@.len() >= a.c.nodes@.len(),
        b.insts == a.insts,
        b.out_bind == a.out_bind,
        b.vcd == a.vcd,
        b.in_pos == a.in_pos,
        b.input == a.input,
        b.pulses == a.pulses,
        b.clocks == a.clocks,
    ensures
        b.inv(),
{
    let n = b.c.nodes@.len();
    assert forall|i: int| 0 <= i < b.insts@.len() implies inst_ok((#[trigger] b.insts@[i]).1, n) by {
        let x = b.insts@[i].1;
        assert(inst_ok(a.insts@[i].1, a.c.nodes@.len()));
        assert forall|k: int| 0 <= k < x.in_nodes@.len() implies #[trigger] x.in_nodes@[k] < n by {}
        assert forall|p: int| 0 <= p < x.out_ports@.len() implies crate::interp::lanes_ok(#[trigger] x.out_ports@[p]@, n) by {
            assert(crate::interp::lanes_ok(x.out_ports@[p]@, a.c.nodes@.len()));
            assert forall|q: int| 0 <= q < x.out_ports@[p]@.len() implies #[trigger] x.out_ports@[p]@[q] < n by {}
        }
    }
    assert forall|k: Seq<char>| #[trigger] b.out_bind.get_spec(k) matches Some(x) ==> x < n by {
        assert(a.out_bind.get_spec(k) == b.out_bind.get_spec(k));
    }
}

/// The lanes of `0..w` that `sel` picks, or `None` where the selection is out of range or
/// its index does not evaluate (see `sel_lane_indices`).
pub open spec fn sel_picks(sel: Sel, w: int, defines: Seq<(String, i64)>, line: i32) -> Option<Seq<usize>> {
    let all = Seq::new(w as nat, |i: int| i as usize);
    match sel {
        Sel::All => Some(all),
        Sel::Lane(ie) => match crate::interp::idx_val(ie, seq![], defines, line) {
            Ok(k) => if 0 <= k < w {
                Some(seq![k as usize])
            } else {
                None
            },
            Err(_) => None,
        },
        Sel::Slice(hie, loe) => match (
            crate::interp::idx_val(hie, seq![], defines, line),
            crate::interp::idx_val(loe, seq![], defines, line),
        ) {
            (Ok(hi), Ok(lo)) => if 0 <= hi < w && 0 <= lo < w {
                Some(crate::interp::slice_lanes(all, hi as int, lo as int))
            } else {
                None
            },
            _ => None,
        },
    }
}

/// An exact copy of instance output lanes.
fn copy_ports(v: &Vec<Vec<usize>>) -> (r: Vec<Vec<usize>>)
    ensures
        r@.len() == v@.len(),
        forall|i: int| 0 <= i < v@.len() ==> (#[trigger] r@[i])@ == v@[i]@,
{
    let mut out: Vec<Vec<usize>> = Vec::new();
    let mut i: usize = 0;
    while i < v.len()
        invariant
            i <= v@.len(),
            out@.len() == i,
            forall|a: int| 0 <= a < i ==> (#[trigger] out@[a])@ == v@[a]@,
        decreases v@.len() - i,
    {
        let mut w: Vec<usize> = Vec::new();
        let mut j: usize = 0;
        while j < v[i].len()
            invariant
                i < v@.len(),
                j <= v@[i as int]@.len(),
                w@ == v@[i as int]@.subrange(0, j as int),
            decreases v@[i as int]@.len() - j,
        {
            w.push(v[i][j]);
            j += 1;
        }
        proof {
            assert(v@[i as int]@.subrange(0, j as int) =~= v@[i as int]@);
        }
        let ghost o0 = out@;
        out.push(w);
        proof {
            assert forall|a: int| 0 <= a < i + 1 implies (#[trigger] out@[a])@ == v@[a]@ by {
                if a < i {
                    assert(out@[a] == o0[a]);
                }
            }
        }
        i += 1;
    }
    out
}

/// `(t1, .., tn) = callee(..)` bound its targets: some instance has exactly `n` output
/// ports, and the variables of each target `i` (see `refs_keys`), in order, are bound to
/// the lanes of output port `i` and hold their current values.
pub open spec fn outputs_bound(b: ModuleExec, targets: Seq<BindTarget>, defines: Seq<(String, i64)>, line: i32) -> bool {
    exists|ix: int|
        0 <= ix < b.insts@.len() && #[trigger] b.insts@[ix].1.out_ports@.len() == targets.len() && forall|a: int|
            0 <= a < targets.len() ==> match b.refs_keys(
                (#[trigger] targets[a]).refs_spec(),
                targets[a].refs_spec().len() as int,
                defines,
                line,
            ) {
                Some(ks) => ks.len() == b.insts@[ix].1.out_ports@[a]@.len() && forall|j: int| 0 <= j < ks.len() ==> b.out_bind.get_spec(
                    #[trigger] ks[j],
                ) == Some(b.insts@[ix].1.out_ports@[a]@[j]) && b.vars.get_spec(ks[j]) == Some(
                    b.c.val(b.insts@[ix].1.out_ports@[a]@[j] as int) as i64,
                ),
                None => false,
            }
}

impl ModuleExec {
    /// The keys of references stay the same when the bus variables are the same and no
    /// variable was dropped.
    proof fn lemma_refs_keys_mono(&self, b: ModuleExec, refs: Seq<BindRef>, n: int, defines: Seq<(String, i64)>, line: i32)
        requires
            b.var_buses == self.var_buses,
            forall|k: Seq<char>| self.vars.has(k) ==> #[trigger] b.vars.has(k),
            self.refs_keys(refs, n, defines, line) is Some,
        ensures
            b.refs_keys(refs, n, defines, line) == self.refs_keys(refs, n, defines, line),
        decreases n,
    {
        if n > 0 {
            self.lemma_refs_keys_mono(b, refs, n - 1, defines, line);
        }
    }
}

impl ModuleExec {
    /// The variable keys one reference names: the selected lanes `name[k]` of a bus
    /// variable, or the name of a declared scalar variable taken whole; `None` for a
    /// selection out of range, an undeclared name, or a selection on a scalar.
    pub open spec fn ref_keys(&self, r: BindRef, defines: Seq<(String, i64)>, line: i32) -> Option<Seq<Seq<char>>> {
        match self.var_buses.get_spec(r.name@) {
            Some(w) => match sel_picks(r.sel, if w < 0 { 0 } else { w as int }, defines, line) {
                Some(ix) => Some(ix.map_values(|k: usize| lane_key_spec(r.name@, k as int))),
                None => None,
            },
            None => if self.vars.has(r.name@) && r.sel is All {
                Some(seq![r.name@])
            } else {
                None
            },
        }
    }

    /// The keys of the first `n` references, in order, or `None` if one of them names none.
    pub open spec fn refs_keys(&self, refs: Seq<BindRef>, n: int, defines: Seq<(String, i64)>, line: i32) -> Option<Seq<Seq<char>>>
        decreases n,
    {
        if n <= 0 {
            Some(seq![])
        } else {
            match self.refs_keys(refs, n - 1, defines, line) {
                Some(p) => match self.ref_keys(refs[n - 1], defines, line) {
                    Some(k) => Some(p + k),
                    None => None,
                },
                None => None,
            }
        }
    }

    proof fn lemma_refs_keys_none(&self, refs: Seq<BindRef>, n: int, m: int, defines: Seq<(String, i64)>, line: i32)
        requires
            0 <= n <= m,
            self.refs_keys(refs, n, defines, line) is None,
        ensures
            self.refs_keys(refs, m, defines, line) is None,
        decreases m - n,
    {
        if n < m {
            self.lemma_refs_keys_none(refs, n, m - 1, defines, line);
        }
    }

    /// The variable keys a binding target names, in binding order: a scalar variable,
    /// the selected lanes of a bus variable, or the parts of a concatenation in order.
    pub fn bind_target_keys(&self, t: &BindTarget, line: i32, defines: &StrMap<i64>) -> (r: RvResult<Vec<String>>)
        ensures
            match self.refs_keys(t.refs_spec(), t.refs_spec().len() as int, defines.entries@, line) {
                Some(ks) => r matches Ok(v) && strs_view(v@) == ks,
                None => r is Err,
            },
    {
        let refs = t.refs();
        let ghost dv = defines.entries@;
        let mut keys: Vec<String> = Vec::new();
        let mut i: usize = 0;
        while i < refs.len()
            invariant
                i <= refs@.len(),
                refs@ == t.refs_spec(),
                dv == defines.entries@,
                self.refs_keys(refs@, i as int, dv, line) == Some(strs_view(keys@)),
            decreases refs@.len() - i,
        {
            let r = &refs[i];
            let ghost k0 = strs_view(keys@);
            match self.bus_width(r.name.as_str()) {
                Some(w) => {
                    let wu: usize = if w < 0 { 0 } else { w as usize };
                    let idxs = match sel_lane_indices(&r.sel, wu, r.name.as_str(), defines, line) {
                        Ok(v) => v,
                        Err(x) => {
                            proof {
                                self.lemma_refs_keys_none(refs@, i + 1, refs@.len() as int, dv, line);
                            }
                            return Err(x);
                        },
                    };
                    proof {
                        assert(sel_picks(r.sel, wu as int, dv, line) == Some(idxs@));
                        assert forall|q: int| 0 <= q < idxs@.len() implies idxs@[q] < wu by {
                            match r.sel {
                                Sel::Slice(hie, loe) => {
                                    let hi = crate::interp::idx_val(hie, seq![], dv, line)->Ok_0;
                                    let lo = crate::interp::idx_val(loe, seq![], dv, line)->Ok_0;
                                    if hi >= lo {
                                        assert(idxs@[q] == (hi - q) as usize);
                                    } else {
                                        assert(idxs@[q] == (hi + q) as usize);
                                    }
                                },
                                _ => {},
                            }
                        }
                    }
                    let mut j: usize = 0;
                    while j < idxs.len()
                        invariant
                            j <= idxs@.len(),
                            wu <= i32::MAX,
                            forall|q: int| 0 <= q < idxs@.len() ==> idxs@[q] < wu,
                            strs_view(keys@) == k0 + idxs@.subrange(0, j as int).map_values(
                                |k: usize| lane_key_spec(r.name@, k as int),
                            ),
                        decreases idxs@.len() - j,
                    {
                        let ghost before = strs_view(keys@);
                        keys.push(lane_key(r.name.as_str(), idxs[j] as i64));
                        proof {
                            assert(strs_view(keys@) =~= before.push(lane_key_spec(r.name@, idxs@[j as int] as int)));
                            assert(idxs@.subrange(0, j + 1) =~= idxs@.subrange(0, j as int).push(idxs@[j as int]));
                            assert(idxs@.subrange(0, j + 1).map_values(|k: usize| lane_key_spec(r.name@, k as int))
                                =~= idxs@.subrange(0, j as int).map_values(|k: usize| lane_key_spec(r.name@, k as int)).push(
                                lane_key_spec(r.name@, idxs@[j as int] as int)));
                        }
                        j += 1;
                    }
                    proof {
                        assert(idxs@.subrange(0, idxs@.len() as int) =~= idxs@);
                    }
                },
                None => {
                    if !self.vars.contains_key(r.name.as_str()) {
                        proof {
                            self.lemma_refs_keys_none(refs@, i + 1, refs@.len() as int, dv, line);
                        }
                        return fail(line, cat2("undeclared variable: ", r.name.as_str()));
                    }
                    let all = match r.sel {
                        Sel::All => true,
                        _ => false,
                    };
                    if !all {
                        proof {
                            self.lemma_refs_keys_none(refs@, i + 1, refs@.len() as int, dv, line);
                        }
                        return fail(line, cat3("'", r.name.as_str(), "' is not a bus var; cannot index it"));
                    }
                    let ghost before = strs_view(keys@);
                    keys.push(r.name.clone());
                    proof {
                        assert(strs_view(keys@) =~= before + seq![r.name@]);
                    }
                },
            }
            i += 1;
        }
        Ok(keys)
    }

    /// `(t1, t2) = callee(args)`: the instance is found or created, and each output port is
    /// bound lane by lane to its target's variables (which take the current values). The
    /// number of targets must be the number of output ports, no lane may be bound twice,
    /// and each target must be as wide as its port.
    pub fn do_call_bind(
        &mut self,
        prog: &Program,
        line: i32,
        targets: &Vec<BindTarget>,
        callee: &str,
        bind_args: &Vec<InstArg>,
        call_params: &Vec<(String, Expr)>,
    ) -> (r: RvResult<()>)
        requires
            old(self).inv(),
            logics_ok(prog.logics),
        ensures
            final(self).inv(),
            final(self).c.cfg == old(self).c.cfg,
            r is Ok ==> outputs_bound(*final(self), targets@, prog.defines.entries@, line),
            rebind_scalars(*old(self), *prog, callee@, targets@) && call_params@.len() == 0 && bind_args@.len() == 0 ==> r is Ok,
    {
        let ghost hyp = rebind_scalars(*old(self), *prog, callee@, targets@) && call_params@.len() == 0 && bind_args@.len() == 0;
        let key = match self.ensure_instance(prog, line, callee, bind_args, call_params) {
            Ok(k) => k,
            Err(x) => return Err(x),
        };
        let ix = match self.inst_index(key.as_str()) {
            Some(ix) => ix,
            None => {
                proof {
                    let w = choose|w: int| 0 <= w < self.insts@.len() && (#[trigger] self.insts@[w]).0@ == key@;
                }
                return fail(line, own("instance missing"));
            },
        };
        assert(inst_ok(self.insts@[ix as int].1, self.c.nodes@.len()));
        let out_ports = copy_ports(&self.insts[ix].1.out_ports);
        let ghost mid = *self;
        assert(hyp ==> rebind_scalars(mid, *prog, callee@, targets@) && key@ == callee@ + "("@ + ")"@ && ix < mid.insts@.len() && mid.insts@[ix as int].0@ == key@);
        match check_binding_arity(callee, out_ports.len(), targets.len(), line) {
            Ok(()) => {},
            Err(x) => return Err(x),
        }
        let mut target_keys: Vec<Vec<String>> = Vec::new();
        let mut descs: Vec<String> = Vec::new();
        let mut i: usize = 0;
        while i < targets.len()
            invariant
                hyp ==> rebind_scalars(mid, *prog, callee@, targets@) && key@ == callee@ + "("@ + ")"@ && ix < mid.insts@.len() && mid.insts@[ix as int].0@ == key@,
                hyp == (rebind_scalars(*old(self), *prog, callee@, targets@) && call_params@.len() == 0 && bind_args@.len() == 0),
                i <= targets@.len(),
                target_keys@.len() == i,
                descs@.len() == i,
                self.inv(),
                self.c.cfg == old(self).c.cfg,
                *self == mid,
                forall|a: int| 0 <= a < i ==> mid.refs_keys(
                    (#[trigger] targets@[a]).refs_spec(),
                    targets@[a].refs_spec().len() as int,
                    prog.defines.entries@,
                    line,
                ) == Some(strs_view(target_keys@[a]@)),
            decreases targets@.len() - i,
        {
            proof {
                if hyp {
                    assert(targets@[i as int].refs_spec() =~= seq![targets@[i as int]->Ref_0]);
                    assert(self.refs_keys(targets@[i as int].refs_spec(), 0, prog.defines.entries@, line) == Some(Seq::<Seq<char>>::empty()));
                }
            }
            let ks = match self.bind_target_keys(&targets[i], line, &prog.defines) {
                Ok(k) => k,
                Err(x) => return Err(x),
            };
            let ghost t0 = target_keys@;
            target_keys.push(ks);
            proof {
                assert forall|a: int| 0 <= a < i + 1 implies mid.refs_keys(
                    (#[trigger] targets@[a]).refs_spec(),
                    targets@[a].refs_spec().len() as int,
                    prog.defines.entries@,
                    line,
                ) == Some(strs_view(target_keys@[a]@)) by {
                    if a < i {
                        assert(target_keys@[a] == t0[a]);
                    }
                }
            }
            descs.push(bind_target_desc(&targets[i]));
            i += 1;
        }
        let ids = key_ids(&target_keys);
        proof {
            if hyp {
                assert forall|a: int| 0 <= a < targets@.len() implies strs_view(#[trigger] target_keys@[a]@) == seq![(targets@[a]->Ref_0).name@] by {
                    assert(targets@[a].refs_spec() =~= seq![targets@[a]->Ref_0]);
                    assert(mid.refs_keys(targets@[a].refs_spec(), 0, prog.defines.entries@, line) == Some(Seq::<Seq<char>>::empty()));
                    assert(seq![] + seq![(targets@[a]->Ref_0).name@] =~= seq![(targets@[a]->Ref_0).name@]);
                }
                assert forall|a: int| 0 <= a < ids@.len() implies crate::interp::lanes_nodup((#[trigger] ids@[a])@) by {
                    assert(strs_view(target_keys@[a]@).len() == 1);
                }
                assert forall|a: int, a2: int| 0 <= a < a2 < ids@.len() implies crate::interp::lanes_disjoint((#[trigger] ids@[a])@, (#[trigger] ids@[a2])@) by {
                    assert(strs_view(target_keys@[a]@)[0] == target_keys@[a]@[0]@);
                    assert(strs_view(target_keys@[a2]@)[0] == target_keys@[a2]@[0]@);
                    assert(target_keys@[a]@[0]@ != target_keys@[a2]@[0]@);
                }
            }
        }
        match check_target_overlap(&descs, &ids, line) {
            Ok(()) => {},
            Err(x) => return Err(x),
        }
        let ghost tk = target_keys@;
        proof {
            assert forall|a: int, b: int, a2: int, b2: int|
                0 <= a < tk.len() && 0 <= b < tk[a]@.len() && 0 <= a2 < tk.len() && 0 <= b2 < tk[a2]@.len() && (a != a2 || b != b2)
                    implies (#[trigger] tk[a]@[b])@ != (#[trigger] tk[a2]@[b2])@ by {
                assert(ids@[a]@.len() == tk[a]@.len() && ids@[a2]@.len() == tk[a2]@.len());
                if a == a2 {
                    assert(crate::interp::lanes_nodup(ids@[a]@));
                    if b < b2 {
                        assert(ids@[a]@[b] != ids@[a]@[b2]);
                    } else {
                        assert(ids@[a]@[b2] != ids@[a]@[b]);
                    }
                } else if a < a2 {
                    assert(crate::interp::lanes_disjoint(ids@[a]@, ids@[a2]@));
                    assert(ids@[a]@[b] != ids@[a2]@[b2]);
                } else {
                    assert(crate::interp::lanes_disjoint(ids@[a2]@, ids@[a]@));
                    assert(ids@[a2]@[b2] != ids@[a]@[b]);
                }
            }
        }
        let mut i: usize = 0;
        while i < targets.len() && i < out_ports.len()
            invariant
                hyp ==> forall|a: int| 0 <= a < tk.len() ==> strs_view(#[trigger] tk[a]@) == seq![(targets@[a]->Ref_0).name@],
                hyp ==> rebind_scalars(mid, *prog, callee@, targets@) && key@ == callee@ + "("@ + ")"@ && ix < mid.insts@.len() && mid.insts@[ix as int].0@ == key@,
                hyp == (rebind_scalars(*old(self), *prog, callee@, targets@) && call_params@.len() == 0 && bind_args@.len() == 0),
                i <= targets@.len(),
                target_keys@.len() == targets@.len(),
                tk == target_keys@,
                out_ports@.len() == targets@.len(),
                self.inv(),
                self.c.cfg == old(self).c.cfg,
                forall|p: int| 0 <= p < out_ports@.len() ==> crate::interp::lanes_ok(#[trigger] out_ports@[p]@, self.c.nodes@.len()),
                forall|p: int| 0 <= p < out_ports@.len() ==> (#[trigger] out_ports@[p])@ == mid.insts@[ix as int].1.out_ports@[p]@,
                self.insts == mid.insts,
                self.var_buses == mid.var_buses,
                forall|k: Seq<char>| mid.vars.has(k) ==> #[trigger] self.vars.has(k),
                self.c.nodes == mid.c.nodes,
                forall|y: int| 0 <= y < mid.c.nodes@.len() ==> #[trigger] self.c.root(y) == mid.c.root(y),
                forall|a: int| 0 <= a < tk.len() ==> (#[trigger] tk[a])@.len() == if a < i { out_ports@[a]@.len() } else { tk[a]@.len() },
                forall|a: int, b: int| 0 <= a < i && 0 <= b < tk[a]@.len() ==> self.out_bind.get_spec((#[trigger] tk[a]@[b])@) == Some(
                    out_ports@[a]@[b],
                ) && self.vars.get_spec(tk[a]@[b]@) == Some(mid.c.val(out_ports@[a]@[b] as int) as i64),
                forall|a: int, b: int, a2: int, b2: int|
                    0 <= a < tk.len() && 0 <= b < tk[a]@.len() && 0 <= a2 < tk.len() && 0 <= b2 < tk[a2]@.len() && (a != a2 || b
                        != b2) ==> (#[trigger] tk[a]@[b])@ != (#[trigger] tk[a2]@[b2])@,
            decreases targets@.len() - i,
        {
            let keys = &target_keys[i];
            let out_lanes = &out_ports[i];
            assert(crate::interp::lanes_ok(out_lanes@, self.c.nodes@.len()));
            proof {
                if hyp {
                    assert(strs_view(tk[i as int]@).len() == tk[i as int]@.len());
                    assert(strs_view(tk[i as int]@) == seq![(targets@[i as int]->Ref_0).name@]);
                    assert(mid.insts@[ix as int].1.out_ports@[i as int]@.len() == 1);
                }
            }
            if out_lanes.len() != keys.len() {
                let tw = format_uint(out_lanes.len() as u64, 10);
                let tk = format_uint(keys.len() as u64, 10);
                let m = match &targets[i] {
                    BindTarget::Ref(r) => {
                        if self.bus_width(r.name.as_str()).is_none() {
                            let m = cat5(callee, " has a bus output (width ", tw.as_str(), "); bind it to a bus var (e.g. 'var[", tw.as_str());
                            cat4(m.as_str(), "] ", r.name.as_str(), ";')")
                        } else {
                            let all = match r.sel {
                                Sel::All => true,
                                _ => false,
                            };
                            if all {
                                let m = cat5("output of ", callee, " (width ", tw.as_str(), ") does not match bus var '");
                                cat5(m.as_str(), r.name.as_str(), "' (width ", tk.as_str(), ")")
                            } else {
                                let d = bind_target_desc(&targets[i]);
                                let m = cat5("output of ", callee, " (width ", tw.as_str(), ") does not match target '");
                                cat5(m.as_str(), d.as_str(), "' (width ", tk.as_str(), ")")
                            }
                        }
                    },
                    BindTarget::Concat(_) => {
                        let d = bind_target_desc(&targets[i]);
                        let m = cat5("output of ", callee, " (width ", tw.as_str(), ") does not match target '");
                        cat5(m.as_str(), d.as_str(), "' (width ", tk.as_str(), ")")
                    },
                };
                return fail(line, m);
            }
            let mut j: usize = 0;
            while j < keys.len()
                invariant
                    hyp ==> rebind_scalars(mid, *prog, callee@, targets@) && key@ == callee@ + "("@ + ")"@ && ix < mid.insts@.len() && mid.insts@[ix as int].0@ == key@,
                    hyp == (rebind_scalars(*old(self), *prog, callee@, targets@) && call_params@.len() == 0 && bind_args@.len() == 0),
                    j <= keys@.len(),
                    keys@.len() == out_lanes@.len(),
                    crate::interp::lanes_ok(out_lanes@, self.c.nodes@.len()),
                    self.inv(),
                    self.c.cfg == old(self).c.cfg,
                    forall|p: int| 0 <= p < out_ports@.len() ==> crate::interp::lanes_ok(#[trigger] out_ports@[p]@, self.c.nodes@.len()),
                    i < tk.len(),
                    *keys == tk[i as int],
                    *out_lanes == out_ports@[i as int],
                    self.insts == mid.insts,
                    self.var_buses == mid.var_buses,
                    forall|k: Seq<char>| mid.vars.has(k) ==> #[trigger] self.vars.has(k),
                    self.c.nodes == mid.c.nodes,
                    forall|y: int| 0 <= y < mid.c.nodes@.len() ==> #[trigger] self.c.root(y) == mid.c.root(y),
                    forall|a: int, b: int| 0 <= a < i && 0 <= b < tk[a]@.len() ==> self.out_bind.get_spec((#[trigger] tk[a]@[b])@) == Some(
                        out_ports@[a]@[b],
                    ) && self.vars.get_spec(tk[a]@[b]@) == Some(mid.c.val(out_ports@[a]@[b] as int) as i64),
                    forall|b: int| 0 <= b < j ==> self.out_bind.get_spec((#[trigger] tk[i as int]@[b])@) == Some(out_ports@[i as int]@[b])
                        && self.vars.get_spec(tk[i as int]@[b]@) == Some(mid.c.val(out_ports@[i as int]@[b] as int) as i64),
                    forall|a: int, b: int, a2: int, b2: int|
                        0 <= a < tk.len() && 0 <= b < tk[a]@.len() && 0 <= a2 < tk.len() && 0 <= b2 < tk[a2]@.len() && (a != a2 || b
                            != b2) ==> (#[trigger] tk[a]@[b])@ != (#[trigger] tk[a2]@[b2])@,
                decreases keys@.len() - j,
            {
                let node = out_lanes[j];
                let ghost b0 = self.out_bind;
                let ghost v0 = self.vars;
                let ghost kj = keys@[j as int]@;
                self.out_bind.insert(keys[j].clone(), node);
                proof {
                    assert forall|k: Seq<char>| #[trigger] self.out_bind.get_spec(k) matches Some(x) ==> x < self.c.nodes@.len() by {
                        if k != keys@[j as int]@ {
                            assert(self.out_bind.get_spec(k) == b0.get_spec(k));
                        }
                    }
                }
                let ghost n0 = self.c.nodes@.len();
                let ghost c0 = self.c;
                let val = self.c.read(node) as i64;
                proof {
                    lemma_inv_nodes_same(self, n0);
                    assert(val == mid.c.val(node as int) as i64);
                }
                self.vars.insert(keys[j].clone(), val);
                proof {
                    assert forall|a: int, b: int| 0 <= a < i && 0 <= b < tk[a]@.len() implies self.out_bind.get_spec(
                        (#[trigger] tk[a]@[b])@,
                    ) == Some(out_ports@[a]@[b]) && self.vars.get_spec(tk[a]@[b]@) == Some(
                        mid.c.val(out_ports@[a]@[b] as int) as i64,
                    ) by {
                        assert(tk[a]@[b]@ != tk[i as int]@[j as int]@);
                    }
                    assert forall|b: int| 0 <= b < j + 1 implies self.out_bind.get_spec((#[trigger] tk[i as int]@[b])@) == Some(
                        out_ports@[i as int]@[b],
                    ) && self.vars.get_spec(tk[i as int]@[b]@) == Some(mid.c.val(out_ports@[i as int]@[b] as int) as i64) by {
                        if b < j {
                            assert(tk[i as int]@[b]@ != tk[i as int]@[j as int]@);
                        }
                    }
                    assert forall|k: Seq<char>| mid.vars.has(k) implies #[trigger] self.vars.has(k) by {
                        assert(v0.has(k));
                        if k != kj {
                            assert(self.vars.get_spec(k) == v0.get_spec(k));
                        }
                    }
                }
                j += 1;
            }
            i += 1;
        }
        proof {
            let ins = self.insts@[ix as int].1;
            assert forall|a: int| 0 <= a < targets@.len() implies match self.refs_keys(
                (#[trigger] targets@[a]).refs_spec(),
                targets@[a].refs_spec().len() as int,
                prog.defines.entries@,
                line,
            ) {
                Some(ks) => ks.len() == ins.out_ports@[a]@.len() && forall|b: int| 0 <= b < ks.len() ==> self.out_bind.get_spec(
                    #[trigger] ks[b],
                ) == Some(ins.out_ports@[a]@[b]) && self.vars.get_spec(ks[b]) == Some(self.c.val(ins.out_ports@[a]@[b] as int) as i64),
                None => false,
            } by {
                mid.lemma_refs_keys_mono(*self, targets@[a].refs_spec(), targets@[a].refs_spec().len() as int, prog.defines.entries@, line);
                let ks = strs_view(tk[a]@);
                assert forall|b: int| 0 <= b < ks.len() implies self.out_bind.get_spec(#[trigger] ks[b]) == Some(ins.out_ports@[a]@[b])
                    && self.vars.get_spec(ks[b]) == Some(self.c.val(ins.out_ports@[a]@[b] as int) as i64) by {
                    assert(ks[b] == tk[a]@[b]@);
                    assert(out_ports@[a]@[b] == ins.out_ports@[a]@[b]);
                    assert(inst_ok(ins, mid.c.nodes@.len()));
                    assert(crate::interp::lanes_ok(ins.out_ports@[a]@, mid.c.nodes@.len()));
                }
            }
        }
        Ok(())
    }


    /// Registers the `?monitor` statements of a body (nested ones included), in order.
    fn collect_monitors(body: &Vec<SimStmt>, out: &mut Vec<(i32, CallData)>)
        ensures
            final(out)@.subrange(0, old(out)@.len() as int) == old(out)@,
            mons_match(final(out)@, old(out)@.len() as int, list_monitors(body@, body@.len() as int)),
        decreases body,
    {
        let ghost o0 = out@;
        let mut i: usize = 0;
        proof {
            assert(out@.subrange(0, o0.len() as int) =~= o0);
        }
        while i < body.len()
            invariant
                i <= body@.len(),
                out@.len() >= o0.len(),
                out@.subrange(0, o0.len() as int) == o0,
                o0 == old(out)@,
                mons_match(out@, o0.len() as int, list_monitors(body@, i as int)),
            decreases body@.len() - i,
        {
            proof {
                assert(decreases_to!(body => body@[i as int]));
            }
            let ghost o1 = out@;
            match &body[i] {
                SimStmt::MonReg { line, call } => {
                    out.push((*line, call.clone()));
                    proof {
                        assert(out@.subrange(0, o1.len() as int) =~= o1);
                        assert(out@[o1.len() as int] == out@.last());
                        lemma_mons_concat(o1, out@, o0.len() as int, list_monitors(body@, i as int), stmt_monitors(body@[i as int]));
                    }
                },
                SimStmt::If { body: b1, else_body, .. } => {
                    Self::collect_monitors(b1, out);
                    let ghost o2 = out@;
                    proof {
                        lemma_prefix_trans(o0, o1, out@);
                        lemma_mons_concat(o1, out@, o0.len() as int, list_monitors(body@, i as int), list_monitors(b1@, b1@.len() as int));
                    }
                    Self::collect_monitors(else_body, out);
                    proof {
                        lemma_prefix_trans(o0, o2, out@);
                        lemma_mons_concat(o2, out@, o0.len() as int, list_monitors(body@, i as int) + list_monitors(b1@, b1@.len() as int),
                            list_monitors(else_body@, else_body@.len() as int));
                        assert(list_monitors(body@, i as int) + list_monitors(b1@, b1@.len() as int) + list_monitors(else_body@, else_body@.len() as int)
                            =~= list_monitors(body@, i as int) + stmt_monitors(body@[i as int]));
                    }
                },
                SimStmt::While { body: b1, .. } => {
                    Self::collect_monitors(b1, out);
                    proof {
                        lemma_prefix_trans(o0, o1, out@);
                        lemma_mons_concat(o1, out@, o0.len() as int, list_monitors(body@, i as int), list_monitors(b1@, b1@.len() as int));
                    }
                },
                SimStmt::For { body: b1, .. } => {
                    Self::collect_monitors(b1, out);
                    proof {
                        lemma_prefix_trans(o0, o1, out@);
                        lemma_mons_concat(o1, out@, o0.len() as int, list_monitors(body@, i as int), list_monitors(b1@, b1@.len() as int));
                    }
                },
                _ => {
                    proof {
                        assert(stmt_monitors(body@[i as int]) =~= seq![]);
                        assert(list_monitors(body@, i as int) + stmt_monitors(body@[i as int]) =~= list_monitors(body@, i as int));
                    }
                },
            }
            proof {
                assert(list_monitors(body@, i + 1) == list_monitors(body@, i as int) + stmt_monitors(body@[i as int]));
            }
            i += 1;
        }
    }
}

/// The key of the instance that a call of `callee` with these name arguments and actual
/// parameters uses, where the callee exists, its parameters bind and every argument is a
/// name.
pub open spec fn call_key(prog: Program, callee: Seq<char>, bind_args: Seq<InstArg>, call_params: Seq<(String, Expr)>, line: i32) -> Option<
    Seq<char>,
> {
    match prog.logics.get_spec(callee) {
        Some(d) => if crate::interp::params_bindable(d.params@, call_params, seq![], prog.defines.entries@, line) {
            match name_arg_keys(bind_args, bind_args.len() as int, prog.defines.entries@, line) {
                Some(ks) => Some(callee + crate::interp::param_key(d.params@, call_params, prog.defines.entries@, line) + "("@
                    + crate::interp::join(ks, ","@) + ")"@),
                None => None,
            }
        } else {
            None
        },
        None => None,
    }
}

/// The keys of the first `n` logic-call arguments when each is a name (with an optional
/// lane or slice) whose key resolves; `None` otherwise.
pub open spec fn name_arg_keys(args: Seq<InstArg>, n: int, defines: Seq<(String, i64)>, line: i32) -> Option<Seq<Seq<char>>>
    decreases n,
{
    if n <= 0 {
        Some(seq![])
    } else {
        match name_arg_keys(args, n - 1, defines, line) {
            Some(p) => match args[n - 1] {
                InstArg::Name { name, sel } => match crate::interp::arg_key_text(name@, sel, defines, line) {
                    Ok(t) => Some(p.push(t)),
                    Err(_) => None,
                },
                _ => None,
            },
            None => None,
        }
    }
}

proof fn lemma_name_arg_keys_prefix(args: Seq<InstArg>, n: int, m: int, defines: Seq<(String, i64)>, line: i32)
    requires
        0 <= m <= n,
        name_arg_keys(args, n, defines, line) is Some,
    ensures
        name_arg_keys(args, m, defines, line) is Some,
    decreases n - m,
{
    if m < n {
        lemma_name_arg_keys_prefix(args, n - 1, m, defines, line);
    }
}

/// A binding of one-lane outputs to scalar variables: the instance of `callee` with no
/// parameters and no arguments exists, has as many output ports as there are targets,
/// each of one lane, and the targets are distinct declared scalar variables.
pub open spec fn rebind_scalars(me: ModuleExec, prog: Program, callee: Seq<char>, targets: Seq<BindTarget>) -> bool {
    &&& (prog.logics.get_spec(callee) matches Some(d) && d.params@.len() == 0)
    &&& has_inst(me, callee + "("@ + ")"@)
    &&& forall|ix: int| 0 <= ix < me.insts@.len() && (#[trigger] me.insts@[ix]).0@ == callee + "("@ + ")"@ ==> me.insts@[ix].1.out_ports@.len()
        == targets.len() && forall|p: int| 0 <= p < targets.len() ==> (#[trigger] me.insts@[ix].1.out_ports@[p])@.len() == 1
    &&& forall|a: int| 0 <= a < targets.len() ==> ((#[trigger] targets[a]) matches BindTarget::Ref(r) && r.sel is All && me.vars.has(r.name@)
        && !me.var_buses.has(r.name@))
    &&& forall|a: int, a2: int| 0 <= a < a2 < targets.len() ==> (#[trigger] targets[a])->Ref_0.name@ != (#[trigger] targets[a2])->Ref_0.name@
}

/// Two copies of call data with the same contents.
pub open spec fn same_call(a: CallData, b: CallData) -> bool {
    a.callee@ == b.callee@ && a.has_fmt == b.has_fmt && a.fmt@ == b.fmt@ && a.args@ == b.args@
}

/// The `?monitor` registrations of a statement, nested blocks included, in order.
pub open spec fn stmt_monitors(st: SimStmt) -> Seq<(i32, CallData)>
    decreases st, 0int,
{
    match st {
        SimStmt::MonReg { line, call } => seq![(line, call)],
        SimStmt::If { body, else_body, .. } => list_monitors(body@, body@.len() as int) + list_monitors(
            else_body@,
            else_body@.len() as int,
        ),
        SimStmt::While { body, .. } => list_monitors(body@, body@.len() as int),
        SimStmt::For { body, .. } => list_monitors(body@, body@.len() as int),
        _ => seq![],
    }
}

/// The `?monitor` registrations of the first `n` statements, in order.
pub open spec fn list_monitors(s: Seq<SimStmt>, n: int) -> Seq<(i32, CallData)>
    decreases s, n,
{
    if n <= 0 || n > s.len() {
        seq![]
    } else {
        list_monitors(s, n - 1) + stmt_monitors(s[n - 1])
    }
}

/// From position `base` on, `out` holds copies of the registrations `m`, in order.
pub open spec fn mons_match(out: Seq<(i32, CallData)>, base: int, m: Seq<(i32, CallData)>) -> bool {
    &&& out.len() == base + m.len()
    &&& forall|k: int| 0 <= k < m.len() ==> (#[trigger] out[base + k]).0 == m[k].0 && same_call(out[base + k].1, m[k].1)
}

proof fn lemma_prefix_trans(a: Seq<(i32, CallData)>, b: Seq<(i32, CallData)>, c: Seq<(i32, CallData)>)
    requires
        b.len() >= a.len(),
        b.subrange(0, a.len() as int) == a,
        c.len() >= b.len(),
        c.subrange(0, b.len() as int) == b,
    ensures
        c.subrange(0, a.len() as int) == a,
{
    assert forall|k: int| 0 <= k < a.len() implies c[k] == a[k] by {
        assert(c.subrange(0, b.len() as int)[k] == c[k]);
        assert(b.subrange(0, a.len() as int)[k] == b[k]);
    }
    assert(c.subrange(0, a.len() as int) =~= a);
}

proof fn lemma_mons_concat(
    o1: Seq<(i32, CallData)>,
    o2: Seq<(i32, CallData)>,
    base: int,
    m1: Seq<(i32, CallData)>,
    m2: Seq<(i32, CallData)>,
)
    requires
        0 <= base,
        mons_match(o1, base, m1),
        o2.len() >= o1.len(),
        o2.subrange(0, o1.len() as int) == o1,
        mons_match(o2, o1.len() as int, m2),
    ensures
        mons_match(o2, base, m1 + m2),
{
    assert forall|k: int| 0 <= k < (m1 + m2).len() implies (#[trigger] o2[base + k]).0 == (m1 + m2)[k].0 && same_call(
        o2[base + k].1,
        (m1 + m2)[k].1,
    ) by {
        if k < m1.len() {
            assert(o2.subrange(0, o1.len() as int)[base + k] == o2[base + k]);
            assert(o1[base + k].0 == m1[k].0);
        } else {
            let k2 = k - m1.len();
            assert(o2[o1.len() + k2].0 == m2[k2].0);
            assert(o1.len() + k2 == base + k);
        }
    }
}

impl ModuleExec {
    /// Executes a list of testbench statements in order.
    pub fn exec_list(&mut self, prog: &Program, body: &Vec<SimStmt>) -> (r: RvResult<()>)
        requires
            old(self).inv(),
            logics_ok(prog.logics),
        ensures
            final(self).inv(),
            final(self).c.cfg == old(self).c.cfg,
            r is Ok ==> ran(*old(self), *final(self), *prog, body@),
            (forall|k: int| 0 <= k < body@.len() ==> (#[trigger] body@[k]) is MonReg) ==> r is Ok && *final(self) == *old(self),
            owed_list(*old(self), *prog, body@) ==> r is Ok,
        decreases body, 0int,
    {
        let ghost mut tr: Seq<ModuleExec> = seq![*self];
        let mut i: usize = 0;
        proof {
            assert(body@.subrange(0, body@.len() as int) =~= body@);
        }
        while i < body.len()
            invariant
                owed_list(*old(self), *prog, body@) ==> owed_list(*self, *prog, body@.subrange(i as int, body@.len() as int)),
                i <= body@.len(),
                self.inv(),
                logics_ok(prog.logics),
                self.c.cfg == old(self).c.cfg,
                tr.len() == i + 1,
                tr[0] == *old(self),
                tr[i as int] == *self,
                (forall|k: int| 0 <= k < body@.len() ==> (#[trigger] body@[k]) is MonReg) ==> *self == *old(self),
                forall|k: int| 0 <= k < i ==> stmt_effect(#[trigger] tr[k], tr[k + 1], *prog, body@[k]),
            decreases body@.len() - i,
        {
            proof {
                assert(decreases_to!(body => body@[i as int]));
            }
            let ghost before = *self;
            proof {
                assert(body@.subrange(i as int, body@.len() as int)[0] == body@[i as int]);
                assert(body@.subrange(i as int, body@.len() as int).drop_first() =~= body@.subrange(i + 1, body@.len() as int));
                if owed_list(*old(self), *prog, body@) {
                    lemma_owed_step(before, *prog, body@.subrange(i as int, body@.len() as int), before);
                }
            }
            match self.exec(prog, &body[i]) {
                Ok(()) => {},
                Err(x) => return Err(x),
            }
            proof {
                if owed_list(*old(self), *prog, body@) {
                    lemma_owed_step(before, *prog, body@.subrange(i as int, body@.len() as int), *self);
                }
            }
            proof {
                let t0 = tr;
                tr = tr.push(*self);
                assert forall|k: int| 0 <= k < i + 1 implies stmt_effect(#[trigger] tr[k], tr[k + 1], *prog, body@[k]) by {
                    if k < i {
                        assert(tr[k] == t0[k] && tr[k + 1] == t0[k + 1]);
                    } else {
                        assert(tr[k] == before);
                    }
                }
            }
            i += 1;
        }
        proof {
            assert(tr[0] == *old(self));
            assert(ran(*old(self), *self, *prog, body@));
        }
        Ok(())
    }

    /// A declaration `(name, init, width)` is in place: a scalar variable, or a bus
    /// variable of that width.
    pub open spec fn var_declared(&self, d: (String, Option<Expr>, Option<i32>)) -> bool {
        match d.2 {
            None => self.vars.has(d.0@),
            Some(w) => self.var_buses.get_spec(d.0@) == Some(w),
        }
    }

    /// Declaration `d` holds its starting value where that is a known constant: the
    /// variable, or every lane of the bus variable.
    pub open spec fn decl_value_held(&self, d: (String, Option<Expr>, Option<i32>)) -> bool {
        const_init(d) matches Some(v) ==> match d.2 {
            None => self.vars.get_spec(d.0@) == Some(v),
            Some(w) => forall|k: int| 0 <= k < w ==> #[trigger] self.vars.get_spec(lane_key_spec(d.0@, k)) == Some(v),
        }
    }

    /// `var x = e, y[4];` declares variables (each lane of a bus variable starts at the
    /// initial value); a name already declared is refused.
    fn decl_vars(&mut self, line: i32, decls: &Vec<(String, Option<Expr>, Option<i32>)>, defines: &StrMap<i64>) -> (r: RvResult<()>)
        requires
            old(self).inv(),
        ensures
            final(self).inv(),
            final(self).c == old(self).c,
            r is Ok ==> forall|j: int| 0 <= j < decls@.len() ==> final(self).var_declared(#[trigger] decls@[j]),
            (decls@.len() > 0 && (old(self).vars.has(decls@[0].0@) || old(self).var_buses.has(decls@[0].0@))) ==> r is Err,
            (r is Ok && forall|j: int| 0 <= j < decls@.len() ==> plain_name(#[trigger] decls@[j].0@)) ==> forall|j: int|
                0 <= j < decls@.len() ==> final(self).decl_value_held(#[trigger] decls@[j]),
    {
        let ghost ap = forall|j: int| 0 <= j < decls@.len() ==> plain_name(#[trigger] decls@[j].0@);
        let mut i: usize = 0;
        while i < decls.len()
            invariant
                i <= decls@.len(),
                self.inv(),
                self.c == old(self).c,
                forall|j: int| 0 <= j < i ==> self.var_declared(#[trigger] decls@[j]),
                ap == forall|j: int| 0 <= j < decls@.len() ==> plain_name(#[trigger] decls@[j].0@),
                ap ==> forall|j: int| 0 <= j < i ==> self.decl_value_held(#[trigger] decls@[j]),
                i == 0 ==> *self == *old(self),
                i > 0 ==> !(old(self).vars.has(decls@[0].0@) || old(self).var_buses.has(decls@[0].0@)),
            decreases decls@.len() - i,
        {
            let name = decls[i].0.as_str();
            if self.vars.contains_key(name) || self.var_buses.contains_key(name) {
                return fail(line, cat2("duplicate variable: ", name));
            }
            let v = match &decls[i].1 {
                Some(ex) => match self.eval_e(ex, defines) {
                    Ok(v) => v,
                    Err(x) => return Err(x),
                },
                None => 0,
            };
            proof {
                if const_init(decls@[i as int]) is Some {
                    assert(const_init(decls@[i as int]) == Some(v));
                }
                assert forall|j: int| 0 <= j < i implies decls@[j].0@ != name@ by {
                    assert(self.var_declared(decls@[j]));
                }
            }
            let ghost vs0 = self.vars;
            match decls[i].2 {
                Some(w) => {
                    let ghost vb = self.var_buses;
                    let mut k: i32 = 0;
                    while k < w
                        invariant
                            self.inv(),
                            self.c == old(self).c,
                            self.var_buses == vb,
                            forall|j: int| 0 <= j < i ==> self.var_declared(#[trigger] decls@[j]),
                            ap == forall|j: int| 0 <= j < decls@.len() ==> plain_name(#[trigger] decls@[j].0@),
                            ap ==> forall|j: int| 0 <= j < i ==> self.decl_value_held(#[trigger] decls@[j]),
                            forall|j: int| 0 <= j < i ==> decls@[j].0@ != name@,
                            i < decls@.len(),
                            name@ == decls@[i as int].0@,
                            0 <= k,
                            w >= 0 ==> k <= w,
                            forall|kk: int| 0 <= kk < k ==> #[trigger] self.vars.get_spec(lane_key_spec(name@, kk)) == Some(v),
                        decreases w - k,
                    {
                        let ghost pv = self.vars;
                        let ghost pself = *self;
                        self.vars.insert(lane_key(name, k as i64), v);
                        proof {
                            if ap {
                                assert(plain_name(decls@[i as int].0@));
                                assert forall|j: int| 0 <= j < i implies self.decl_value_held(#[trigger] decls@[j]) by {
                                    assert(pself.decl_value_held(decls@[j]));
                                    assert(plain_name(decls@[j].0@));
                                    if decls@[j].2 is None {
                                        lemma_lane_key_name(name@, k as int, decls@[j].0@, 0);
                                        if decls@[j].0@ == lane_key_spec(name@, k as int) {
                                            assert(false);
                                        }
                                    } else {
                                        assert forall|kk: int| 0 <= kk < decls@[j].2->Some_0 implies #[trigger] self.vars.get_spec(
                                            lane_key_spec(decls@[j].0@, kk),
                                        ) == pv.get_spec(lane_key_spec(decls@[j].0@, kk)) by {
                                            lemma_lane_key_name(decls@[j].0@, kk, name@, k as int);
                                        }
                                    }
                                }
                            }
                            assert forall|kk: int| 0 <= kk < k + 1 implies #[trigger] self.vars.get_spec(lane_key_spec(name@, kk))
                                == Some(v) by {
                                if kk < k {
                                    assert(pv.get_spec(lane_key_spec(name@, kk)) == Some(v));
                                }
                            }
                        }
                        proof {
                            assert forall|j: int| 0 <= j < i implies self.var_declared(#[trigger] decls@[j]) by {
                                if decls@[j].2 is None {
                                    assert(pv.has(decls@[j].0@));
                                    assert(self.vars.get_spec(decls@[j].0@) is Some);
                                }
                            }
                        }
                        k += 1;
                    }
                    let ghost pb = self.var_buses;
                    self.var_buses.insert(own(name), w);
                    proof {
                        assert forall|j: int| 0 <= j <= i implies self.var_declared(#[trigger] decls@[j]) by {
                            if j < i && decls@[j].2 is Some {
                                assert(pb.has(decls@[j].0@));
                                assert(decls@[j].0@ != name@);
                            }
                        }
                        if ap {
                            assert forall|j: int| 0 <= j <= i implies self.decl_value_held(#[trigger] decls@[j]) by {
                                if j == i {
                                    if const_init(decls@[j]) is Some {
                                        assert forall|kk: int| 0 <= kk < w implies #[trigger] self.vars.get_spec(lane_key_spec(
                                            decls@[j].0@,
                                            kk,
                                        )) == Some(v) by {}
                                    }
                                }
                            }
                        }
                    }
                },
                None => {
                    let ghost pv = self.vars;
                    let ghost pself = *self;
                    self.vars.insert(own(name), v);
                    proof {
                        assert forall|j: int| 0 <= j <= i implies self.var_declared(#[trigger] decls@[j]) by {
                            if j < i && decls@[j].2 is None {
                                assert(pv.has(decls@[j].0@));
                                assert(self.vars.get_spec(decls@[j].0@) is Some);
                            }
                        }
                        if ap {
                            assert(plain_name(decls@[i as int].0@));
                            assert forall|j: int| 0 <= j <= i implies self.decl_value_held(#[trigger] decls@[j]) by {
                                if j < i {
                                    assert(pself.decl_value_held(decls@[j]));
                                    assert(plain_name(decls@[j].0@));
                                    if decls@[j].2 is Some {
                                        assert forall|kk: int| 0 <= kk < decls@[j].2->Some_0 implies #[trigger] self.vars.get_spec(
                                            lane_key_spec(decls@[j].0@, kk),
                                        ) == pv.get_spec(lane_key_spec(decls@[j].0@, kk)) by {
                                            lemma_lane_key_name(decls@[j].0@, kk, name@, 0);
                                        }
                                    }
                                }
                            }
                        }
                    }
                },
            }
            i += 1;
        }
        Ok(())
    }

    /// The variables an assignment to `target` (with lane `index`, and a pulse when
    /// `has_pulse`) sets: one lane of a bus variable, every lane of one (not with a pulse),
    /// or a declared scalar variable; `None` where the assignment is refused.
    pub open spec fn assign_keys(&self, target: Seq<char>, index: Option<Box<Expr>>, defines: StrMap<i64>, has_pulse: bool) -> Option<Seq<Seq<char>>> {
        match index {
            Some(e) => match self.var_buses.get_spec(target) {
                None => None,
                Some(w) => match eval_spec(*e, self.vars, self.var_buses, defines, self.sim_time) {
                    Ok(k) => if 0 <= k < w {
                        Some(seq![lane_key_spec(target, k as int)])
                    } else {
                        None
                    },
                    Err(_) => None,
                },
            },
            None => match self.var_buses.get_spec(target) {
                Some(w) => if has_pulse {
                    None
                } else {
                    Some(Seq::new(if w > 0 { w as nat } else { 0 }, |k: int| lane_key_spec(target, k)))
                },
                None => if self.vars.has(target) {
                    Some(seq![target])
                } else {
                    None
                },
            },
        }
    }
}

/// What a system call did from `a` to `b` when it succeeded: `monitor` wrote its line
/// (see `monitor_line`) and changed nothing else, `clock` started a clock (see
/// `clock_started`), `wait(n)` ran `n` ticks without advancing `$time`, `assert` and
/// `expect` counted one check, and a failure when the condition is 0 or the values differ.
/// A check (`assert` with one argument, `expect` with two) whose arguments evaluate: it
/// succeeds whether or not it holds.
pub open spec fn check_ok(a: ModuleExec, call: CallData, defines: StrMap<i64>, n: int) -> bool {
    &&& !call.has_fmt
    &&& call.args@.len() == n
    &&& forall|k: int| 0 <= k < n ==> eval_spec(#[trigger] call.args@[k], a.vars, a.var_buses, defines, a.sim_time) is Ok
}

pub open spec fn call_effect(a: ModuleExec, b: ModuleExec, call: CallData, defines: StrMap<i64>, line: i32) -> bool {
    if call.callee@ == "monitor"@ {
        &&& b == (ModuleExec { out: b.out, ..a })
        &&& b.out@.len() == a.out@.len() + 1
        &&& b.out@.drop_last() == a.out@
        &&& a.monitor_line(call, defines, line) is Some
        &&& stdout_text(b.out@.last()) == a.monitor_line(call, defines, line)
    } else if call.callee@ == "clock"@ {
        clock_started(a, b, call, defines)
    } else if call.callee@ == "wait"@ {
        &&& call.args@.len() == 1
        &&& eval_spec(call.args@[0], a.vars, a.var_buses, defines, a.sim_time) matches Ok(n)
        &&& n >= 0
        &&& b.c.tick == a.c.tick + n
        &&& b.sim_time == a.sim_time
    } else if call.callee@ == "assert"@ {
        &&& call.args@.len() == 1
        &&& eval_spec(call.args@[0], a.vars, a.var_buses, defines, a.sim_time) matches Ok(v)
        &&& b.assert_total == a.assert_total.wrapping_add(1)
        &&& b.assert_failed == if v == 0 { a.assert_failed.wrapping_add(1) } else { a.assert_failed }
        &&& b.out@ == if v == 0 { a.out@.push(Out::Stderr(b.out@.last()->Stderr_0)) } else { a.out@ }
        &&& v == 0 ==> b.out@.last()->Stderr_0@ == a.assert_report(line, crate::interp::expr_text(call.args@[0]))
    } else if call.callee@ == "expect"@ {
        &&& call.args@.len() == 2
        &&& eval_spec(call.args@[0], a.vars, a.var_buses, defines, a.sim_time) matches Ok(x)
        &&& eval_spec(call.args@[1], a.vars, a.var_buses, defines, a.sim_time) matches Ok(y)
        &&& b.assert_total == a.assert_total.wrapping_add(1)
        &&& b.assert_failed == if x != y { a.assert_failed.wrapping_add(1) } else { a.assert_failed }
        &&& b.out@ == if x != y { a.out@.push(Out::Stderr(b.out@.last()->Stderr_0)) } else { a.out@ }
        &&& x != y ==> b.out@.last()->Stderr_0@ == a.expect_report(line, crate::interp::expr_text(call.args@[0]), x, y)
    } else {
        true
    }
}

/// What a statement did from `a` to `b` when it succeeded: an assignment set its
/// variables (see `assign_done`); `#n` ran `n` ticks advancing `$time` by `n`; `#init`
/// stopped at a steady circuit (see `steady`) with `$time` at 0; `#until(c)` stopped
/// where `c` holds; a `?monitor` registration (done before the run) changed nothing; a
/// system call did its part (see `call_effect`); `v = scan(..)` read the next integer
/// into `v` (see `scanned`); a logic call bound its targets to the instance's outputs
/// (see `outputs_bound`).
pub open spec fn stmt_effect(a: ModuleExec, b: ModuleExec, prog: Program, s: SimStmt) -> bool
    decreases s, 2int,
{
    match s {
        SimStmt::Assign { target, index, value, pulse, .. } => assign_done(a, b, target@, index, value, pulse, prog.defines),
        SimStmt::WaitTicks { ticks, .. } => {
            &&& b.c.tick == a.c.tick + (if ticks > 0 { ticks as int } else { 0 })
            &&& b.sim_time == time_after(a.sim_time, if ticks > 0 { ticks as nat } else { 0 })
            &&& forall|q: Seq<char>| #[trigger] b.pulses.get_spec(q) == pulse_after(a.pulses.get_spec(q), if ticks > 0 {
                ticks as nat
            } else {
                0
            })
            &&& forall|q: Seq<char>| #[trigger] b.clocks.get_spec(q) == clock_after_opt(a.clocks.get_spec(q), if ticks > 0 {
                ticks as nat
            } else {
                0
            })
            &&& forall|q: Seq<char>| a.out_bind.get_spec(q) is None && a.clocks.get_spec(q) is None ==> #[trigger] b.vars.get_spec(q)
                == var_after(a.vars.get_spec(q), a.pulses.get_spec(q), if ticks > 0 { ticks as nat } else { 0 })
            &&& ticks > 0 ==> forall|q: Seq<char>| #[trigger] a.out_bind.get_spec(q) is Some && a.pulses.get_spec(q) is None
                && a.clocks.get_spec(q) is None ==> b.vars.get_spec(q) == Some(b.c.val(a.out_bind.get_spec(q)->Some_0 as int) as i64)
        },
        SimStmt::WaitInit { .. } => b.sim_time == 0 && steady(b.c),
        SimStmt::WaitUntil { cond, .. } => eval_spec(cond, b.vars, b.var_buses, prog.defines, b.sim_time) matches Ok(v) && v != 0,
        SimStmt::MonReg { .. } => b == a,
        SimStmt::Call { line, call } => call_effect(a, b, call, prog.defines, line),
        SimStmt::If { cond, body, else_body, .. } => {
            proof {
                assert(decreases_to!(s => body));
                assert(decreases_to!(s => else_body));
            }
            match eval_spec(cond, a.vars, a.var_buses, prog.defines, a.sim_time) {
                Ok(c) => if c != 0 {
                    ran(a, b, prog, body@)
                } else {
                    ran(a, b, prog, else_body@)
                },
                Err(_) => false,
            }
        },
        SimStmt::While { cond, .. } => eval_spec(cond, b.vars, b.var_buses, prog.defines, b.sim_time) == Ok::<i64, ErrSpec>(0),
        SimStmt::For { cond, .. } => match cond {
            Some(c) => eval_spec(c, b.vars, b.var_buses, prog.defines, b.sim_time) == Ok::<i64, ErrSpec>(0),
            None => false,
        },
        SimStmt::CallBind { line, targets, callee, fmt, .. } => if callee@ == "scan"@ {
            targets@.len() == 1 && scanned(
                a,
                b,
                targets@[0],
                match fmt {
                    Some(f) => Some(f@),
                    None => None,
                },
            )
        } else {
            outputs_bound(b, targets@, prog.defines.entries@, line)
        },
        SimStmt::DeclVar { decls, .. } => {
            &&& b.c == a.c
            &&& forall|j: int| 0 <= j < decls@.len() ==> b.var_declared(#[trigger] decls@[j])
            &&& (forall|j: int| 0 <= j < decls@.len() ==> plain_name(#[trigger] decls@[j].0@)) ==> forall|j: int|
                0 <= j < decls@.len() ==> b.decl_value_held(#[trigger] decls@[j])
        },
    }
}

/// Statements that succeed in state `a` whatever else holds: a `?monitor` registration;
/// an assignment without a pulse whose target and value are valid; a `monitor` whose line
/// can be written; a `clock` that can start; a `scan()` that can read.
pub open spec fn success_owed(a: ModuleExec, prog: Program, s: SimStmt) -> bool {
    match s {
        SimStmt::MonReg { .. } => true,
        SimStmt::WaitTicks { ticks, .. } => a.mons@.len() == 0 && (ticks <= 0 || (inputs_declared(a) && tick_room(a.c.tick as int)
            && tick_room(a.c.tick + ticks - 1))),
        SimStmt::Assign { target, index, value, pulse, .. } => pulse is None && a.assign_keys(target@, index, prog.defines, false)
            is Some && eval_spec(value, a.vars, a.var_buses, prog.defines, a.sim_time) is Ok,
        SimStmt::Call { line, call } => (call.callee@ == "monitor"@ && a.monitor_line(call, prog.defines, line) is Some) || (
        call.callee@ == "clock"@ && clock_ok(a, call, prog.defines)) || (call.callee@ == "assert"@ && check_ok(a, call, prog.defines, 1))
            || (call.callee@ == "expect"@ && check_ok(a, call, prog.defines, 2)),
        SimStmt::CallBind { targets, callee, bind_args, params, fmt, .. } => callee@ == "scan"@ && params@.len() == 0
            && targets@.len() == 1 && bind_args@.len() == 0 && scan_ok(
            a,
            targets@[0],
            match fmt {
                Some(f) => Some(f@),
                None => None,
            },
        ),
        _ => false,
    }
}

/// Every statement of `body` is owed success (see `success_owed`) in the state that the
/// statements before it leave, whatever that state is among those their effects allow.
#[verifier::opaque]
pub open spec fn owed_list(a: ModuleExec, prog: Program, body: Seq<SimStmt>) -> bool
    decreases body.len(),
{
    body.len() == 0 || (success_owed(a, prog, body[0]) && forall|b: ModuleExec| #[trigger] stmt_effect(a, b, prog, body[0]) ==> owed_list(
        b,
        prog,
        body.drop_first(),
    ))
}

/// The first statement of an owed list is owed success, and after any state its effect
/// allows, the rest is owed.
pub proof fn lemma_owed_step(a: ModuleExec, prog: Program, body: Seq<SimStmt>, b: ModuleExec)
    requires
        owed_list(a, prog, body),
        body.len() > 0,
    ensures
        success_owed(a, prog, body[0]),
        stmt_effect(a, b, prog, body[0]) ==> owed_list(b, prog, body.drop_first()),
{
    reveal(owed_list);
}

/// The statements of `body` ran in order from `a` to `b`: there are states, starting at
/// `a` and ending at `b`, such that each statement took effect (see `stmt_effect`)
/// between consecutive ones.
pub open spec fn ran(a: ModuleExec, b: ModuleExec, prog: Program, body: Seq<SimStmt>) -> bool
    decreases body, 1int,
{
    exists|tr: Seq<ModuleExec>|
        tr.len() == body.len() + 1 && #[trigger] tr[0] == a && tr[body.len() as int] == b && forall|k: int|
            0 <= k < body.len() ==> stmt_effect(#[trigger] tr[k], tr[k + 1], prog, body[k])
}

/// An assignment took effect from `a` to `b`: each variable it sets (see `assign_keys`)
/// holds the value and has no clock; with `~ w` each has a pulse of width `w` (at least
/// 1, evaluated after the assignment), without it none; nothing else changed.
pub open spec fn assign_done(
    a: ModuleExec,
    b: ModuleExec,
    target: Seq<char>,
    index: Option<Box<Expr>>,
    value: Expr,
    pulse: Option<Expr>,
    defines: StrMap<i64>,
) -> bool {
    match (a.assign_keys(target, index, defines, pulse is Some), eval_spec(value, a.vars, a.var_buses, defines, a.sim_time)) {
        (Some(ks), Ok(v)) => {
            &&& b == (ModuleExec { vars: b.vars, clocks: b.clocks, pulses: b.pulses, ..a })
            &&& forall|q: Seq<char>| ks.contains(q) ==> #[trigger] b.vars.get_spec(q) == Some(v) && !b.clocks.has(q)
            &&& forall|q: Seq<char>| !ks.contains(q) ==> #[trigger] b.vars.get_spec(q) == a.vars.get_spec(q)
                && b.clocks.get_spec(q) == a.clocks.get_spec(q) && b.pulses.get_spec(q) == a.pulses.get_spec(q)
            &&& match pulse {
                Some(pe) => match eval_spec(pe, b.vars, b.var_buses, defines, b.sim_time) {
                    Ok(w) => w >= 1 && forall|q: Seq<char>| ks.contains(q) ==> #[trigger] b.pulses.get_spec(q) == Some(w),
                    Err(_) => false,
                },
                None => forall|q: Seq<char>| ks.contains(q) ==> !(#[trigger] b.pulses.has(q)),
            }
        },
        _ => false,
    }
}

impl ModuleExec {
    /// `x = e;`, `x[k] = e;` or `x = e ~ w;`: sets a scalar variable, one lane, or every
    /// lane of a bus variable (cancelling their clocks); with `~ w` the variable returns to
    /// 0 after `w` ticks, without it a pending pulse is cancelled.
    fn assign(&mut self, line: i32, target: &String, index: &Option<Box<Expr>>, value: &Expr, pulse: &Option<Expr>, defines: &StrMap<i64>) -> (r: RvResult<()>)
        requires
            old(self).inv(),
        ensures
            final(self).inv(),
            final(self).c == old(self).c,
            r is Ok ==> assign_done(*old(self), *final(self), target@, *index, *value, *pulse, *defines),
            (pulse is None && old(self).assign_keys(target@, *index, *defines, false) is Some && eval_spec(
                *value,
                old(self).vars,
                old(self).var_buses,
                *defines,
                old(self).sim_time,
            ) is Ok) ==> r is Ok,
    {
        let ghost a = *old(self);
        let v = match self.eval_e(value, defines) {
            Ok(v) => v,
            Err(x) => return Err(x),
        };
        let mut keys: Vec<String> = Vec::new();
        match index {
            Some(e) => {
                let w = match self.bus_width(target.as_str()) {
                    Some(w) => w as i64,
                    None => return fail(line, cat3("'", target.as_str(), "' is not a bus var; cannot index it")),
                };
                let k = match self.eval_e(e, defines) {
                    Ok(k) => k,
                    Err(x) => return Err(x),
                };
                if k < 0 || k >= w {
                    let tk = int_str(k);
                    let tw = int_str(w);
                    let m = cat5("bus var index out of range: ", target.as_str(), "[", tk.as_str(), "] (width ");
                    return fail(line, cat3(m.as_str(), tw.as_str(), ")"));
                }
                keys.push(lane_key(target.as_str(), k));
                proof {
                    assert(strs_view(keys@) =~= a.assign_keys(target@, *index, *defines, pulse is Some)->Some_0);
                }
            },
            None => match self.bus_width(target.as_str()) {
                Some(w) => {
                    if pulse.is_some() {
                        let m = cat5("pulse assignment is not supported on a whole bus var '", target.as_str(), "'; index a lane (e.g. '", target.as_str(), "[0] = v ~ w;')");
                        return fail(line, m);
                    }
                    let mut k: i32 = 0;
                    while k < w
                        invariant
                            0 <= k,
                            k <= w || k == 0,
                            strs_view(keys@) == Seq::new(k as nat, |q: int| lane_key_spec(target@, q)),
                        decreases w - k,
                    {
                        let ghost before = strs_view(keys@);
                        keys.push(lane_key(target.as_str(), k as i64));
                        proof {
                            assert(strs_view(keys@) =~= before.push(lane_key_spec(target@, k as int)));
                            assert(strs_view(keys@) =~= Seq::new((k + 1) as nat, |q: int| lane_key_spec(target@, q)));
                        }
                        k += 1;
                    }
                    proof {
                        assert(strs_view(keys@) =~= a.assign_keys(target@, *index, *defines, pulse is Some)->Some_0);
                    }
                },
                None => {
                    if !self.vars.contains_key(target.as_str()) {
                        return fail(line, cat2("undeclared variable: ", target.as_str()));
                    }
                    keys.push(target.clone());
                    proof {
                        assert(strs_view(keys@) =~= a.assign_keys(target@, *index, *defines, pulse is Some)->Some_0);
                    }
                },
            },
        }
        let ghost ks = strs_view(keys@);
        let mut i: usize = 0;
        while i < keys.len()
            invariant
                i <= keys@.len(),
                self.inv(),
                self.c == old(self).c,
                ks == strs_view(keys@),
                *self == (ModuleExec { vars: self.vars, clocks: self.clocks, ..a }),
                forall|q: Seq<char>| ks.subrange(0, i as int).contains(q) ==> #[trigger] self.vars.get_spec(q) == Some(v)
                    && !self.clocks.has(q),
                forall|q: Seq<char>| !ks.subrange(0, i as int).contains(q) ==> #[trigger] self.vars.get_spec(q)
                    == a.vars.get_spec(q) && self.clocks.get_spec(q) == a.clocks.get_spec(q),
            decreases keys@.len() - i,
        {
            let ghost k0 = keys@[i as int]@;
            self.vars.insert(keys[i].clone(), v);
            self.clocks.remove(keys[i].as_str());
            proof {
                assert forall|q: Seq<char>| ks.subrange(0, i + 1).contains(q) implies #[trigger] self.vars.get_spec(q)
                    == Some(v) && !self.clocks.has(q) by {
                    if q != k0 {
                        let j = choose|j: int| 0 <= j < i + 1 && #[trigger] ks.subrange(0, i + 1)[j] == q;
                        assert(ks.subrange(0, i as int)[j] == q);
                    }
                    assert(self.clocks.get_spec(q) is None);
                }
                assert forall|q: Seq<char>| !ks.subrange(0, i + 1).contains(q) implies #[trigger] self.vars.get_spec(q)
                    == a.vars.get_spec(q) && self.clocks.get_spec(q) == a.clocks.get_spec(q) by {
                    assert(ks.subrange(0, i + 1)[i as int] == k0);
                    if ks.subrange(0, i as int).contains(q) {
                        let j = choose|j: int| 0 <= j < i && #[trigger] ks.subrange(0, i as int)[j] == q;
                        assert(ks.subrange(0, i + 1)[j] == q);
                    }
                }
            }
            i += 1;
        }
        proof {
            assert(ks.subrange(0, ks.len() as int) =~= ks);
        }
        let ghost b1 = *self;
        match pulse {
            Some(we) => {
                let w = match self.eval_e(we, defines) {
                    Ok(w) => w,
                    Err(x) => return Err(x),
                };
                if w < 1 {
                    let t = int_str(w);
                    return fail(line, cat3("pulse width must be >= 1 (got ", t.as_str(), ")"));
                }
                let mut i: usize = 0;
                while i < keys.len()
                    invariant
                        i <= keys@.len(),
                        self.inv(),
                        self.c == old(self).c,
                        ks == strs_view(keys@),
                        *self == (ModuleExec { pulses: self.pulses, ..b1 }),
                        forall|q: Seq<char>| ks.subrange(0, i as int).contains(q) ==> #[trigger] self.pulses.get_spec(q) == Some(w),
                        forall|q: Seq<char>| !ks.subrange(0, i as int).contains(q) ==> #[trigger] self.pulses.get_spec(q)
                            == a.pulses.get_spec(q),
                    decreases keys@.len() - i,
                {
                    let ghost k0 = keys@[i as int]@;
                    self.pulses.insert(keys[i].clone(), w);
                    proof {
                        assert forall|q: Seq<char>| ks.subrange(0, i + 1).contains(q) implies #[trigger] self.pulses.get_spec(q)
                            == Some(w) by {
                            if q != k0 {
                                let j = choose|j: int| 0 <= j < i + 1 && #[trigger] ks.subrange(0, i + 1)[j] == q;
                                assert(ks.subrange(0, i as int)[j] == q);
                            }
                        }
                        assert forall|q: Seq<char>| !ks.subrange(0, i + 1).contains(q) implies #[trigger] self.pulses.get_spec(q)
                            == a.pulses.get_spec(q) by {
                            assert(ks.subrange(0, i + 1)[i as int] == k0);
                            if ks.subrange(0, i as int).contains(q) {
                                let j = choose|j: int| 0 <= j < i && #[trigger] ks.subrange(0, i as int)[j] == q;
                                assert(ks.subrange(0, i + 1)[j] == q);
                            }
                        }
                    }
                    i += 1;
                }
                proof {
                    assert(ks.subrange(0, ks.len() as int) =~= ks);
                }
            },
            None => {
                let mut i: usize = 0;
                while i < keys.len()
                    invariant
                        i <= keys@.len(),
                        self.inv(),
                        self.c == old(self).c,
                        ks == strs_view(keys@),
                        *self == (ModuleExec { pulses: self.pulses, ..b1 }),
                        forall|q: Seq<char>| ks.subrange(0, i as int).contains(q) ==> !(#[trigger] self.pulses.has(q)),
                        forall|q: Seq<char>| !ks.subrange(0, i as int).contains(q) ==> #[trigger] self.pulses.get_spec(q)
                            == a.pulses.get_spec(q),
                    decreases keys@.len() - i,
                {
                    let ghost k0 = keys@[i as int]@;
                    let ghost p0 = self.pulses;
                    self.pulses.remove(keys[i].as_str());
                    proof {
                        assert forall|q: Seq<char>| ks.subrange(0, i + 1).contains(q) implies !(#[trigger] self.pulses.has(q)) by {
                            if q != k0 {
                                let j = choose|j: int| 0 <= j < i + 1 && #[trigger] ks.subrange(0, i + 1)[j] == q;
                                assert(ks.subrange(0, i as int)[j] == q);
                                assert(ks.subrange(0, i as int).contains(q));
                                assert(!p0.has(q));
                            }
                            assert(self.pulses.get_spec(q) is None);
                        }
                        assert forall|q: Seq<char>| !ks.subrange(0, i + 1).contains(q) implies #[trigger] self.pulses.get_spec(q)
                            == a.pulses.get_spec(q) by {
                            assert(ks.subrange(0, i + 1)[i as int] == k0);
                            if ks.subrange(0, i as int).contains(q) {
                                let j = choose|j: int| 0 <= j < i && #[trigger] ks.subrange(0, i as int)[j] == q;
                                assert(ks.subrange(0, i + 1)[j] == q);
                            }
                        }
                    }
                    i += 1;
                }
                proof {
                    assert(ks.subrange(0, ks.len() as int) =~= ks);
                }
            },
        }
        Ok(())
    }

    /// A system call statement: `monitor`, `wait(n)` (ticks without advancing `$time` or
    /// firing monitors), `clock`, `assert`, `expect`.
    #[verifier::spinoff_prover]
    #[verifier::rlimit(30)]
    fn sys_call(&mut self, line: i32, call: &CallData, defines: &StrMap<i64>) -> (r: RvResult<()>)
        requires
            old(self).inv(),
        ensures
            final(self).inv(),
            final(self).c.cfg == old(self).c.cfg,
            r is Ok ==> call_effect(*old(self), *final(self), *call, *defines, line),
            call.callee@ == "monitor"@ ==> (r is Ok) == (old(self).monitor_line(*call, *defines, line) is Some),
            call.callee@ == "clock"@ ==> (r is Ok) == clock_ok(*old(self), *call, *defines),
            call.callee@ == "assert"@ ==> (r is Ok) == check_ok(*old(self), *call, *defines, 1),
            call.callee@ == "expect"@ ==> (r is Ok) == check_ok(*old(self), *call, *defines, 2),
    {
        proof {
            reveal_strlit("monitor");
            reveal_strlit("clock");
            reveal_strlit("wait");
            reveal_strlit("assert");
            reveal_strlit("expect");
            assert("monitor"@.len() != "assert"@.len() && "monitor"@.len() != "expect"@.len());
            assert("wait"@.len() != "assert"@.len() && "wait"@.len() != "expect"@.len());
            assert("clock"@.len() != "assert"@.len() && "clock"@.len() != "expect"@.len());
            assert("assert"@[0] != "expect"@[0]);
        }
        let callee = call.callee.as_str();
        if str_eq(callee, "monitor") {
            self.do_monitor(line, call, defines)
        } else if str_eq(callee, "wait") {
            proof {
                assert(call.callee@[0] != "clock"@[0]);
            }
            if call.args.len() != 1 || call.has_fmt {
                return fail(line, own("wait(n) takes exactly one numeric argument"));
            }
            let n = match self.eval_e(&call.args[0], defines) {
                Ok(v) => v,
                Err(x) => return Err(x),
            };
            if n < 0 {
                return fail(line, own("wait(n): n must be >= 0"));
            }
            proof {
                assert(call.callee@[0] != "clock"@[0]);
            }
            self.run_ticks(n, false)
        } else if str_eq(callee, "clock") {
            self.do_clock(line, call, defines)
        } else if str_eq(callee, "assert") {
            proof {
                assert(call.callee@[0] != "expect"@[0]);
                assert(call.callee@.len() != "clock"@.len());
                if call.args@.len() == 1 {
                    assert(check_ok(*self, *call, *defines, 1) <==> (!call.has_fmt && eval_spec(call.args@[0], self.vars, self.var_buses,
                        *defines, self.sim_time) is Ok));
                }
            }
            self.do_assert(line, call, defines)
        } else if str_eq(callee, "expect") {
            proof {
                assert(call.callee@.len() != "clock"@.len());
                if call.args@.len() == 2 {
                    assert(check_ok(*self, *call, *defines, 2) <==> (!call.has_fmt && eval_spec(call.args@[0], self.vars, self.var_buses,
                        *defines, self.sim_time) is Ok && eval_spec(call.args@[1], self.vars, self.var_buses, *defines, self.sim_time)
                        is Ok));
                }
            }
            self.do_expect(line, call, defines)
        } else {
            fail(line, cat2("unknown system function: ", callee))
        }
    }

    /// Executes one testbench statement.
    pub fn exec(&mut self, prog: &Program, s: &SimStmt) -> (r: RvResult<()>)
        requires
            old(self).inv(),
            logics_ok(prog.logics),
        ensures
            final(self).inv(),
            final(self).c.cfg == old(self).c.cfg,
            r is Ok ==> stmt_effect(*old(self), *final(self), *prog, *s),
            success_owed(*old(self), *prog, *s) ==> r is Ok,
        decreases s, 1int,
    {
        let defines = &prog.defines;
        match s {
            SimStmt::DeclVar { line, decls } => self.decl_vars(*line, decls, defines),
            SimStmt::Assign { line, target, index, value, pulse } => self.assign(*line, target, index, value, pulse, defines),
            SimStmt::CallBind { line, targets, callee, bind_args, params, fmt } => {
                if str_eq(callee.as_str(), "scan") {
                    if params.len() > 0 {
                        return fail(*line, own("scan() does not take generic '#(...)' parameters"));
                    }
                    if targets.len() != 1 {
                        return fail(*line, own("scan() returns a single value; use 'v = scan(...)' not a tuple binding"));
                    }
                    let f: Option<&str> = match fmt {
                        Some(x) => Some(x.as_str()),
                        None => None,
                    };
                    self.do_scan(*line, &targets[0], bind_args, f)
                } else {
                    if fmt.is_some() {
                        return fail(*line, own("format string is only allowed for scan()"));
                    }
                    self.do_call_bind(prog, *line, targets, callee.as_str(), bind_args, params)
                }
            },
            SimStmt::WaitTicks { ticks, .. } => {
                match self.run_ticks(*ticks, true) {
                    Ok(()) => {},
                    Err(x) => return Err(x),
                }
                self.fire_monitors(defines)
            },
            SimStmt::WaitInit { line } => {
                match self.do_init(*line) {
                    Ok(()) => {},
                    Err(x) => return Err(x),
                }
                self.fire_monitors(defines)
            },
            SimStmt::WaitUntil { line, cond } => {
                match self.do_until(*line, cond, defines) {
                    Ok(()) => {},
                    Err(x) => return Err(x),
                }
                self.fire_monitors(defines)
            },
            SimStmt::MonReg { .. } => Ok(()),
            SimStmt::Call { line, call } => self.sys_call(*line, call, defines),
            SimStmt::If { cond, body, else_body, .. } => {
                let c = match self.eval_e(cond, defines) {
                    Ok(v) => v,
                    Err(x) => return Err(x),
                };
                if c != 0 {
                    self.exec_list(prog, body)
                } else {
                    self.exec_list(prog, else_body)
                }
            },
            SimStmt::While { line, cond, body } => {
                let mut guard: i64 = 10_000_000;
                loop
                    invariant
                        self.inv(),
                        logics_ok(prog.logics),
                        self.c.cfg == old(self).c.cfg,
                        0 < guard <= 10_000_000,
                        *s == (SimStmt::While { line: *line, cond: *cond, body: *body }),
                        *defines == prog.defines,
                    ensures
                        self.inv(),
                        self.c.cfg == old(self).c.cfg,
                        eval_spec(*cond, self.vars, self.var_buses, prog.defines, self.sim_time) == Ok::<i64, ErrSpec>(0),
                    decreases guard,
                {
                    let c = match self.eval_e(cond, defines) {
                        Ok(v) => v,
                        Err(x) => return Err(x),
                    };
                    if c == 0 {
                        break;
                    }
                    proof {
                        assert(s->While_body == *body);
                        assert(decreases_to!(*s => s->While_body));
                    }
                    match self.exec_list(prog, body) {
                        Ok(()) => {},
                        Err(x) => return Err(x),
                    }
                    guard -= 1;
                    if guard == 0 {
                        return fail(*line, own("while loop exceeded iteration limit"));
                    }
                }
                Ok(())
            },
            SimStmt::For { line, init, cond, post, body } => {
                if let Some(b) = init {
                    match self.exec(prog, b) {
                        Ok(()) => {},
                        Err(x) => return Err(x),
                    }
                }
                let mut guard: i64 = 10_000_000;
                loop
                    invariant
                        self.inv(),
                        logics_ok(prog.logics),
                        self.c.cfg == old(self).c.cfg,
                        0 < guard <= 10_000_000,
                        *s == (SimStmt::For { line: *line, init: *init, cond: *cond, post: *post, body: *body }),
                        *defines == prog.defines,
                    ensures
                        self.inv(),
                        self.c.cfg == old(self).c.cfg,
                        cond is Some,
                        eval_spec(cond->Some_0, self.vars, self.var_buses, prog.defines, self.sim_time) == Ok::<i64, ErrSpec>(0),
                    decreases guard,
                {
                    let go = match cond {
                        Some(c) => match self.eval_e(c, defines) {
                            Ok(v) => v != 0,
                            Err(x) => return Err(x),
                        },
                        None => true,
                    };
                    if !go {
                        break;
                    }
                    proof {
                        assert(s->For_body == *body);
                        assert(decreases_to!(*s => s->For_body));
                    }
                    match self.exec_list(prog, body) {
                        Ok(()) => {},
                        Err(x) => return Err(x),
                    }
                    if let Some(p) = post {
                        proof {
                            assert(s->For_post == *post);
                            assert(decreases_to!(*s => s->For_post));
                        }
                        match self.exec(prog, p) {
                            Ok(()) => {},
                            Err(x) => return Err(x),
                        }
                    }
                    guard -= 1;
                    if guard == 0 {
                        return fail(*line, own("for loop exceeded iteration limit"));
                    }
                }
                Ok(())
            },
        }
    }

    /// Runs module `m`: its declarations, then (with its `?monitor` registrations
    /// hoisted, which only adds monitors) its simulation body.
    pub fn run(&mut self, prog: &Program, m: &ModuleDef) -> (r: RvResult<()>)
        requires
            old(self).inv(),
            logics_ok(prog.logics),
        ensures
            final(self).inv(),
            r is Ok ==> exists|p: ModuleExec, q: ModuleExec|
                #![trigger ran(*old(self), p, *prog, m.pre@), ran(q, *final(self), *prog, m.sim@)]
                ran(*old(self), p, *prog, m.pre@) && q == (ModuleExec { mons: q.mons, ..p }) && q.mons@.len()
                    >= p.mons@.len() && ran(q, *final(self), *prog, m.sim@),
            (forall|k: int| 0 <= k < m.pre@.len() ==> (#[trigger] m.pre@[k]) is MonReg) && (forall|k: int|
                0 <= k < m.sim@.len() ==> (#[trigger] m.sim@[k]) is MonReg) ==> r is Ok,
            (owed_list(*old(self), *prog, m.pre@) && forall|p: ModuleExec, q: ModuleExec|
                #![trigger ran(*old(self), p, *prog, m.pre@), owed_list(q, *prog, m.sim@)]
                ran(*old(self), p, *prog, m.pre@) && q == (ModuleExec { mons: q.mons, ..p }) ==> owed_list(q, *prog, m.sim@)) ==> r is Ok,
    {
        match self.exec_list(prog, &m.pre) {
            Ok(()) => {},
            Err(x) => return Err(x),
        }
        let ghost p = *self;
        let mut mons: Vec<(i32, CallData)> = Vec::new();
        Self::collect_monitors(&m.sim, &mut mons);
        let mut i: usize = 0;
        while i < mons.len()
            invariant
                i <= mons@.len(),
                self.inv(),
                *self == (ModuleExec { mons: self.mons, ..p }),
                self.mons@.len() >= p.mons@.len(),
            decreases mons@.len() - i,
        {
            self.mons.push((mons[i].0, mons[i].1.clone()));
            i += 1;
        }
        let ghost q = *self;
        proof {
            if owed_list(*old(self), *prog, m.pre@) && forall|p2: ModuleExec, q2: ModuleExec|
                #![trigger ran(*old(self), p2, *prog, m.pre@), owed_list(q2, *prog, m.sim@)]
                ran(*old(self), p2, *prog, m.pre@) && q2 == (ModuleExec { mons: q2.mons, ..p2 }) ==> owed_list(q2, *prog, m.sim@) {
                assert(ran(*old(self), p, *prog, m.pre@));
                assert(owed_list(q, *prog, m.sim@));
            }
        }
        let r = self.exec_list(prog, &m.sim);
        proof {
            if r is Ok {
                assert(ran(*old(self), p, *prog, m.pre@) && ran(q, *self, *prog, m.sim@));
            }
        }
        r
    }
}

/// The circuit limits, with `INIT_TIMEOUT`, `BURNOUT_LIMIT`, `BURNOUT_WINDOW` and
/// `BURNOUT_COOLDOWN` taken from the program's defines when present (the last three cut
/// to 32 bits).
pub fn config_from(defines: &StrMap<i64>) -> (r: Config)
    ensures
        r.init_timeout == match defines.get_spec("INIT_TIMEOUT"@) {
            Some(v) => v,
            None => 1000,
        },
{
    let mut cfg = Config::default_config();
    proof {
        reveal_strlit("INIT_TIMEOUT");
    }
    if let Some(v) = defines.get("INIT_TIMEOUT") {
        cfg.init_timeout = *v;
    }
    if let Some(v) = defines.get("BURNOUT_LIMIT") {
        cfg.burnout_limit = *v as i32;
    }
    if let Some(v) = defines.get("BURNOUT_WINDOW") {
        cfg.burnout_window = *v as i32;
    }
    if let Some(v) = defines.get("BURNOUT_COOLDOWN") {
        cfg.burnout_cooldown = *v as i32;
    }
    cfg
}

/// The warning for a program with no module: `no module to run` (none when there are
/// modules).
pub fn no_module_warning(n_modules: usize) -> (r: Option<Warning>)
    ensures
        (r is Some) == (n_modules == 0),
        r matches Some(w) ==> w.line == 0 && w.rule is None && w.msg@ == "no module to run"@,
{
    if n_modules == 0 {
        Some(Warning { line: 0, rule: None, msg: own("no module to run") })
    } else {
        None
    }
}

/// The header written before a module's output when several modules run (not in JSON
/// mode): `=== module name ===`.
pub fn module_header(name: &str, many: bool, json: bool) -> (r: Option<String>)
    ensures
        (r is Some) == (many && !json),
        r matches Some(s) ==> s@ == "=== module "@ + name@ + " ==="@,
{
    if many && !json {
        Some(cat3("=== module ", name, " ==="))
    } else {
        None
    }
}

/// The check counts of all modules so far after adding those of one more run (each
/// count wraps at the `i64` bounds).
pub fn add_check_counts(total: i64, failed: i64, ex: &ModuleExec) -> (r: (i64, i64))
    ensures
        r == (total.wrapping_add(ex.assert_total), failed.wrapping_add(ex.assert_failed)),
{
    (total.wrapping_add(ex.assert_total), failed.wrapping_add(ex.assert_failed))
}

/// The end of a run of all modules: with self-checks, the summary (a JSON line in JSON
/// mode, else `all passed` when none failed) and an error when some failed.
pub fn finish_checks(total: i64, failed: i64, json: bool) -> (r: (Vec<String>, RvResult<()>))
    ensures
        strs_view(r.0@) == if total <= 0 {
            seq![]
        } else if json {
            seq!["{\"kind\":\"summary\",\"total\":"@ + int_text(total as int, 10) + ",\"failed\":"@ + int_text(
                failed as int,
                10,
            ) + "}"@]
        } else if failed > 0 {
            seq![]
        } else {
            seq!["[assert] "@ + int_text(total as int, 10) + " assertion(s), all passed"@]
        },
        (r.1 is Err) <==> (total > 0 && failed > 0),
        r.1 matches Err(e) ==> e.line == 0 && e.col == 0 && e.len == 0 && e.msg@ == "assertions: "@ + int_text(failed as int, 10) + " of "@
            + int_text(total as int, 10) + " failed"@,
{
    let mut lines: Vec<String> = Vec::new();
    if total > 0 {
        let tt = int_str(total);
        let tf = int_str(failed);
        if json {
            let m = cat5("{\"kind\":\"summary\",\"total\":", tt.as_str(), ",\"failed\":", tf.as_str(), "}");
            lines.push(m);
        }
        if failed > 0 {
            let m = cat4("assertions: ", tf.as_str(), " of ", tt.as_str());
            return (lines, fail(0, cat2(m.as_str(), " failed")));
        }
        if !json {
            lines.push(cat3("[assert] ", tt.as_str(), " assertion(s), all passed"));
        }
    }
    (lines, Ok(()))
}

/// A warning as a JSON line: `{"kind":"lint","rule":...,"line":N,"msg":...}` for a lint,
/// else `{"kind":"warning","line":N,"msg":...}`.
pub fn warning_json(w: &Warning) -> (r: String)
    ensures
        r@ == "{\"kind\":"@ + match w.rule {
            Some(rule) => "\"lint\",\"rule\":"@ + json_str(rule@),
            None => "\"warning\""@,
        } + ",\"line\":"@ + int_text(w.line as int, 10) + ",\"msg\":"@ + json_str(w.msg@) + "}"@,
{
    let mut s = own("{\"kind\":");
    match &w.rule {
        Some(rule) => {
            s.append("\"lint\",\"rule\":");
            json_escape_into(rule.as_str(), &mut s);
        },
        None => {
            s.append("\"warning\"");
        },
    }
    s.append(",\"line\":");
    s.append(int_str(w.line as i64).as_str());
    s.append(",\"msg\":");
    json_escape_into(w.msg.as_str(), &mut s);
    s.append("}");
    s
}

/// An error as a JSON line `{"kind":"error","line":N,"msg":...}`.
pub fn error_json(e: &RvError) -> (r: String)
    ensures
        r@ == "{\"kind\":\"error\",\"line\":"@ + int_text(e.line as int, 10) + ",\"msg\":"@ + json_str(e.msg@)
            + "}"@,
{
    let mut s = own("{\"kind\":\"error\",\"line\":");
    s.append(int_str(e.line as i64).as_str());
    s.append(",\"msg\":");
    json_escape_into(e.msg.as_str(), &mut s);
    s.append("}");
    s
}

/// The report kind and message of a warning: `lint` with `rule: msg` for a lint, else
/// `warning` with the message.
pub fn warning_head(w: &Warning) -> (r: (String, String))
    ensures
        w.rule is None ==> r.0@ == "warning"@ && r.1@ == w.msg@,
        w.rule matches Some(rule) ==> r.0@ == "lint"@ && r.1@ == rule@ + ": "@ + w.msg@,
{
    match &w.rule {
        Some(rule) => (own("lint"), cat3(rule.as_str(), ": ", w.msg.as_str())),
        None => {
            proof {
                reveal_strlit("warning");
            }
            (own("warning"), own(w.msg.as_str()))
        },
    }
}

/// Whether a testbench statement calls `scan()`: a binding from `scan`, or a statement
/// of a nested block or of a `for` header that does.
pub open spec fn stmt_scans(s: SimStmt) -> bool
    decreases s, 1int,
{
    match s {
        SimStmt::CallBind { callee, .. } => callee@ == "scan"@,
        SimStmt::If { body, else_body, .. } => {
            proof {
                assert(decreases_to!(s => body));
                assert(decreases_to!(s => else_body));
            }
            body_scans(body@) || body_scans(else_body@)
        },
        SimStmt::While { body, .. } => {
            proof {
                assert(decreases_to!(s => body));
            }
            body_scans(body@)
        },
        SimStmt::For { init, post, body, .. } => {
            proof {
                assert(decreases_to!(s => body));
            }
            (match init {
                Some(b) => stmt_scans(*b),
                None => false,
            }) || (match post {
                Some(b) => stmt_scans(*b),
                None => false,
            }) || body_scans(body@)
        },
        _ => false,
    }
}

/// Whether some statement of `b` calls `scan()`.
pub open spec fn body_scans(b: Seq<SimStmt>) -> bool
    decreases b, 0int,
{
    exists|i: int| 0 <= i < b.len() && stmt_scans(#[trigger] b[i])
}

/// Whether a list of testbench statements calls `scan()` (nested ones included).
pub fn body_uses_scan(body: &Vec<SimStmt>) -> (r: bool)
    ensures
        r == body_scans(body@),
    decreases body, 0int,
{
    let mut i: usize = 0;
    while i < body.len()
        invariant
            i <= body@.len(),
            forall|j: int| 0 <= j < i ==> !stmt_scans(#[trigger] body@[j]),
        decreases body@.len() - i,
    {
        proof {
            assert(decreases_to!(body => body@[i as int]));
        }
        if stmt_uses_scan(&body[i]) {
            return true;
        }
        i += 1;
    }
    false
}

/// Whether a testbench statement calls `scan()` (nested ones included).
pub fn stmt_uses_scan(s: &SimStmt) -> (r: bool)
    ensures
        r == stmt_scans(*s),
    decreases s, 1int,
{
    match s {
        SimStmt::CallBind { callee, .. } => {
            proof {
                reveal_strlit("scan");
            }
            str_eq(callee.as_str(), "scan")
        },
        SimStmt::If { body, else_body, .. } => body_uses_scan(body) || body_uses_scan(else_body),
        SimStmt::While { body, .. } => body_uses_scan(body),
        SimStmt::For { init, post, body, .. } => {
            let a = match init {
                Some(b) => stmt_uses_scan(b),
                None => false,
            };
            let c = match post {
                Some(b) => stmt_uses_scan(b),
                None => false,
            };
            a || c || body_uses_scan(body)
        },
        _ => false,
    }
}

/// Whether some module of the program calls `scan()`, in its module-level statements or
/// its sim block.
pub fn program_uses_scan(prog: &Program) -> (r: bool)
    ensures
        r == exists|m: int| 0 <= m < prog.modules@.len() && (body_scans((#[trigger] prog.modules@[m]).pre@)
            || body_scans(prog.modules@[m].sim@)),
{
    let mut i: usize = 0;
    while i < prog.modules.len()
        invariant
            i <= prog.modules@.len(),
            forall|m: int| 0 <= m < i ==> !body_scans((#[trigger] prog.modules@[m]).pre@) && !body_scans(
                prog.modules@[m].sim@,
            ),
        decreases prog.modules@.len() - i,
    {
        if body_uses_scan(&prog.modules[i].pre) || body_uses_scan(&prog.modules[i].sim) {
            return true;
        }
        i += 1;
    }
    false
}

} // verus!
