//! Whole programs run through the library as the command line runs them: lexing,
//! parsing, elaboration and simulation, with diagnostics rendered as the command line
//! renders them.

use lib::ast::Program;
use lib::diag::{render_report, RvError, RvResult, Warning};
use lib::lexer::tokenize;
use lib::parser::{ParseStep, Parser};
use lib::sim::{config_from, error_json, finish_checks, warning_head, warning_json, ModuleExec, Out};

/// What a run gives back: the exit code the command line would use, and both streams.
struct Outcome {
    code: i32,
    stdout: String,
    stderr: String,
}

fn compile(src: &str) -> RvResult<Program> {
    let toks = tokenize(src)?;
    let mut prog = Program::new();
    let mut ps = Parser::new(toks, String::new());
    match ps.parse_file(&mut prog)? {
        ParseStep::Done => Ok(prog),
        ParseStep::Include { name, line, .. } => Err(Parser::include_error(&name, line)),
    }
}

fn push_error(err: &mut String, lines: &[&str], e: &RvError, json: bool) {
    if json {
        err.push_str(&error_json(e));
        err.push('\n');
        return;
    }
    let text = if e.line >= 1 && (e.line as usize) <= lines.len() { Some(lines[e.line as usize - 1]) } else { None };
    for l in render_report("error", "t.rv", e.line, e.col, e.len, &e.msg, text) {
        err.push_str(&l);
        err.push('\n');
    }
}

fn push_warning(err: &mut String, lines: &[&str], w: &Warning, json: bool) {
    if json {
        err.push_str(&warning_json(w));
        err.push('\n');
        return;
    }
    let (kind, msg) = warning_head(w);
    let text = if w.line >= 1 && (w.line as usize) <= lines.len() { Some(lines[w.line as usize - 1]) } else { None };
    for l in render_report(&kind, "t.rv", w.line, 0, 0, &msg, text) {
        err.push_str(&l);
        err.push('\n');
    }
}

fn run_full(src: &str, input: &str, json: bool, werror: bool) -> Outcome {
    let lines: Vec<&str> = src.lines().collect();
    let mut out = String::new();
    let mut err = String::new();
    let mut warned = false;
    let prog = match compile(src) {
        Ok(p) => p,
        Err(e) => {
            push_error(&mut err, &lines, &e, json);
            return Outcome { code: 1, stdout: out, stderr: err };
        }
    };
    for w in &prog.warnings {
        warned = true;
        push_warning(&mut err, &lines, w, json);
    }
    let cfg = config_from(&prog.defines);
    let many = prog.modules.len() > 1;
    let mut data: Vec<u8> = input.as_bytes().to_vec();
    let mut total = 0i64;
    let mut failed = 0i64;
    for m in &prog.modules {
        if many && !json {
            out.push_str(&format!("=== module {} ===\n", m.name));
        }
        let mut ex = ModuleExec::new(m.name.clone(), cfg, false, false, many, json, data.clone());
        let res = ex.run(&prog, m);
        for o in ex.out.drain(..) {
            match o {
                Out::Stdout(s) => out.push_str(&s),
                Out::Stderr(s) => {
                    err.push_str(&s);
                    err.push('\n');
                }
                Out::Warn(w) => {
                    warned = true;
                    push_warning(&mut err, &lines, &w, json);
                }
            }
        }
        data = data.split_off(ex.in_pos.min(data.len()));
        if let Err(e) = res {
            push_error(&mut err, &lines, &e, json);
            return Outcome { code: 1, stdout: out, stderr: err };
        }
        total += ex.assert_total;
        failed += ex.assert_failed;
    }
    let (ls, r) = finish_checks(total, failed, json);
    for l in ls {
        err.push_str(&l);
        err.push('\n');
    }
    if let Err(e) = r {
        push_error(&mut err, &lines, &e, json);
        return Outcome { code: 1, stdout: out, stderr: err };
    }
    if werror && warned {
        let e = RvError { line: 0, col: 0, len: 0, msg: "warnings treated as errors (-W error)".to_string() };
        push_error(&mut err, &lines, &e, json);
        return Outcome { code: 1, stdout: out, stderr: err };
    }
    Outcome { code: 0, stdout: out, stderr: err }
}

fn run_source(src: &str) -> (i32, String) {
    let o = run_full(src, "", false, false);
    (o.code, o.stderr)
}

fn expect_error(tag: &str, src: &str, want: &str) {
    let (code, stderr) = run_source(src);
    assert_eq!(code, 1, "{tag}: expected failure, stderr:\n{stderr}");
    assert!(stderr.contains(want), "{tag}: unexpected stderr:\n{stderr}");
}

fn expect_ok(tag: &str, src: &str) {
    let (code, stderr) = run_source(src);
    assert_eq!(code, 0, "{tag}: expected success, stderr:\n{stderr}");
}

#[test]
fn module_parens_is_error() {
    expect_error("parens", "module m(){ var a; sim{ a=0; assert(a==0); } }", "module takes no arguments");
}

#[test]
fn caret_diagnostic_points_at_exact_column() {
    let src = "logic g(input x, output y){\n    x - r2 = y;\n}\n";
    let (code, stderr) = run_source(src);
    assert_eq!(code, 1, "stderr:\n{stderr}");
    assert!(stderr.contains(":2:12"), "stderr:\n{stderr}");
    assert!(stderr.contains("-->"), "stderr:\n{stderr}");
    assert!(stderr.contains("x - r2 = y;"), "stderr:\n{stderr}");
    assert!(stderr.contains('^'), "stderr:\n{stderr}");
}

#[test]
fn caret_diagnostic_line_level_for_elaboration_error() {
    let src = "logic g(input x, output y){\n    x - d2q - y;\n}\n\
               module m{ var a,b; sim{ a=0; b=g(a); #init } }";
    let (code, stderr) = run_source(src);
    assert_eq!(code, 1, "stderr:\n{stderr}");
    assert!(stderr.contains("unknown element 'q'"), "stderr:\n{stderr}");
    assert!(stderr.contains("-->") && stderr.contains(":2"), "stderr:\n{stderr}");
    assert!(stderr.contains("x - d2q - y;"), "stderr:\n{stderr}");
    assert!(stderr.contains('^'), "stderr:\n{stderr}");
}

#[test]
fn element_name_collision_is_error() {
    for (tag, src) in [
        ("reg_cd", "logic g(input a, output y){ reg cd; a-t-y; }"),
        ("port_d", "logic g(input a, input d, output y){ a-t-y; }"),
        ("wire_r", "logic g(input a, output y){ wire r; a-t-y; }"),
        ("reg_td", "logic g(input a, output y){ reg td; a-t-y; }"),
    ] {
        expect_error(tag, src, "collides with an element name");
    }
}

#[test]
fn block_element_is_removed() {
    for (tag, body, want) in [
        ("chain_b", "a - b - y;", "unknown element 'b'"),
        ("reg_b", "reg p = b; a-p; p-y;", "unknown element 'b'"),
        ("const_15b", "const reg n = 15b; n-y;", "write a bare number instead"),
        ("const_3d", "const reg n = 3d; n-y;", "write a bare number instead"),
        ("const_elem_only", "const reg n = d; n-y;", "bare signal strength"),
        ("digitless_0b", "const reg n = 0b; n-y;", "expected binary digits after '0b'"),
    ] {
        let src = format!(
            "logic g(input a, output y){{ {} }}\nmodule t{{ var u,v; sim{{ u=0; v=g(u); #init }} }}",
            body
        );
        expect_error(tag, &src, want);
    }
}

#[test]
fn seq_reg_post_assignment_is_error() {
    for (tag, src, want) in [
        (
            "post_rep",
            "logic g(input a, output y){ reg m; a-m; m=r; m-y; }\nmodule t{ var u,v; sim{ u=0; v=g(u); #init } }",
            "must be initialized at its declaration",
        ),
        (
            "post_comp",
            "logic g(input a, output y){ reg cmp; a-cmp; cmp=cd; cmp-y; }\nmodule t{ var u,v; sim{ u=0; v=g(u); #init } }",
            "must be initialized at its declaration",
        ),
        (
            "post_torch",
            "logic g(input a, output y){ reg z; a-z; z=t; z-y; }\nmodule t{ var u,v; sim{ u=0; v=g(u); #init } }",
            "a torch belongs inside a wire/chain",
        ),
    ] {
        expect_error(tag, src, want);
    }
}

#[test]
fn seq_reg_declaration_init_is_accepted() {
    expect_ok(
        "decl_rep",
        "logic g(input a, output y){ reg m = r; a-m; m-y; }\nmodule t{ var u,v; sim{ u=0; v=g(u); #init } }",
    );
}

#[test]
fn bare_strength_on_non_const_is_error() {
    for (tag, src) in [
        ("bare_plain", "logic g(input a, output y){ reg n = 15; a-t-y; }\nmodule t{ var u,v; sim{ u=0; v=g(u); #init } }"),
        (
            "bare_mutable",
            "logic g(input a, output y){ mutable reg n = 15; a-t-y; }\nmodule t{ var u,v; sim{ u=0; v=g(u); #init } }",
        ),
    ] {
        expect_error(tag, src, "signal-strength literals are only allowed on const reg");
    }
}

#[test]
fn bare_strength_out_of_range_is_error() {
    expect_error(
        "range",
        "logic g(input a, output y){ const reg n = 16; a-t-y; }\nmodule t{ var u,v; sim{ u=0; v=g(u); #init } }",
        "const signal strength out of range 0-15: 16",
    );
}

#[test]
fn zero_tick_repeater_as_reg_is_error() {
    let src = "logic g(input a, output y){ reg m = r0; a-m; m-y; }\nmodule t{ var u,v; sim{ u=0; v=g(u); #init } }";
    let (code, stderr) = run_source(src);
    assert_eq!(code, 1, "stderr:\n{stderr}");
    assert!(stderr.contains("0-tick repeater") && stderr.contains("inline"), "stderr:\n{stderr}");
}

#[test]
fn zero_tick_repeater_inline_is_accepted() {
    expect_ok("r0_inline", "logic g(input a, output y){ a-r0-y; }\nmodule t{ var u,v; sim{ u=0; v=g(u); #init } }");
}

#[test]
fn observer_as_reg_is_error() {
    expect_error(
        "obs_reg",
        "logic g(input a, output y){ reg p = o; a-p; p-y; }\nmodule t{ var u,v; sim{ u=0; v=g(u); #init } }",
        "observer belongs inline",
    );
}

#[test]
fn observer_inline_is_accepted() {
    expect_ok("obs_inline", "logic g(input a, output y){ a-o-y; }\nmodule t{ var u,v; sim{ u=0; v=g(u); #init } }");
}

#[test]
fn observer_variant_as_reg_is_error() {
    expect_error(
        "obs_variant",
        "logic g(input a, output y){ reg p = oe; a-p; p-y; }\nmodule t{ var u,v; sim{ u=0; v=g(u); #init } }",
        "observer belongs inline",
    );
}

#[test]
fn observer_variant_name_collides() {
    expect_error(
        "obs_name",
        "logic g(input a, output y){ reg on; a-on; on-y; }\nmodule t{ var u,v; sim{ u=0; v=g(u); #init } }",
        "collides with an element name",
    );
}

#[test]
fn assert_all_passed_exits_zero() {
    let (code, stderr) = run_source("module m{ var a; sim{ a=0; assert(a==0); expect(a, 0); } }");
    assert_eq!(code, 0, "stderr:\n{stderr}");
    assert!(stderr.contains("all passed"), "stderr:\n{stderr}");
    assert!(stderr.contains("[assert] 2 assertion(s), all passed"), "stderr:\n{stderr}");
}

#[test]
fn assert_failure_exits_nonzero() {
    let (code, stderr) = run_source("module m{ var a; sim{ a=0; assert(a > 0); } }");
    assert_eq!(code, 1, "stderr:\n{stderr}");
    assert!(stderr.contains("assertion failed") && stderr.contains("1 of 1 failed"), "stderr:\n{stderr}");
}

#[test]
fn expect_mismatch_reports_values() {
    let (code, stderr) = run_source("module m{ var a; sim{ a=7; expect(a, 3); } }");
    assert_eq!(code, 1, "stderr:\n{stderr}");
    assert!(stderr.contains("expect failed") && stderr.contains("= 7, expected 3"), "stderr:\n{stderr}");
}

#[test]
fn assert_collects_all_failures() {
    let (code, stderr) = run_source("module m{ var a; sim{ a=0; assert(a > 0); expect(a, 9); assert(a == 0); } }");
    assert_eq!(code, 1, "stderr:\n{stderr}");
    assert!(stderr.contains("2 of 3 failed"), "stderr:\n{stderr}");
}

#[test]
fn assert_expect_arity_is_error() {
    expect_error("assert_two", "module m{ var a; sim{ a=0; assert(a, 1); } }", "assert(cond) takes exactly one");
    expect_error("expect_one", "module m{ var a; sim{ a=0; expect(a); } }", "expect(actual, expected) takes exactly two");
}

#[test]
fn non_element_names_are_accepted() {
    expect_ok(
        "names",
        "logic g(input a, input b2, output y){ reg cmp, x, c, b, tb; a-t-y; }\nmodule m{ var u, v; sim{ u=0; v=g(u,u); #init } }",
    );
}

#[test]
fn bus_basic_is_accepted() {
    expect_ok(
        "bus",
        "logic g(input a, output y){ reg[2] p; reg[2] q; a-p[0]; a-p[1]; p-r-q; q[0]-y; }\nmodule m{ var u,v; sim{ u=15; v=g(u); #init } }",
    );
}

#[test]
fn bus_scalar_broadcast_is_accepted() {
    for (tag, body) in [
        ("fanin", "reg[4] p; reg z; a-p[0]; a-p[1]; a-p[2]; a-p[3]; p-z; z-y;"),
        ("fanin_elem", "reg[4] p; reg z; a-p[0]; a-p[1]; a-p[2]; a-p[3]; p-r-z; z-y;"),
        ("fanout", "reg[4] p; a-p; p[0]-y;"),
        ("fanout_elem", "reg[4] p; a-r-p; p[0]-y;"),
        ("slice_fanin", "reg[4] p; a-p[0]; a-p[1]; a-p[2]; a-p[3]; reg z; p[3:0]-z; z-y;"),
        ("concat_fanin", "reg[2] p; reg z; a-p[0]; a-p[1]; {a, p} - z; z-y;"),
    ] {
        let src = format!("logic g(input a, output y){{ {body} }}\nmodule m{{ var u,v; sim{{ u=15; v=g(u); #init }} }}");
        expect_ok(tag, &src);
    }
}

#[test]
fn bus_misuse_is_error() {
    let call = "module m{ var u,v; sim{ u=0; v=g(u); #init } }";
    for (tag, body, want) in [
        ("width_mismatch", "reg[2] p; reg[3] q; a-p[0]; p-r-q; q[0]-y;", "bus width mismatch"),
        ("index_out_of_range", "reg[2] p; a-p[5]; p[0]-y;", "bus index out of range"),
        ("index_on_non_bus", "reg z; a-z[0]; z-y;", "is not a bus"),
        ("bus_width_zero", "reg[0] p; a-y;", "bus width must be >= 1"),
        ("assign_whole_bus", "reg[2] p; p = d; a-y;", "cannot assign to a whole bus"),
        ("bus_as_mid_chunk", "reg[2] p; reg z; a-p-z; z-y;", "cannot appear inside a chain"),
        ("slice_on_non_bus", "reg z; a-z[1:0]; z-y;", "is not a bus"),
        ("slice_out_of_range", "reg[2] p; a-p[0]; p[3:0]-y;", "bus slice index out of range"),
        ("empty_concat", "{} - y; a-y;", "empty concatenation"),
        ("nested_concat", "reg[2] p; a-p[0]; {a, {p}} - y;", "nested concatenation"),
        ("side_in_concat", "reg cmp; {a, cmp.side} - y;", "cannot appear inside a concatenation"),
        ("concat_as_mid_chunk", "reg[2] p; a-p[0]; a - {p} - y;", "on a mid-chain chunk"),
    ] {
        let src = format!("logic g(input a, output y){{ {body} }}\n{call}");
        expect_error(tag, &src, want);
    }
}

#[test]
fn bus_side_reg_misuse_is_error() {
    let call = "module m{ var u,v; sim{ u=0; v=g(u); #init } }";
    for (tag, body, want) in [
        ("r0_bus_reg", "reg[4] m = r0; a-m; m[0]-y;", "a 0-tick repeater (r0) cannot be a lockable reg"),
        ("strength_init", "reg[4] m = 15; a-m[0]; m[0]-y;", "a bus reg cannot take a signal strength"),
        (
            "non_seq_element_init",
            "reg[4] m = t; a-m[0]; m[0]-y;",
            "a bus reg initializer must be a comparator or repeater element",
        ),
        ("const_bus_reg", "const reg[4] m = r; a-m; m[0]-y;", "a bus reg must be plain"),
        ("side_on_plain_bus", "reg[4] p; a-p[0].side; p[0]-y;", "'.side' is only valid on a comparator/repeater reg"),
        ("side_as_source", "reg[4] m = r; a-m; m.side-y;", "cannot be a wire source"),
        (
            "indexed_side_on_scalar_reg",
            "reg c = cd; a-c[0].side; c-y;",
            "is a scalar comparator/repeater reg and cannot be indexed",
        ),
        ("side_lane_out_of_range", "reg[4] m = r; a-m; a-m[5].side; m[0]-y;", "bus index out of range"),
        ("side_width_mismatch", "reg[2] m = r; reg[4] s; a-s[0]; a-m; s-m.side; m[0]-y;", "bus width mismatch"),
    ] {
        let src = format!("logic g(input a, output y){{ {body} }}\n{call}");
        expect_error(tag, &src, want);
    }
}

#[test]
fn slice_const_expr_misuse_is_error() {
    let call = "module m{ var[4] u; var y; sim{ u=0; y=g(u); #init } }";
    for (tag, body, want) in [
        ("generic_lane_out_of_range", "logic g #(W=4)(input[W] a, output y){ a[W] - y; }", "bus index out of range"),
        ("generic_slice_out_of_range", "logic g #(W=4)(input[W] a, output y){ a[W:0] - y; }", "bus slice index out of range"),
        ("unknown_const_in_index", "logic g(input[4] a, output y){ a[Q] - y; }", "unknown constant 'Q'"),
        ("time_in_index", "logic g(input[4] a, output y){ a[$time] - y; }", "$time is not allowed in a constant expression"),
    ] {
        let src = format!("{body}\n{call}");
        expect_error(tag, &src, want);
    }
}

#[test]
fn bus_ports_basic_is_accepted() {
    expect_ok(
        "bus_ports",
        "logic not4(input[4] a, output[4] y){ a-t-y; }\nmodule m{ var[4] x; var[4] y; var i; sim{ x=0; y=not4(x); #init \
         for(i=0;i<4;i=i+1){ x[i]=15; } #2 } }",
    );
}

#[test]
fn bus_ports_misuse_is_error() {
    for (tag, src, want) in [
        (
            "arg_width_mismatch",
            "logic g(input[4] a, output y){ a[0]-t-y; }\nmodule m{ var[2] x; var y; sim{ x=0; y=g(x); #init } }",
            "does not match",
        ),
        (
            "scalar_to_bus_port",
            "logic g(input[4] a, output y){ a[0]-t-y; }\nmodule m{ var x; var y; sim{ x=0; y=g(x); #init } }",
            "is a scalar var but",
        ),
        (
            "bus_out_to_scalar",
            "logic g(input a, output[4] y){ a-t-y[0]; a-y[1]; a-y[2]; a-y[3]; }\nmodule m{ var x; var y; sim{ x=0; y=g(x); #init } }",
            "bus output",
        ),
        ("bus_in_scalar_expr", "module m{ var[4] x; sim{ x=0; assert(x); } }", "is a bus var"),
        ("bus_var_index_oor", "module m{ var[2] x; sim{ x=0; x[5]=1; } }", "out of range"),
        (
            "pass_bus_lane_arg_oor",
            "logic g(input a, output y){ a-t-y; }\nmodule m{ var[2] x; var y; sim{ x=0; y=g(x[5]); #init } }",
            "bus index out of range",
        ),
        (
            "index_scalar_arg",
            "logic g(input a, output y){ a-t-y; }\nmodule m{ var x; var y; sim{ x=0; y=g(x[0]); #init } }",
            "is not a bus var; cannot index it",
        ),
        ("scan_to_bus", "module m{ var[2] x; sim{ x=scan(); } }", "cannot target a whole bus"),
        ("pulse_on_bus", "module m{ var[2] x; sim{ x = 5 ~ 2; } }", "pulse assignment is not supported on a whole bus"),
    ] {
        expect_error(tag, src, want);
    }
}

#[test]
fn param_basic_is_accepted() {
    for (tag, src) in [
        ("param_width", "param W=2;\nmodule m{ var[W] x; sim{ x=0; monitor(\"%\", x[0]); } }"),
        ("param_expr_width", "param W=2;\nmodule m{ var[W+1] x; sim{ x=0; monitor(\"%\", x[2]); } }"),
        ("param_from_param", "param W=4;\nparam H=W*2;\nmodule m{ var x; sim{ x=H; monitor(\"%\", x); } }"),
        ("define_as_width", "#define W 3\nmodule m{ var[W] x; sim{ x=0; monitor(\"%\", x[2]); } }"),
        ("param_in_sim_expr", "param W=3;\nmodule m{ var[W] x; var i; sim{ x=0; for(i=0;i<W;i=i+1){ x[i]=15; } } }"),
    ] {
        expect_ok(tag, src);
    }
}

#[test]
fn param_misuse_is_error() {
    for (tag, src, want) in [
        ("unknown_in_width", "module m{ var[NOPE] x; sim{ x=0; } }", "unknown constant"),
        ("param_width_zero", "param Z=0;\nmodule m{ var[Z] x; sim{ x=0; } }", "bus width must be >= 1"),
        ("forward_ref", "param A=B;\nmodule m{ var u; sim{ u=A; } }", "unknown constant"),
        ("index_in_const", "param W=4;\nmodule m{ var[W[0]] x; sim{ x=0; } }", "constant expression"),
    ] {
        expect_error(tag, src, want);
    }
}

#[test]
fn generic_logic_width_is_accepted() {
    for (tag, src) in [
        (
            "default_only",
            "logic g #(W=4)(input[W] x, output[W] y){ x-t-y; }\nmodule m{ var[4] x,y; sim{ x=0; y=g(x); #init } }",
        ),
        (
            "explicit_arg",
            "logic g #(W=4)(input[W] x, output[W] y){ x-t-y; }\nmodule m{ var[8] x,y; sim{ x=0; y=g#(W=8)(x); #init } }",
        ),
        (
            "multi_param",
            "logic g #(W=4, K=2)(input[W] x, output[W] y){ reg[W] s; x-s; s-t-y; }\nmodule m{ var[8] x,y; sim{ x=0; y=g#(W=8, K=4)(x); #init } }",
        ),
        (
            "derived_reg_width",
            "logic g #(W=4)(input[W] x, output[W] y){ reg[W] s; x-s; s-t-y; }\nmodule m{ var[4] x,y; sim{ x=0; y=g(x); #init } }",
        ),
        (
            "passthrough",
            "logic inner #(N=2)(input[N] x, output[N] y){ x-t-y; }\n\
             logic outer #(W=4)(input[W] a, output[W] z){ z = inner#(N=W)(a); }\n\
             module m{ var[8] a,z; sim{ a=0; z = outer#(W=8)(a); #init } }",
        ),
    ] {
        expect_ok(tag, src);
    }
}

#[test]
fn generic_logic_width_is_error() {
    for (tag, src, want) in [
        (
            "unknown_param",
            "logic g #(W=4)(input[W] x, output[W] y){ x-t-y; }\nmodule m{ var[4] x,y; sim{ x=0; y=g#(X=2)(x); #init } }",
            "has no parameter 'X'",
        ),
        (
            "missing_required_param",
            "logic g #(W)(input[W] x, output[W] y){ x-t-y; }\nmodule m{ var[4] x,y; sim{ x=0; y=g(x); #init } }",
            "requires parameter 'W'",
        ),
        (
            "dup_param_at_call",
            "logic g #(W=4)(input[W] x, output[W] y){ x-t-y; }\nmodule m{ var[4] x,y; sim{ x=0; y=g#(W=4, W=8)(x); #init } }",
            "duplicate logic parameter 'W'",
        ),
        (
            "dup_param_at_decl",
            "logic g #(W=4, W=8)(input[W] x, output[W] y){ x-t-y; }\nmodule m{ var[4] x,y; sim{ x=0; y=g(x); #init } }",
            "duplicate logic parameter 'W'",
        ),
        (
            "zero_width",
            "logic g #(W=4)(input[W] x, output[W] y){ x-t-y; }\nmodule m{ var[4] x,y; sim{ x=0; y=g#(W=0)(x); #init } }",
            "bus width must be >= 1",
        ),
    ] {
        expect_error(tag, src, want);
    }
}

#[test]
fn monitor_fmt_type_suffix_is_error() {
    for fmt in ["%t", "%d", "%2d"] {
        let src = format!("module m{{ var a; sim{{ a=0; monitor(\"{fmt}\", a); }} }}");
        let (code, stderr) = run_source(&src);
        assert_eq!(code, 1, "{fmt}: stderr:\n{stderr}");
        assert!(stderr.contains("type suffix") && stderr.contains("not supported"), "{fmt}: stderr:\n{stderr}");
    }
}

#[test]
fn monitor_fmt_bare_and_width_is_accepted() {
    let o = run_full("module m{ var a; sim{ a=0; monitor(\"x=% y=%2\\n\", a, a); } }", "", false, false);
    assert_eq!(o.code, 0, "stderr:\n{}", o.stderr);
    assert_eq!(o.stdout, "x=0 y= 0\n");
}

#[test]
fn scan_fmt_invalid_is_error() {
    expect_error("scanfmt", "module m{ var a; sim{ a = scan(\"%4b\"); } }", "scan() format must be one of");
}

#[test]
fn define_expr_unknown_const_is_error() {
    expect_error("define", "#define BAD UNKNOWN\nmodule m{ var a; sim{ a=0; } }", "unknown constant");
}

#[test]
fn define_mode_keeps_ident_path() {
    let (code, stderr) = run_source("#define MODE element\nmodule m{ var a; sim{ a=0; } }");
    assert_eq!(code, 0, "stderr:\n{stderr}");
    assert!(stderr.is_empty(), "stderr:\n{stderr}");
    let (code, stderr) = run_source("#define MODE logic\nmodule m{ var a; sim{ a=0; } }");
    assert_eq!(code, 0, "stderr:\n{stderr}");
    assert!(stderr.contains("MODE 'logic'"), "stderr:\n{stderr}");
}

#[test]
fn json_mode_emits_assert_failure_jsonl() {
    let o = run_full("module m{ var a; sim{ a=0; assert(a>0); expect(a, 7); } }", "", true, false);
    assert_eq!(o.code, 1);
    let e = &o.stderr;
    assert!(e.contains("\"kind\":\"assert\"") && e.contains("\"expr\":\"(a > 0)\""), "stderr:\n{e}");
    assert!(e.contains("\"kind\":\"expect\"") && e.contains("\"actual\":0") && e.contains("\"expected\":7"), "stderr:\n{e}");
    assert!(e.contains("\"kind\":\"summary\"") && e.contains("\"failed\":2"), "stderr:\n{e}");
}

#[test]
fn json_mode_emits_warning_jsonl() {
    let o = run_full(
        "logic g(input x, output y){ x-t-y; }\nmodule m{ var a,b; sim{ a=999; b=g(a); #init } }",
        "",
        true,
        false,
    );
    assert_eq!(o.code, 0, "stderr:\n{}", o.stderr);
    assert!(o.stderr.contains("\"kind\":\"warning\"") && o.stderr.contains("\"msg\":"), "stderr:\n{}", o.stderr);
}

#[test]
fn multi_output_binding_is_error() {
    let header = "logic g0(input x, output y) { x - r - y; }\n\
                  logic g(input x, output a1, output a2) {\n    a1 = g0(x);\n    a2 = g0(x);\n}\n";
    for (tag, body, want) in [
        ("too_few", "module m{ var x,p; sim{ x=0; (p) = g(x); #init } }", "g has 2 output port(s) but the binding tuple has 1 target(s)"),
        (
            "too_many",
            "module m{ var x,p,q,r2; sim{ x=0; (p,q,r2) = g0(x); #init } }",
            "g0 has 1 output port(s) but the binding tuple has 3 target(s)",
        ),
        ("dup", "module m{ var x,p; sim{ x=0; (p,p) = g(x); #init } }", "duplicate target 'p' in logic-instance binding tuple"),
        ("empty", "module m{ var x; sim{ x=0; () = g0(x); #init } }", "empty target tuple '()' is not allowed"),
        ("scan_tuple", "module m{ var a,b2; sim{ (a,b2) = scan(); } }", "scan() returns a single value"),
        (
            "dup_lane",
            "module m{ var x; var[2] bs; sim{ x=0; (bs[0], bs[0]) = g(x); #init } }",
            "duplicate target 'bs[0]' in logic-instance binding tuple",
        ),
        (
            "overlap_lane",
            "module m{ var x; var[2] bs; sim{ x=0; (bs, bs[0]) = g(x); #init } }",
            "targets 'bs' and 'bs[0]' in logic-instance binding tuple overlap",
        ),
    ] {
        let src = format!("{header}{body}");
        expect_error(tag, &src, want);
    }
}

#[test]
fn nested_call_is_accepted() {
    expect_ok(
        "generic_bus",
        "logic inv #(W=4)(input[W] x, output[W] y){ x - t - y; }\nmodule m{ var[8] a,y; sim{ a=0; y = inv#(W=8)(inv#(W=8)(a)); #init } }",
    );
}

#[test]
fn nested_call_is_error() {
    let header = "logic HA(input x1, input x2, output s2, output c2) { x1-t-s2; x2-t-c2; }\n\
                  logic OR2(input x1, input x2, output y) { x1-d-y; x2-d-y; }\n";
    for (tag, body, want) in [
        (
            "multi_output_sim",
            "module m{ var a,b,q,y; sim{ a=0;b=0;q=0; y = OR2(HA(a,b), q); #init } }",
            "nested call to HA must have exactly 1 output port (it has 2)",
        ),
        (
            "multi_output_logic",
            "logic G(input x1, input x2, output y) { y = OR2(HA(x1, x2), x1); }\nmodule m{ var a,b,y; sim{ a=0;b=0; y = G(a,b); #init } }",
            "nested call to HA must have exactly 1 output port (it has 2)",
        ),
        ("unknown_nested", "module m{ var a,b,y; sim{ a=0;b=0; y = OR2(NOPE(a), b); #init } }", "unknown logic: NOPE"),
        ("nested_scan", "module m{ var a,y; sim{ a=0; y = OR2(scan(), a); #init } }", "scan() cannot be nested in a logic call argument"),
        (
            "nested_recursion",
            "logic RA(input x, output y) { y = RB(x); }\nlogic RB(input x, output y) { y = OR2(RA(x), x); }\nmodule m{ var a,y; sim{ a=0; y = RA(a); #init } }",
            "recursive logic instantiation",
        ),
        (
            "width_mismatch",
            "logic inv #(W=4)(input[W] x, output[W] y){ x - t - y; }\nmodule m{ var[4] a; var y; sim{ a=0; y = OR2(inv(a), a); #init } }",
            "OR2 input port 'x1': port width mismatch (4 vs 1 lane(s)",
        ),
    ] {
        let src = format!("{header}{body}");
        expect_error(tag, &src, want);
    }
}

#[test]
fn multi_output_single_target_tuple_is_accepted() {
    expect_ok(
        "single_tuple",
        "logic g(input x, output y) { x - r - y; }\nmodule m{ var x, p, q; sim{\n    x = 0;\n    p = g(x);\n    (q) = g(x);\n    #init\n} }",
    );
}

#[test]
fn lint_clean_source_emits_no_lint() {
    let (code, stderr) =
        run_source("logic g(input x, output y){ reg z; x - t - z; z - r - y; }\nmodule m{ var a,y; sim{ a=0; y=g(a); #init } }");
    assert_eq!(code, 0, "stderr:\n{stderr}");
    assert!(!stderr.contains("[lint]"), "stderr:\n{stderr}");
}

#[test]
fn lint_static_rules_fire_once_per_logic() {
    let (code, stderr) = run_source(
        "logic g(input x, output y){ reg orphan; x - r - y; }\nmodule m{ var a1,a2,y1,y2; sim{ a1=0; a2=0;\n    y1=g(a1); y2=g(a2); #init } }",
    );
    assert_eq!(code, 0, "stderr:\n{stderr}");
    assert_eq!(stderr.matches("floating-reg").count(), 1, "stderr:\n{stderr}");
}

#[test]
fn werror_flag_promotes_warnings() {
    let o = run_full("logic g(input x, output y){ reg orphan; x - r - y; }\nmodule m{ var a,y; sim{ a=0; y=g(a); #init } }", "", false, true);
    assert_eq!(o.code, 1, "stderr:\n{}", o.stderr);
    assert!(o.stderr.contains("treated as errors"), "stderr:\n{}", o.stderr);
    let o = run_full("logic g(input x, output y){ x - r - y; }\nmodule m{ var a,y; sim{ a=0; y=g(a); #init } }", "", false, true);
    assert_eq!(o.code, 0, "stderr:\n{}", o.stderr);
}

#[test]
fn json_mode_emits_lint_jsonl() {
    let o = run_full("logic g(input x, output y){ reg orphan; x - r - y; }\nmodule m{ var a,y; sim{ a=0; y=g(a); #init } }", "", true, false);
    assert_eq!(o.code, 0, "stderr:\n{}", o.stderr);
    assert!(o.stderr.contains("\"kind\":\"lint\"") && o.stderr.contains("\"rule\":\"floating-reg\""), "stderr:\n{}", o.stderr);
}

#[test]
fn dust_cross_dx_is_error() {
    expect_error(
        "dx",
        "logic g(input x, output y){\n    wire seg;\n    seg = dx;\n    x-seg-y;\n}\nmodule m{ var a,y; sim{ a=15; y=g(a); #init } }",
        "unknown element 'x'",
    );
}

#[test]
fn unknown_stdlib_is_file_error() {
    let (code, stderr) = run_source("#include \"stdfoo\"\nmodule m{ var a; sim{ a=0; } }");
    assert_eq!(code, 1, "stderr:\n{stderr}");
    assert!(stderr.contains("cannot open include file: stdfoo"), "stderr:\n{stderr}");
}

fn stdout_of(src: &str, input: &str, json: bool) -> String {
    let o = run_full(src, input, json, false);
    assert_eq!(o.code, 0, "stderr:\n{}", o.stderr);
    o.stdout
}

#[test]
fn minimal_not_example_runs() {
    let src = "logic NOT(input x, output y) {\n    x-t-y;\n}\nmodule test {\n    var x, y;\n    sim {\n        x = 0;\n        \
               y = NOT(x);\n        #init\n        x = 10;  #1\n        ?monitor(\"t=% x=% y=%\\n\", $time, x, y);\n    }\n}\n";
    assert_eq!(stdout_of(src, "", false), "t=0 x=0 y=15\nt=1 x=10 y=15\n");
}

#[test]
fn monitor_packs_bus_lanes() {
    let src = "module m { var[4] bus; sim { bus[0] = 15;  bus[1] = 0;  bus[2] = 15;  bus[3] = 8; \
               monitor(\"%x % %b\\n\", bus, bus, bus); } }";
    assert_eq!(stdout_of(src, "", false), "8f0f 36623 1000111100001111\n");
}

#[test]
fn dust_attenuates_one_per_step() {
    let src = "logic D(input x, output y){ x-d3-y; }\nmodule m { var x,y; sim { x=15; y=D(x); #init monitor(\"%\\n\", y); \
               x=5; #1 monitor(\"%\\n\", y); } }";
    assert_eq!(stdout_of(src, "", false), "12\n2\n");
}

#[test]
fn repeater_delays_and_restores() {
    let src = "logic R(input x, output y){ x-r2-y; }\nmodule m { var x,y; sim { x=0; y=R(x); #init \
               ?monitor(\"t=% y=%\\n\", $time, y); x=15; #5 } }";
    assert_eq!(stdout_of(src, "", false), "t=0 y=0\nt=5 y=15\n");
}

#[test]
fn pulse_assignment_clears_after_width() {
    let src = "logic B(input x, output y){ x-d-y; }\nmodule m { var x,y; sim { x=0; y=B(x); #init \
               ?monitor(\"t=% x=% y=%\\n\", $time, x, y); x=10 ~ 2; #4 } }";
    assert_eq!(stdout_of(src, "", false), "t=0 x=0 y=0\nt=4 x=0 y=0\n");
}

#[test]
fn clock_toggles_every_hold() {
    let src = "logic B(input x, output y){ x-d-y; }\nmodule m { var c,y; sim { c=0; y=B(c); #init \
               ?monitor(\"t=% c=% y=%\\n\", $time, c, y); clock(c, 2); #6 } }";
    assert_eq!(stdout_of(src, "", false), "t=0 c=0 y=0\nt=6 c=15 y=0\n");
}

#[test]
fn until_waits_for_condition() {
    let src = "logic R(input x, output y){ x-r4-y; }\nmodule m { var x,y; sim { x=0; y=R(x); #init x=15; \
               #until(y > 0) monitor(\"t=% y=%\\n\", $time, y); } }";
    assert_eq!(stdout_of(src, "", false), "t=5 y=15\n");
}

#[test]
fn comparator_compare_and_subtract() {
    let src = "logic C(input a, input s, output y){ reg c = cc; a-c; s-c.side; c-y; }\n\
               logic S(input a, input s, output y){ reg c = cd; a-c; s-c.side; c-y; }\n\
               module m { var a,s,y,z; sim { a=10; s=4; y=C(a,s); z=S(a,s); #init monitor(\"% %\\n\", y, z); \
               s=12; #init monitor(\"% %\\n\", y, z); } }";
    assert_eq!(stdout_of(src, "", false), "10 6\n0 0\n");
}

#[test]
fn scan_reads_decimal_and_hex() {
    let src = "module m { var a,b; sim { a=scan(); b=scan(\"%x\"); monitor(\"% %\\n\", a, b); } }";
    assert_eq!(stdout_of(src, "12 ff", false), "12 255\n");
}

#[test]
fn scan_at_end_of_input_is_error() {
    let o = run_full("module m { var a; sim { a=scan(); } }", "   ", false, false);
    assert_eq!(o.code, 1);
    assert!(o.stderr.contains("scan()"), "stderr:\n{}", o.stderr);
}

#[test]
fn monitor_width_base_and_escape() {
    let src = "module m { var a; sim { a=-5; monitor(\"[%4][%04b][%x][%o][%%]\\n\", a, 5, 255, 8); } }";
    assert_eq!(stdout_of(src, "", false), "[  -5][0101][ff][10][%]\n");
}

#[test]
fn modules_run_in_order_with_headers() {
    let src = "module a { var x; sim { x=1; monitor(\"a%\\n\", x); } }\nmodule b { var x; sim { x=2; monitor(\"b%\\n\", x); } }";
    assert_eq!(stdout_of(src, "", false), "=== module a ===\na1\n=== module b ===\nb2\n");
}

#[test]
fn json_monitor_lines() {
    let src = "logic NOT(input x, output y){ x-t-y; }\nmodule m { var x,y; sim { x=0; y=NOT(x); #init \
               ?monitor(\"x=% y=%\\n\", x, y); x=15; #1 } }";
    assert_eq!(
        stdout_of(src, "", true),
        "{\"time\":0,\"values\":[0,15],\"fmt\":\"x=% y=%\\n\"}\n{\"time\":1,\"values\":[15,15],\"fmt\":\"x=% y=%\\n\"}\n"
    );
}

#[test]
fn control_flow_in_sim() {
    let src = "module m { var i,s; sim { s=0; for(i=0;i<5;i=i+1){ s=s+i; } if (s == 10) { monitor(\"ok %\\n\", s); } \
               else { monitor(\"bad\\n\"); } while (s > 0) { s = s - 3; } monitor(\"%\\n\", s); } }";
    assert_eq!(stdout_of(src, "", false), "ok 10\n-2\n");
}

#[test]
fn oscillator_never_settles() {
    let o = run_full("logic OSC(input x, output y){ reg p; p-t-p; p-y; }\nmodule m { var x,y; sim { x=0; y=OSC(x); #init } }", "", false, false);
    assert_eq!(o.code, 1);
    assert!(o.stderr.contains("torch burnout"), "stderr:\n{}", o.stderr);
    assert!(o.stderr.contains("#init did not reach a steady state within 1000 ticks"), "stderr:\n{}", o.stderr);
}

#[test]
fn clamped_input_warns_once() {
    let o = run_full("logic g(input x, output y){ x-d-y; }\nmodule m{ var a,b; sim{ a=999; b=g(a); #init #3 } }", "", false, false);
    assert_eq!(o.code, 0, "stderr:\n{}", o.stderr);
    assert_eq!(o.stderr.matches("[warning]").count(), 1, "stderr:\n{}", o.stderr);
}

#[test]
fn pulse_lasts_its_width() {
    let src = "module m { var x; sim { x = 10 ~ 3; #1 monitor(\"%,\", x); #1 monitor(\"%,\", x); #1 monitor(\"%,\", x); \
               #1 monitor(\"%\\n\", x); } }";
    assert_eq!(stdout_of(src, "", false), "10,10,0,0\n");
}

#[test]
fn clock_flips_each_period() {
    let src = "module m { var c; var i; sim { clock(c, 2); monitor(\"%\", c); for (i = 0; i < 6; i = i + 1) { #1 monitor(\" %\", c); } \
               monitor(\"\\n\"); } }";
    assert_eq!(stdout_of(src, "", false), "0 0 15 15 0 0 15\n");
}

#[test]
fn parse_module_with_parentheses_points_at_paren() {
    let e = compile("module m(){ var a; sim{ a=0; assert(a==0); } }").err().unwrap();
    assert_eq!(e.line, 1);
    assert_eq!(e.col, 9);
    assert_eq!(e.msg, "module takes no arguments; write `module name { ... }`");
}

#[test]
fn parse_reg_list_and_mutable_strength() {
    let prog = compile("logic g(input x, output y){\n    reg a, b;\n    mutable reg n = 15;\n}\n").unwrap();
    let l = prog.logics.get("g").unwrap();
    assert_eq!(l.stmts.len(), 3);
    match &l.stmts[0] {
        lib::ast::LogicStmt::DeclReg { name, init, width, .. } => {
            assert_eq!(name, "a");
            assert!(init.is_none() && width.is_none());
        }
        _ => panic!("expected a reg declaration"),
    }
    match &l.stmts[2] {
        lib::ast::LogicStmt::DeclReg { name, qual, init, .. } => {
            assert_eq!(name, "n");
            assert!(matches!(qual, lib::ast::Qual::Mutable));
            let ri = init.as_ref().unwrap();
            assert_eq!(ri.strength, 15);
            assert!(ri.tok.is_none());
        }
        _ => panic!("expected a reg declaration"),
    }
}

#[test]
fn parse_bare_chain_and_missing_semicolon() {
    let prog = compile("logic g(input x, output y){\n    x - a - b - y;\n}\n").unwrap();
    let l = prog.logics.get("g").unwrap();
    assert_eq!(l.ports.len(), 2);
    assert!(l.ports[0].input && l.ports[0].name == "x" && l.ports[0].width.is_none());
    assert!(!l.ports[1].input && l.ports[1].name == "y" && l.ports[1].width.is_none());
    assert!(prog.modules.is_empty());
    assert_eq!(l.stmts.len(), 1);
    match &l.stmts[0] {
        lib::ast::LogicStmt::Chain { line, from, to, chunks } => {
            assert_eq!(*line, 2);
            assert!(matches!(from, lib::ast::Endpoint::Ref { name, side: false, sel: lib::ast::Sel::All } if name == "x"));
            assert!(matches!(to, lib::ast::Endpoint::Ref { name, side: false, sel: lib::ast::Sel::All } if name == "y"));
            assert_eq!(chunks, &vec!["a".to_string(), "b".to_string()]);
        }
        _ => panic!("expected a chain"),
    }
    let e = compile("logic g(input x, output y){\n    x - r2 = y;\n}\n").unwrap_err();
    assert_eq!((e.line, e.col, e.len), (2, 12, 1));
    assert_eq!(e.msg, "expected ';'");
    let e = compile("logic g(input x, output y){\n    x - {x} - y;\n}\n").unwrap_err();
    assert_eq!((e.line, e.col, e.len), (2, 0, 0));
    assert_eq!(
        e.msg,
        "a lane/slice index, '.side', or concatenation '{...}' cannot appear on a mid-chain chunk (only the two endpoints can)"
    );
}

#[test]
fn ensure_instance_reuses_and_names_instances() {
    let prog = compile("logic g(input x, output y){ x - y; }\nmodule m { var a, b; sim { b = g(a); } }\n").unwrap();
    let m = &prog.modules[0];
    let cfg = config_from(&prog.defines);
    let mut ex = ModuleExec::new(m.name.clone(), cfg, false, false, false, false, Vec::new());
    ex.run(&prog, m).unwrap();
    let n = ex.insts.len();
    let args = vec![lib::ast::InstArg::Name { name: "a".to_string(), sel: lib::ast::Sel::All }];
    let k = ex.ensure_instance(&prog, 1, "g", &args, &Vec::new()).unwrap();
    assert_eq!(k, "g(a)");
    assert_eq!(ex.insts.len(), n);
    let args2 = vec![lib::ast::InstArg::Name { name: "b".to_string(), sel: lib::ast::Sel::All }];
    let k2 = ex.ensure_instance(&prog, 1, "g", &args2, &Vec::new()).unwrap();
    assert_eq!(k2, "g(b)");
    assert_eq!(ex.insts.len(), n + 1);
}

#[test]
fn parse_wire_list_names_in_order() {
    let prog = compile("logic g(input x, output y){\n    wire a, b;\n    x - a - b - y;\n}\n").unwrap();
    let l = prog.logics.get("g").unwrap();
    match &l.stmts[0] {
        lib::ast::LogicStmt::DeclWire { line, names } => {
            assert_eq!(*line, 2);
            assert_eq!(names, &vec!["a".to_string(), "b".to_string()]);
        }
        _ => panic!("expected a wire declaration"),
    }
}

#[test]
fn parse_name_assignment_and_wait_init() {
    let prog = compile("module m { var x, y; sim { x = y; #init; } }").unwrap();
    let m = &prog.modules[0];
    let n = m.sim.len();
    assert!(n >= 2);
    match &m.sim[n - 2] {
        lib::ast::SimStmt::Assign { target, index, value, pulse, .. } => {
            assert_eq!(target, "x");
            assert!(index.is_none() && pulse.is_none());
            assert!(matches!(value, lib::ast::Expr::Var { name, index: None, .. } if name == "y"));
        }
        _ => panic!("expected an assignment"),
    }
    assert!(matches!(&m.sim[n - 1], lib::ast::SimStmt::WaitInit { line: 1 }));
}

#[test]
fn parse_instance_keeps_name_arguments() {
    let prog = compile("logic h(input p, input q, output z){ p - z; q - z; }\nlogic g(input a, input b, output y){ (y) = h(a, b); }\n").unwrap();
    let l = prog.logics.get("g").unwrap();
    match &l.stmts[0] {
        lib::ast::LogicStmt::Instance { callee, args, params, outputs, .. } => {
            assert_eq!(callee, "h");
            assert!(params.is_empty() && outputs.len() == 1);
            assert_eq!(args.len(), 2);
            assert!(matches!(&args[0], lib::ast::InstArg::Name { name, sel: lib::ast::Sel::All } if name == "a"));
            assert!(matches!(&args[1], lib::ast::InstArg::Name { name, sel: lib::ast::Sel::All } if name == "b"));
        }
        _ => panic!("expected an instance"),
    }
}

#[test]
fn parse_module_keeps_sim_assignments() {
    let prog = compile("module m { sim { a = 1; b = 2; } }").unwrap();
    let m = &prog.modules[0];
    assert!(m.pre.is_empty());
    assert_eq!(m.sim.len(), 2);
    match &m.sim[1] {
        lib::ast::SimStmt::Assign { target, value, pulse, index, .. } => {
            assert_eq!(target, "b");
            assert!(matches!(value, lib::ast::Expr::Num { num: 2, .. }));
            assert!(pulse.is_none() && index.is_none());
        }
        _ => panic!("expected an assignment"),
    }
    let prog = compile("module m { sim { #5; a = 1; #until(a == 1); } }").unwrap();
    let sim = &prog.modules[0].sim;
    assert_eq!(sim.len(), 3);
    assert!(matches!(&sim[0], lib::ast::SimStmt::WaitTicks { ticks: 5, .. }));
    assert!(matches!(&sim[2], lib::ast::SimStmt::WaitUntil { .. }));
}

#[test]
fn var_declarations_start_at_their_values() {
    let src = "module m { var a = 3, c; var[2] b = 1; sim { monitor(\"%,%,%,%\n\", a, b[0], b[1], c); } }";
    assert_eq!(stdout_of(src, "", false), "3,1,1,0\n");
}

#[test]
fn elaborate_direct_call_outside_the_table() {
    let prog = compile("logic g(input x, output y){ }\nlogic f(input x, output y){ x - y; }\n").unwrap();
    let empty: lib::strs::StrMap<lib::ast::LogicDef> = lib::strs::StrMap::new();
    let defines: lib::strs::StrMap<i64> = lib::strs::StrMap::new();
    let mut e = lib::elab::Elaborator {
        c: lib::circuit::Circuit::new(lib::circuit::Config::default_config()),
        stack: Vec::new(),
        counter: 0,
        linted: lib::strs::StrSet::new(),
        warnings: Vec::new(),
    };
    let g = prog.logics.get("g").unwrap();
    let r = e.elaborate(&empty, &defines, g, "g", true, 4, 1, lib::strs::StrMap::new());
    let err = r.err().unwrap();
    assert_eq!((err.line, err.col, err.len), (4, 0, 0));
    assert_eq!(err.msg, "output port 'y' of logic 'g' is not driven (unconnected port)");
    let f = prog.logics.get("f").unwrap();
    let r = e.elaborate(&empty, &defines, f, "f", true, 5, 2, lib::strs::StrMap::new());
    let err = r.err().unwrap();
    assert_eq!((err.line, err.col, err.len), (5, 0, 0));
    assert_eq!(err.msg, "f: expected 1 input argument(s), got 2");
}

#[test]
fn parse_file_hands_back_name_collisions() {
    for (src, kind, name) in [
        ("logic g(input a, output y){ reg cd; a-t-y; }", "reg", "cd"),
        ("logic g(input a, output y){ wire r; a-t-y; }", "wire", "r"),
        ("logic g(input a, output y){ reg td; a-t-y; }", "reg", "td"),
        ("logic g(input a, input d, output y){ a-t-y; }", "port", "d"),
    ] {
        let e = compile(src).unwrap_err();
        assert_eq!((e.line, e.col, e.len), (1, 0, 0), "{}", src);
        assert_eq!(
            e.msg,
            format!("{} name '{}' collides with an element name (e.g. 'd', 'r', 'cd'); pick a name that is not an element sequence", kind, name)
        );
    }
}

#[test]
fn directives_mode_and_params_from_params() {
    let prog = compile("#define MODE element\nmodule m{ var a; sim{ a=0; } }").unwrap();
    assert!(prog.warnings.is_empty());
    assert_eq!(prog.modules.len(), 1);
    let prog = compile("#define MODE logic").unwrap();
    assert_eq!(prog.warnings.len(), 1);
    assert_eq!(prog.warnings[0].msg, "MODE 'logic' is not supported yet; running in element mode");
    let prog = compile("param A = 2;\nparam B = A;").unwrap();
    assert_eq!(prog.defines.get("B"), Some(&2));
    assert_eq!(prog.defines.get("A"), Some(&2));
}

#[test]
fn bundled_include_twice_is_skipped() {
    let toks = tokenize("#include \"stdlogic\"\n#include \"stdlogic\"\n").unwrap();
    assert_eq!(toks.iter().filter(|t| matches!(t.k, lib::lexer::Tk::End)).count(), 1);
    let mut prog = Program::new();
    let mut ps = Parser::new(toks, String::new());
    match ps.parse_file(&mut prog).unwrap() {
        ParseStep::Include { name, bundled, .. } => {
            assert_eq!(name, "stdlogic");
            assert!(bundled);
        }
        _ => panic!("expected an include request"),
    }
    assert!(matches!(ps.parse_file(&mut prog).unwrap(), ParseStep::Done));
}

#[test]
fn ensure_instance_shares_instances_with_parameters() {
    let prog = compile("logic g#(W=1)(input x, output y){ x - y; }\nmodule m { var a, b; sim { b = g(a); } }\n").unwrap();
    let m = &prog.modules[0];
    let cfg = config_from(&prog.defines);
    let mut ex = ModuleExec::new(m.name.clone(), cfg, false, false, false, false, Vec::new());
    ex.run(&prog, m).unwrap();
    let args = vec![lib::ast::InstArg::Name { name: "a".to_string(), sel: lib::ast::Sel::All }];
    let params = vec![("W".to_string(), lib::ast::Expr::Num { line: 1, num: 2 })];
    let k = ex.ensure_instance(&prog, 1, "g", &args, &params).unwrap();
    assert_eq!(k, "g#(W=2)(a)");
    let n = ex.insts.len();
    let k2 = ex.ensure_instance(&prog, 1, "g", &args, &params).unwrap();
    assert_eq!(k2, k);
    assert_eq!(ex.insts.len(), n);
    let k3 = ex.ensure_instance(&prog, 1, "g", &args, &Vec::new()).unwrap();
    assert_eq!(k3, "g#(W=1)(a)");
}

#[test]
fn elaborate_reports_arity_and_undriven_output() {
    expect_error(
        "undriven",
        "logic g(input x, output y){ }\nmodule m { var a, b; sim { b = g(a); } }\n",
        "output port 'y' of logic 'g' is not driven (unconnected port)",
    );
    expect_error(
        "arity",
        "logic g(input x, output y){ x - y; }\nmodule m { var a, b, c; sim { c = g(a, b); } }\n",
        "g: expected 1 input argument(s), got 2",
    );
}
