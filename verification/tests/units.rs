//! The library's building blocks on concrete values.

use lib::circuit::{observer_out, seq_out_of, Circuit, Config, NodeKind, ObsMode, SeqKind};
use lib::diag::{caret_range, display_cols, render_report, RvError, Warning};
use lib::interp::{
    bus_slice, check_target_overlap, comparator_mode, name_collides_with_element, pad_value, parse_chunk,
    parse_scan_fmt, repeater_delay, vcd_path_for,
};
use lib::lexer::{tokenize, Tk};
use lib::parser::{bundled_stdlib, dir_of};
use lib::sim::{
    apply_bin, error_json, finish_checks, format_monitor, instance_prefix, json_escape_into, lane_key, module_header,
    no_module_warning, scan_int, vcd_id, warning_head, warning_json,
};
use lib::strs::{char_string, format_int, int_str, lossy_string, sort_strs, str_lt, StrMap, StrSet};

#[test]
fn lexer_tokens_and_positions() {
    let toks = tokenize("a - 0x1f;\n  \"s\" 0b101").unwrap();
    let kinds: Vec<Tk> = toks.iter().map(|t| t.k).collect();
    assert_eq!(kinds, vec![Tk::Ident, Tk::Punct, Tk::Num, Tk::Punct, Tk::Str, Tk::Num, Tk::End]);
    assert_eq!(toks[0].s, "a");
    assert_eq!((toks[0].line, toks[0].col, toks[0].len), (1, 1, 1));
    assert_eq!(toks[2].num, 31);
    assert_eq!((toks[2].col, toks[2].len), (5, 4));
    assert_eq!(toks[4].s, "s");
    assert_eq!((toks[4].line, toks[4].col), (2, 3));
    assert_eq!(toks[5].num, 5);
}

#[test]
fn lexer_skips_comments() {
    let toks = tokenize("// line\n/* block\n */ x").unwrap();
    assert_eq!(toks.len(), 2);
    assert_eq!(toks[0].s, "x");
    assert_eq!(toks[0].line, 3);
}

#[test]
fn lexer_rejects_bad_input() {
    assert!(tokenize("\"open").is_err());
    assert!(tokenize("/* open").is_err());
    let e = tokenize("0b").unwrap_err();
    assert!(e.msg.contains("expected binary digits after '0b'"), "{}", e.msg);
}

#[test]
fn chunk_elements() {
    let es = parse_chunk("d3r2t", 7).unwrap();
    let ks: Vec<(char, i32)> = es.iter().map(|e| (e.k, e.n)).collect();
    assert_eq!(ks, vec![('d', 1), ('d', 1), ('d', 1), ('r', 2), ('t', 1)]);
    assert!(es.iter().all(|e| e.line == 7));
    let e = parse_chunk("dq", 3).unwrap_err();
    assert_eq!(e.line, 3);
    assert!(e.msg.contains("unknown element 'q'"), "{}", e.msg);
}

#[test]
fn element_name_collisions() {
    for n in ["d", "r2", "cd", "td", "oe", "d3r"] {
        assert!(name_collides_with_element(n), "{n}");
    }
    for n in ["a", "x", "b2", "cmp", "in_b", "tb", "b"] {
        assert!(!name_collides_with_element(n), "{n}");
    }
}

#[test]
fn repeater_and_comparator_regs() {
    assert_eq!(repeater_delay("r3", 1).unwrap(), Some(3));
    assert_eq!(repeater_delay("r", 1).unwrap(), Some(1));
    assert_eq!(repeater_delay("d", 1).unwrap(), None);
    assert!(repeater_delay("r2r", 1).unwrap_err().msg.contains("exactly one repeater"));
    assert!(matches!(comparator_mode("cd", 1).unwrap(), Some(SeqKind::CompSub)));
    assert!(matches!(comparator_mode("cc", 1).unwrap(), Some(SeqKind::CompCmp)));
    assert!(comparator_mode("t", 1).unwrap().is_none());
}

#[test]
fn monitor_format_cases() {
    let f = |fmt: &str, av: Vec<(i64, Option<i32>)>| format_monitor(fmt, &av, 1);
    assert_eq!(f("a=% b=%3\n", vec![(7, None), (42, None)]).unwrap(), "a=7 b= 42\n");
    assert_eq!(f("%b %04b %x %o", vec![(5, None), (5, None), (255, None), (8, None)]).unwrap(), "101 0101 ff 10");
    assert_eq!(f("%x", vec![(-26, None)]).unwrap(), "-1a");
    assert_eq!(f("100%%", vec![]).unwrap(), "100%");
    assert_eq!(f("%x", vec![(0x8f0f, Some(4))]).unwrap(), "8f0f");
    assert_eq!(f("%b", vec![(1, Some(2))]).unwrap(), "00000001");
    assert!(f("%d", vec![(1, None)]).is_err());
    assert!(f("%2d", vec![(1, None)]).is_err());
    assert_eq!(f("% %3", vec![(1, None)]).unwrap(), "1 <?>");
}

#[test]
fn scan_integers() {
    let b = b"  -12\n+7 ff zz".to_vec();
    let (v, p) = scan_int(&b, 0, 10, 1).unwrap();
    assert_eq!((v, p), (-12, 6));
    let (v, p) = scan_int(&b, p, 10, 1).unwrap();
    assert_eq!((v, p), (7, 9));
    let (v, p) = scan_int(&b, p, 16, 1).unwrap();
    assert_eq!((v, p), (255, 12));
    assert!(scan_int(&b, p, 10, 1).is_err());
    assert!(scan_int(&b, b.len(), 10, 1).is_err());
    let big = b"99999999999999999999".to_vec();
    assert!(scan_int(&big, 0, 10, 1).is_err());
}

#[test]
fn scan_formats() {
    assert_eq!(parse_scan_fmt(1, None).unwrap(), 10);
    assert_eq!(parse_scan_fmt(1, Some("%")).unwrap(), 10);
    assert_eq!(parse_scan_fmt(1, Some("%b")).unwrap(), 2);
    assert_eq!(parse_scan_fmt(1, Some("%x")).unwrap(), 16);
    assert_eq!(parse_scan_fmt(1, Some("%o")).unwrap(), 8);
    let e = parse_scan_fmt(4, Some("%4b")).unwrap_err();
    assert_eq!(e.line, 4);
}

#[test]
fn json_escaping() {
    let mut s = String::from("[");
    json_escape_into("a\"b\\c\nd\u{1}", &mut s);
    assert_eq!(s, "[\"a\\\"b\\\\c\\nd\\u0001\"");
}

#[test]
fn vcd_identifiers() {
    assert_eq!(vcd_id(0), "!");
    assert_eq!(vcd_id(93), "~");
    assert_eq!(vcd_id(94), "!!");
    assert_eq!(vcd_id(95), "\"!");
}

#[test]
fn integer_text() {
    assert_eq!(format_int(-255, 16), "-ff");
    assert_eq!(format_int(0, 2), "0");
    assert_eq!(format_int(i64::MIN, 10), "-9223372036854775808");
    assert_eq!(int_str(1234), "1234");
    assert_eq!(pad_value("-5", 4, true), "-005");
    assert_eq!(pad_value("-5", 4, false), "  -5");
    assert_eq!(pad_value("12345", 3, false), "12345");
}

#[test]
fn waveform_paths() {
    assert_eq!(vcd_path_for("out/w.vcd", "m", false), "out/w.vcd");
    assert_eq!(vcd_path_for("out/w.vcd", "m", true), "out/w.m.vcd");
    assert_eq!(vcd_path_for("a.b/w", "m", true), "a.b/w.m");
}

#[test]
fn keys_and_prefixes() {
    assert_eq!(lane_key("bus", 3), "bus[3]");
    assert_eq!(instance_prefix("inv#(W=2)(a)"), "inv(W=2)(a)");
    assert_eq!(dir_of("a/b/c.rv"), "a/b");
    assert_eq!(dir_of("c.rv"), ".");
    assert!(bundled_stdlib("stdlogic"));
    assert!(!bundled_stdlib("stdfoo"));
}

#[test]
fn binary_operators() {
    assert_eq!(apply_bin(1, "+", 2, 3).unwrap(), 5);
    assert_eq!(apply_bin(1, "-", 2, 3).unwrap(), -1);
    assert_eq!(apply_bin(1, "*", 4, 3).unwrap(), 12);
    assert_eq!(apply_bin(1, "/", -7, 2).unwrap(), -3);
    assert_eq!(apply_bin(1, "%", -7, 2).unwrap(), -1);
    assert_eq!(apply_bin(1, "<", 1, 2).unwrap(), 1);
    assert_eq!(apply_bin(1, ">=", 1, 2).unwrap(), 0);
    assert_eq!(apply_bin(1, "==", 2, 2).unwrap(), 1);
    assert_eq!(apply_bin(1, "+", i64::MAX, 1).unwrap(), i64::MIN);
    let e = apply_bin(9, "/", 1, 0).unwrap_err();
    assert_eq!(e.line, 9);
    assert!(apply_bin(9, "%", 1, 0).is_err());
}

#[test]
fn bus_slices_and_overlaps() {
    let v = vec![10usize, 11, 12, 13];
    assert_eq!(bus_slice(&v, "p", 2, 0, 1).unwrap(), vec![12, 11, 10]);
    assert_eq!(bus_slice(&v, "p", 1, 3, 1).unwrap(), vec![11, 12, 13]);
    let e = bus_slice(&v, "p", 4, 0, 5).unwrap_err();
    assert_eq!(e.msg, "bus slice index out of range: p[4:0] (width 4)");
    let descs = vec!["a".to_string(), "b".to_string()];
    assert!(check_target_overlap(&descs, &vec![vec![1, 2], vec![3]], 1).is_ok());
    assert!(check_target_overlap(&descs, &vec![vec![1, 2], vec![2]], 1).is_err());
    assert!(check_target_overlap(&descs, &vec![vec![1, 1], vec![3]], 1).is_err());
}

#[test]
fn diagnostics_render() {
    assert_eq!(display_cols("abc"), 3);
    assert_eq!(caret_range(b"x - r2 = y;", 8, 1), (7, 8));
    let r = render_report("error", "f.rv", 2, 3, 2, "bad", Some("ab cd"));
    assert_eq!(r, vec!["[error] bad", " --> f.rv:2:3", "  |", "2 | ab cd", "  |   ^^"]);
    let r = render_report("warning", "f.rv", 4, 0, 0, "odd", None);
    assert_eq!(r, vec!["[warning] line 4: odd"]);
    let r = render_report("warning", "f.rv", 0, 0, 0, "odd", None);
    assert_eq!(r, vec!["[warning] odd"]);
}

#[test]
fn json_reports() {
    let w = Warning { line: 3, rule: None, msg: "x\"y".to_string() };
    assert_eq!(warning_json(&w), "{\"kind\":\"warning\",\"line\":3,\"msg\":\"x\\\"y\"}");
    let l = Warning { line: 1, rule: Some("floating-reg".to_string()), msg: "m".to_string() };
    assert_eq!(warning_json(&l), "{\"kind\":\"lint\",\"rule\":\"floating-reg\",\"line\":1,\"msg\":\"m\"}");
    assert_eq!(warning_head(&l), ("lint".to_string(), "floating-reg: m".to_string()));
    let e = RvError { line: 5, col: 0, len: 0, msg: "boom".to_string() };
    assert_eq!(error_json(&e), "{\"kind\":\"error\",\"line\":5,\"msg\":\"boom\"}");
}

#[test]
fn check_summaries() {
    let (ls, r) = finish_checks(3, 0, false);
    assert_eq!(ls, vec!["[assert] 3 assertion(s), all passed"]);
    assert!(r.is_ok());
    let (ls, r) = finish_checks(3, 2, false);
    assert!(ls.is_empty());
    assert_eq!(r.unwrap_err().msg, "assertions: 2 of 3 failed");
    let (ls, r) = finish_checks(3, 1, true);
    assert_eq!(ls, vec!["{\"kind\":\"summary\",\"total\":3,\"failed\":1}"]);
    assert!(r.is_err());
    let (ls, r) = finish_checks(0, 0, false);
    assert!(ls.is_empty() && r.is_ok());
}

#[test]
fn strings_and_maps() {
    assert_eq!(lossy_string(b"ab\xffc"), "ab\u{fffd}c");
    assert_eq!(char_string('q'), "q");
    assert!(str_lt("ab", "b"));
    assert!(str_lt("a", "ab"));
    assert!(!str_lt("b", "b"));
    let v = vec!["m".to_string(), "a".to_string(), "z".to_string(), "a".to_string()];
    assert_eq!(sort_strs(&v), vec!["a", "a", "m", "z"]);
    let mut m: StrMap<i64> = StrMap::new();
    m.insert("k".to_string(), 1);
    m.insert("j".to_string(), 2);
    m.insert("k".to_string(), 3);
    assert_eq!(m.len(), 2);
    assert_eq!(m.get("k"), Some(&3));
    m.remove("k");
    assert_eq!(m.get("k"), None);
    assert!(m.contains_key("j"));
    let mut s = StrSet::new();
    assert!(s.insert("x".to_string()));
    assert!(!s.insert("x".to_string()));
    assert!(s.contains("x"));
    s.clear();
    assert!(s.is_empty());
}

#[test]
fn observer_and_element_outputs() {
    assert_eq!(observer_out(ObsMode::Any, 0, 3), 15);
    assert_eq!(observer_out(ObsMode::Any, 3, 3), 0);
    assert_eq!(observer_out(ObsMode::Rise, 0, 3), 15);
    assert_eq!(observer_out(ObsMode::Rise, 2, 3), 0);
    assert_eq!(observer_out(ObsMode::Fall, 2, 0), 15);
    assert_eq!(observer_out(ObsMode::Edge, 0, 5), 15);
    assert_eq!(observer_out(ObsMode::Edge, 5, 4), 0);
    assert_eq!(seq_out_of(SeqKind::Rep, 3, 0), 15);
    assert_eq!(seq_out_of(SeqKind::Torch, 3, 0), 0);
    assert_eq!(seq_out_of(SeqKind::Torch, 0, 0), 15);
    assert_eq!(seq_out_of(SeqKind::CompCmp, 10, 4), 10);
    assert_eq!(seq_out_of(SeqKind::CompCmp, 4, 10), 0);
    assert_eq!(seq_out_of(SeqKind::CompSub, 10, 4), 6);
    assert_eq!(seq_out_of(SeqKind::CompSub, 4, 10), 0);
}

#[test]
fn circuit_dust_propagation() {
    let mut c = Circuit::new(Config::default_config());
    let a = c.new_node("a".to_string(), NodeKind::Input);
    let b = c.new_node("b".to_string(), NodeKind::Plain);
    let d = c.new_node("d".to_string(), NodeKind::Plain);
    c.add_edge(a, b, 1);
    c.add_edge(b, d, 2);
    c.set_input(a, 15);
    c.step();
    assert_eq!(c.read(a), 15);
    assert_eq!(c.read(b), 14);
    assert_eq!(c.read(d), 12);
    // A settled circuit reports no change.
    assert!(!c.step());
}

#[test]
fn circuit_merge_takes_max() {
    let mut c = Circuit::new(Config::default_config());
    let a = c.new_node("a".to_string(), NodeKind::Input);
    let b = c.new_node("b".to_string(), NodeKind::Input);
    let y = c.new_node("y".to_string(), NodeKind::Plain);
    c.add_edge(a, y, 0);
    c.add_edge(b, y, 0);
    c.set_input(a, 4);
    c.set_input(b, 9);
    c.step();
    assert_eq!(c.read(y), 9);
    let p = c.new_node("p".to_string(), NodeKind::Plain);
    c.merge(p, y, 1).unwrap();
    assert_eq!(c.find(p), c.find(y));
}

#[test]
fn circuit_torch_inverts_after_a_tick() {
    let mut c = Circuit::new(Config::default_config());
    let a = c.new_node("a".to_string(), NodeKind::Input);
    let y = c.new_node("y".to_string(), NodeKind::Plain);
    c.add_seq(SeqKind::Torch, 1, a, y, "t".to_string(), 1);
    for _ in 0..3 {
        c.step();
    }
    assert_eq!(c.read(y), 15);
    c.set_input(a, 15);
    for _ in 0..3 {
        c.step();
    }
    assert_eq!(c.read(y), 0);
}

#[test]
fn error_one_line_form() {
    let e = RvError { line: 3, col: 0, len: 0, msg: "bad".to_string() };
    assert_eq!(e.to_text(), "line 3: bad");
    let e = RvError { line: 0, col: 0, len: 0, msg: "bad".to_string() };
    assert_eq!(e.to_text(), "bad");
}

#[test]
fn run_plan_messages() {
    let w = no_module_warning(0).unwrap();
    assert_eq!(w.line, 0);
    assert!(w.rule.is_none());
    assert_eq!(w.msg, "no module to run");
    assert!(no_module_warning(2).is_none());
    assert_eq!(module_header("m", true, false).unwrap(), "=== module m ===");
    assert!(module_header("m", false, false).is_none());
    assert!(module_header("m", true, true).is_none());
}
