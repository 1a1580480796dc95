//! Syntax tree of `.rv` sources: logic (circuit) definitions and module (testbench) code.
use crate::diag::Warning;
use crate::strs::{StrMap, StrSet};
use vstd::prelude::*;

verus! {

/// One circuit element of a chain chunk. `k` is the kind: 'd' dust, 'r' repeater, 't' torch,
/// 'o' observer, 'C' comparator (compare mode), 'S' comparator (subtract mode).
/// `n` is the repeater delay, or the observer edge mode (0 any change, 1 rising,
/// 2 falling, 3 two-level edge).
#[derive(Debug, Clone, Copy)]
pub struct Elem {
    pub k: char,
    pub n: i32,
    pub line: i32,
}

/// A port of a logic definition; `width` is `Some` for a bus port.
#[derive(Debug, Clone)]
pub struct Port {
    pub input: bool,
    pub name: String,
    pub line: i32,
    pub width: Option<WidthExpr>,
}

/// A bus width: a literal resolved while parsing, or an expression over the logic's
/// generic parameters resolved at each instantiation.
#[derive(Debug)]
pub enum WidthExpr {
    Lit(i32),
    Expr(Expr),
}

/// Initializer of a reg declaration. `strength == -1` means no strength was written.
#[derive(Debug, Clone)]
pub struct RegInit {
    pub strength: i32,
    pub tok: Option<String>,
}

/// Reg qualifier.
#[derive(Debug, Clone, Copy, PartialEq, Eq, Structural)]
pub enum Qual {
    Plain,
    Const,
    Mutable,
}

/// A lane or slice index: a literal, or an expression over generic parameters.
#[derive(Debug)]
pub enum IdxExpr {
    Lit(i32),
    Expr(Expr),
}

/// Lane selection on a named point: none, one lane, or an inclusive slice.
#[derive(Debug)]
pub enum Sel {
    All,
    Lane(IdxExpr),
    Slice(IdxExpr, IdxExpr),
}

/// A plain reference `name`, `name[k]` or `name[hi:lo]`.
#[derive(Debug)]
pub struct BindRef {
    pub name: String,
    pub sel: Sel,
}

/// The target of a logic-call binding: one reference or a concatenation of references.
#[derive(Debug)]
pub enum BindTarget {
    Ref(BindRef),
    Concat(Vec<BindRef>),
}

impl BindTarget {
    /// The references that make up this target, in order.
    pub open spec fn refs_spec(&self) -> Seq<BindRef> {
        match self {
            BindTarget::Ref(b) => seq![*b],
            BindTarget::Concat(v) => v@,
        }
    }

    /// The references that make up this target, in order.
    pub fn refs(&self) -> (r: Vec<BindRef>)
        ensures
            r@ == self.refs_spec(),
    {
        match self {
            BindTarget::Ref(b) => {
                let mut v = Vec::new();
                v.push(b.clone());
                assert(v@ =~= seq![*b]);
                v
            },
            BindTarget::Concat(v) => clone_refs(v),
        }
    }
}

/// An exact copy of a list of references.
pub(crate) fn clone_refs(v: &Vec<BindRef>) -> (r: Vec<BindRef>)
    ensures
        r@ == v@,
{
    let mut out: Vec<BindRef> = Vec::new();
    let mut i: usize = 0;
    while i < v.len()
        invariant
            i <= v@.len(),
            out@ =~= v@.subrange(0, i as int),
        decreases v@.len() - i,
    {
        out.push(v[i].clone());
        i += 1;
    }
    assert(v@.subrange(0, v@.len() as int) =~= v@);
    out
}

impl Clone for WidthExpr {
    fn clone(&self) -> (r: Self)
        ensures
            r == *self,
    {
        match self {
            WidthExpr::Lit(n) => WidthExpr::Lit(*n),
            WidthExpr::Expr(e) => WidthExpr::Expr(e.clone()),
        }
    }
}

impl Clone for IdxExpr {
    fn clone(&self) -> (r: Self)
        ensures
            r == *self,
    {
        match self {
            IdxExpr::Lit(n) => IdxExpr::Lit(*n),
            IdxExpr::Expr(e) => IdxExpr::Expr(e.clone()),
        }
    }
}

impl Clone for Sel {
    fn clone(&self) -> (r: Self)
        ensures
            r == *self,
    {
        match self {
            Sel::All => Sel::All,
            Sel::Lane(i) => Sel::Lane(i.clone()),
            Sel::Slice(a, b) => Sel::Slice(a.clone(), b.clone()),
        }
    }
}

impl Clone for BindRef {
    fn clone(&self) -> (r: Self)
        ensures
            r == *self,
    {
        BindRef { name: self.name.clone(), sel: self.sel.clone() }
    }
}

impl Clone for BindTarget {
    fn clone(&self) -> (r: Self)
        ensures
            match (r, *self) {
                (BindTarget::Ref(a), BindTarget::Ref(b)) => a == b,
                (BindTarget::Concat(a), BindTarget::Concat(b)) => a@ == b@,
                _ => false,
            },
    {
        match self {
            BindTarget::Ref(b) => BindTarget::Ref(BindRef::clone(b)),
            BindTarget::Concat(v) => BindTarget::Concat(clone_refs(v)),
        }
    }
}

impl Clone for Expr {
    fn clone(&self) -> (r: Self)
        ensures
            r == *self,
        decreases self,
    {
        match self {
            Expr::Num { line, num } => Expr::Num { line: *line, num: *num },
            Expr::Var { line, name, index } => {
                let ix = match index {
                    Some(b) => Some(Box::new((**b).clone())),
                    None => None,
                };
                Expr::Var { line: *line, name: name.clone(), index: ix }
            },
            Expr::Time { line } => Expr::Time { line: *line },
            Expr::Bin { line, op, a, b } => Expr::Bin {
                line: *line,
                op: op.clone(),
                a: Box::new((**a).clone()),
                b: Box::new((**b).clone()),
            },
            Expr::Un { line, op, a } => Expr::Un {
                line: *line,
                op: op.clone(),
                a: Box::new((**a).clone()),
            },
        }
    }
}

/// An argument of a logic call: a (possibly indexed) name, a concatenation, or a nested call.
#[derive(Debug)]
pub enum InstArg {
    Name { name: String, sel: Sel },
    Concat(Vec<BindRef>),
    Call { line: i32, callee: String, params: Vec<(String, Expr)>, args: Vec<InstArg> },
}

/// A chain endpoint: a reference (optionally `.side`) or a concatenation.
#[derive(Debug)]
pub enum Endpoint {
    Ref { name: String, side: bool, sel: Sel },
    Concat(Vec<Endpoint>),
}

/// An exact copy of a list of `#(...)` actual parameters.
pub(crate) fn clone_params(v: &Vec<(String, Expr)>) -> (r: Vec<(String, Expr)>)
    ensures
        r@ == v@,
{
    let mut out: Vec<(String, Expr)> = Vec::new();
    let mut i: usize = 0;
    while i < v.len()
        invariant
            i <= v@.len(),
            out@ =~= v@.subrange(0, i as int),
        decreases v@.len() - i,
    {
        out.push((v[i].0.clone(), v[i].1.clone()));
        i += 1;
    }
    assert(v@.subrange(0, v@.len() as int) =~= v@);
    out
}

/// `x` is a copy of call argument `y`: the same name and selection, the same parts, or
/// the same call (line, callee, parameters and arguments).
pub open spec fn arg_copy(x: InstArg, y: InstArg) -> bool
    decreases x,
{
    match (x, y) {
        (InstArg::Name { name: n1, sel: s1 }, InstArg::Name { name: n2, sel: s2 }) => n1 == n2 && s1 == s2,
        (InstArg::Concat(a), InstArg::Concat(b)) => a@ == b@,
        (
            InstArg::Call { line: l1, callee: c1, params: p1, args: a1 },
            InstArg::Call { line: l2, callee: c2, params: p2, args: a2 },
        ) => {
            proof {
                assert(decreases_to!(x => a1));
            }
            l1 == l2 && c1 == c2 && p1@ == p2@ && a1@.len() == a2@.len() && forall|i: int|
                0 <= i < a1@.len() ==> arg_copy(#[trigger] a1@[i], a2@[i])
        },
        _ => false,
    }
}

/// An exact copy of a list of call arguments.
pub(crate) fn clone_args(v: &Vec<InstArg>) -> (r: Vec<InstArg>)
    ensures
        r@.len() == v@.len(),
        forall|i: int| 0 <= i < v@.len() ==> arg_copy(#[trigger] r@[i], v@[i]),
    decreases v, 0nat,
{
    let mut out: Vec<InstArg> = Vec::new();
    let mut i: usize = 0;
    while i < v.len()
        invariant
            i <= v@.len(),
            out@.len() == i,
            forall|j: int| 0 <= j < i ==> arg_copy(#[trigger] out@[j], v@[j]),
        decreases v@.len() - i,
    {
        proof {
            assert(decreases_to!(v => v@[i as int]));
        }
        out.push(clone_arg(&v[i]));
        i += 1;
    }
    out
}

/// An exact copy of a call argument.
pub(crate) fn clone_arg(a: &InstArg) -> (r: InstArg)
    ensures
        arg_copy(r, *a),
    decreases a, 1nat,
{
    match a {
        InstArg::Name { name, sel } => InstArg::Name { name: name.clone(), sel: sel.clone() },
        InstArg::Concat(v) => InstArg::Concat(clone_refs(v)),
        InstArg::Call { line, callee, params, args } => InstArg::Call {
            line: *line,
            callee: callee.clone(),
            params: clone_params(params),
            args: clone_args(args),
        },
    }
}

impl Clone for InstArg {
    fn clone(&self) -> (r: Self) {
        clone_arg(self)
    }
}

/// An exact copy of a list of endpoints.
pub(crate) fn clone_endpoints(v: &Vec<Endpoint>) -> (r: Vec<Endpoint>)
    ensures
        r@.len() == v@.len(),
    decreases v, 0nat,
{
    let mut out: Vec<Endpoint> = Vec::new();
    let mut i: usize = 0;
    while i < v.len()
        invariant
            i <= v@.len(),
            out@.len() == i,
        decreases v@.len() - i,
    {
        proof {
            assert(decreases_to!(v => v@[i as int]));
        }
        out.push(clone_endpoint(&v[i]));
        i += 1;
    }
    out
}

/// An exact copy of an endpoint.
pub(crate) fn clone_endpoint(e: &Endpoint) -> (r: Endpoint)
    ensures
        match (r, *e) {
            (Endpoint::Ref { name: n1, side: s1, sel: l1 }, Endpoint::Ref { name: n2, side: s2, sel: l2 }) =>
                n1 == n2 && s1 == s2 && l1 == l2,
            (Endpoint::Concat(a), Endpoint::Concat(b)) => a@.len() == b@.len(),
            _ => false,
        },
    decreases e, 1nat,
{
    match e {
        Endpoint::Ref { name, side, sel } => Endpoint::Ref {
            name: name.clone(),
            side: *side,
            sel: Sel::clone(sel),
        },
        Endpoint::Concat(v) => Endpoint::Concat(clone_endpoints(v)),
    }
}

impl Clone for Endpoint {
    fn clone(&self) -> (r: Self) {
        clone_endpoint(self)
    }
}

/// A statement of a logic body.
#[derive(Debug)]
pub enum LogicStmt {
    DeclWire { line: i32, names: Vec<String> },
    DeclReg { line: i32, name: String, qual: Qual, init: Option<RegInit>, width: Option<WidthExpr> },
    AssignChain {
        line: i32,
        target: String,
        from: String,
        from_side: bool,
        to: String,
        to_side: bool,
        chunks: Vec<String>,
    },
    Chain { line: i32, from: Endpoint, to: Endpoint, chunks: Vec<String> },
    AssignSingle { line: i32, target: String, strength: i32, rhs: String },
    Instance {
        line: i32,
        outputs: Vec<BindTarget>,
        callee: String,
        args: Vec<InstArg>,
        params: Vec<(String, Expr)>,
    },
}

/// A logic definition with its ports, body and generic parameters (name, default).
#[derive(Debug)]
pub struct LogicDef {
    pub name: String,
    pub line: i32,
    pub ports: Vec<Port>,
    pub stmts: Vec<LogicStmt>,
    pub params: Vec<(String, Option<i64>)>,
}

/// An expression of the testbench language (also used for constant expressions).
#[derive(Debug)]
pub enum Expr {
    Num { line: i32, num: i64 },
    Var { line: i32, name: String, index: Option<Box<Expr>> },
    Time { line: i32 },
    Bin { line: i32, op: String, a: Box<Expr>, b: Box<Expr> },
    Un { line: i32, op: String, a: Box<Expr> },
}

impl Expr {
    /// The source line of the expression.
    pub open spec fn spec_line(&self) -> i32 {
        match self {
            Expr::Num { line, .. } => *line,
            Expr::Var { line, .. } => *line,
            Expr::Time { line } => *line,
            Expr::Bin { line, .. } => *line,
            Expr::Un { line, .. } => *line,
        }
    }

    /// The source line of the expression.
    pub fn line(&self) -> (r: i32)
        ensures
            r == self.spec_line(),
    {
        match self {
            Expr::Num { line, .. } => *line,
            Expr::Var { line, .. } => *line,
            Expr::Time { line } => *line,
            Expr::Bin { line, .. } => *line,
            Expr::Un { line, .. } => *line,
        }
    }
}

/// Call data of `monitor()` and the other system calls.
#[derive(Debug)]
pub struct CallData {
    pub callee: String,
    pub has_fmt: bool,
    pub fmt: String,
    pub args: Vec<Expr>,
}

impl Clone for CallData {
    fn clone(&self) -> (r: Self)
        ensures
            r.callee@ == self.callee@,
            r.has_fmt == self.has_fmt,
            r.fmt@ == self.fmt@,
            r.args@ == self.args@,
    {
        let mut args: Vec<Expr> = Vec::new();
        let mut i: usize = 0;
        while i < self.args.len()
            invariant
                i <= self.args@.len(),
                args@ == self.args@.subrange(0, i as int),
            decreases self.args@.len() - i,
        {
            args.push(self.args[i].clone());
            proof {
                assert(args@ =~= self.args@.subrange(0, i + 1));
            }
            i += 1;
        }
        proof {
            assert(args@ =~= self.args@);
        }
        CallData { callee: self.callee.clone(), has_fmt: self.has_fmt, fmt: self.fmt.clone(), args }
    }
}

/// A statement of a `sim` block (or a module-level var declaration).
#[derive(Debug)]
pub enum SimStmt {
    DeclVar { line: i32, decls: Vec<(String, Option<Expr>, Option<i32>)> },
    Assign { line: i32, target: String, index: Option<Box<Expr>>, value: Expr, pulse: Option<Expr> },
    CallBind {
        line: i32,
        targets: Vec<BindTarget>,
        callee: String,
        bind_args: Vec<InstArg>,
        params: Vec<(String, Expr)>,
        fmt: Option<String>,
    },
    WaitTicks { line: i32, ticks: i64 },
    WaitInit { line: i32 },
    WaitUntil { line: i32, cond: Expr },
    Call { line: i32, call: CallData },
    MonReg { line: i32, call: CallData },
    If { line: i32, cond: Expr, body: Vec<SimStmt>, else_body: Vec<SimStmt> },
    While { line: i32, cond: Expr, body: Vec<SimStmt> },
    For {
        line: i32,
        init: Option<Box<SimStmt>>,
        cond: Option<Expr>,
        post: Option<Box<SimStmt>>,
        body: Vec<SimStmt>,
    },
}

/// A module: module-level var declarations and the (concatenated) sim blocks.
#[derive(Debug)]
pub struct ModuleDef {
    pub name: String,
    pub line: i32,
    pub pre: Vec<SimStmt>,
    pub sim: Vec<SimStmt>,
}

/// A whole parsed program.
#[derive(Debug)]
pub struct Program {
    pub defines: StrMap<i64>,
    pub str_defines: StrMap<String>,
    pub logics: StrMap<LogicDef>,
    pub modules: Vec<ModuleDef>,
    /// Bundled libraries already pulled in (a second include of one is a no-op).
    pub included_stdlibs: StrSet,
    /// Warnings raised while parsing.
    pub warnings: Vec<Warning>,
}

impl Program {
    /// An empty program.
    pub fn new() -> (r: Program)
        ensures
            forall|k: Seq<char>| !r.defines.has(k) && !r.logics.has(k) && !r.included_stdlibs.has(k),
            r.modules@.len() == 0,
    {
        Program {
            defines: StrMap::new(),
            str_defines: StrMap::new(),
            logics: StrMap::new(),
            modules: Vec::new(),
            included_stdlibs: StrSet::new(),
            warnings: Vec::new(),
        }
    }
}

} // verus!
