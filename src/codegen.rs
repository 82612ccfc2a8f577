use vstd::prelude::*;

use crate::ast::{
    view_bindings, view_expr, view_exprs, view_init, view_step, Ast, Expr, Function, FunctionShape,
};
use crate::parser::{shapes, ParserContext};
use crate::lexer::Token;
use crate::parser::{op_char, operator_char, push_char};

verus! {

broadcast use vstd::std_specs::vec::axiom_vec_index_decreases, vstd::seq::axiom_seq_index_decreases;

/// A value of the lowered form.
#[derive(Debug, Clone, Copy, PartialEq, Eq, Structural)]
pub enum Operand {
    /// The number literal with this index in the function's constant pool.
    Const(usize),
    Zero,
    One,
    /// The function's parameter with this index.
    Param(usize),
    /// The value of the instruction at this index of the function's code.
    Value(usize),
}

#[derive(Debug, Clone, Copy, PartialEq, Eq, Structural)]
pub enum Arith {
    Add,
    Sub,
    Mul,
    Div,
}

/// Comparisons of doubles. "Unordered" means that a NaN operand makes the
/// comparison true: the truth test of conditions and loops takes a NaN as
/// true on purpose.
#[derive(Debug, Clone, Copy, PartialEq, Eq, Structural)]
pub enum Predicate {
    UnorderedLess,
    UnorderedGreater,
    UnorderedNotEqual,
}

/// One instruction. Cells are mutable storage; `Arg`s right before a `Call`
/// are its arguments, in order.
#[derive(Debug, Clone, Copy, PartialEq, Eq, Structural)]
pub enum Inst {
    Store { cell: usize, value: Operand },
    Load { cell: usize },
    Arith { op: Arith, lhs: Operand, rhs: Operand },
    Compare { pred: Predicate, lhs: Operand, rhs: Operand },
    /// 1.0 for true, 0.0 for false.
    BoolToDouble { value: Operand },
    Arg { value: Operand },
    Call { callee: usize, argc: usize },
    Br { target: usize },
    CondBr { cond: Operand, then_block: usize, else_block: usize },
    /// The value that came from `then_block` or from `else_block`.
    Phi { then_value: Operand, then_block: usize, else_value: Operand, else_block: usize },
    Ret { value: Operand },
}

#[derive(Debug, Clone, Copy, PartialEq, Eq, Structural)]
pub enum BlockKind {
    Entry,
    Then,
    Else,
    Merge,
    Loop,
    AfterLoop,
}

/// The body of one function while it is lowered: its code as
/// (block, instruction) pairs in emission order, its blocks, storage cells
/// (named after their variables) and number literals, the block that code
/// goes to now, and the variables in scope, innermost last.
pub struct FnBuilder {
    pub code: Vec<(usize, Inst)>,
    pub blocks: Vec<BlockKind>,
    pub cells: Vec<String>,
    pub consts: Vec<String>,
    pub cur: usize,
    pub scope: Vec<(String, usize)>,
}

/// The mathematical state of a function body under lowering.
pub struct Emit {
    pub code: Seq<(usize, Inst)>,
    pub blocks: Seq<BlockKind>,
    pub cells: nat,
    pub consts: Seq<Seq<char>>,
    pub cur: usize,
    pub scope: Seq<(Seq<char>, usize)>,
}

pub open spec fn scope_view(s: Seq<(String, usize)>) -> Seq<(Seq<char>, usize)> {
    s.map_values(|b: (String, usize)| (b.0@, b.1))
}

pub open spec fn strings_view(s: Seq<String>) -> Seq<Seq<char>> {
    s.map_values(|x: String| x@)
}

impl View for FnBuilder {
    type V = Emit;

    open spec fn view(&self) -> Emit {
        Emit {
            code: self.code@,
            blocks: self.blocks@,
            cells: self.cells@.len(),
            consts: strings_view(self.consts@),
            cur: self.cur,
            scope: scope_view(self.scope@),
        }
    }
}

/// A declared function of the module, with its body once lowered.
pub struct IrFunction {
    pub name: String,
    pub params: Vec<String>,
    pub body: Option<FnBuilder>,
}

/// The functions declared so far, each name once.
pub struct Module {
    pub name: String,
    pub functions: Vec<IrFunction>,
}

pub open spec fn fn_names(fs: Seq<IrFunction>) -> Seq<Seq<char>> {
    fs.map_values(|f: IrFunction| f.name@)
}

/// Why lowering fails.
#[derive(Debug, PartialEq)]
pub enum LowerError {
    UnknownVariable(String),
    UnknownFunction(String),
    /// A binary operator with neither a `binary` function nor a built-in meaning.
    UnknownOperator(char),
    /// A prefix operator without a `unary` function.
    UnknownUnaryOperator(char),
    /// `=` whose left side is not a variable.
    InvalidAssignment,
    /// A binary node whose token is no operator.
    NotAnOperator,
    /// The body of a declaration, which has no value.
    NoValue,
}

/// `LowerError` with names as character sequences.
pub enum Failure {
    UnknownVariable(Seq<char>),
    UnknownFunction(Seq<char>),
    UnknownOperator(char),
    UnknownUnaryOperator(char),
    InvalidAssignment,
    NotAnOperator,
    NoValue,
}

impl View for LowerError {
    type V = Failure;

    open spec fn view(&self) -> Failure {
        match self {
            LowerError::UnknownVariable(s) => Failure::UnknownVariable(s@),
            LowerError::UnknownFunction(s) => Failure::UnknownFunction(s@),
            LowerError::UnknownOperator(c) => Failure::UnknownOperator(*c),
            LowerError::UnknownUnaryOperator(c) => Failure::UnknownUnaryOperator(*c),
            LowerError::InvalidAssignment => Failure::InvalidAssignment,
            LowerError::NotAnOperator => Failure::NotAnOperator,
            LowerError::NoValue => Failure::NoValue,
        }
    }
}

pub type Lowered = Result<(Emit, Operand), Failure>;

/// The innermost binding of `name`.
pub open spec fn find_var(sc: Seq<(Seq<char>, usize)>, name: Seq<char>) -> Option<usize>
    decreases sc.len(),
{
    if sc.len() == 0 {
        None
    } else if sc.last().0 == name {
        Some(sc.last().1)
    } else {
        find_var(sc.drop_last(), name)
    }
}

/// The index of the function named `name` (the last, where names repeat).
pub open spec fn find_fn(fs: Seq<Seq<char>>, name: Seq<char>) -> Option<usize>
    decreases fs.len(),
{
    if fs.len() == 0 {
        None
    } else if fs.last() == name {
        Some((fs.len() - 1) as usize)
    } else {
        find_fn(fs.drop_last(), name)
    }
}

/// The operand that names the value of the next instruction.
pub open spec fn value_at(st: Emit) -> Operand {
    Operand::Value(st.code.len() as usize)
}

/// Appends an instruction to the current block.
pub open spec fn emit(st: Emit, i: Inst) -> Emit {
    Emit { code: st.code.push((st.cur, i)), ..st }
}

pub open spec fn emit_args(st: Emit, vs: Seq<Operand>) -> Emit
    decreases vs.len(),
{
    if vs.len() == 0 {
        st
    } else {
        emit(emit_args(st, vs.drop_last()), Inst::Arg { value: vs.last() })
    }
}

/// A call of function `f` on `vs`: its arguments, then the call, whose value
/// is the result.
pub open spec fn call(st: Emit, f: usize, vs: Seq<Operand>) -> (Emit, Operand) {
    let s1 = emit_args(st, vs);
    (emit(s1, Inst::Call { callee: f, argc: vs.len() as usize }), value_at(s1))
}

pub open spec fn new_block(st: Emit, k: BlockKind) -> Emit {
    Emit { blocks: st.blocks.push(k), ..st }
}

pub open spec fn new_cell(st: Emit) -> Emit {
    Emit { cells: st.cells + 1, ..st }
}

/// A built-in binary operation, if `op` has one.
pub open spec fn builtin(op: Token, l: Operand, r: Operand, st: Emit) -> Option<(Emit, Operand)> {
    let arith = |a: Arith| Some((emit(st, Inst::Arith { op: a, lhs: l, rhs: r }), value_at(st)));
    let compare = |p: Predicate|
        {
            let s1 = emit(st, Inst::Compare { pred: p, lhs: l, rhs: r });
            Some((emit(s1, Inst::BoolToDouble { value: value_at(st) }), value_at(s1)))
        };
    match op {
        Token::Plus(_) => arith(Arith::Add),
        Token::Minus(_) => arith(Arith::Sub),
        Token::Star(_) => arith(Arith::Mul),
        Token::Slash(_) => arith(Arith::Div),
        Token::Less(_) => compare(Predicate::UnorderedLess),
        Token::Greater(_) => compare(Predicate::UnorderedGreater),
        _ => None,
    }
}

/// A binary operator on lowered operands: a `binary<c>` function if one is
/// declared, else a built-in.
pub open spec fn binary(fs: Seq<Seq<char>>, op: Token, l: Operand, r: Operand, st: Emit) -> Lowered {
    match op_char(op) {
        None => Err(Failure::NotAnOperator),
        Some(c) => if op is Assign {
            Err(Failure::InvalidAssignment)
        } else {
            match find_fn(fs, "binary"@.push(c)) {
                Some(f) => Ok(call(st, f, seq![l, r])),
                None => match builtin(op, l, r, st) {
                    Some(res) => Ok(res),
                    None => Err(Failure::UnknownOperator(c)),
                },
            }
        },
    }
}

/// Lowers expression `e` into the state `st`, with the functions `fs`
/// declared: the new state and the operand that holds the value.
pub open spec fn lower(fs: Seq<Seq<char>>, e: Ast, st: Emit) -> Lowered
    decreases e, 1nat,
{
    match e {
        Ast::Number(v) => Ok(
            (Emit { consts: st.consts.push(v), ..st }, Operand::Const(st.consts.len() as usize)),
        ),
        Ast::Variable(x) => match find_var(st.scope, x) {
            None => Err(Failure::UnknownVariable(x)),
            Some(c) => Ok((emit(st, Inst::Load { cell: c }), value_at(st))),
        },
        Ast::BinOp(l, op, r) => if op is Assign && *l is Variable {
            match lower(fs, *r, st) {
                Err(f) => Err(f),
                Ok((s1, v)) => match find_var(s1.scope, l->Variable_0) {
                    None => Err(Failure::UnknownVariable(l->Variable_0)),
                    Some(c) => Ok((emit(s1, Inst::Store { cell: c, value: v }), v)),
                },
            }
        } else {
            match lower(fs, *l, st) {
                Err(f) => Err(f),
                Ok((s1, lv)) => match lower(fs, *r, s1) {
                    Err(f) => Err(f),
                    Ok((s2, rv)) => binary(fs, op, lv, rv, s2),
                },
            }
        },
        Ast::Unary(c, x) => match lower(fs, *x, st) {
            Err(f) => Err(f),
            Ok((s1, v)) => match find_fn(fs, "unary"@.push(c)) {
                None => Err(Failure::UnknownUnaryOperator(c)),
                Some(f) => Ok(call(s1, f, seq![v])),
            },
        },
        Ast::Call(name, args) => match find_fn(fs, name) {
            None => Err(Failure::UnknownFunction(name)),
            Some(f) => match lower_args(fs, args, args.len(), st) {
                Err(e) => Err(e),
                Ok((s1, vs)) => Ok(call(s1, f, vs)),
            },
        },
        Ast::If(c, th, el) => match lower(fs, *c, st) {
            Err(f) => Err(f),
            Ok((s1, cv)) => {
                let s2 = emit(s1, Inst::Compare { pred: Predicate::UnorderedNotEqual, lhs: cv, rhs: Operand::Zero });
                let tb = s2.blocks.len() as usize;
                let eb = (tb + 1) as usize;
                let mb = (tb + 2) as usize;
                let s3 = new_block(new_block(new_block(s2, BlockKind::Then), BlockKind::Else), BlockKind::Merge);
                let s4 = emit(s3, Inst::CondBr { cond: value_at(s1), then_block: tb, else_block: eb });
                match lower(fs, *th, Emit { cur: tb, ..s4 }) {
                    Err(f) => Err(f),
                    Ok((s5, tv)) => {
                        let s6 = emit(s5, Inst::Br { target: mb });
                        match lower(fs, *el, Emit { cur: eb, ..s6 }) {
                            Err(f) => Err(f),
                            Ok((s7, ev)) => {
                                let s8 = emit(s7, Inst::Br { target: mb });
                                let s9 = Emit { cur: mb, ..s8 };
                                Ok(
                                    (
                                        emit(
                                            s9,
                                            Inst::Phi {
                                                then_value: tv,
                                                then_block: s6.cur,
                                                else_value: ev,
                                                else_block: s8.cur,
                                            },
                                        ),
                                        value_at(s9),
                                    ),
                                )
                            },
                        }
                    },
                }
            },
        },
        Ast::For(x, start, end, step, body) => {
            let cell = st.cells as usize;
            match lower(fs, *start, new_cell(st)) {
                Err(f) => Err(f),
                Ok((s1, sv)) => {
                    let s2 = emit(s1, Inst::Store { cell, value: sv });
                    let lb = s2.blocks.len() as usize;
                    let s3 = emit(new_block(s2, BlockKind::Loop), Inst::Br { target: lb });
                    let s4 = Emit { cur: lb, scope: s3.scope.push((x, cell)), ..s3 };
                    match lower(fs, *body, s4) {
                        Err(f) => Err(f),
                        Ok((s5, _)) => lower_for_latch(fs, e, cell, lb, st.scope.len(), s5),
                    }
                },
            }
        },
        Ast::Var(items, body) => match lower_bindings(fs, items, items.len(), st) {
            Err(f) => Err(f),
            Ok(s1) => match lower(fs, *body, s1) {
                Err(f) => Err(f),
                Ok((s2, v)) => Ok((Emit { scope: s2.scope.take(st.scope.len() as int), ..s2 }, v)),
            },
        },
        Ast::NoBody => Err(Failure::NoValue),
    }
}

/// The part of loop `e` after its body, from state `s5`: the step (1.0
/// without one), the increment of the variable's cell, and the exit test,
/// which runs the body again while the end condition is not 0.0. The
/// variable's binding is dropped after it, back to `outer` bindings.
pub open spec fn lower_for_latch(fs: Seq<Seq<char>>, e: Ast, cell: usize, lb: usize, outer: nat, s5: Emit) -> Lowered
    decreases e, 0nat,
{
    match e {
        Ast::For(_, _, end, step, _) => {
            let stepped = match step {
                Some(sx) => lower(fs, *sx, s5),
                None => Ok((s5, Operand::One)),
            };
            match stepped {
                Err(f) => Err(f),
                Ok((s6, stv)) => {
                    let s7 = emit(s6, Inst::Load { cell });
                    let s8 = emit(s7, Inst::Arith { op: Arith::Add, lhs: value_at(s6), rhs: stv });
                    let s9 = emit(s8, Inst::Store { cell, value: value_at(s7) });
                    match lower(fs, *end, s9) {
                        Err(f) => Err(f),
                        Ok((s10, ev)) => {
                            let s11 = emit(
                                s10,
                                Inst::Compare { pred: Predicate::UnorderedNotEqual, lhs: ev, rhs: Operand::Zero },
                            );
                            let ab = s11.blocks.len() as usize;
                            let s12 = emit(
                                new_block(s11, BlockKind::AfterLoop),
                                Inst::CondBr { cond: value_at(s10), then_block: lb, else_block: ab },
                            );
                            Ok((Emit { cur: ab, scope: s12.scope.take(outer as int), ..s12 }, Operand::Zero))
                        },
                    }
                },
            }
        },
        _ => Err(Failure::NoValue),
    }
}

/// Lowers the first `n` arguments, left to right.
pub open spec fn lower_args(fs: Seq<Seq<char>>, args: Seq<Ast>, n: nat, st: Emit) -> Result<
    (Emit, Seq<Operand>),
    Failure,
>
    decreases args, n,
{
    if n == 0 || n > args.len() {
        Ok((st, Seq::empty()))
    } else {
        match lower_args(fs, args, (n - 1) as nat, st) {
            Err(f) => Err(f),
            Ok((s1, vs)) => match lower(fs, args[n - 1], s1) {
                Err(f) => Err(f),
                Ok((s2, v)) => Ok((s2, vs.push(v))),
            },
        }
    }
}

/// Enters the first `n` bindings of a `var` block: each initializer (0.0
/// without one) is lowered with the earlier bindings in scope, stored in a
/// new cell, and the name bound to that cell.
pub open spec fn lower_bindings(
    fs: Seq<Seq<char>>,
    items: Seq<(Seq<char>, Option<Ast>)>,
    n: nat,
    st: Emit,
) -> Result<Emit, Failure>
    decreases items, n,
{
    if n == 0 || n > items.len() {
        Ok(st)
    } else {
        match lower_bindings(fs, items, (n - 1) as nat, st) {
            Err(f) => Err(f),
            Ok(s1) => {
                let init = match items[n - 1].1 {
                    Some(x) => lower(fs, x, s1),
                    None => Ok((s1, Operand::Zero)),
                };
                match init {
                    Err(f) => Err(f),
                    Ok((s2, v)) => {
                        let cell = s2.cells as usize;
                        let s3 = emit(new_cell(s2), Inst::Store { cell, value: v });
                        Ok(Emit { scope: s3.scope.push((items[n - 1].0, cell)), ..s3 })
                    },
                }
            },
        }
    }
}

pub open spec fn entry_emit() -> Emit {
    Emit {
        code: Seq::empty(),
        blocks: seq![BlockKind::Entry],
        cells: 0,
        consts: Seq::empty(),
        cur: 0,
        scope: Seq::empty(),
    }
}

pub proof fn lemma_view_exprs_index(v: Vec<Expr>, n: nat)
    requires
        n <= v.len(),
    ensures
        view_exprs(v, n).len() == n,
        forall|k: int| 0 <= k < n ==> #[trigger] view_exprs(v, n)[k] == view_expr(v@[k]),
    decreases n,
{
    if n > 0 {
        lemma_view_exprs_index(v, (n - 1) as nat);
    }
}

pub proof fn lemma_view_bindings_index(v: Vec<(String, Option<Expr>)>, n: nat)
    requires
        n <= v.len(),
    ensures
        view_bindings(v, n).len() == n,
        forall|k: int|
            0 <= k < n ==> #[trigger] view_bindings(v, n)[k] == (v@[k].0@, view_init(v@[k].1)),
    decreases n,
{
    if n > 0 {
        lemma_view_bindings_index(v, (n - 1) as nat);
    }
}

proof fn lemma_args_failure(fs: Seq<Seq<char>>, args: Seq<Ast>, i: nat, n: nat, st: Emit)
    requires
        i <= n <= args.len(),
        lower_args(fs, args, i, st) is Err,
    ensures
        lower_args(fs, args, n, st) == lower_args(fs, args, i, st),
    decreases n,
{
    if n > i {
        lemma_args_failure(fs, args, i, (n - 1) as nat, st);
    }
}

proof fn lemma_bindings_failure(
    fs: Seq<Seq<char>>,
    items: Seq<(Seq<char>, Option<Ast>)>,
    i: nat,
    n: nat,
    st: Emit,
)
    requires
        i <= n <= items.len(),
        lower_bindings(fs, items, i, st) is Err,
    ensures
        lower_bindings(fs, items, n, st) == lower_bindings(fs, items, i, st),
    decreases n,
{
    if n > i {
        lemma_bindings_failure(fs, items, i, (n - 1) as nat, st);
    }
}

pub proof fn lemma_emit_args_keeps_scope(st: Emit, vs: Seq<Operand>)
    ensures
        emit_args(st, vs).scope == st.scope,
    decreases vs.len(),
{
    if vs.len() > 0 {
        lemma_emit_args_keeps_scope(st, vs.drop_last());
    }
}

/// Lowering an expression leaves the variables in scope as they were:
/// every binding that a loop or a `var` block enters is dropped on its exit,
/// and the binding it shadowed is in force again.
pub proof fn lemma_lowering_keeps_scope(fs: Seq<Seq<char>>, e: Ast, st: Emit)
    ensures
        lower(fs, e, st) is Ok ==> lower(fs, e, st)->Ok_0.0.scope == st.scope,
    decreases e, 1nat,
{
    if lower(fs, e, st) is Ok {
        match e {
            Ast::BinOp(l, op, r) => {
                if op is Assign && *l is Variable {
                    lemma_lowering_keeps_scope(fs, *r, st);
                } else {
                    lemma_lowering_keeps_scope(fs, *l, st);
                    let (s1, lv) = lower(fs, *l, st)->Ok_0;
                    lemma_lowering_keeps_scope(fs, *r, s1);
                    let (s2, rv) = lower(fs, *r, s1)->Ok_0;
                    lemma_emit_args_keeps_scope(s2, seq![lv, rv]);
                }
            },
            Ast::Unary(_, x) => {
                lemma_lowering_keeps_scope(fs, *x, st);
                let (s1, v) = lower(fs, *x, st)->Ok_0;
                lemma_emit_args_keeps_scope(s1, seq![v]);
            },
            Ast::Call(_, args) => {
                lemma_args_keep_scope(fs, args, args.len(), st);
                let (s1, vs) = lower_args(fs, args, args.len(), st)->Ok_0;
                lemma_emit_args_keeps_scope(s1, vs);
            },
            Ast::If(c, th, el) => {
                lemma_lowering_keeps_scope(fs, *c, st);
                let s1 = lower(fs, *c, st)->Ok_0.0;
                let cv = lower(fs, *c, st)->Ok_0.1;
                let s2 = emit(s1, Inst::Compare { pred: Predicate::UnorderedNotEqual, lhs: cv, rhs: Operand::Zero });
                let tb = s2.blocks.len() as usize;
                let eb = (tb + 1) as usize;
                let s3 = new_block(new_block(new_block(s2, BlockKind::Then), BlockKind::Else), BlockKind::Merge);
                let s4 = emit(s3, Inst::CondBr { cond: value_at(s1), then_block: tb, else_block: eb });
                lemma_lowering_keeps_scope(fs, *th, Emit { cur: tb, ..s4 });
                let s5 = lower(fs, *th, Emit { cur: tb, ..s4 })->Ok_0.0;
                let s6 = emit(s5, Inst::Br { target: (tb + 2) as usize });
                lemma_lowering_keeps_scope(fs, *el, Emit { cur: eb, ..s6 });
            },
            Ast::For(x, start, end, step, body) => {
                let cell = st.cells as usize;
                lemma_lowering_keeps_scope(fs, *start, new_cell(st));
                let (s1, sv) = lower(fs, *start, new_cell(st))->Ok_0;
                let s2 = emit(s1, Inst::Store { cell, value: sv });
                let lb = s2.blocks.len() as usize;
                let s3 = emit(new_block(s2, BlockKind::Loop), Inst::Br { target: lb });
                let s4 = Emit { cur: lb, scope: s3.scope.push((x, cell)), ..s3 };
                lemma_lowering_keeps_scope(fs, *body, s4);
                let s5 = lower(fs, *body, s4)->Ok_0.0;
                lemma_latch_keeps_scope(fs, e, cell, lb, st.scope.len(), s5);
                assert(s5.scope.take(st.scope.len() as int) =~= st.scope);
            },
            Ast::Var(items, body) => {
                lemma_bindings_extend_scope(fs, items, items.len(), st);
                let s1 = lower_bindings(fs, items, items.len(), st)->Ok_0;
                lemma_lowering_keeps_scope(fs, *body, s1);
                assert(s1.scope.take(st.scope.len() as int) =~= st.scope);
            },
            _ => {},
        }
    }
}

pub proof fn lemma_latch_keeps_scope(fs: Seq<Seq<char>>, e: Ast, cell: usize, lb: usize, outer: nat, s5: Emit)
    ensures
        lower_for_latch(fs, e, cell, lb, outer, s5) is Ok ==> lower_for_latch(
            fs,
            e,
            cell,
            lb,
            outer,
            s5,
        )->Ok_0.0.scope == s5.scope.take(outer as int),
    decreases e, 0nat,
{
    if let Ast::For(_, _, end, step, _) = e {
        if lower_for_latch(fs, e, cell, lb, outer, s5) is Ok {
            let stepped = match step {
                Some(sx) => lower(fs, *sx, s5),
                None => Ok((s5, Operand::One)),
            };
            match step {
                Some(sx) => lemma_lowering_keeps_scope(fs, *sx, s5),
                None => {},
            }
            let (s6, stv) = stepped->Ok_0;
            let s7 = emit(s6, Inst::Load { cell });
            let s8 = emit(s7, Inst::Arith { op: Arith::Add, lhs: value_at(s6), rhs: stv });
            let s9 = emit(s8, Inst::Store { cell, value: value_at(s7) });
            lemma_lowering_keeps_scope(fs, *end, s9);
        }
    }
}

pub proof fn lemma_args_keep_scope(fs: Seq<Seq<char>>, args: Seq<Ast>, n: nat, st: Emit)
    ensures
        lower_args(fs, args, n, st) is Ok ==> lower_args(fs, args, n, st)->Ok_0.0.scope == st.scope,
    decreases args, n,
{
    if n > 0 && n <= args.len() && lower_args(fs, args, n, st) is Ok {
        lemma_args_keep_scope(fs, args, (n - 1) as nat, st);
        let s1 = lower_args(fs, args, (n - 1) as nat, st)->Ok_0.0;
        lemma_lowering_keeps_scope(fs, args[n - 1], s1);
    }
}

/// A `var` block's bindings add one binding per name on top of the scope.
pub proof fn lemma_bindings_extend_scope(
    fs: Seq<Seq<char>>,
    items: Seq<(Seq<char>, Option<Ast>)>,
    n: nat,
    st: Emit,
)
    ensures
        lower_bindings(fs, items, n, st) is Ok ==> {
            let s = lower_bindings(fs, items, n, st)->Ok_0;
            &&& s.scope.len() >= st.scope.len()
            &&& s.scope.take(st.scope.len() as int) == st.scope
        },
    decreases items, n,
{
    if n > 0 && n <= items.len() && lower_bindings(fs, items, n, st) is Ok {
        lemma_bindings_extend_scope(fs, items, (n - 1) as nat, st);
        let s1 = lower_bindings(fs, items, (n - 1) as nat, st)->Ok_0;
        match items[n - 1].1 {
            Some(x) => {
                lemma_lowering_keeps_scope(fs, x, s1);
            },
            None => {},
        }
        let s = lower_bindings(fs, items, n, st)->Ok_0;
        assert(s.scope.take(st.scope.len() as int) =~= s1.scope.take(st.scope.len() as int));
    }
}

/// Whether a lowering result agrees with the lowering step `spec`.
pub open spec fn lowered_as(r: Result<Operand, LowerError>, spec: Lowered, b: Emit) -> bool {
    match spec {
        Ok((st, v)) => r == Ok::<Operand, LowerError>(v) && b == st,
        Err(f) => r is Err && r->Err_0@ == f,
    }
}

impl FnBuilder {
    /// An empty body with its entry block.
    pub fn new() -> (r: Self)
        ensures
            r@ == entry_emit(),
    {
        let mut blocks: Vec<BlockKind> = Vec::new();
        blocks.push(BlockKind::Entry);
        let r = FnBuilder {
            code: Vec::new(),
            blocks,
            cells: Vec::new(),
            consts: Vec::new(),
            cur: 0,
            scope: Vec::new(),
        };
        assert(r@.consts =~= Seq::<Seq<char>>::empty());
        assert(r@.scope =~= Seq::<(Seq<char>, usize)>::empty());
        assert(r@.blocks =~= seq![BlockKind::Entry]);
        r
    }

    /// Appends `i` to the current block; the result names its value.
    pub fn emit(&mut self, i: Inst) -> (r: Operand)
        ensures
            final(self)@ == emit(old(self)@, i),
            r == value_at(old(self)@),
    {
        let r = Operand::Value(self.code.len());
        self.code.push((self.cur, i));
        r
    }

    pub fn new_block(&mut self, k: BlockKind) -> (r: usize)
        ensures
            final(self)@ == new_block(old(self)@, k),
            r == old(self)@.blocks.len(),
    {
        let r = self.blocks.len();
        self.blocks.push(k);
        r
    }

    /// A new storage cell for the variable `name`.
    pub fn create_entryblock_alloc(&mut self, name: String) -> (r: usize)
        ensures
            final(self)@ == new_cell(old(self)@),
            r == old(self)@.cells,
    {
        let r = self.cells.len();
        self.cells.push(name);
        r
    }

    fn bind(&mut self, name: String, cell: usize)
        ensures
            final(self)@ == (Emit { scope: old(self)@.scope.push((name@, cell)), ..old(self)@ }),
    {
        let ghost old_scope = self.scope@;
        self.scope.push((name, cell));
        assert(scope_view(self.scope@) =~= scope_view(old_scope).push((name@, cell)));
    }

    fn unbind_to(&mut self, n: usize)
        requires
            n <= old(self).scope@.len(),
        ensures
            final(self)@ == (Emit { scope: old(self)@.scope.take(n as int), ..old(self)@ }),
    {
        let ghost old_scope = self.scope@;
        self.scope.truncate(n);
        assert(scope_view(self.scope@) =~= scope_view(old_scope).take(n as int));
    }

    fn add_const(&mut self, text: String) -> (r: Operand)
        ensures
            final(self)@ == (Emit { consts: old(self)@.consts.push(text@), ..old(self)@ }),
            r == Operand::Const(old(self)@.consts.len() as usize),
    {
        let ghost old_consts = self.consts@;
        let r = Operand::Const(self.consts.len());
        self.consts.push(text);
        assert(strings_view(self.consts@) =~= strings_view(old_consts).push(text@));
        r
    }

    fn emit_call(&mut self, f: usize, args: &Vec<Operand>) -> (r: Operand)
        ensures
            (final(self)@, r) == call(old(self)@, f, args@),
    {
        let mut i: usize = 0;
        assert(args@.take(0) =~= Seq::<Operand>::empty());
        while i < args.len()
            invariant
                i <= args@.len(),
                self@ == emit_args(old(self)@, args@.take(i as int)),
            decreases args@.len() - i,
        {
            assert(args@.take(i + 1).drop_last() =~= args@.take(i as int));
            self.emit(Inst::Arg { value: args[i] });
            i += 1;
        }
        assert(args@.take(i as int) =~= args@);
        self.emit(Inst::Call { callee: f, argc: args.len() })
    }

    /// The cell of the innermost binding of `name`.
    pub fn find_variable(&self, name: &String) -> (r: Option<usize>)
        ensures
            r == find_var(self@.scope, name@),
    {
        let mut i = self.scope.len();
        assert(scope_view(self.scope@).take(i as int) =~= scope_view(self.scope@));
        while i > 0
            invariant
                i <= self.scope@.len(),
                find_var(scope_view(self.scope@), name@) == find_var(
                    scope_view(self.scope@).take(i as int),
                    name@,
                ),
            decreases i,
        {
            let ghost sv = scope_view(self.scope@).take(i as int);
            assert(sv.drop_last() =~= scope_view(self.scope@).take(i - 1));
            if self.scope[i - 1].0 == *name {
                return Some(self.scope[i - 1].1);
            }
            i -= 1;
        }
        None
    }
}

/// The index of the function named `name`.
pub fn find_function(m: &Module, name: &String) -> (r: Option<usize>)
    ensures
        r == find_fn(fn_names(m.functions@), name@),
{
    let mut i = m.functions.len();
    assert(fn_names(m.functions@).take(i as int) =~= fn_names(m.functions@));
    while i > 0
        invariant
            i <= m.functions@.len(),
            find_fn(fn_names(m.functions@), name@) == find_fn(
                fn_names(m.functions@).take(i as int),
                name@,
            ),
        decreases i,
    {
        let ghost fv = fn_names(m.functions@).take(i as int);
        assert(fv.drop_last() =~= fn_names(m.functions@).take(i - 1));
        if m.functions[i - 1].name == *name {
            return Some(i - 1);
        }
        i -= 1;
    }
    None
}

/// A binary operator on lowered operands.
fn lower_binary(m: &Module, op: &Token, lhs: Operand, rhs: Operand, b: &mut FnBuilder) -> (r: Result<
    Operand,
    LowerError,
>)
    ensures
        lowered_as(r, binary(fn_names(m.functions@), *op, lhs, rhs, old(b)@), final(b)@),
{
    let c = match operator_char(op) {
        Some(c) => c,
        None => return Err(LowerError::NotAnOperator),
    };
    if matches!(op, Token::Assign(_)) {
        return Err(LowerError::InvalidAssignment);
    }
    let mut name = "binary".to_owned();
    push_char(&mut name, c);
    if let Some(f) = find_function(m, &name) {
        let args = vec![lhs, rhs];
        assert(args@ =~= seq![lhs, rhs]);
        return Ok(b.emit_call(f, &args));
    }
    match op {
        Token::Plus(_) => Ok(b.emit(Inst::Arith { op: Arith::Add, lhs, rhs })),
        Token::Minus(_) => Ok(b.emit(Inst::Arith { op: Arith::Sub, lhs, rhs })),
        Token::Star(_) => Ok(b.emit(Inst::Arith { op: Arith::Mul, lhs, rhs })),
        Token::Slash(_) => Ok(b.emit(Inst::Arith { op: Arith::Div, lhs, rhs })),
        Token::Less(_) => {
            let v = b.emit(Inst::Compare { pred: Predicate::UnorderedLess, lhs, rhs });
            Ok(b.emit(Inst::BoolToDouble { value: v }))
        },
        Token::Greater(_) => {
            let v = b.emit(Inst::Compare { pred: Predicate::UnorderedGreater, lhs, rhs });
            Ok(b.emit(Inst::BoolToDouble { value: v }))
        },
        _ => Err(LowerError::UnknownOperator(c)),
    }
}

impl Expr {
    /// Lowers this expression into `b`, with the functions of `m` callable.
    pub fn codegen(&self, m: &Module, b: &mut FnBuilder) -> (r: Result<Operand, LowerError>)
        ensures
            lowered_as(r, lower(fn_names(m.functions@), self@, old(b)@), final(b)@),
        decreases self, 2nat,
    {
        match self {
            Expr::Number(v) => Ok(b.add_const(v.clone())),
            Expr::Variable(name) => match b.find_variable(name) {
                Some(c) => Ok(b.emit(Inst::Load { cell: c })),
                None => Err(LowerError::UnknownVariable(name.clone())),
            },
            Expr::BinOp { left, op, right } => self.codegen_binop(left, op, right, m, b),
            Expr::Unary { op, left } => {
                let v = match left.codegen(m, b) {
                    Ok(v) => v,
                    Err(e) => return Err(e),
                };
                let mut name = "unary".to_owned();
                push_char(&mut name, *op);
                match find_function(m, &name) {
                    Some(f) => {
                        let args = vec![v];
                        assert(args@ =~= seq![v]);
                        Ok(b.emit_call(f, &args))
                    },
                    None => Err(LowerError::UnknownUnaryOperator(*op)),
                }
            },
            Expr::Call { identifier, args } => self.codegen_call(identifier, args, m, b),
            Expr::If { condition, then_branch, else_branch } => self.codegen_if(
                condition,
                then_branch,
                else_branch,
                m,
                b,
            ),
            Expr::For { ident, start, end, step, body } => self.codegen_for(
                ident,
                start,
                end,
                step,
                body,
                m,
                b,
            ),
            Expr::Var { varnames, body } => self.codegen_var(varnames, body, m, b),
            Expr::NoBody => Err(LowerError::NoValue),
        }
    }

    fn codegen_binop(&self, left: &Box<Expr>, op: &Token, right: &Box<Expr>, m: &Module, b: &mut FnBuilder) -> (r: Result<Operand, LowerError>)
        requires
            *self == (Expr::BinOp { left: *left, op: *op, right: *right }),
        ensures
            lowered_as(r, lower(fn_names(m.functions@), self@, old(b)@), final(b)@),
        decreases self, 1nat,
    {
        if matches!(op, Token::Assign(_)) {
            if let Expr::Variable(name) = &**left {
                let v = match right.codegen(m, b) {
                    Ok(v) => v,
                    Err(e) => return Err(e),
                };
                return match b.find_variable(name) {
                    Some(c) => {
                        b.emit(Inst::Store { cell: c, value: v });
                        Ok(v)
                    },
                    None => Err(LowerError::UnknownVariable(name.clone())),
                };
            }
        }
        let lv = match left.codegen(m, b) {
            Ok(v) => v,
            Err(e) => return Err(e),
        };
        let rv = match right.codegen(m, b) {
            Ok(v) => v,
            Err(e) => return Err(e),
        };
        lower_binary(m, op, lv, rv, b)
    }

    fn codegen_call(&self, identifier: &String, args: &Vec<Expr>, m: &Module, b: &mut FnBuilder) -> (r: Result<Operand, LowerError>)
        requires
            *self == (Expr::Call { identifier: *identifier, args: *args }),
        ensures
            lowered_as(r, lower(fn_names(m.functions@), self@, old(b)@), final(b)@),
        decreases self, 1nat,
    {
        let f = match find_function(m, identifier) {
            Some(f) => f,
            None => return Err(LowerError::UnknownFunction(identifier.clone())),
        };
        let ghost fs = fn_names(m.functions@);
        let ghost av = view_exprs(*args, args.len() as nat);
        let ghost st0 = b@;
        proof {
            lemma_view_exprs_index(*args, args.len() as nat);
        }
        let mut vals: Vec<Operand> = Vec::new();
        let mut i: usize = 0;
        while i < args.len()
            invariant
                i <= args@.len(),
                fs == fn_names(m.functions@),
                find_fn(fs, identifier@) == Some(f),
                *self is Call,
                (*self)->args == *args,
                (*self)->identifier == *identifier,
                st0 == old(b)@,
                av == view_exprs(*args, args.len() as nat),
                av.len() == args@.len(),
                forall|k: int| 0 <= k < args@.len() ==> #[trigger] av[k] == view_expr(args@[k]),
                lower_args(fs, av, i as nat, st0) == Ok::<(Emit, Seq<Operand>), Failure>((b@, vals@)),
            decreases args@.len() - i,
        {
            proof {
                vstd::std_specs::vec::axiom_vec_index_decreases(*args, i as int);
                assert(decreases_to!(*self => (*self)->args));
                assert(decreases_to!(*self => args[i as int]));
                assert(av[i as int] == view_expr(args[i as int]));
            }
            let v = match args[i].codegen(m, b) {
                Ok(v) => v,
                Err(e) => {
                    proof {
                        lemma_args_failure(fs, av, (i + 1) as nat, av.len(), st0);
                    }
                    return Err(e);
                },
            };
            vals.push(v);
            i += 1;
        }
        Ok(b.emit_call(f, &vals))
    }

    fn codegen_if(&self, condition: &Box<Expr>, then_branch: &Box<Expr>, else_branch: &Box<Expr>, m: &Module, b: &mut FnBuilder) -> (r: Result<Operand, LowerError>)
        requires
            *self == (Expr::If { condition: *condition, then_branch: *then_branch, else_branch: *else_branch }),
        ensures
            lowered_as(r, lower(fn_names(m.functions@), self@, old(b)@), final(b)@),
        decreases self, 1nat,
    {
        let cv = match condition.codegen(m, b) {
            Ok(v) => v,
            Err(e) => return Err(e),
        };
        let cmp = b.emit(Inst::Compare { pred: Predicate::UnorderedNotEqual, lhs: cv, rhs: Operand::Zero });
        let tb = b.new_block(BlockKind::Then);
        let eb = b.new_block(BlockKind::Else);
        let mb = b.new_block(BlockKind::Merge);
        b.emit(Inst::CondBr { cond: cmp, then_block: tb, else_block: eb });
        b.cur = tb;
        let tv = match then_branch.codegen(m, b) {
            Ok(v) => v,
            Err(e) => return Err(e),
        };
        b.emit(Inst::Br { target: mb });
        let then_end = b.cur;
        b.cur = eb;
        let ev = match else_branch.codegen(m, b) {
            Ok(v) => v,
            Err(e) => return Err(e),
        };
        b.emit(Inst::Br { target: mb });
        let else_end = b.cur;
        b.cur = mb;
        Ok(
            b.emit(
                Inst::Phi { then_value: tv, then_block: then_end, else_value: ev, else_block: else_end },
            ),
        )
    }

    fn codegen_for(
        &self,
        ident: &String,
        start: &Box<Expr>,
        end: &Box<Expr>,
        step: &Option<Box<Expr>>,
        body: &Box<Expr>,
        m: &Module,
        b: &mut FnBuilder,
    ) -> (r: Result<Operand, LowerError>)
        requires
            *self == (Expr::For { ident: *ident, start: *start, end: *end, step: *step, body: *body }),
        ensures
            lowered_as(r, lower(fn_names(m.functions@), self@, old(b)@), final(b)@),
        decreases self, 1nat,
    {
        let saved = b.scope.len();
        proof {
            assert(view_step(*step) == match *step {
                Some(x) => Some(Box::new(view_expr(*x))),
                None => None,
            });
        }
        let cell = b.create_entryblock_alloc(ident.clone());
        let ghost s0 = b@;
        let sv = match start.codegen(m, b) {
            Ok(v) => v,
            Err(e) => return Err(e),
        };
        proof {
            lemma_lowering_keeps_scope(fn_names(m.functions@), view_expr(**start), s0);
        }
        b.emit(Inst::Store { cell, value: sv });
        let lb = b.new_block(BlockKind::Loop);
        b.emit(Inst::Br { target: lb });
        b.cur = lb;
        b.bind(ident.clone(), cell);
        let ghost s4 = b@;
        match body.codegen(m, b) {
            Ok(_) => {},
            Err(e) => return Err(e),
        }
        proof {
            lemma_lowering_keeps_scope(fn_names(m.functions@), view_expr(**body), s4);
        }
        self.codegen_for_latch(end, step, m, b, cell, lb, saved)
    }

    fn codegen_for_latch(
        &self,
        end: &Box<Expr>,
        step: &Option<Box<Expr>>,
        m: &Module,
        b: &mut FnBuilder,
        cell: usize,
        lb: usize,
        saved: usize,
    ) -> (r: Result<Operand, LowerError>)
        requires
            *self is For,
            (*self)->end == *end,
            (*self)->step == *step,
            old(b)@.scope.len() >= saved,
        ensures
            lowered_as(r, lower_for_latch(fn_names(m.functions@), self@, cell, lb, saved as nat, old(b)@), final(b)@),
        decreases self, 0nat,
    {
        let ghost s5 = b@;
        proof {
            assert(view_step(*step) == match *step {
                Some(x) => Some(Box::new(view_expr(*x))),
                None => None,
            });
        }
        let stv = match step {
            Some(s) => match s.codegen(m, b) {
                Ok(v) => v,
                Err(e) => return Err(e),
            },
            None => Operand::One,
        };
        proof {
            match step {
                Some(sx) => lemma_lowering_keeps_scope(fn_names(m.functions@), view_expr(**sx), s5),
                None => {},
            }
        }
        let cur = b.emit(Inst::Load { cell });
        let next = b.emit(Inst::Arith { op: Arith::Add, lhs: cur, rhs: stv });
        b.emit(Inst::Store { cell, value: next });
        let ghost s9 = b@;
        let ev = match end.codegen(m, b) {
            Ok(v) => v,
            Err(e) => return Err(e),
        };
        proof {
            lemma_lowering_keeps_scope(fn_names(m.functions@), view_expr(**end), s9);
        }
        let cc = b.emit(Inst::Compare { pred: Predicate::UnorderedNotEqual, lhs: ev, rhs: Operand::Zero });
        let ab = b.new_block(BlockKind::AfterLoop);
        b.emit(Inst::CondBr { cond: cc, then_block: lb, else_block: ab });
        b.cur = ab;
        b.unbind_to(saved);
        Ok(Operand::Zero)
    }

    fn codegen_var(&self, varnames: &Vec<(String, Option<Expr>)>, body: &Box<Expr>, m: &Module, b: &mut FnBuilder) -> (r: Result<Operand, LowerError>)
        requires
            *self == (Expr::Var { varnames: *varnames, body: *body }),
        ensures
            lowered_as(r, lower(fn_names(m.functions@), self@, old(b)@), final(b)@),
        decreases self, 1nat,
    {
        let saved = b.scope.len();
        let ghost fs = fn_names(m.functions@);
        let ghost items = view_bindings(*varnames, varnames.len() as nat);
        let ghost st0 = b@;
        proof {
            lemma_view_bindings_index(*varnames, varnames.len() as nat);
        }
        let mut i: usize = 0;
        while i < varnames.len()
            invariant
                i <= varnames@.len(),
                fs == fn_names(m.functions@),
                *self is Var,
                (*self)->varnames == *varnames,
                saved == st0.scope.len(),
                st0 == old(b)@,
                items == view_bindings(*varnames, varnames.len() as nat),
                items.len() == varnames@.len(),
                forall|k: int|
                    0 <= k < varnames@.len() ==> #[trigger] items[k] == (
                        varnames@[k].0@,
                        view_init(varnames@[k].1),
                    ),
                lower_bindings(fs, items, i as nat, st0) == Ok::<Emit, Failure>(b@),
            decreases varnames@.len() - i,
        {
            proof {
                vstd::std_specs::vec::axiom_vec_index_decreases(*varnames, i as int);
                assert(decreases_to!(*self => (*self)->varnames));
                assert(decreases_to!(*self => varnames[i as int]));
                assert(decreases_to!(varnames[i as int] => varnames[i as int].1));
                if varnames[i as int].1 is Some {
                    assert(decreases_to!(varnames[i as int].1 => varnames[i as int].1->Some_0));
                }
                assert(view_init(varnames@[i as int].1) == match varnames@[i as int].1 {
                    Some(x) => Some(view_expr(x)),
                    None => None,
                });
            }
            let v = match &varnames[i].1 {
                Some(e) => match e.codegen(m, b) {
                    Ok(v) => v,
                    Err(e) => {
                        proof {
                            lemma_bindings_failure(fs, items, (i + 1) as nat, items.len(), st0);
                        }
                        return Err(e);
                    },
                },
                None => Operand::Zero,
            };
            let cell = b.create_entryblock_alloc(varnames[i].0.clone());
            b.emit(Inst::Store { cell, value: v });
            b.bind(varnames[i].0.clone(), cell);
            i += 1;
        }
        proof {
            lemma_bindings_extend_scope(fs, items, items.len(), st0);
            assert(items.len() == i);
        }
        let ghost s1 = b@;
        let v = match body.codegen(m, b) {
            Ok(v) => v,
            Err(e) => return Err(e),
        };
        proof {
            lemma_lowering_keeps_scope(fs, view_expr(**body), s1);
        }
        b.unbind_to(saved);
        Ok(v)
    }
}

/// A declared function: its name, parameters, and body once lowered.
pub struct FnDecl {
    pub name: Seq<char>,
    pub params: Seq<Seq<char>>,
    pub body: Option<Emit>,
}

impl View for IrFunction {
    type V = FnDecl;

    open spec fn view(&self) -> FnDecl {
        FnDecl {
            name: self.name@,
            params: strings_view(self.params@),
            body: match self.body {
                Some(b) => Some(b@),
                None => None,
            },
        }
    }
}

pub open spec fn decls(fs: Seq<IrFunction>) -> Seq<FnDecl> {
    fs.map_values(|f: IrFunction| f@)
}

pub open spec fn decl_names(ds: Seq<FnDecl>) -> Seq<Seq<char>> {
    ds.map_values(|d: FnDecl| d.name)
}

/// A body's state after its entry block stores the first `n` parameters in
/// cells of their own and binds their names.
pub open spec fn entry_state(params: Seq<Seq<char>>, n: nat) -> Emit
    decreases n,
{
    if n == 0 || n > params.len() {
        entry_emit()
    } else {
        let s = entry_state(params, (n - 1) as nat);
        let cell = s.cells as usize;
        let s1 = emit(new_cell(s), Inst::Store { cell, value: Operand::Param((n - 1) as usize) });
        Emit { scope: s1.scope.push((params[n - 1], cell)), ..s1 }
    }
}

/// Lowers function `f` into the declarations `ds`. A name that is declared
/// already keeps its first declaration; a declaration without body adds its
/// signature; a definition adds its body, lowered with itself callable, and
/// returns the body's value.
pub open spec fn lower_function(ds: Seq<FnDecl>, f: FunctionShape) -> Result<Seq<FnDecl>, Failure> {
    let names = decl_names(ds);
    if find_fn(names, f.name) is Some {
        Ok(ds)
    } else if f.body is NoBody {
        Ok(ds.push(FnDecl { name: f.name, params: f.args, body: None }))
    } else {
        match lower(names.push(f.name), f.body, entry_state(f.args, f.args.len())) {
            Err(e) => Err(e),
            Ok((st, v)) => Ok(
                ds.push(
                    FnDecl { name: f.name, params: f.args, body: Some(emit(st, Inst::Ret { value: v })) },
                ),
            ),
        }
    }
}

fn clone_strings(v: &Vec<String>) -> (r: Vec<String>)
    ensures
        r@ == v@,
{
    let mut r: Vec<String> = Vec::new();
    let mut i: usize = 0;
    while i < v.len()
        invariant
            i <= v@.len(),
            r@ == v@.take(i as int),
        decreases v@.len() - i,
    {
        r.push(v[i].clone());
        i += 1;
        assert(r@ =~= v@.take(i as int));
    }
    assert(v@.take(i as int) =~= v@);
    r
}

impl Function {
    /// Declares this function in `m` and lowers its body, if it has one.
    pub fn codegen(&self, m: &mut Module) -> (r: Result<(), LowerError>)
        ensures
            final(m).name == old(m).name,
            match lower_function(decls(old(m).functions@), self@) {
                Ok(ds) => r is Ok && decls(final(m).functions@) == ds,
                Err(f) => r is Err && r->Err_0@ == f,
            },
    {
        let ghost ds = decls(m.functions@);
        assert(fn_names(m.functions@) =~= decl_names(ds));
        if find_function(m, &self.name).is_some() {
            return Ok(());
        }
        let params = clone_strings(&self.args);
        assert(strings_view(params@) =~= self.args@.map_values(|a: String| a@));
        if matches!(self.body, Expr::NoBody) {
            m.functions.push(IrFunction { name: self.name.clone(), params, body: None });
            assert(decls(m.functions@) =~= ds.push(FnDecl { name: self@.name, params: self@.args, body: None }));
            return Ok(());
        }
        let ghost argv = self@.args;
        let mut b = FnBuilder::new();
        let mut i: usize = 0;
        while i < self.args.len()
            invariant
                i <= self.args@.len(),
                argv == self.args@.map_values(|a: String| a@),
                b@ == entry_state(argv, i as nat),
            decreases self.args@.len() - i,
        {
            let cell = b.create_entryblock_alloc(self.args[i].clone());
            b.emit(Inst::Store { cell, value: Operand::Param(i) });
            b.bind(self.args[i].clone(), cell);
            i += 1;
        }
        m.functions.push(IrFunction { name: self.name.clone(), params, body: None });
        assert(fn_names(m.functions@) =~= decl_names(ds).push(self.name@));
        let v = match self.body.codegen(m, &mut b) {
            Ok(v) => v,
            Err(e) => return Err(e),
        };
        b.emit(Inst::Ret { value: v });
        let params = clone_strings(&self.args);
        m.functions.pop();
        let ghost body = b@;
        m.functions.push(IrFunction { name: self.name.clone(), params, body: Some(b) });
        assert(decls(m.functions@) =~= ds.push(
            FnDecl { name: self@.name, params: self@.args, body: Some(body) },
        ));
        Ok(())
    }
}

pub open spec fn main_decl() -> FnDecl {
    FnDecl { name: "main"@, params: Seq::empty(), body: None }
}

/// Lowers the units `fs` in order: top-level expressions go into the entry
/// body `main` (the last one's value is kept in `last`), the others into
/// the declarations.
pub open spec fn lower_units(
    ds: Seq<FnDecl>,
    main: Emit,
    last: Option<Operand>,
    fs: Seq<FunctionShape>,
) -> Result<(Seq<FnDecl>, Emit, Option<Operand>), Failure>
    decreases fs.len(),
{
    if fs.len() == 0 {
        Ok((ds, main, last))
    } else {
        let f = fs[0];
        if f.name == "_top_level_expr"@ {
            match lower(decl_names(ds), f.body, main) {
                Err(e) => Err(e),
                Ok((st, v)) => lower_units(ds, st, Some(v), fs.drop_first()),
            }
        } else {
            match lower_function(ds, f) {
                Err(e) => Err(e),
                Ok(ds2) => lower_units(ds2, main, last, fs.drop_first()),
            }
        }
    }
}

/// The lowering of a whole unit of source: the module, whose first function
/// is the entry `main`, and the entry's body, which evaluates every
/// top-level expression in order.
pub struct CodegenContext {
    pub module: Module,
    pub main: FnBuilder,
    pub last_result: Option<Operand>,
}

impl CodegenContext {
    pub fn new(module_name: &str) -> (r: Self)
        ensures
            r.module.name@ == module_name@,
            decls(r.module.functions@) == seq![main_decl()],
            r.main@ == entry_emit(),
            r.last_result is None,
    {
        let mut functions: Vec<IrFunction> = Vec::new();
        functions.push(IrFunction { name: "main".to_owned(), params: Vec::new(), body: None });
        let r = CodegenContext {
            module: Module { name: module_name.to_owned(), functions },
            main: FnBuilder::new(),
            last_result: None,
        };
        assert(strings_view(Seq::<String>::empty()) =~= Seq::<Seq<char>>::empty());
        assert(decls(r.module.functions@) =~= seq![main_decl()]);
        r
    }

    /// A new storage cell for the variable `name` in the entry body.
    pub fn create_entryblock_alloc(&mut self, name: String) -> (r: usize)
        ensures
            final(self).main@ == new_cell(old(self).main@),
            final(self).module == old(self).module,
            final(self).last_result == old(self).last_result,
            r == old(self).main@.cells,
    {
        self.main.create_entryblock_alloc(name)
    }

    /// Lowers a top-level expression into the entry body.
    pub fn codegen_top_level_expr(&mut self, expr: &Expr) -> (r: Result<(), LowerError>)
        ensures
            final(self).module == old(self).module,
            match lower(fn_names(old(self).module.functions@), expr@, old(self).main@) {
                Ok((st, v)) => r is Ok && final(self).main@ == st && final(self).last_result == Some(v),
                Err(f) => r is Err && r->Err_0@ == f,
            },
    {
        match expr.codegen(&self.module, &mut self.main) {
            Ok(v) => {
                self.last_result = Some(v);
                Ok(())
            },
            Err(e) => Err(e),
        }
    }

    pub fn codegen_function(&mut self, func: &Function) -> (r: Result<(), LowerError>)
        ensures
            final(self).main == old(self).main,
            final(self).last_result == old(self).last_result,
            final(self).module.name == old(self).module.name,
            match lower_function(decls(old(self).module.functions@), func@) {
                Ok(ds) => r is Ok && decls(final(self).module.functions@) == ds,
                Err(f) => r is Err && r->Err_0@ == f,
            },
    {
        func.codegen(&mut self.module)
    }

    /// Lowers every unit that `parser` holds, in order, then closes the entry
    /// body with a return of the last top-level value (0.0 without one).
    pub fn codegen(&mut self, parser: &ParserContext) -> (r: Result<(), LowerError>)
        requires
            old(self).module.functions@.len() > 0,
        ensures
            match lower_units(
                decls(old(self).module.functions@),
                old(self).main@,
                old(self).last_result,
                shapes(parser.functions@),
            ) {
                Ok((ds, main, last)) => r is Ok && final(self).last_result == last && final(self).module.functions@.len() == ds.len() && decls(final(self).module.functions@) == ds.update(
                    0,
                    FnDecl {
                        name: "main"@,
                        params: Seq::empty(),
                        body: Some(emit(main, Inst::Ret { value: returned(last) })),
                    },
                ),
                Err(f) => r is Err && r->Err_0@ == f,
            },
    {
        let ghost fs = shapes(parser.functions@);
        let ghost ds0 = decls(self.module.functions@);
        let ghost main0 = self.main@;
        let ghost last0 = self.last_result;
        let mut i: usize = 0;
        assert(fs.skip(0) =~= fs);
        while i < parser.functions.len()
            invariant
                i <= parser.functions@.len(),
                fs == shapes(parser.functions@),
                ds0 == decls(old(self).module.functions@),
                main0 == old(self).main@,
                last0 == old(self).last_result,
                self.module.functions@.len() > 0,
                lower_units(ds0, main0, last0, fs) == lower_units(
                    decls(self.module.functions@),
                    self.main@,
                    self.last_result,
                    fs.skip(i as int),
                ),
            decreases parser.functions@.len() - i,
        {
            let f = &parser.functions[i];
            assert(fs.skip(i as int).drop_first() =~= fs.skip(i + 1));
            assert(fs.skip(i as int)[0] == f@);
            assert(fs.skip(i as int).len() > 0);
            let ghost ds_i = decls(self.module.functions@);
            let ghost main_i = self.main@;
            let ghost last_i = self.last_result;
            assert(fn_names(self.module.functions@) =~= decl_names(decls(self.module.functions@)));
            if is_top_level_name(&f.name) {
                match self.codegen_top_level_expr(&f.body) {
                    Ok(()) => {},
                    Err(e) => return Err(e),
                }
            } else {
                match self.codegen_function(f) {
                    Ok(()) => {},
                    Err(e) => return Err(e),
                }
            }
            proof {
                if f@.name == "_top_level_expr"@ {
                    assert(lower_units(ds_i, main_i, last_i, fs.skip(i as int)) == match lower(decl_names(ds_i), f@.body, main_i) {
                        Err(e) => Err(e),
                        Ok((st, v)) => lower_units(ds_i, st, Some(v), fs.skip(i + 1)),
                    });
                } else {
                    assert(lower_units(ds_i, main_i, last_i, fs.skip(i as int)) == match lower_function(ds_i, f@) {
                        Err(e) => Err(e),
                        Ok(ds2) => lower_units(ds2, main_i, last_i, fs.skip(i + 1)),
                    });
                }
            }
            i += 1;
        }
        assert(fs.skip(i as int) =~= Seq::<FunctionShape>::empty());
        self.finalize();
        Ok(())
    }

    fn finalize(&mut self)
        requires
            old(self).module.functions@.len() > 0,
        ensures
            final(self).last_result == old(self).last_result,
            final(self).module.functions@.len() == old(self).module.functions@.len(),
            decls(final(self).module.functions@) == decls(old(self).module.functions@).update(
                0,
                FnDecl {
                    name: "main"@,
                    params: Seq::empty(),
                    body: Some(emit(old(self).main@, Inst::Ret { value: returned(old(self).last_result) })),
                },
            ),
    {
        let value = match self.last_result {
            Some(v) => v,
            None => Operand::Zero,
        };
        self.main.emit(Inst::Ret { value });
        let mut body = FnBuilder::new();
        std::mem::swap(&mut body, &mut self.main);
        let ghost bv = body@;
        let ghost old_decls = decls(self.module.functions@);
        self.module.functions.set(0, IrFunction { name: "main".to_owned(), params: Vec::new(), body: Some(body) });
        assert(strings_view(Seq::<String>::empty()) =~= Seq::<Seq<char>>::empty());
        assert(decls(self.module.functions@) =~= old_decls.update(
            0,
            FnDecl { name: "main"@, params: Seq::empty(), body: Some(bv) },
        ));
    }
}

/// The value that the entry returns: the last top-level value, or 0.0.
pub open spec fn returned(last: Option<Operand>) -> Operand {
    match last {
        Some(v) => v,
        None => Operand::Zero,
    }
}

fn is_top_level_name(s: &String) -> (r: bool)
    ensures
        r == (s@ == "_top_level_expr"@),
{
    let t = "_top_level_expr".to_owned();
    *s == t
}

/// An assignment `x = rhs` lowers its right side and stores the value in
/// the cell bound to `x`, which it never loads; the stored value is the
/// result.
pub proof fn lemma_assignment_stores(fs: Seq<Seq<char>>, x: Seq<char>, c: char, rhs: Ast, st: Emit)
    ensures
        ({
            let e = Ast::BinOp(Box::new(Ast::Variable(x)), Token::Assign(c), Box::new(rhs));
            match lower(fs, rhs, st) {
                Ok((s1, v)) => match find_var(s1.scope, x) {
                    Some(cell) => lower(fs, e, st) == Ok::<(Emit, Operand), Failure>(
                        (
                            Emit { code: s1.code.push((s1.cur, Inst::Store { cell, value: v })), ..s1 },
                            v,
                        ),
                    ),
                    None => lower(fs, e, st) == Err::<(Emit, Operand), Failure>(Failure::UnknownVariable(x)),
                },
                Err(f) => lower(fs, e, st) == Err::<(Emit, Operand), Failure>(f),
            }
        }),
{
}

proof fn lemma_declared_is_found(fs: Seq<Seq<char>>, name: Seq<char>)
    requires
        fs.contains(name),
    ensures
        find_fn(fs, name) is Some,
    decreases fs.len(),
{
    if fs.last() != name {
        let k = choose|k: int| 0 <= k < fs.len() && fs[k] == name;
        assert(fs.drop_last()[k] == name);
        lemma_declared_is_found(fs.drop_last(), name);
    }
}

/// A call of a declared function never fails for want of its callee,
/// whether the function has a body or is only declared (its native code is
/// bound by the backend later): only the arguments can make it fail.
pub proof fn lemma_declared_call(fs: Seq<Seq<char>>, name: Seq<char>, args: Seq<Ast>, st: Emit)
    requires
        fs.contains(name),
    ensures
        lower(fs, Ast::Call(name, args), st) is Err ==> lower_args(fs, args, args.len(), st) is Err,
{
    lemma_declared_is_found(fs, name);
}

/// Once `binary<c>` is declared, a binary node with operator `c` (other
/// than `=`) calls it on the two operands, in place of any built-in meaning.
pub proof fn lemma_user_operator_dispatch(
    fs: Seq<Seq<char>>,
    l: Ast,
    op: Token,
    r: Ast,
    st: Emit,
    f: usize,
)
    requires
        op_char(op) is Some,
        !(op is Assign),
        find_fn(fs, "binary"@.push(op_char(op)->Some_0)) == Some(f),
    ensures
        ({
            let e = Ast::BinOp(Box::new(l), op, Box::new(r));
            match lower(fs, l, st) {
                Ok((s1, lv)) => match lower(fs, r, s1) {
                    Ok((s2, rv)) => lower(fs, e, st) == Ok::<(Emit, Operand), Failure>(
                        call(s2, f, seq![lv, rv]),
                    ),
                    Err(x) => lower(fs, e, st) == Err::<(Emit, Operand), Failure>(x),
                },
                Err(x) => lower(fs, e, st) == Err::<(Emit, Operand), Failure>(x),
            }
        }),
{
}

/// Whether no two declarations share a name.
pub open spec fn names_unique(ds: Seq<FnDecl>) -> bool {
    forall|i: int, j: int| 0 <= i < j < ds.len() ==> ds[i].name != ds[j].name
}

proof fn lemma_not_found_is_absent(fs: Seq<Seq<char>>, name: Seq<char>)
    requires
        find_fn(fs, name) is None,
    ensures
        forall|k: int| 0 <= k < fs.len() ==> fs[k] != name,
    decreases fs.len(),
{
    if fs.len() > 0 {
        lemma_not_found_is_absent(fs.drop_last(), name);
        assert forall|k: int| 0 <= k < fs.len() implies fs[k] != name by {
            if k < fs.len() - 1 {
                assert(fs.drop_last()[k] == fs[k]);
            }
        }
    }
}

/// The first definition of a name wins: lowering a function whose name is
/// declared already changes nothing, and the declared names stay distinct.
pub proof fn lemma_first_definition_wins(ds: Seq<FnDecl>, f: FunctionShape)
    requires
        names_unique(ds),
    ensures
        find_fn(decl_names(ds), f.name) is Some ==> lower_function(ds, f) == Ok::<Seq<FnDecl>, Failure>(ds),
        lower_function(ds, f) is Ok ==> names_unique(lower_function(ds, f)->Ok_0),
{
    if find_fn(decl_names(ds), f.name) is None {
        lemma_not_found_is_absent(decl_names(ds), f.name);
        assert forall|k: int| 0 <= k < ds.len() implies ds[k].name != f.name by {
            assert(decl_names(ds)[k] == ds[k].name);
        }
    }
}

/// A loop's own value is the constant 0.0, however often its body runs.
pub proof fn lemma_loop_value_is_zero(fs: Seq<Seq<char>>, e: Ast, st: Emit)
    requires
        e is For,
    ensures
        lower(fs, e, st) is Ok ==> lower(fs, e, st)->Ok_0.1 == Operand::Zero,
{
    if let Ast::For(x, start, _, _, body) = e {
        if lower(fs, e, st) is Ok {
            let cell = st.cells as usize;
            let (s1, sv) = lower(fs, *start, new_cell(st))->Ok_0;
            let s2 = emit(s1, Inst::Store { cell, value: sv });
            let lb = s2.blocks.len() as usize;
            let s3 = emit(new_block(s2, BlockKind::Loop), Inst::Br { target: lb });
            let s4 = Emit { cur: lb, scope: s3.scope.push((x, cell)), ..s3 };
            let s5 = lower(fs, *body, s4)->Ok_0.0;
            assert(lower(fs, e, st) == lower_for_latch(fs, e, cell, lb, st.scope.len(), s5));
        }
    }
}

/// Whether a branch or merge in `i` names only blocks below `n`.
pub open spec fn targets_below(i: Inst, n: nat) -> bool {
    match i {
        Inst::Br { target } => target < n,
        Inst::CondBr { then_block, else_block, .. } => then_block < n && else_block < n,
        Inst::Phi { then_block, else_block, .. } => then_block < n && else_block < n,
        _ => true,
    }
}

/// Whether the current block and every block that code stands in or jumps
/// to exists.
pub open spec fn well_placed(st: Emit) -> bool {
    &&& st.cur < st.blocks.len()
    &&& forall|k: int|
        #![trigger st.code[k]]
        0 <= k < st.code.len() ==> st.code[k].0 < st.blocks.len() && targets_below(
            st.code[k].1,
            st.blocks.len(),
        )
}

/// Lowering keeps a body well placed, and never removes blocks.
pub open spec fn placement_kept(st: Emit, r: Emit) -> bool {
    well_placed(r) && r.blocks.len() >= st.blocks.len()
}

proof fn lemma_emit_placed(st: Emit, i: Inst)
    requires
        well_placed(st),
        targets_below(i, st.blocks.len()),
    ensures
        placement_kept(st, emit(st, i)),
{
    let r = emit(st, i);
    assert forall|k: int| #![trigger r.code[k]] 0 <= k < r.code.len() implies r.code[k].0 < r.blocks.len()
        && targets_below(r.code[k].1, r.blocks.len()) by {
        if k < st.code.len() {
            assert(r.code[k] == st.code[k]);
        }
    }
}

proof fn lemma_grown_placed(st: Emit, r: Emit)
    requires
        well_placed(st),
        r.code == st.code,
        r.blocks.len() >= st.blocks.len(),
        r.cur < r.blocks.len(),
    ensures
        well_placed(r),
{
    assert forall|k: int| #![trigger r.code[k]] 0 <= k < r.code.len() implies r.code[k].0 < r.blocks.len()
        && targets_below(r.code[k].1, r.blocks.len()) by {
        assert(r.code[k] == st.code[k]);
        assert(targets_below(st.code[k].1, st.blocks.len()));
    }
}

proof fn lemma_call_placed(st: Emit, f: usize, vs: Seq<Operand>)
    requires
        well_placed(st),
    ensures
        placement_kept(st, call(st, f, vs).0),
        placement_kept(st, emit_args(st, vs)),
    decreases vs.len(),
{
    if vs.len() > 0 {
        lemma_call_placed(st, f, vs.drop_last());
        let s0 = emit_args(st, vs.drop_last());
        lemma_emit_placed(s0, Inst::Arg { value: vs.last() });
    }
    let s1 = emit_args(st, vs);
    lemma_emit_placed(s1, Inst::Call { callee: f, argc: vs.len() as usize });
}

/// Every instruction that lowering emits goes to a block that exists, and
/// every branch and merge names existing blocks.
pub proof fn lemma_lowering_keeps_placement(fs: Seq<Seq<char>>, e: Ast, st: Emit)
    requires
        well_placed(st),
    ensures
        lower(fs, e, st) is Ok ==> placement_kept(st, lower(fs, e, st)->Ok_0.0),
    decreases e, 1nat,
{
    if lower(fs, e, st) is Ok {
        match e {
            Ast::Number(_) => {
                lemma_grown_placed(st, lower(fs, e, st)->Ok_0.0);
            },
            Ast::Variable(x) => {
                lemma_emit_placed(st, Inst::Load { cell: find_var(st.scope, x)->Some_0 });
            },
            Ast::BinOp(l, op, r) => {
                if op is Assign && *l is Variable {
                    lemma_lowering_keeps_placement(fs, *r, st);
                    let (s1, v) = lower(fs, *r, st)->Ok_0;
                    lemma_emit_placed(s1, Inst::Store { cell: find_var(s1.scope, l->Variable_0)->Some_0, value: v });
                } else {
                    lemma_lowering_keeps_placement(fs, *l, st);
                    let (s1, lv) = lower(fs, *l, st)->Ok_0;
                    lemma_lowering_keeps_placement(fs, *r, s1);
                    let (s2, rv) = lower(fs, *r, s1)->Ok_0;
                    let c = op_char(op)->Some_0;
                    match find_fn(fs, "binary"@.push(c)) {
                        Some(f) => {
                            lemma_call_placed(s2, f, seq![lv, rv]);
                        },
                        None => {
                            match op {
                                Token::Plus(_) => lemma_emit_placed(s2, Inst::Arith { op: Arith::Add, lhs: lv, rhs: rv }),
                                Token::Minus(_) => lemma_emit_placed(s2, Inst::Arith { op: Arith::Sub, lhs: lv, rhs: rv }),
                                Token::Star(_) => lemma_emit_placed(s2, Inst::Arith { op: Arith::Mul, lhs: lv, rhs: rv }),
                                Token::Slash(_) => lemma_emit_placed(s2, Inst::Arith { op: Arith::Div, lhs: lv, rhs: rv }),
                                Token::Less(_) => {
                                    let i1 = Inst::Compare { pred: Predicate::UnorderedLess, lhs: lv, rhs: rv };
                                    lemma_emit_placed(s2, i1);
                                    lemma_emit_placed(emit(s2, i1), Inst::BoolToDouble { value: value_at(s2) });
                                },
                                Token::Greater(_) => {
                                    let i1 = Inst::Compare { pred: Predicate::UnorderedGreater, lhs: lv, rhs: rv };
                                    lemma_emit_placed(s2, i1);
                                    lemma_emit_placed(emit(s2, i1), Inst::BoolToDouble { value: value_at(s2) });
                                },
                                _ => {},
                            }
                        },
                    }
                }
            },
            Ast::Unary(c, x) => {
                lemma_lowering_keeps_placement(fs, *x, st);
                let (s1, v) = lower(fs, *x, st)->Ok_0;
                lemma_call_placed(s1, find_fn(fs, "unary"@.push(c))->Some_0, seq![v]);
            },
            Ast::Call(name, args) => {
                lemma_args_keep_placement(fs, args, args.len(), st);
                let (s1, vs) = lower_args(fs, args, args.len(), st)->Ok_0;
                lemma_call_placed(s1, find_fn(fs, name)->Some_0, vs);
            },
            Ast::If(c, th, el) => {
                lemma_lowering_keeps_placement(fs, *c, st);
                let (s1, cv) = lower(fs, *c, st)->Ok_0;
                let s2 = emit(s1, Inst::Compare { pred: Predicate::UnorderedNotEqual, lhs: cv, rhs: Operand::Zero });
                lemma_emit_placed(s1, Inst::Compare { pred: Predicate::UnorderedNotEqual, lhs: cv, rhs: Operand::Zero });
                let tb = s2.blocks.len() as usize;
                let eb = (tb + 1) as usize;
                let mb = (tb + 2) as usize;
                let s3 = new_block(new_block(new_block(s2, BlockKind::Then), BlockKind::Else), BlockKind::Merge);
                lemma_grown_placed(s2, s3);
                let ci = Inst::CondBr { cond: value_at(s1), then_block: tb, else_block: eb };
                lemma_emit_placed(s3, ci);
                let s4 = emit(s3, ci);
                lemma_grown_placed(s4, Emit { cur: tb, ..s4 });
                lemma_lowering_keeps_placement(fs, *th, Emit { cur: tb, ..s4 });
                let (s5, tv) = lower(fs, *th, Emit { cur: tb, ..s4 })->Ok_0;
                lemma_emit_placed(s5, Inst::Br { target: mb });
                let s6 = emit(s5, Inst::Br { target: mb });
                lemma_grown_placed(s6, Emit { cur: eb, ..s6 });
                lemma_lowering_keeps_placement(fs, *el, Emit { cur: eb, ..s6 });
                let (s7, ev) = lower(fs, *el, Emit { cur: eb, ..s6 })->Ok_0;
                lemma_emit_placed(s7, Inst::Br { target: mb });
                let s8 = emit(s7, Inst::Br { target: mb });
                lemma_grown_placed(s8, Emit { cur: mb, ..s8 });
                let s9 = Emit { cur: mb, ..s8 };
                lemma_emit_placed(
                    s9,
                    Inst::Phi { then_value: tv, then_block: s6.cur, else_value: ev, else_block: s8.cur },
                );
            },
            Ast::For(x, start, end, step, body) => {
                let cell = st.cells as usize;
                lemma_grown_placed(st, new_cell(st));
                lemma_lowering_keeps_placement(fs, *start, new_cell(st));
                let (s1, sv) = lower(fs, *start, new_cell(st))->Ok_0;
                lemma_emit_placed(s1, Inst::Store { cell, value: sv });
                let s2 = emit(s1, Inst::Store { cell, value: sv });
                let lb = s2.blocks.len() as usize;
                lemma_grown_placed(s2, new_block(s2, BlockKind::Loop));
                lemma_emit_placed(new_block(s2, BlockKind::Loop), Inst::Br { target: lb });
                let s3 = emit(new_block(s2, BlockKind::Loop), Inst::Br { target: lb });
                let s4 = Emit { cur: lb, scope: s3.scope.push((x, cell)), ..s3 };
                lemma_grown_placed(s3, s4);
                lemma_lowering_keeps_placement(fs, *body, s4);
                let s5 = lower(fs, *body, s4)->Ok_0.0;
                lemma_latch_keeps_placement(fs, e, cell, lb, st.scope.len(), s5);
            },
            Ast::Var(items, body) => {
                lemma_bindings_keep_placement(fs, items, items.len(), st);
                let s1 = lower_bindings(fs, items, items.len(), st)->Ok_0;
                lemma_lowering_keeps_placement(fs, *body, s1);
                let s2 = lower(fs, *body, s1)->Ok_0.0;
                lemma_grown_placed(s2, lower(fs, e, st)->Ok_0.0);
            },
            Ast::NoBody => {},
        }
    }
}

proof fn lemma_latch_keeps_placement(
    fs: Seq<Seq<char>>,
    e: Ast,
    cell: usize,
    lb: usize,
    outer: nat,
    s5: Emit,
)
    requires
        well_placed(s5),
        lb < s5.blocks.len(),
    ensures
        lower_for_latch(fs, e, cell, lb, outer, s5) is Ok ==> placement_kept(
            s5,
            lower_for_latch(fs, e, cell, lb, outer, s5)->Ok_0.0,
        ),
    decreases e, 0nat,
{
    if let Ast::For(_, _, end, step, _) = e {
        if lower_for_latch(fs, e, cell, lb, outer, s5) is Ok {
            match step {
                Some(sx) => lemma_lowering_keeps_placement(fs, *sx, s5),
                None => {},
            }
            let stepped = match step {
                Some(sx) => lower(fs, *sx, s5),
                None => Ok((s5, Operand::One)),
            };
            let (s6, stv) = stepped->Ok_0;
            lemma_emit_placed(s6, Inst::Load { cell });
            let s7 = emit(s6, Inst::Load { cell });
            lemma_emit_placed(s7, Inst::Arith { op: Arith::Add, lhs: value_at(s6), rhs: stv });
            let s8 = emit(s7, Inst::Arith { op: Arith::Add, lhs: value_at(s6), rhs: stv });
            lemma_emit_placed(s8, Inst::Store { cell, value: value_at(s7) });
            let s9 = emit(s8, Inst::Store { cell, value: value_at(s7) });
            lemma_lowering_keeps_placement(fs, *end, s9);
            let (s10, ev) = lower(fs, *end, s9)->Ok_0;
            let ci = Inst::Compare { pred: Predicate::UnorderedNotEqual, lhs: ev, rhs: Operand::Zero };
            lemma_emit_placed(s10, ci);
            let s11 = emit(s10, ci);
            let ab = s11.blocks.len() as usize;
            lemma_grown_placed(s11, new_block(s11, BlockKind::AfterLoop));
            let bi = Inst::CondBr { cond: value_at(s10), then_block: lb, else_block: ab };
            lemma_emit_placed(new_block(s11, BlockKind::AfterLoop), bi);
            let s12 = emit(new_block(s11, BlockKind::AfterLoop), bi);
            lemma_grown_placed(s12, lower_for_latch(fs, e, cell, lb, outer, s5)->Ok_0.0);
        }
    }
}

proof fn lemma_args_keep_placement(fs: Seq<Seq<char>>, args: Seq<Ast>, n: nat, st: Emit)
    requires
        well_placed(st),
    ensures
        lower_args(fs, args, n, st) is Ok ==> placement_kept(st, lower_args(fs, args, n, st)->Ok_0.0),
    decreases args, n,
{
    if n > 0 && n <= args.len() && lower_args(fs, args, n, st) is Ok {
        lemma_args_keep_placement(fs, args, (n - 1) as nat, st);
        let s1 = lower_args(fs, args, (n - 1) as nat, st)->Ok_0.0;
        lemma_lowering_keeps_placement(fs, args[n - 1], s1);
    }
}

proof fn lemma_bindings_keep_placement(
    fs: Seq<Seq<char>>,
    items: Seq<(Seq<char>, Option<Ast>)>,
    n: nat,
    st: Emit,
)
    requires
        well_placed(st),
    ensures
        lower_bindings(fs, items, n, st) is Ok ==> placement_kept(st, lower_bindings(fs, items, n, st)->Ok_0),
    decreases items, n,
{
    if n > 0 && n <= items.len() && lower_bindings(fs, items, n, st) is Ok {
        lemma_bindings_keep_placement(fs, items, (n - 1) as nat, st);
        let s1 = lower_bindings(fs, items, (n - 1) as nat, st)->Ok_0;
        let init = match items[n - 1].1 {
            Some(x) => lower(fs, x, s1),
            None => Ok((s1, Operand::Zero)),
        };
        match items[n - 1].1 {
            Some(x) => lemma_lowering_keeps_placement(fs, x, s1),
            None => {},
        }
        let (s2, v) = init->Ok_0;
        let cell = s2.cells as usize;
        lemma_grown_placed(s2, new_cell(s2));
        lemma_emit_placed(new_cell(s2), Inst::Store { cell, value: v });
        let s3 = emit(new_cell(s2), Inst::Store { cell, value: v });
        lemma_grown_placed(s3, lower_bindings(fs, items, n, st)->Ok_0);
    }
}

proof fn lemma_entry_placed(params: Seq<Seq<char>>, n: nat)
    ensures
        well_placed(entry_state(params, n)),
    decreases n,
{
    if n > 0 && n <= params.len() {
        lemma_entry_placed(params, (n - 1) as nat);
        let s = entry_state(params, (n - 1) as nat);
        let cell = s.cells as usize;
        lemma_grown_placed(s, new_cell(s));
        let i = Inst::Store { cell, value: Operand::Param((n - 1) as usize) };
        lemma_emit_placed(new_cell(s), i);
        lemma_grown_placed(emit(new_cell(s), i), entry_state(params, n));
    }
}

/// A lowered function body is well formed: its code stands in blocks that
/// exist and jumps only to them, and each instruction uses only earlier
/// values and existing literals, cells and parameters.
pub proof fn lemma_function_body_well_formed(ds: Seq<FnDecl>, f: FunctionShape)
    ensures
        lower_function(ds, f) is Ok ==> {
            let r = lower_function(ds, f)->Ok_0;
            r.len() > ds.len() && r.last().body is Some ==> {
                &&& well_placed(r.last().body->Some_0)
                &&& refs_ok(r.last().body->Some_0, f.args.len())
            }
        },
{
    if lower_function(ds, f) is Ok && find_fn(decl_names(ds), f.name) is None && !(f.body is NoBody) {
        let names = decl_names(ds);
        let st0 = entry_state(f.args, f.args.len());
        lemma_entry_placed(f.args, f.args.len());
        lemma_entry_refs(f.args, f.args.len());
        lemma_lowering_keeps_placement(names.push(f.name), f.body, st0);
        lemma_lowering_keeps_refs(names.push(f.name), f.body, st0, f.args.len());
        let (st, v) = lower(names.push(f.name), f.body, st0)->Ok_0;
        lemma_emit_placed(st, Inst::Ret { value: v });
        lemma_emit_refs(st, Inst::Ret { value: v }, f.args.len());
    }
}

/// Whether operand `o` names a value, literal or parameter that exists:
/// one of the first `nvals` instructions, `nconsts` literals, `np` parameters.
pub open spec fn operand_below(o: Operand, nvals: nat, nconsts: nat, np: nat) -> bool {
    match o {
        Operand::Const(k) => k < nconsts,
        Operand::Param(k) => k < np,
        Operand::Value(k) => k < nvals,
        _ => true,
    }
}

/// Whether instruction `i`, the `k`-th of its body, uses only earlier values
/// and existing literals, cells and parameters.
pub open spec fn inst_refs_ok(i: Inst, k: nat, nconsts: nat, ncells: nat, np: nat) -> bool {
    match i {
        Inst::Store { cell, value } => cell < ncells && operand_below(value, k, nconsts, np),
        Inst::Load { cell } => cell < ncells,
        Inst::Arith { lhs, rhs, .. } => operand_below(lhs, k, nconsts, np) && operand_below(
            rhs,
            k,
            nconsts,
            np,
        ),
        Inst::Compare { lhs, rhs, .. } => operand_below(lhs, k, nconsts, np) && operand_below(
            rhs,
            k,
            nconsts,
            np,
        ),
        Inst::BoolToDouble { value } => operand_below(value, k, nconsts, np),
        Inst::Arg { value } => operand_below(value, k, nconsts, np),
        Inst::CondBr { cond, .. } => operand_below(cond, k, nconsts, np),
        Inst::Phi { then_value, else_value, .. } => operand_below(then_value, k, nconsts, np)
            && operand_below(else_value, k, nconsts, np),
        Inst::Ret { value } => operand_below(value, k, nconsts, np),
        _ => true,
    }
}

/// Whether every instruction of a body with `np` parameters refers only to
/// what exists before it, and every variable is bound to an existing cell.
pub open spec fn refs_ok(st: Emit, np: nat) -> bool {
    &&& forall|k: int|
        #![trigger st.code[k]]
        0 <= k < st.code.len() ==> inst_refs_ok(st.code[k].1, k as nat, st.consts.len(), st.cells, np)
    &&& forall|j: int| #![trigger st.scope[j]] 0 <= j < st.scope.len() ==> st.scope[j].1 < st.cells
}

pub open spec fn refs_kept(st: Emit, r: Emit, np: nat) -> bool {
    &&& refs_ok(r, np)
    &&& r.code.len() >= st.code.len()
    &&& r.consts.len() >= st.consts.len()
    &&& r.cells >= st.cells
}

proof fn lemma_inst_refs_grow(i: Inst, k: nat, c1: nat, c2: nat, l1: nat, l2: nat, np: nat)
    requires
        inst_refs_ok(i, k, c1, l1, np),
        c1 <= c2,
        l1 <= l2,
    ensures
        inst_refs_ok(i, k, c2, l2, np),
{
}

proof fn lemma_grown_refs(st: Emit, r: Emit, np: nat)
    requires
        refs_ok(st, np),
        r.code == st.code,
        r.consts.len() >= st.consts.len(),
        r.cells >= st.cells,
        forall|j: int| #![trigger r.scope[j]] 0 <= j < r.scope.len() ==> r.scope[j].1 < r.cells,
    ensures
        refs_kept(st, r, np),
{
    assert forall|k: int| #![trigger r.code[k]] 0 <= k < r.code.len() implies inst_refs_ok(
        r.code[k].1,
        k as nat,
        r.consts.len(),
        r.cells,
        np,
    ) by {
        assert(r.code[k] == st.code[k]);
        lemma_inst_refs_grow(st.code[k].1, k as nat, st.consts.len(), r.consts.len(), st.cells, r.cells, np);
    }
}

proof fn lemma_emit_refs(st: Emit, i: Inst, np: nat)
    requires
        refs_ok(st, np),
        inst_refs_ok(i, st.code.len(), st.consts.len(), st.cells, np),
    ensures
        refs_kept(st, emit(st, i), np),
{
    let r = emit(st, i);
    assert forall|k: int| #![trigger r.code[k]] 0 <= k < r.code.len() implies inst_refs_ok(
        r.code[k].1,
        k as nat,
        r.consts.len(),
        r.cells,
        np,
    ) by {
        if k < st.code.len() {
            assert(r.code[k] == st.code[k]);
        }
    }
}

proof fn lemma_operand_grows(o: Operand, v1: nat, v2: nat, c1: nat, c2: nat, np: nat)
    requires
        operand_below(o, v1, c1, np),
        v1 <= v2,
        c1 <= c2,
    ensures
        operand_below(o, v2, c2, np),
{
}

proof fn lemma_find_var_bound(sc: Seq<(Seq<char>, usize)>, x: Seq<char>, n: nat)
    requires
        forall|j: int| #![trigger sc[j]] 0 <= j < sc.len() ==> sc[j].1 < n,
        find_var(sc, x) is Some,
    ensures
        find_var(sc, x)->Some_0 < n,
    decreases sc.len(),
{
    if sc.last().0 != x {
        let d = sc.drop_last();
        assert forall|j: int| #![trigger d[j]] 0 <= j < d.len() implies d[j].1 < n by {
            assert(d[j] == sc[j]);
        }
        lemma_find_var_bound(d, x, n);
    }
}

proof fn lemma_call_refs(st: Emit, f: usize, vs: Seq<Operand>, np: nat)
    requires
        refs_ok(st, np),
        forall|j: int| #![trigger vs[j]] 0 <= j < vs.len() ==> operand_below(vs[j], st.code.len(), st.consts.len(), np),
    ensures
        refs_kept(st, emit_args(st, vs), np),
        emit_args(st, vs).code.len() == st.code.len() + vs.len(),
        emit_args(st, vs).consts == st.consts,
        refs_kept(st, call(st, f, vs).0, np),
        operand_below(call(st, f, vs).1, call(st, f, vs).0.code.len(), call(st, f, vs).0.consts.len(), np),
    decreases vs.len(),
{
    if vs.len() > 0 {
        let d = vs.drop_last();
        assert forall|j: int| #![trigger d[j]] 0 <= j < d.len() implies operand_below(
            d[j],
            st.code.len(),
            st.consts.len(),
            np,
        ) by {
            assert(d[j] == vs[j]);
        }
        lemma_call_refs(st, f, d, np);
        let s0 = emit_args(st, d);
        lemma_operand_grows(vs.last(), st.code.len(), s0.code.len(), st.consts.len(), s0.consts.len(), np);
        lemma_emit_refs(s0, Inst::Arg { value: vs.last() }, np);
    }
    let s1 = emit_args(st, vs);
    lemma_emit_refs(s1, Inst::Call { callee: f, argc: vs.len() as usize }, np);
}

/// Lowering keeps every reference of a body to what exists before it, and
/// the operand that it hands back exists too.
#[verifier::rlimit(80)]
pub proof fn lemma_lowering_keeps_refs(fs: Seq<Seq<char>>, e: Ast, st: Emit, np: nat)
    requires
        refs_ok(st, np),
    ensures
        lower(fs, e, st) is Ok ==> {
            let (r, v) = lower(fs, e, st)->Ok_0;
            refs_kept(st, r, np) && operand_below(v, r.code.len(), r.consts.len(), np)
        },
    decreases e, 1nat,
{
    if lower(fs, e, st) is Ok {
        match e {
            Ast::Number(_) => {
                lemma_grown_refs(st, lower(fs, e, st)->Ok_0.0, np);
            },
            Ast::Variable(x) => {
                lemma_find_var_bound(st.scope, x, st.cells);
                lemma_emit_refs(st, Inst::Load { cell: find_var(st.scope, x)->Some_0 }, np);
            },
            Ast::BinOp(l, op, r) => {
                if op is Assign && *l is Variable {
                    lemma_lowering_keeps_refs(fs, *r, st, np);
                    let (s1, v) = lower(fs, *r, st)->Ok_0;
                    lemma_find_var_bound(s1.scope, l->Variable_0, s1.cells);
                    lemma_emit_refs(s1, Inst::Store { cell: find_var(s1.scope, l->Variable_0)->Some_0, value: v }, np);
                } else {
                    lemma_lowering_keeps_refs(fs, *l, st, np);
                    let (s1, lv) = lower(fs, *l, st)->Ok_0;
                    lemma_lowering_keeps_refs(fs, *r, s1, np);
                    let (s2, rv) = lower(fs, *r, s1)->Ok_0;
                    lemma_operand_grows(lv, s1.code.len(), s2.code.len(), s1.consts.len(), s2.consts.len(), np);
                    let c = op_char(op)->Some_0;
                    match find_fn(fs, "binary"@.push(c)) {
                        Some(f) => {
                            let vs = seq![lv, rv];
                            assert forall|j: int| #![trigger vs[j]] 0 <= j < vs.len() implies operand_below(
                                vs[j],
                                s2.code.len(),
                                s2.consts.len(),
                                np,
                            ) by {}
                            lemma_call_refs(s2, f, vs, np);
                        },
                        None => {
                            match op {
                                Token::Plus(_) => lemma_emit_refs(s2, Inst::Arith { op: Arith::Add, lhs: lv, rhs: rv }, np),
                                Token::Minus(_) => lemma_emit_refs(s2, Inst::Arith { op: Arith::Sub, lhs: lv, rhs: rv }, np),
                                Token::Star(_) => lemma_emit_refs(s2, Inst::Arith { op: Arith::Mul, lhs: lv, rhs: rv }, np),
                                Token::Slash(_) => lemma_emit_refs(s2, Inst::Arith { op: Arith::Div, lhs: lv, rhs: rv }, np),
                                Token::Less(_) => {
                                    let i1 = Inst::Compare { pred: Predicate::UnorderedLess, lhs: lv, rhs: rv };
                                    lemma_emit_refs(s2, i1, np);
                                    lemma_emit_refs(emit(s2, i1), Inst::BoolToDouble { value: value_at(s2) }, np);
                                },
                                Token::Greater(_) => {
                                    let i1 = Inst::Compare { pred: Predicate::UnorderedGreater, lhs: lv, rhs: rv };
                                    lemma_emit_refs(s2, i1, np);
                                    lemma_emit_refs(emit(s2, i1), Inst::BoolToDouble { value: value_at(s2) }, np);
                                },
                                _ => {},
                            }
                        },
                    }
                }
            },
            Ast::Unary(c, x) => {
                lemma_lowering_keeps_refs(fs, *x, st, np);
                let (s1, v) = lower(fs, *x, st)->Ok_0;
                let vs = seq![v];
                assert forall|j: int| #![trigger vs[j]] 0 <= j < vs.len() implies operand_below(
                    vs[j],
                    s1.code.len(),
                    s1.consts.len(),
                    np,
                ) by {}
                lemma_call_refs(s1, find_fn(fs, "unary"@.push(c))->Some_0, vs, np);
            },
            Ast::Call(name, args) => {
                lemma_args_keep_refs(fs, args, args.len(), st, np);
                let (s1, vs) = lower_args(fs, args, args.len(), st)->Ok_0;
                lemma_call_refs(s1, find_fn(fs, name)->Some_0, vs, np);
            },
            Ast::If(c, th, el) => {
                lemma_lowering_keeps_refs(fs, *c, st, np);
                let (s1, cv) = lower(fs, *c, st)->Ok_0;
                let i1 = Inst::Compare { pred: Predicate::UnorderedNotEqual, lhs: cv, rhs: Operand::Zero };
                lemma_emit_refs(s1, i1, np);
                let s2 = emit(s1, i1);
                let tb = s2.blocks.len() as usize;
                let eb = (tb + 1) as usize;
                let mb = (tb + 2) as usize;
                let s3 = new_block(new_block(new_block(s2, BlockKind::Then), BlockKind::Else), BlockKind::Merge);
                lemma_grown_refs(s2, s3, np);
                let ci = Inst::CondBr { cond: value_at(s1), then_block: tb, else_block: eb };
                lemma_emit_refs(s3, ci, np);
                let s4 = emit(s3, ci);
                lemma_grown_refs(s4, Emit { cur: tb, ..s4 }, np);
                lemma_lowering_keeps_refs(fs, *th, Emit { cur: tb, ..s4 }, np);
                let (s5, tv) = lower(fs, *th, Emit { cur: tb, ..s4 })->Ok_0;
                lemma_emit_refs(s5, Inst::Br { target: mb }, np);
                let s6 = emit(s5, Inst::Br { target: mb });
                lemma_grown_refs(s6, Emit { cur: eb, ..s6 }, np);
                lemma_lowering_keeps_refs(fs, *el, Emit { cur: eb, ..s6 }, np);
                let (s7, ev) = lower(fs, *el, Emit { cur: eb, ..s6 })->Ok_0;
                lemma_emit_refs(s7, Inst::Br { target: mb }, np);
                let s8 = emit(s7, Inst::Br { target: mb });
                lemma_grown_refs(s8, Emit { cur: mb, ..s8 }, np);
                let s9 = Emit { cur: mb, ..s8 };
                lemma_operand_grows(tv, s5.code.len(), s9.code.len(), s5.consts.len(), s9.consts.len(), np);
                lemma_operand_grows(ev, s7.code.len(), s9.code.len(), s7.consts.len(), s9.consts.len(), np);
                lemma_emit_refs(
                    s9,
                    Inst::Phi { then_value: tv, then_block: s6.cur, else_value: ev, else_block: s8.cur },
                    np,
                );
            },
            Ast::For(x, start, end, step, body) => {
                let cell = st.cells as usize;
                lemma_grown_refs(st, new_cell(st), np);
                lemma_lowering_keeps_refs(fs, *start, new_cell(st), np);
                let (s1, sv) = lower(fs, *start, new_cell(st))->Ok_0;
                lemma_emit_refs(s1, Inst::Store { cell, value: sv }, np);
                let s2 = emit(s1, Inst::Store { cell, value: sv });
                let lb = s2.blocks.len() as usize;
                lemma_grown_refs(s2, new_block(s2, BlockKind::Loop), np);
                lemma_emit_refs(new_block(s2, BlockKind::Loop), Inst::Br { target: lb }, np);
                let s3 = emit(new_block(s2, BlockKind::Loop), Inst::Br { target: lb });
                let s4 = Emit { cur: lb, scope: s3.scope.push((x, cell)), ..s3 };
                lemma_lowering_keeps_scope(fs, *start, new_cell(st));
                assert forall|j: int| #![trigger s4.scope[j]] 0 <= j < s4.scope.len() implies s4.scope[j].1 < s4.cells by {
                    if j < st.scope.len() {
                        assert(s4.scope[j] == st.scope[j]);
                    }
                }
                lemma_grown_refs(s3, s4, np);
                lemma_lowering_keeps_refs(fs, *body, s4, np);
                lemma_lowering_keeps_scope(fs, *body, s4);
                let s5 = lower(fs, *body, s4)->Ok_0.0;
                lemma_latch_keeps_refs(fs, e, cell, lb, st.scope.len(), s5, np);
            },
            Ast::Var(items, body) => {
                lemma_bindings_keep_refs(fs, items, items.len(), st, np);
                lemma_bindings_extend_scope(fs, items, items.len(), st);
                let s1 = lower_bindings(fs, items, items.len(), st)->Ok_0;
                lemma_lowering_keeps_refs(fs, *body, s1, np);
                lemma_lowering_keeps_scope(fs, *body, s1);
                let s2 = lower(fs, *body, s1)->Ok_0.0;
                let r = lower(fs, e, st)->Ok_0.0;
                assert forall|j: int| #![trigger r.scope[j]] 0 <= j < r.scope.len() implies r.scope[j].1 < r.cells by {
                    assert(r.scope[j] == s2.scope[j]);
                }
                lemma_grown_refs(s2, r, np);
            },
            Ast::NoBody => {},
        }
    }
}

proof fn lemma_latch_keeps_refs(
    fs: Seq<Seq<char>>,
    e: Ast,
    cell: usize,
    lb: usize,
    outer: nat,
    s5: Emit,
    np: nat,
)
    requires
        refs_ok(s5, np),
        cell < s5.cells,
        outer <= s5.scope.len(),
    ensures
        lower_for_latch(fs, e, cell, lb, outer, s5) is Ok ==> {
            let (r, v) = lower_for_latch(fs, e, cell, lb, outer, s5)->Ok_0;
            refs_kept(s5, r, np) && operand_below(v, r.code.len(), r.consts.len(), np)
        },
    decreases e, 0nat,
{
    if let Ast::For(_, _, end, step, _) = e {
        if lower_for_latch(fs, e, cell, lb, outer, s5) is Ok {
            match step {
                Some(sx) => {
                    lemma_lowering_keeps_refs(fs, *sx, s5, np);
                    lemma_lowering_keeps_scope(fs, *sx, s5);
                },
                None => {},
            }
            let stepped = match step {
                Some(sx) => lower(fs, *sx, s5),
                None => Ok((s5, Operand::One)),
            };
            let (s6, stv) = stepped->Ok_0;
            lemma_emit_refs(s6, Inst::Load { cell }, np);
            let s7 = emit(s6, Inst::Load { cell });
            lemma_operand_grows(stv, s6.code.len(), s7.code.len(), s6.consts.len(), s7.consts.len(), np);
            lemma_emit_refs(s7, Inst::Arith { op: Arith::Add, lhs: value_at(s6), rhs: stv }, np);
            let s8 = emit(s7, Inst::Arith { op: Arith::Add, lhs: value_at(s6), rhs: stv });
            lemma_emit_refs(s8, Inst::Store { cell, value: value_at(s7) }, np);
            let s9 = emit(s8, Inst::Store { cell, value: value_at(s7) });
            lemma_lowering_keeps_refs(fs, *end, s9, np);
            lemma_lowering_keeps_scope(fs, *end, s9);
            let (s10, ev) = lower(fs, *end, s9)->Ok_0;
            let ci = Inst::Compare { pred: Predicate::UnorderedNotEqual, lhs: ev, rhs: Operand::Zero };
            lemma_emit_refs(s10, ci, np);
            let s11 = emit(s10, ci);
            let ab = s11.blocks.len() as usize;
            lemma_grown_refs(s11, new_block(s11, BlockKind::AfterLoop), np);
            let bi = Inst::CondBr { cond: value_at(s10), then_block: lb, else_block: ab };
            lemma_emit_refs(new_block(s11, BlockKind::AfterLoop), bi, np);
            let s12 = emit(new_block(s11, BlockKind::AfterLoop), bi);
            let r = lower_for_latch(fs, e, cell, lb, outer, s5)->Ok_0.0;
            assert forall|j: int| #![trigger r.scope[j]] 0 <= j < r.scope.len() implies r.scope[j].1 < r.cells by {
                assert(r.scope[j] == s12.scope[j]);
            }
            lemma_grown_refs(s12, r, np);
        }
    }
}

proof fn lemma_args_keep_refs(fs: Seq<Seq<char>>, args: Seq<Ast>, n: nat, st: Emit, np: nat)
    requires
        refs_ok(st, np),
    ensures
        lower_args(fs, args, n, st) is Ok ==> {
            let (r, vs) = lower_args(fs, args, n, st)->Ok_0;
            &&& refs_kept(st, r, np)
            &&& forall|j: int|
                #![trigger vs[j]]
                0 <= j < vs.len() ==> operand_below(vs[j], r.code.len(), r.consts.len(), np)
        },
    decreases args, n,
{
    if n > 0 && n <= args.len() && lower_args(fs, args, n, st) is Ok {
        lemma_args_keep_refs(fs, args, (n - 1) as nat, st, np);
        let (s1, vs) = lower_args(fs, args, (n - 1) as nat, st)->Ok_0;
        lemma_lowering_keeps_refs(fs, args[n - 1], s1, np);
        let (s2, v) = lower(fs, args[n - 1], s1)->Ok_0;
        let ws = vs.push(v);
        assert forall|j: int| #![trigger ws[j]] 0 <= j < ws.len() implies operand_below(
            ws[j],
            s2.code.len(),
            s2.consts.len(),
            np,
        ) by {
            if j < vs.len() {
                assert(ws[j] == vs[j]);
                lemma_operand_grows(vs[j], s1.code.len(), s2.code.len(), s1.consts.len(), s2.consts.len(), np);
            }
        }
    }
}

proof fn lemma_bindings_keep_refs(
    fs: Seq<Seq<char>>,
    items: Seq<(Seq<char>, Option<Ast>)>,
    n: nat,
    st: Emit,
    np: nat,
)
    requires
        refs_ok(st, np),
    ensures
        lower_bindings(fs, items, n, st) is Ok ==> refs_kept(st, lower_bindings(fs, items, n, st)->Ok_0, np),
    decreases items, n,
{
    if n > 0 && n <= items.len() && lower_bindings(fs, items, n, st) is Ok {
        lemma_bindings_keep_refs(fs, items, (n - 1) as nat, st, np);
        let s1 = lower_bindings(fs, items, (n - 1) as nat, st)->Ok_0;
        let init = match items[n - 1].1 {
            Some(x) => lower(fs, x, s1),
            None => Ok((s1, Operand::Zero)),
        };
        match items[n - 1].1 {
            Some(x) => lemma_lowering_keeps_refs(fs, x, s1, np),
            None => {},
        }
        let (s2, v) = init->Ok_0;
        let cell = s2.cells as usize;
        lemma_grown_refs(s2, new_cell(s2), np);
        lemma_emit_refs(new_cell(s2), Inst::Store { cell, value: v }, np);
        let s3 = emit(new_cell(s2), Inst::Store { cell, value: v });
        let r = lower_bindings(fs, items, n, st)->Ok_0;
        assert forall|j: int| #![trigger r.scope[j]] 0 <= j < r.scope.len() implies r.scope[j].1 < r.cells by {
            if j < s3.scope.len() {
                assert(r.scope[j] == s3.scope[j]);
            }
        }
        lemma_grown_refs(s3, r, np);
    }
}

proof fn lemma_entry_refs(params: Seq<Seq<char>>, n: nat)
    requires
        n <= params.len(),
    ensures
        refs_ok(entry_state(params, n), params.len()),
        entry_state(params, n).scope.len() == n,
        entry_state(params, n).cells == n,
    decreases n,
{
    if n > 0 {
        lemma_entry_refs(params, (n - 1) as nat);
        let s = entry_state(params, (n - 1) as nat);
        let cell = s.cells as usize;
        lemma_grown_refs(s, new_cell(s), params.len());
        let i = Inst::Store { cell, value: Operand::Param((n - 1) as usize) };
        lemma_emit_refs(new_cell(s), i, params.len());
        let s1 = emit(new_cell(s), i);
        let r = entry_state(params, n);
        assert forall|j: int| #![trigger r.scope[j]] 0 <= j < r.scope.len() implies r.scope[j].1 < r.cells by {
            if j < s1.scope.len() {
                assert(r.scope[j] == s1.scope[j]);
            }
        }
        lemma_grown_refs(s1, r, params.len());
    }
}

/// Whether the entry body is well formed and its last value exists.
pub open spec fn entry_ok(main: Emit, last: Option<Operand>) -> bool {
    &&& well_placed(main)
    &&& refs_ok(main, 0)
    &&& match last {
        Some(v) => operand_below(v, main.code.len(), main.consts.len(), 0),
        None => true,
    }
}

/// Lowering the units of a source keeps the entry body well formed, and so
/// is the entry once it returns its last value.
pub proof fn lemma_units_keep_entry(
    ds: Seq<FnDecl>,
    main: Emit,
    last: Option<Operand>,
    fs: Seq<FunctionShape>,
)
    requires
        entry_ok(main, last),
    ensures
        lower_units(ds, main, last, fs) is Ok ==> {
            let (_, m, l) = lower_units(ds, main, last, fs)->Ok_0;
            let done = emit(m, Inst::Ret { value: returned(l) });
            &&& entry_ok(m, l)
            &&& well_placed(done)
            &&& refs_ok(done, 0)
        },
    decreases fs.len(),
{
    if lower_units(ds, main, last, fs) is Ok {
        if fs.len() == 0 {
            lemma_emit_placed(main, Inst::Ret { value: returned(last) });
            lemma_emit_refs(main, Inst::Ret { value: returned(last) }, 0);
        } else {
            let f = fs[0];
            if f.name == "_top_level_expr"@ {
                lemma_lowering_keeps_placement(decl_names(ds), f.body, main);
                lemma_lowering_keeps_refs(decl_names(ds), f.body, main, 0);
                let (st, v) = lower(decl_names(ds), f.body, main)->Ok_0;
                lemma_units_keep_entry(ds, st, Some(v), fs.drop_first());
            } else {
                let ds2 = lower_function(ds, f)->Ok_0;
                lemma_units_keep_entry(ds2, main, last, fs.drop_first());
            }
        }
    }
}

} // verus!
