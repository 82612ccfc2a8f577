use vstd::prelude::*;

use crate::ast::{
    lemma_view_bindings_prefix, lemma_view_exprs_prefix, view_bindings, view_expr, view_exprs, view_init, view_step, Ast,
    Expr, Function, FunctionShape,
};
use crate::lexer::{advance, chars_of, is_digit, kind, token_at, LexerContext, Token};

verus! {

broadcast use vstd::std_specs::vec::axiom_vec_index_decreases;

/// Why a unit of source text does not parse.
#[derive(Debug, PartialEq)]
pub enum ParseError {
    /// A token of another kind than the one the grammar requires here.
    Expected { expected: Token, found: Token },
    /// No expression starts with this token.
    UnexpectedToken(Token),
    /// A `for` loop whose variable is not a plain name.
    LoopVariableExpected,
    /// A prototype that starts with neither a name nor `binary`/`unary`.
    PrototypeName(Token),
    /// A token other than a name or `)` among a prototype's parameters.
    PrototypeArgument(Token),
    /// An operator prototype with the wrong number of parameters.
    OperatorArity { expected: usize, found: usize },
}

/// What a parse step gives: a value and how many tokens it read.
pub type Parsed<T> = Result<(T, nat), ParseError>;

/// Operator precedences, keyed by the operator character.
pub struct PrecedenceTable {
    pub entries: Vec<(char, i8)>,
}

/// The precedence of `c` in an association list: its first entry.
pub open spec fn lookup(e: Seq<(char, i8)>, c: char) -> Option<i8>
    decreases e.len(),
{
    if e.len() == 0 {
        None
    } else if e[0].0 == c {
        Some(e[0].1)
    } else {
        lookup(e.drop_first(), c)
    }
}

impl View for PrecedenceTable {
    type V = Map<char, i8>;

    open spec fn view(&self) -> Map<char, i8> {
        Map::new(|c: char| lookup(self.entries@, c) is Some, |c: char| lookup(self.entries@, c)->Some_0)
    }
}

impl PrecedenceTable {
    /// The built-in operators: assignment binds weakest, then comparisons,
    /// then `+ -`, then `* /`.
    pub fn new() -> (r: Self)
        ensures
            r@ == builtin_precedence(),
    {
        let mut entries: Vec<(char, i8)> = Vec::new();
        entries.push(('=', 2));
        entries.push(('<', 10));
        entries.push(('>', 10));
        entries.push(('+', 20));
        entries.push(('-', 20));
        entries.push(('*', 40));
        entries.push(('/', 40));
        let r = PrecedenceTable { entries };
        proof {
            reveal_with_fuel(lookup, 8);
        }
        assert(r@ =~= builtin_precedence());
        r
    }

    pub fn get(&self, c: char) -> (r: Option<i8>)
        ensures
            r == (if self@.contains_key(c) {
                Some(self@[c])
            } else {
                None
            }),
    {
        let mut i: usize = 0;
        assert(self.entries@.skip(0) =~= self.entries@);
        while i < self.entries.len()
            invariant
                i <= self.entries@.len(),
                lookup(self.entries@, c) == lookup(self.entries@.skip(i as int), c),
            decreases self.entries@.len() - i,
        {
            assert(self.entries@.skip(i as int).drop_first() =~= self.entries@.skip(i + 1));
            if self.entries[i].0 == c {
                return Some(self.entries[i].1);
            }
            i += 1;
        }
        None
    }

    /// Sets the precedence of `c`, replacing any earlier one.
    pub fn insert(&mut self, c: char, p: i8)
        ensures
            final(self)@ == old(self)@.insert(c, p),
    {
        let ghost old_entries = self.entries@;
        self.entries.insert(0, (c, p));
        assert forall|d: char| lookup(self.entries@, d) == (if d == c {
            Some(p)
        } else {
            lookup(old_entries, d)
        }) by {
            assert(self.entries@.drop_first() =~= old_entries);
        }
        assert(self@ =~= old(self)@.insert(c, p));
    }
}

pub open spec fn builtin_precedence() -> Map<char, i8> {
    map![
        '=' => 2i8,
        '<' => 10i8,
        '>' => 10i8,
        '+' => 20i8,
        '-' => 20i8,
        '*' => 40i8,
        '/' => 40i8,
    ]
}

/// The operator character of a token that can stand as an operator.
pub open spec fn op_char(t: Token) -> Option<char> {
    match t {
        Token::Less(c) => Some(c),
        Token::Greater(c) => Some(c),
        Token::Plus(c) => Some(c),
        Token::Minus(c) => Some(c),
        Token::Star(c) => Some(c),
        Token::Slash(c) => Some(c),
        Token::Assign(c) => Some(c),
        Token::Bang(c) => Some(c),
        Token::Pipe(c) => Some(c),
        Token::Ampersand(c) => Some(c),
        Token::Caret(c) => Some(c),
        Token::Percent(c) => Some(c),
        Token::Dollar(c) => Some(c),
        Token::At(c) => Some(c),
        Token::Tilde(c) => Some(c),
        _ => None,
    }
}

pub(crate) fn operator_char(t: &Token) -> (r: Option<char>)
    ensures
        r == op_char(*t),
{
    match t {
        Token::Less(c) | Token::Greater(c) | Token::Plus(c) | Token::Minus(c) | Token::Star(c)
        | Token::Slash(c) | Token::Assign(c) | Token::Bang(c) | Token::Pipe(c)
        | Token::Ampersand(c) | Token::Caret(c) | Token::Percent(c) | Token::Dollar(c)
        | Token::At(c) | Token::Tilde(c) => Some(*c),
        _ => None,
    }
}

/// How tightly token `t` binds as an infix operator; -1 when it is none.
pub open spec fn precedence(tab: Map<char, i8>, t: Token) -> int {
    match op_char(t) {
        Some(c) => if tab.contains_key(c) {
            tab[c] as int
        } else {
            -1
        },
        None => -1,
    }
}

/// How many tokens are left from position `p` on.
pub open spec fn left(t: Seq<Token>, p: int) -> nat {
    if p < t.len() {
        (t.len() - p) as nat
    } else {
        0
    }
}

/// Reading one token of the variant of `expected` at `q`.
pub open spec fn expect(t: Seq<Token>, q: int, expected: Token) -> Result<(), ParseError> {
    if kind(token_at(t, q)) == kind(expected) {
        Ok(())
    } else {
        Err(ParseError::Expected { expected, found: token_at(t, q) })
    }
}

/// `expression ::= unary (op unary)*`, folded by precedence.
pub open spec fn p_expression(t: Seq<Token>, tab: Map<char, i8>, p: int) -> Parsed<Ast>
    decreases left(t, p), 3nat,
{
    match p_unary(t, tab, p) {
        Err(e) => Err(e),
        Ok((lhs, n)) => match p_binop_rhs(t, tab, 0, lhs, p + n) {
            Err(e) => Err(e),
            Ok((r, m)) => Ok((r, n + m)),
        },
    }
}

/// Precedence climbing: folds operators that bind at least as tightly as
/// `min` onto `lhs`, left to right; an operand followed by a tighter operator
/// first absorbs it.
pub open spec fn p_binop_rhs(t: Seq<Token>, tab: Map<char, i8>, min: nat, lhs: Ast, p: int) -> Parsed<Ast>
    decreases left(t, p), 1nat,
{
    let op = token_at(t, p);
    let tp = precedence(tab, op);
    if tp < min {
        Ok((lhs, 0))
    } else {
        match p_unary(t, tab, p + 1) {
            Err(e) => Err(e),
            Ok((rhs, n1)) => {
                let q = p + 1 + n1;
                let inner = if tp < precedence(tab, token_at(t, q)) {
                    p_binop_rhs(t, tab, (tp + 1) as nat, rhs, q)
                } else {
                    Ok((rhs, 0))
                };
                match inner {
                    Err(e) => Err(e),
                    Ok((rhs2, n2)) => match p_binop_rhs(
                        t,
                        tab,
                        min,
                        Ast::BinOp(Box::new(lhs), op, Box::new(rhs2)),
                        q + n2,
                    ) {
                        Err(e) => Err(e),
                        Ok((r, n3)) => Ok((r, 1 + n1 + n2 + n3)),
                    },
                }
            },
        }
    }
}

/// `unary ::= op unary | primary`
pub open spec fn p_unary(t: Seq<Token>, tab: Map<char, i8>, p: int) -> Parsed<Ast>
    decreases left(t, p), 2nat,
{
    match op_char(token_at(t, p)) {
        Some(c) => match p_unary(t, tab, p + 1) {
            Err(e) => Err(e),
            Ok((e, n)) => Ok((Ast::Unary(c, Box::new(e)), n + 1)),
        },
        None => p_primary(t, tab, p),
    }
}

/// The arguments of a call after its `(`, up to its `)`.
pub open spec fn p_args(t: Seq<Token>, tab: Map<char, i8>, p: int) -> Parsed<Seq<Ast>>
    decreases left(t, p), 4nat,
{
    if token_at(t, p) is RParen {
        Ok((Seq::empty(), 0))
    } else {
        match p_expression(t, tab, p) {
            Err(e) => Err(e),
            Ok((a, n)) => match p_args_rest(t, tab, p + n) {
                Err(e) => Err(e),
                Ok((rest, m)) => Ok((seq![a] + rest, n + m)),
            },
        }
    }
}

/// `(, expression)*`, where a comma right before `)` is allowed.
pub open spec fn p_args_rest(t: Seq<Token>, tab: Map<char, i8>, p: int) -> Parsed<Seq<Ast>>
    decreases left(t, p), 0nat,
{
    if token_at(t, p) is Comma {
        if token_at(t, p + 1) is RParen {
            Ok((Seq::empty(), 1))
        } else {
            match p_expression(t, tab, p + 1) {
                Err(e) => Err(e),
                Ok((a, n)) => match p_args_rest(t, tab, p + 1 + n) {
                    Err(e) => Err(e),
                    Ok((rest, m)) => Ok((seq![a] + rest, 1 + n + m)),
                },
            }
        }
    } else {
        Ok((Seq::empty(), 0))
    }
}

/// `name [= expression] (, name [= expression])*` of a `var` block.
pub open spec fn p_var_items(t: Seq<Token>, tab: Map<char, i8>, p: int) -> Parsed<
    Seq<(Seq<char>, Option<Ast>)>,
>
    decreases left(t, p), 0nat,
{
    match token_at(t, p) {
        Token::Identifier(name) => {
            let init = if token_at(t, p + 1) is Assign {
                match p_expression(t, tab, p + 2) {
                    Err(e) => Err(e),
                    Ok((e, n)) => Ok((Some(e), n + 2)),
                }
            } else {
                Ok((None, 1))
            };
            match init {
                Err(e) => Err(e),
                Ok((i, n)) => {
                    let item = (name@, i);
                    if token_at(t, p + n) == Token::Comma(',') {
                        match p_var_items(t, tab, p + n + 1) {
                            Err(e) => Err(e),
                            Ok((rest, m)) => Ok((seq![item] + rest, n + 1 + m)),
                        }
                    } else {
                        Ok((seq![item], n))
                    }
                },
            }
        },
        _ => Ok((Seq::empty(), 0)),
    }
}

/// A parse step's result with `k` more tokens read before it.
pub open spec fn plus<T>(r: Parsed<T>, k: nat) -> Parsed<T> {
    match r {
        Ok((a, n)) => Ok((a, n + k)),
        Err(e) => Err(e),
    }
}

/// `primary ::= ( expression ) | var ... in expression | number | name
/// | name ( args ) | if ... then ... else ... | for name = start, end [, step] in body`
pub open spec fn p_primary(t: Seq<Token>, tab: Map<char, i8>, p: int) -> Parsed<Ast>
    decreases left(t, p), 1nat,
{
    match token_at(t, p) {
        Token::LParen(_) => plus(p_paren(t, tab, p + 1), 1),
        Token::Var => plus(p_var_block(t, tab, p + 1), 1),
        Token::Number(v) => Ok((Ast::Number(v@), 1)),
        Token::Identifier(name) => if token_at(t, p + 1) is LParen {
            plus(p_call(t, tab, p + 2, name@), 2)
        } else {
            Ok((Ast::Variable(name@), 1))
        },
        Token::If => plus(p_if(t, tab, p + 1), 1),
        Token::For => match p_primary(t, tab, p + 1) {
            Err(e) => Err(e),
            Ok((v, n)) => match v {
                Ast::Variable(name) => plus(p_for_rest(t, tab, p + 1 + n, name), n + 1),
                _ => Err(ParseError::LoopVariableExpected),
            },
        },
        _ => Err(ParseError::UnexpectedToken(token_at(t, p))),
    }
}

/// `expression )` after a `(`.
pub open spec fn p_paren(t: Seq<Token>, tab: Map<char, i8>, p: int) -> Parsed<Ast>
    decreases left(t, p), 5nat,
{
    match p_expression(t, tab, p) {
        Err(e) => Err(e),
        Ok((e, n)) => match expect(t, p + n, Token::RParen(')')) {
            Err(err) => Err(err),
            Ok(_) => Ok((e, n + 1)),
        },
    }
}

/// `items in body` after a `var`.
pub open spec fn p_var_block(t: Seq<Token>, tab: Map<char, i8>, p: int) -> Parsed<Ast>
    decreases left(t, p), 5nat,
{
    match p_var_items(t, tab, p) {
        Err(e) => Err(e),
        Ok((items, n)) => match expect(t, p + n, Token::In) {
            Err(err) => Err(err),
            Ok(_) => match p_expression(t, tab, p + n + 1) {
                Err(e) => Err(e),
                Ok((body, m)) => Ok((Ast::Var(items, Box::new(body)), n + m + 1)),
            },
        },
    }
}

/// `args )` of a call of `name`, after its `(`.
pub open spec fn p_call(t: Seq<Token>, tab: Map<char, i8>, p: int, name: Seq<char>) -> Parsed<Ast>
    decreases left(t, p), 5nat,
{
    match p_args(t, tab, p) {
        Err(e) => Err(e),
        Ok((args, n)) => match expect(t, p + n, Token::RParen(')')) {
            Err(err) => Err(err),
            Ok(_) => Ok((Ast::Call(name, args), n + 1)),
        },
    }
}

/// `cond then a else b` after an `if`.
pub open spec fn p_if(t: Seq<Token>, tab: Map<char, i8>, p: int) -> Parsed<Ast>
    decreases left(t, p), 5nat,
{
    match p_expression(t, tab, p) {
        Err(e) => Err(e),
        Ok((c, n)) => match expect(t, p + n, Token::Then) {
            Err(err) => Err(err),
            Ok(_) => plus(p_if_tail(t, tab, p + n + 1, c), n + 1),
        },
    }
}

/// `a else b` of an `if` with condition `c`, after its `then`.
pub open spec fn p_if_tail(t: Seq<Token>, tab: Map<char, i8>, p: int, c: Ast) -> Parsed<Ast>
    decreases left(t, p), 5nat,
{
    match p_expression(t, tab, p) {
        Err(e) => Err(e),
        Ok((th, n)) => match expect(t, p + n, Token::Else) {
            Err(err) => Err(err),
            Ok(_) => match p_expression(t, tab, p + n + 1) {
                Err(e) => Err(e),
                Ok((el, m)) => Ok((Ast::If(Box::new(c), Box::new(th), Box::new(el)), n + m + 1)),
            },
        },
    }
}

/// The optional `, step` of a `for` loop.
pub open spec fn p_step(t: Seq<Token>, tab: Map<char, i8>, p: int) -> Parsed<Option<Ast>>
    decreases left(t, p), 4nat,
{
    if token_at(t, p) is Comma {
        match p_expression(t, tab, p + 1) {
            Err(e) => Err(e),
            Ok((s, n)) => Ok((Some(s), n + 1)),
        }
    } else {
        Ok((None, 0))
    }
}

pub open spec fn boxed(o: Option<Ast>) -> Option<Box<Ast>> {
    match o {
        Some(x) => Some(Box::new(x)),
        None => None,
    }
}

/// `= start, end [, step] in body` of a `for` loop over `name`.
pub open spec fn p_for_rest(t: Seq<Token>, tab: Map<char, i8>, p: int, name: Seq<char>) -> Parsed<Ast>
    decreases left(t, p), 5nat,
{
    match expect(t, p, Token::Assign('=')) {
        Err(err) => Err(err),
        Ok(_) => match p_expression(t, tab, p + 1) {
            Err(e) => Err(e),
            Ok((start, n)) => match expect(t, p + 1 + n, Token::Comma(',')) {
                Err(err) => Err(err),
                Ok(_) => plus(p_for_tail(t, tab, p + 2 + n, name, start), n + 2),
            },
        },
    }
}

/// `end [, step] in body` of a `for` loop over `name` from `start`.
pub open spec fn p_for_tail(
    t: Seq<Token>,
    tab: Map<char, i8>,
    p: int,
    name: Seq<char>,
    start: Ast,
) -> Parsed<Ast>
    decreases left(t, p), 5nat,
{
    match p_expression(t, tab, p) {
        Err(e) => Err(e),
        Ok((end, n1)) => match p_step(t, tab, p + n1) {
            Err(e) => Err(e),
            Ok((st, n2)) => match expect(t, p + n1 + n2, Token::In) {
                Err(err) => Err(err),
                Ok(_) => match p_expression(t, tab, p + n1 + n2 + 1) {
                    Err(e) => Err(e),
                    Ok((body, n3)) => Ok(
                        (
                            Ast::For(name, Box::new(start), Box::new(end), boxed(st), Box::new(body)),
                            n1 + n2 + n3 + 1,
                        ),
                    ),
                },
            },
        },
    }
}

/// The parameter names of a prototype after its `(`, through its `)`.
pub open spec fn p_proto_args(t: Seq<Token>, p: int) -> Parsed<Seq<Seq<char>>>
    decreases left(t, p),
{
    match token_at(t, p) {
        Token::Identifier(s) => match p_proto_args(t, p + 1) {
            Err(e) => Err(e),
            Ok((rest, n)) => Ok((seq![s@] + rest, n + 1)),
        },
        Token::RParen(_) => Ok((Seq::empty(), 1)),
        other => Err(ParseError::PrototypeArgument(other)),
    }
}

/// The decimal value of a string of digits.
pub open spec fn decimal_value(s: Seq<char>) -> nat
    decreases s.len(),
{
    if s.len() == 0 {
        0
    } else {
        decimal_value(s.drop_last()) * 10 + (s.last() as nat - '0' as nat) as nat
    }
}

/// How many digits `s` starts with, from position `i` on.
pub open spec fn digits_from(s: Seq<char>, i: int) -> nat
    decreases s.len() - i,
{
    if 0 <= i < s.len() && is_digit(s[i]) {
        1 + digits_from(s, i + 1)
    } else {
        0
    }
}

/// The precedence that a `binary` prototype declares: the whole part of its
/// literal, at most 127; 30 without a literal.
pub open spec fn declared_precedence(lit: Option<Seq<char>>) -> i8 {
    match lit {
        Some(s) => {
            let v = decimal_value(s.take(digits_from(s, 0) as int));
            if v > 127 {
                127
            } else {
                v as i8
            }
        },
        None => 30,
    }
}

/// `binary<c>`, `unary<c>` or the name itself.
pub open spec fn proto_name(head: Token) -> Seq<char> {
    match head {
        Token::Binary(c) => "binary"@.push(c),
        Token::Unary(c) => "unary"@.push(c),
        Token::Identifier(s) => s@,
        _ => Seq::empty(),
    }
}

#[verifier::opaque]
/// A prototype: `name(args)`, `binary<c> [precedence] (a b)` or `unary<c>(a)`.
/// A binary operator's precedence enters the table at once.
pub open spec fn p_proto(t: Seq<Token>, tab: Map<char, i8>, p: int) -> Result<
    (FunctionShape, Map<char, i8>, nat),
    ParseError,
> {
    let head = token_at(t, p);
    if head is Binary || head is Unary || head is Identifier {
        let lit = if head is Identifier {
            None
        } else {
            match token_at(t, p + 1) {
                Token::Number(n) => Some(n@),
                _ => None,
            }
        };
        let k: nat = if lit is Some {
            2
        } else {
            1
        };
        match expect(t, p + k, Token::LParen('(')) {
            Err(err) => Err(err),
            Ok(_) => match p_proto_args(t, p + k + 1) {
                Err(e) => Err(e),
                Ok((args, n)) => {
                    let shape = FunctionShape {
                        name: proto_name(head),
                        args,
                        body: Ast::NoBody,
                        is_operator: !(head is Identifier),
                        precedence: lit,
                    };
                    match head {
                        Token::Binary(c) => if args.len() != 2 {
                            Err(ParseError::OperatorArity { expected: 2, found: args.len() as usize })
                        } else {
                            Ok((shape, tab.insert(c, declared_precedence(lit)), k + 1 + n))
                        },
                        Token::Unary(_) => if args.len() != 1 {
                            Err(ParseError::OperatorArity { expected: 1, found: args.len() as usize })
                        } else {
                            Ok((shape, tab, k + 1 + n))
                        },
                        _ => Ok((shape, tab, k + 1 + n)),
                    }
                },
            },
        }
    } else {
        Err(ParseError::PrototypeName(head))
    }
}

/// The name under which a top-level expression becomes a function.
pub open spec fn top_level_name() -> Seq<char> {
    "_top_level_expr"@
}

#[verifier::opaque]
/// One unit: `def proto body`, `extern proto`, or a top-level expression.
pub open spec fn p_unit(t: Seq<Token>, tab: Map<char, i8>, p: int) -> Result<
    (FunctionShape, Map<char, i8>, nat),
    ParseError,
> {
    match token_at(t, p) {
        Token::Def => match p_proto(t, tab, p + 1) {
            Err(e) => Err(e),
            Ok((f, tab2, n)) => match p_expression(t, tab2, p + 1 + n) {
                Err(e) => Err(e),
                Ok((body, m)) => Ok((FunctionShape { body, ..f }, tab2, 1 + n + m)),
            },
        },
        Token::Extern => match p_proto(t, tab, p + 1) {
            Err(e) => Err(e),
            Ok((f, tab2, n)) => Ok((f, tab2, 1 + n)),
        },
        _ => match p_expression(t, tab, p) {
            Err(e) => Err(e),
            Ok((body, n)) => Ok(
                (
                    FunctionShape {
                        name: top_level_name(),
                        args: Seq::empty(),
                        body,
                        is_operator: false,
                        precedence: None,
                    },
                    tab,
                    n,
                ),
            ),
        },
    }
}

/// A parsed expression reads at least one token.
pub proof fn lemma_expression_reads(t: Seq<Token>, tab: Map<char, i8>, p: int)
    ensures
        p_expression(t, tab, p) is Ok ==> p_expression(t, tab, p)->Ok_0.1 >= 1,
{
    if p_expression(t, tab, p) is Ok {
        let u = p_unary(t, tab, p);
        assert(u is Ok);
    }
}

/// A parsed unit reads at least one token.
pub proof fn lemma_unit_reads(t: Seq<Token>, tab: Map<char, i8>, p: int)
    ensures
        p_unit(t, tab, p) is Ok ==> p_unit(t, tab, p)->Ok_0.2 >= 1,
{
    reveal(p_unit);
    lemma_expression_reads(t, tab, p);
}

/// All units up to `Eof`, with the table as the last unit left it.
pub open spec fn p_units(t: Seq<Token>, tab: Map<char, i8>, p: int) -> Result<
    (Seq<FunctionShape>, Map<char, i8>),
    ParseError,
>
    decreases left(t, p),
{
    if token_at(t, p) is Eof {
        Ok((Seq::empty(), tab))
    } else {
        match p_unit(t, tab, p) {
            Err(e) => Err(e),
            Ok((f, tab2, n)) => {
                proof {
                    lemma_unit_reads(t, tab, p);
                }
                match p_units(t, tab2, p + n) {
                    Err(e) => Err(e),
                    Ok((fs, tab3)) => Ok((seq![f] + fs, tab3)),
                }
            },
        }
    }
}

/// Whether an expression parser's result and end position agree with the
/// parse step `spec` begun at `from`.
pub open spec fn parsed_as(r: Result<Expr, ParseError>, spec: Parsed<Ast>, from: int, to: int) -> bool {
    match spec {
        Ok((a, n)) => r is Ok && view_expr(r->Ok_0) == a && to == from + n,
        Err(e) => r == Err::<Expr, ParseError>(e),
    }
}

/// The parser: the functions parsed so far, and the live precedence table,
/// which `binary` prototypes extend for everything parsed after them.
pub struct ParserContext {
    pub functions: Vec<Function>,
    pub binop_precedence: PrecedenceTable,
}

pub open spec fn shapes(fs: Seq<Function>) -> Seq<FunctionShape> {
    fs.map_values(|f: Function| f@)
}

impl ParserContext {
    pub fn new() -> (r: Self)
        ensures
            r.functions@.len() == 0,
            r.binop_precedence@ == builtin_precedence(),
    {
        ParserContext { functions: Vec::new(), binop_precedence: PrecedenceTable::new() }
    }

    fn get_precedence(&self, tok: &Token) -> (r: i8)
        ensures
            r as int == precedence(self.binop_precedence@, *tok),
    {
        match operator_char(tok) {
            Some(c) => match self.binop_precedence.get(c) {
                Some(p) => p,
                None => -1,
            },
            None => -1,
        }
    }

    fn parse_binop_rhs(&self, expr_prec: i8, lhs: Box<Expr>, lexer: &mut LexerContext) -> (r: Result<
        Box<Expr>,
        ParseError,
    >)
        requires
            expr_prec >= 0,
        ensures
            final(lexer).tokens@ == old(lexer).tokens@,
            match p_binop_rhs(
                old(lexer).tokens@,
                self.binop_precedence@,
                expr_prec as nat,
                view_expr(*lhs),
                old(lexer).position as int,
            ) {
                Ok((a, n)) => r is Ok && view_expr(*r->Ok_0) == a && final(lexer).position
                    == old(lexer).position + n,
                Err(e) => r == Err::<Box<Expr>, ParseError>(e),
            },
        decreases left(old(lexer).tokens@, old(lexer).position as int), 1nat,
    {
        let peeked = lexer.peek_token();
        let tok_prec = self.get_precedence(&peeked);
        if tok_prec < expr_prec {
            return Ok(lhs);
        }
        let op = lexer.next_token();
        let rhs = match self.parse_unary(lexer) {
            Ok(e) => e,
            Err(e) => return Err(e),
        };
        let next_prec = self.get_precedence(&lexer.peek_token());
        let rhs = if tok_prec < next_prec {
            match self.parse_binop_rhs(tok_prec + 1, Box::new(rhs), lexer) {
                Ok(e) => e,
                Err(e) => return Err(e),
            }
        } else {
            Box::new(rhs)
        };
        let merged = Box::new(Expr::BinOp { left: lhs, op, right: rhs });
        self.parse_binop_rhs(expr_prec, merged, lexer)
    }

    fn parse_unary(&self, lexer: &mut LexerContext) -> (r: Result<Expr, ParseError>)
        ensures
            final(lexer).tokens@ == old(lexer).tokens@,
            parsed_as(
                r,
                p_unary(old(lexer).tokens@, self.binop_precedence@, old(lexer).position as int),
                old(lexer).position as int,
                final(lexer).position as int,
            ),
        decreases left(old(lexer).tokens@, old(lexer).position as int), 2nat,
    {
        match operator_char(&lexer.peek_token()) {
            Some(c) => {
                lexer.next_token();
                match self.parse_unary(lexer) {
                    Ok(e) => Ok(Expr::Unary { op: c, left: Box::new(e) }),
                    Err(e) => Err(e),
                }
            },
            None => self.parse_primary(lexer),
        }
    }

    fn parse_expression(&self, lexer: &mut LexerContext) -> (r: Result<Expr, ParseError>)
        ensures
            final(lexer).tokens@ == old(lexer).tokens@,
            parsed_as(
                r,
                p_expression(old(lexer).tokens@, self.binop_precedence@, old(lexer).position as int),
                old(lexer).position as int,
                final(lexer).position as int,
            ),
        decreases left(old(lexer).tokens@, old(lexer).position as int), 3nat,
    {
        let expr = match self.parse_unary(lexer) {
            Ok(e) => e,
            Err(e) => return Err(e),
        };
        match self.parse_binop_rhs(0, Box::new(expr), lexer) {
            Ok(b) => Ok(*b),
            Err(e) => Err(e),
        }
    }

    fn parse_primary(&self, lexer: &mut LexerContext) -> (r: Result<Expr, ParseError>)
        ensures
            final(lexer).tokens@ == old(lexer).tokens@,
            parsed_as(
                r,
                p_primary(old(lexer).tokens@, self.binop_precedence@, old(lexer).position as int),
                old(lexer).position as int,
                final(lexer).position as int,
            ),
        decreases left(old(lexer).tokens@, old(lexer).position as int), 1nat,
    {
        let token = lexer.peek_token();
        match token {
            Token::LParen(_) => {
                lexer.next_token();
                self.parse_paren(lexer)
            },
            Token::Var => {
                lexer.next_token();
                self.parse_var_block(lexer)
            },
            Token::Number(v) => {
                lexer.next_token();
                Ok(Expr::Number(v))
            },
            Token::Identifier(name) => {
                lexer.next_token();
                if matches!(lexer.peek_token(), Token::LParen(_)) {
                    lexer.next_token();
                    self.parse_call(lexer, name)
                } else {
                    Ok(Expr::Variable(name))
                }
            },
            Token::If => {
                lexer.next_token();
                self.parse_if(lexer)
            },
            Token::For => {
                lexer.next_token();
                let ident = match self.parse_primary(lexer) {
                    Ok(Expr::Variable(s)) => s,
                    Ok(_) => return Err(ParseError::LoopVariableExpected),
                    Err(e) => return Err(e),
                };
                self.parse_for_rest(lexer, ident)
            },
            _ => Err(ParseError::UnexpectedToken(token)),
        }
    }

    fn parse_paren(&self, lexer: &mut LexerContext) -> (r: Result<Expr, ParseError>)
        ensures
            final(lexer).tokens@ == old(lexer).tokens@,
            parsed_as(
                r,
                p_paren(old(lexer).tokens@, self.binop_precedence@, old(lexer).position as int),
                old(lexer).position as int,
                final(lexer).position as int,
            ),
        decreases left(old(lexer).tokens@, old(lexer).position as int), 5nat,
    {
        let expr = match self.parse_expression(lexer) {
            Ok(e) => e,
            Err(e) => return Err(e),
        };
        match lexer.consume_assert_next_token(Token::RParen(')')) {
            Ok(_) => {},
            Err(e) => return Err(e),
        }
        Ok(expr)
    }

    fn parse_var_block(&self, lexer: &mut LexerContext) -> (r: Result<Expr, ParseError>)
        ensures
            final(lexer).tokens@ == old(lexer).tokens@,
            parsed_as(
                r,
                p_var_block(old(lexer).tokens@, self.binop_precedence@, old(lexer).position as int),
                old(lexer).position as int,
                final(lexer).position as int,
            ),
        decreases left(old(lexer).tokens@, old(lexer).position as int), 5nat,
    {
        let mut items: Vec<(String, Option<Expr>)> = Vec::new();
        match self.parse_var_items(lexer, &mut items) {
            Ok(()) => {},
            Err(e) => return Err(e),
        }
        assert(Seq::<(Seq<char>, Option<Ast>)>::empty() + view_bindings(items, items.len() as nat)
            =~= view_bindings(items, items.len() as nat));
        match lexer.consume_assert_next_token(Token::In) {
            Ok(_) => {},
            Err(e) => return Err(e),
        }
        let body = match self.parse_expression(lexer) {
            Ok(e) => e,
            Err(e) => return Err(e),
        };
        Ok(Expr::Var { varnames: items, body: Box::new(body) })
    }

    fn parse_call(&self, lexer: &mut LexerContext, name: String) -> (r: Result<Expr, ParseError>)
        ensures
            final(lexer).tokens@ == old(lexer).tokens@,
            parsed_as(
                r,
                p_call(old(lexer).tokens@, self.binop_precedence@, old(lexer).position as int, name@),
                old(lexer).position as int,
                final(lexer).position as int,
            ),
        decreases left(old(lexer).tokens@, old(lexer).position as int), 5nat,
    {
        let args = match self.parse_call_args(lexer) {
            Ok(a) => a,
            Err(e) => return Err(e),
        };
        match lexer.consume_assert_next_token(Token::RParen(')')) {
            Ok(_) => {},
            Err(e) => return Err(e),
        }
        Ok(Expr::Call { identifier: name, args })
    }

    fn parse_if(&self, lexer: &mut LexerContext) -> (r: Result<Expr, ParseError>)
        ensures
            final(lexer).tokens@ == old(lexer).tokens@,
            parsed_as(
                r,
                p_if(old(lexer).tokens@, self.binop_precedence@, old(lexer).position as int),
                old(lexer).position as int,
                final(lexer).position as int,
            ),
        decreases left(old(lexer).tokens@, old(lexer).position as int), 5nat,
    {
        let condition = match self.parse_expression(lexer) {
            Ok(e) => e,
            Err(e) => return Err(e),
        };
        match lexer.consume_assert_next_token(Token::Then) {
            Ok(_) => {},
            Err(e) => return Err(e),
        }
        self.parse_if_tail(lexer, condition)
    }

    fn parse_if_tail(&self, lexer: &mut LexerContext, condition: Expr) -> (r: Result<Expr, ParseError>)
        ensures
            final(lexer).tokens@ == old(lexer).tokens@,
            parsed_as(
                r,
                p_if_tail(old(lexer).tokens@, self.binop_precedence@, old(lexer).position as int, view_expr(condition)),
                old(lexer).position as int,
                final(lexer).position as int,
            ),
        decreases left(old(lexer).tokens@, old(lexer).position as int), 5nat,
    {
        let then_branch = match self.parse_expression(lexer) {
            Ok(e) => e,
            Err(e) => return Err(e),
        };
        match lexer.consume_assert_next_token(Token::Else) {
            Ok(_) => {},
            Err(e) => return Err(e),
        }
        let else_branch = match self.parse_expression(lexer) {
            Ok(e) => e,
            Err(e) => return Err(e),
        };
        Ok(
            Expr::If {
                condition: Box::new(condition),
                then_branch: Box::new(then_branch),
                else_branch: Box::new(else_branch),
            },
        )
    }

    #[verifier::rlimit(60)]
    fn parse_for_rest(&self, lexer: &mut LexerContext, ident: String) -> (r: Result<Expr, ParseError>)
        ensures
            final(lexer).tokens@ == old(lexer).tokens@,
            parsed_as(
                r,
                p_for_rest(old(lexer).tokens@, self.binop_precedence@, old(lexer).position as int, ident@),
                old(lexer).position as int,
                final(lexer).position as int,
            ),
        decreases left(old(lexer).tokens@, old(lexer).position as int), 5nat,
    {
        match lexer.consume_assert_next_token(Token::Assign('=')) {
            Ok(_) => {},
            Err(e) => return Err(e),
        }
        let start = match self.parse_expression(lexer) {
            Ok(e) => e,
            Err(e) => return Err(e),
        };
        match lexer.consume_assert_next_token(Token::Comma(',')) {
            Ok(_) => {},
            Err(e) => return Err(e),
        }
        self.parse_for_tail(lexer, ident, start)
    }

    fn parse_for_tail(&self, lexer: &mut LexerContext, ident: String, start: Expr) -> (r: Result<Expr, ParseError>)
        ensures
            final(lexer).tokens@ == old(lexer).tokens@,
            parsed_as(
                r,
                p_for_tail(old(lexer).tokens@, self.binop_precedence@, old(lexer).position as int, ident@, view_expr(start)),
                old(lexer).position as int,
                final(lexer).position as int,
            ),
        decreases left(old(lexer).tokens@, old(lexer).position as int), 5nat,
    {
        let end = match self.parse_expression(lexer) {
            Ok(e) => e,
            Err(e) => return Err(e),
        };
        let step = match self.parse_step(lexer) {
            Ok(Some(s)) => {
                let ghost a = view_expr(s);
                let b = Some(Box::new(s));
                assert(view_step(b) == boxed(Some(a)));
                b
            },
            Ok(None) => None,
            Err(e) => return Err(e),
        };
        match lexer.consume_assert_next_token(Token::In) {
            Ok(_) => {},
            Err(e) => return Err(e),
        }
        let body = match self.parse_expression(lexer) {
            Ok(e) => e,
            Err(e) => return Err(e),
        };
        Ok(
            Expr::For {
                ident,
                start: Box::new(start),
                end: Box::new(end),
                step,
                body: Box::new(body),
            },
        )
    }

    fn parse_step(&self, lexer: &mut LexerContext) -> (r: Result<Option<Expr>, ParseError>)
        ensures
            final(lexer).tokens@ == old(lexer).tokens@,
            match p_step(old(lexer).tokens@, self.binop_precedence@, old(lexer).position as int) {
                Ok((a, n)) => r is Ok && final(lexer).position == old(lexer).position + n && view_init(
                    r->Ok_0,
                ) == a,
                Err(e) => r == Err::<Option<Expr>, ParseError>(e),
            },
        decreases left(old(lexer).tokens@, old(lexer).position as int), 4nat,
    {
        if matches!(lexer.peek_token(), Token::Comma(_)) {
            lexer.next_token();
            match self.parse_expression(lexer) {
                Ok(e) => Ok(Some(e)),
                Err(e) => Err(e),
            }
        } else {
            Ok(None)
        }
    }

    fn parse_call_args_rest(&self, lexer: &mut LexerContext, args: &mut Vec<Expr>) -> (r: Result<
        (),
        ParseError,
    >)
        ensures
            final(lexer).tokens@ == old(lexer).tokens@,
            match p_args_rest(old(lexer).tokens@, self.binop_precedence@, old(lexer).position as int) {
                Ok((a, n)) => r is Ok && view_exprs(*final(args), final(args).len() as nat) == view_exprs(
                    *old(args),
                    old(args).len() as nat,
                ) + a && final(lexer).position == old(lexer).position + n,
                Err(e) => r == Err::<(), ParseError>(e),
            },
        decreases left(old(lexer).tokens@, old(lexer).position as int), 0nat,
    {
        if !matches!(lexer.peek_token(), Token::Comma(_)) {
            assert(view_exprs(*args, args.len() as nat) + Seq::<Ast>::empty() =~= view_exprs(*args, args.len() as nat));
            return Ok(());
        }
        lexer.next_token();
        if matches!(lexer.peek_token(), Token::RParen(_)) {
            assert(view_exprs(*args, args.len() as nat) + Seq::<Ast>::empty() =~= view_exprs(*args, args.len() as nat));
            return Ok(());
        }
        let e = match self.parse_expression(lexer) {
            Ok(e) => e,
            Err(e) => return Err(e),
        };
        let ghost before = *args;
        let ghost a = view_expr(e);
        args.push(e);
        proof {
            lemma_view_exprs_prefix(before, *args, before.len() as nat);
        }
        let ghost mid = view_exprs(*args, args.len() as nat);
        assert(mid == view_exprs(before, before.len() as nat).push(a));
        let r = self.parse_call_args_rest(lexer, args);
        proof {
            if r is Ok {
                let rest = view_exprs(*args, args.len() as nat);
                assert(view_exprs(before, before.len() as nat).push(a) =~= view_exprs(before, before.len() as nat) + seq![a]);
                assert(forall|x: Seq<Ast>| (view_exprs(before, before.len() as nat) + seq![a]) + x =~= view_exprs(before, before.len() as nat) + (seq![a] + x));
            }
        }
        r
    }

    fn parse_call_args(&self, lexer: &mut LexerContext) -> (r: Result<Vec<Expr>, ParseError>)
        ensures
            final(lexer).tokens@ == old(lexer).tokens@,
            match p_args(old(lexer).tokens@, self.binop_precedence@, old(lexer).position as int) {
                Ok((a, n)) => r is Ok && view_exprs(r->Ok_0, r->Ok_0.len() as nat) == a
                    && final(lexer).position == old(lexer).position + n,
                Err(e) => r == Err::<Vec<Expr>, ParseError>(e),
            },
        decreases left(old(lexer).tokens@, old(lexer).position as int), 4nat,
    {
        let mut args: Vec<Expr> = Vec::new();
        if matches!(lexer.peek_token(), Token::RParen(_)) {
            return Ok(args);
        }
        let e = match self.parse_expression(lexer) {
            Ok(e) => e,
            Err(e) => return Err(e),
        };
        let ghost a = view_expr(e);
        args.push(e);
        assert(view_exprs(args, 1) == seq![a]) by {
            assert(view_exprs(args, 0) == Seq::<Ast>::empty());
            assert(Seq::<Ast>::empty().push(a) =~= seq![a]);
        }
        match self.parse_call_args_rest(lexer, &mut args) {
            Ok(()) => Ok(args),
            Err(e) => Err(e),
        }
    }

    #[verifier::rlimit(40)]
    fn parse_var_items(
        &self,
        lexer: &mut LexerContext,
        items: &mut Vec<(String, Option<Expr>)>,
    ) -> (r: Result<(), ParseError>)
        ensures
            final(lexer).tokens@ == old(lexer).tokens@,
            match p_var_items(old(lexer).tokens@, self.binop_precedence@, old(lexer).position as int) {
                Ok((a, n)) => r is Ok && view_bindings(*final(items), final(items).len() as nat)
                    == view_bindings(*old(items), old(items).len() as nat) + a
                    && final(lexer).position == old(lexer).position + n,
                Err(e) => r == Err::<(), ParseError>(e),
            },
        decreases left(old(lexer).tokens@, old(lexer).position as int), 0nat,
    {
        let ident = match lexer.peek_token() {
            Token::Identifier(s) => s,
            _ => {
                assert(view_bindings(*items, items.len() as nat) + Seq::<(Seq<char>, Option<Ast>)>::empty()
                    =~= view_bindings(*items, items.len() as nat));
                return Ok(());
            },
        };
        lexer.next_token();
        let init = if matches!(lexer.peek_token(), Token::Assign(_)) {
            lexer.next_token();
            match self.parse_expression(lexer) {
                Ok(e) => Some(e),
                Err(e) => return Err(e),
            }
        } else {
            None
        };
        let ghost item = (ident@, view_init(init));
        let ghost before = *items;
        items.push((ident, init));
        proof {
            lemma_view_bindings_prefix(before, *items, before.len() as nat);
        }
        assert(view_bindings(*items, items.len() as nat) == view_bindings(before, before.len() as nat).push(item));
        assert(view_bindings(before, before.len() as nat).push(item) =~= view_bindings(before, before.len() as nat) + seq![item]);
        if !matches!(lexer.peek_token(), Token::Comma(',')) {
            return Ok(());
        }
        lexer.next_token();
        let r = self.parse_var_items(lexer, items);
        proof {
            assert(forall|x: Seq<(Seq<char>, Option<Ast>)>| (view_bindings(before, before.len() as nat) + seq![item]) + x =~= view_bindings(before, before.len() as nat) + (seq![item] + x));
        }
        r
    }
}

/// Relies on `String::push`: appends one character.
#[verifier::external_body]
pub(crate) fn push_char(s: &mut String, c: char)
    ensures
        final(s)@ == old(s)@.push(c),
{
    s.push(c)
}

/// The precedence that a `binary` prototype declares.
fn precedence_of(lit: &Option<String>) -> (r: i8)
    ensures
        r == declared_precedence(
            match lit {
                Some(s) => Some(s@),
                None => None,
            },
        ),
{
    match lit {
        None => 30,
        Some(s) => {
            let cs = chars_of(s.as_str());
            let n = cs.len();
            let mut i: usize = 0;
            let mut acc: u32 = 0;
            assert(cs@.take(0) =~= Seq::<char>::empty());
            while i < n && '0' <= cs[i] && cs[i] <= '9'
                invariant
                    n == cs@.len(),
                    cs@ == s@,
                    i <= n,
                    acc <= 128,
                    acc == (if decimal_value(cs@.take(i as int)) >= 128 {
                        128
                    } else {
                        decimal_value(cs@.take(i as int))
                    }),
                    digits_from(cs@, 0) == i + digits_from(cs@, i as int),
                decreases n - i,
            {
                let d = (cs[i] as u32) - ('0' as u32);
                assert(cs@.take(i + 1).drop_last() =~= cs@.take(i as int));
                assert(decimal_value(cs@.take(i + 1)) == decimal_value(cs@.take(i as int)) * 10 + d);
                if acc < 128 {
                    acc = acc * 10 + d;
                    if acc > 128 {
                        acc = 128;
                    }
                } else {
                    assert(decimal_value(cs@.take(i as int)) * 10 + d >= 128) by (nonlinear_arith)
                        requires
                            decimal_value(cs@.take(i as int)) >= 128,
                    ;
                }
                i += 1;
            }
            assert(digits_from(cs@, i as int) == 0);
            if acc > 127 {
                127
            } else {
                acc as i8
            }
        },
    }
}

/// A parse of all units with `done` parsed before.
pub open spec fn prepend(
    done: Seq<FunctionShape>,
    r: Result<(Seq<FunctionShape>, Map<char, i8>), ParseError>,
) -> Result<(Seq<FunctionShape>, Map<char, i8>), ParseError> {
    match r {
        Ok((fs, tab)) => Ok((done + fs, tab)),
        Err(e) => Err(e),
    }
}

/// Whether a unit parser's result, table and end position agree with `p_unit`.
pub open spec fn unit_parsed_as(
    r: Result<Function, ParseError>,
    spec: Result<(FunctionShape, Map<char, i8>, nat), ParseError>,
    tab: Map<char, i8>,
    from: int,
    to: int,
) -> bool {
    match spec {
        Ok((f, tab2, n)) => r is Ok && r->Ok_0@ == f && tab == tab2 && to == from + n,
        Err(e) => r == Err::<Function, ParseError>(e),
    }
}

impl ParserContext {
    fn parse_proto_args(lexer: &mut LexerContext, args: &mut Vec<String>) -> (r: Result<(), ParseError>)
        ensures
            final(lexer).tokens@ == old(lexer).tokens@,
            match p_proto_args(old(lexer).tokens@, old(lexer).position as int) {
                Ok((a, n)) => r is Ok && final(args)@.map_values(|x: String| x@) == old(args)@.map_values(
                    |x: String| x@,
                ) + a && final(lexer).position == old(lexer).position + n,
                Err(e) => r == Err::<(), ParseError>(e),
            },
        decreases left(old(lexer).tokens@, old(lexer).position as int),
    {
        match lexer.next_token() {
            Token::Identifier(s) => {
                let ghost before = args@;
                let ghost v = s@;
                args.push(s);
                assert(args@.map_values(|x: String| x@) =~= before.map_values(|x: String| x@) + seq![v]);
                let r = Self::parse_proto_args(lexer, args);
                proof {
                    assert(forall|x: Seq<Seq<char>>| (before.map_values(|x: String| x@) + seq![v]) + x
                        =~= before.map_values(|x: String| x@) + (seq![v] + x));
                }
                r
            },
            Token::RParen(_) => {
                assert(args@.map_values(|x: String| x@) + Seq::<Seq<char>>::empty() =~= args@.map_values(|x: String| x@));
                Ok(())
            },
            tok => Err(ParseError::PrototypeArgument(tok)),
        }
    }

    fn parse_proto(&mut self, lexer: &mut LexerContext) -> (r: Result<Function, ParseError>)
        ensures
            final(lexer).tokens@ == old(lexer).tokens@,
            final(self).functions@ == old(self).functions@,
            unit_parsed_as(
                r,
                p_proto(old(lexer).tokens@, old(self).binop_precedence@, old(lexer).position as int),
                final(self).binop_precedence@,
                old(lexer).position as int,
                final(lexer).position as int,
            ),
    {
        proof {
            reveal(p_proto);
        }
        let head = lexer.next_token();
        let (name, precedence) = match &head {
            Token::Binary(c) | Token::Unary(c) => {
                let precedence = match lexer.peek_token() {
                    Token::Number(n) => {
                        lexer.next_token();
                        Some(n)
                    },
                    _ => None,
                };
                let mut name = if matches!(head, Token::Binary(_)) {
                    "binary".to_owned()
                } else {
                    "unary".to_owned()
                };
                push_char(&mut name, *c);
                (name, precedence)
            },
            Token::Identifier(s) => (s.clone(), None),
            _ => return Err(ParseError::PrototypeName(head)),
        };
        match lexer.consume_assert_next_token(Token::LParen('(')) {
            Ok(_) => {},
            Err(e) => return Err(e),
        }
        let mut args: Vec<String> = Vec::new();
        match Self::parse_proto_args(lexer, &mut args) {
            Ok(()) => {},
            Err(e) => return Err(e),
        }
        assert(Seq::<Seq<char>>::empty() + args@.map_values(|x: String| x@) =~= args@.map_values(|x: String| x@));
        match head {
            Token::Binary(c) => {
                if args.len() != 2 {
                    return Err(ParseError::OperatorArity { expected: 2, found: args.len() });
                }
                let prec = precedence_of(&precedence);
                self.binop_precedence.insert(c, prec);
            },
            Token::Unary(_) => {
                if args.len() != 1 {
                    return Err(ParseError::OperatorArity { expected: 1, found: args.len() });
                }
            },
            _ => {},
        }
        let is_operator = !matches!(head, Token::Identifier(_));
        Ok(Function { name, args, body: Expr::NoBody, is_operator, precedence })
    }
}

impl ParserContext {
    fn parse_function_definition(&mut self, lexer: &mut LexerContext) -> (r: Result<Function, ParseError>)
        requires
            token_at(old(lexer).tokens@, old(lexer).position as int) is Def,
        ensures
            final(lexer).tokens@ == old(lexer).tokens@,
            final(self).functions@ == old(self).functions@,
            unit_parsed_as(
                r,
                p_unit(old(lexer).tokens@, old(self).binop_precedence@, old(lexer).position as int),
                final(self).binop_precedence@,
                old(lexer).position as int,
                final(lexer).position as int,
            ),
    {
        proof {
            reveal(p_unit);
        }
        lexer.next_token();
        let mut f = match self.parse_proto(lexer) {
            Ok(f) => f,
            Err(e) => return Err(e),
        };
        f.body = match self.parse_expression(lexer) {
            Ok(e) => e,
            Err(e) => return Err(e),
        };
        Ok(f)
    }

    fn parse_extern(&mut self, lexer: &mut LexerContext) -> (r: Result<Function, ParseError>)
        requires
            token_at(old(lexer).tokens@, old(lexer).position as int) is Extern,
        ensures
            final(lexer).tokens@ == old(lexer).tokens@,
            final(self).functions@ == old(self).functions@,
            unit_parsed_as(
                r,
                p_unit(old(lexer).tokens@, old(self).binop_precedence@, old(lexer).position as int),
                final(self).binop_precedence@,
                old(lexer).position as int,
                final(lexer).position as int,
            ),
    {
        proof {
            reveal(p_unit);
        }
        lexer.next_token();
        self.parse_proto(lexer)
    }

    fn parse_top_level_expression(&self, lexer: &mut LexerContext) -> (r: Result<Function, ParseError>)
        requires
            !(token_at(old(lexer).tokens@, old(lexer).position as int) is Def),
            !(token_at(old(lexer).tokens@, old(lexer).position as int) is Extern),
        ensures
            final(lexer).tokens@ == old(lexer).tokens@,
            unit_parsed_as(
                r,
                p_unit(old(lexer).tokens@, self.binop_precedence@, old(lexer).position as int),
                self.binop_precedence@,
                old(lexer).position as int,
                final(lexer).position as int,
            ),
    {
        proof {
            reveal(p_unit);
        }
        let body = match self.parse_expression(lexer) {
            Ok(e) => e,
            Err(e) => return Err(e),
        };
        let f = Function {
            name: "_top_level_expr".to_owned(),
            args: Vec::new(),
            body,
            is_operator: false,
            precedence: None,
        };
        assert(f.args@.map_values(|a: String| a@) =~= Seq::<Seq<char>>::empty());
        Ok(f)
    }

    fn parse_unit(&mut self, lexer: &mut LexerContext) -> (r: Result<Function, ParseError>)
        ensures
            final(lexer).tokens@ == old(lexer).tokens@,
            final(self).functions@ == old(self).functions@,
            unit_parsed_as(
                r,
                p_unit(old(lexer).tokens@, old(self).binop_precedence@, old(lexer).position as int),
                final(self).binop_precedence@,
                old(lexer).position as int,
                final(lexer).position as int,
            ),
    {
        match lexer.peek_token() {
            Token::Def => self.parse_function_definition(lexer),
            Token::Extern => self.parse_extern(lexer),
            _ => self.parse_top_level_expression(lexer),
        }
    }

    /// Parses every unit up to `Eof` and appends them to `functions`; the
    /// precedence table is extended by each `binary` prototype on the way.
    fn parse_units(&mut self, lexer: &mut LexerContext) -> (r: Result<(), ParseError>)
        ensures
            final(lexer).tokens@ == old(lexer).tokens@,
            match p_units(old(lexer).tokens@, old(self).binop_precedence@, old(lexer).position as int) {
                Ok((fs, tab)) => r is Ok && shapes(final(self).functions@) == shapes(old(self).functions@)
                    + fs && final(self).binop_precedence@ == tab,
                Err(e) => r == Err::<(), ParseError>(e),
            },
        decreases left(old(lexer).tokens@, old(lexer).position as int),
    {
        let ghost t = lexer.tokens@;
        let ghost pos = lexer.position as int;
        let ghost tab = self.binop_precedence@;
        if matches!(lexer.peek_token(), Token::Eof) {
            assert(shapes(self.functions@) + Seq::<FunctionShape>::empty() =~= shapes(self.functions@));
            return Ok(());
        }
        let f = match self.parse_unit(lexer) {
            Ok(f) => f,
            Err(e) => return Err(e),
        };
        proof {
            lemma_unit_reads(t, tab, pos);
        }
        let ghost s0 = shapes(self.functions@);
        let ghost shape = f@;
        self.functions.push(f);
        assert(shapes(self.functions@) =~= s0 + seq![shape]);
        let r = self.parse_units(lexer);
        proof {
            assert(forall|x: Seq<FunctionShape>| (s0 + seq![shape]) + x =~= s0 + (seq![shape] + x));
        }
        r
    }

    /// Parses every unit up to `Eof` and appends them to `functions`; the
    /// precedence table is extended by each `binary` prototype on the way.
    pub fn parse(&mut self, lexer: &mut LexerContext) -> (r: Result<(), ParseError>)
        ensures
            final(lexer).tokens@ == old(lexer).tokens@,
            match p_units(old(lexer).tokens@, old(self).binop_precedence@, old(lexer).position as int) {
                Ok((fs, tab)) => r is Ok && shapes(final(self).functions@) == shapes(old(self).functions@)
                    + fs && final(self).binop_precedence@ == tab,
                Err(e) => r == Err::<(), ParseError>(e),
            },
    {
        self.parse_units(lexer)
    }
}

/// A `binary` operator declared by a definition or a prototype enters the
/// table at its declared precedence, and every later unit is parsed with
/// that table.
pub proof fn lemma_operator_declaration(t: Seq<Token>, tab: Map<char, i8>, p: int)
    requires
        token_at(t, p) is Def || token_at(t, p) is Extern,
        token_at(t, p + 1) is Binary,
        p_unit(t, tab, p) is Ok,
    ensures
        ({
            let (f, tab2, n) = p_unit(t, tab, p)->Ok_0;
            let c = token_at(t, p + 1)->Binary_0;
            &&& tab2.contains_key(c)
            &&& tab2[c] == declared_precedence(f.precedence)
            &&& f.name == "binary"@.push(c)
            &&& p_units(t, tab, p) == prepend(seq![f], p_units(t, tab2, p + n))
        }),
{
    reveal(p_unit);
    reveal(p_proto);
    lemma_unit_reads(t, tab, p);
    let (f, tab2, n) = p_unit(t, tab, p)->Ok_0;
    match p_units(t, tab2, p + n) {
        Ok((fs, _)) => {},
        Err(_) => {},
    }
}

/// `a o b o' c` with one operand per name, where `o` and `o'` are infix
/// operators of the table.
pub open spec fn three_operands(a: String, o: Token, b: String, o2: Token, c: String) -> Seq<Token> {
    seq![
        Token::Identifier(a),
        o,
        Token::Identifier(b),
        o2,
        Token::Identifier(c),
        Token::Eof,
    ]
}

proof fn lemma_name_operand(t: Seq<Token>, tab: Map<char, i8>, p: int)
    requires
        0 <= p < t.len(),
        t[p] is Identifier,
        !(token_at(t, p + 1) is LParen),
    ensures
        p_unary(t, tab, p) == Ok::<(Ast, nat), ParseError>((Ast::Variable(t[p]->Identifier_0@), 1)),
{
    assert(p_primary(t, tab, p) == Ok::<(Ast, nat), ParseError>((Ast::Variable(t[p]->Identifier_0@), 1)));
}

/// Operators of equal precedence fold to the left: `a o b o' c` parses as
/// `(a o b) o' c`.
pub proof fn lemma_equal_precedence_folds_left(
    tab: Map<char, i8>,
    a: String,
    o: Token,
    b: String,
    o2: Token,
    c: String,
)
    requires
        precedence(tab, o) >= 0,
        precedence(tab, o2) == precedence(tab, o),
    ensures
        p_expression(three_operands(a, o, b, o2, c), tab, 0) == Ok::<(Ast, nat), ParseError>(
            (
                Ast::BinOp(
                    Box::new(Ast::BinOp(Box::new(Ast::Variable(a@)), o, Box::new(Ast::Variable(b@)))),
                    o2,
                    Box::new(Ast::Variable(c@)),
                ),
                5,
            ),
        ),
{
    let t = three_operands(a, o, b, o2, c);
    lemma_name_operand(t, tab, 0);
    lemma_name_operand(t, tab, 2);
    lemma_name_operand(t, tab, 4);
    let va = Ast::Variable(a@);
    let vb = Ast::Variable(b@);
    let vc = Ast::Variable(c@);
    let ab = Ast::BinOp(Box::new(va), o, Box::new(vb));
    let abc = Ast::BinOp(Box::new(ab), o2, Box::new(vc));
    assert(p_binop_rhs(t, tab, 0, abc, 5) == Ok::<(Ast, nat), ParseError>((abc, 0)));
    assert(p_binop_rhs(t, tab, 0, ab, 3) == Ok::<(Ast, nat), ParseError>((abc, 2)));
    assert(p_binop_rhs(t, tab, 0, va, 1) == Ok::<(Ast, nat), ParseError>((abc, 4)));
}

/// A tighter operator binds first: when `o'` binds more tightly than `o`,
/// `a o b o' c` parses as `a o (b o' c)`.
pub proof fn lemma_tighter_operator_binds_first(
    tab: Map<char, i8>,
    a: String,
    o: Token,
    b: String,
    o2: Token,
    c: String,
)
    requires
        precedence(tab, o) >= 0,
        precedence(tab, o2) > precedence(tab, o),
    ensures
        p_expression(three_operands(a, o, b, o2, c), tab, 0) == Ok::<(Ast, nat), ParseError>(
            (
                Ast::BinOp(
                    Box::new(Ast::Variable(a@)),
                    o,
                    Box::new(Ast::BinOp(Box::new(Ast::Variable(b@)), o2, Box::new(Ast::Variable(c@)))),
                ),
                5,
            ),
        ),
{
    let t = three_operands(a, o, b, o2, c);
    lemma_name_operand(t, tab, 0);
    lemma_name_operand(t, tab, 2);
    lemma_name_operand(t, tab, 4);
    let va = Ast::Variable(a@);
    let vb = Ast::Variable(b@);
    let vc = Ast::Variable(c@);
    let bc = Ast::BinOp(Box::new(vb), o2, Box::new(vc));
    let abc = Ast::BinOp(Box::new(va), o, Box::new(bc));
    let tighter = (precedence(tab, o) + 1) as nat;
    assert(p_binop_rhs(t, tab, tighter, bc, 5) == Ok::<(Ast, nat), ParseError>((bc, 0)));
    assert(p_binop_rhs(t, tab, tighter, vb, 3) == Ok::<(Ast, nat), ParseError>((bc, 2)));
    assert(p_binop_rhs(t, tab, 0, abc, 5) == Ok::<(Ast, nat), ParseError>((abc, 0)));
    assert(p_binop_rhs(t, tab, 0, va, 1) == Ok::<(Ast, nat), ParseError>((abc, 4)));
}

} // verus!
