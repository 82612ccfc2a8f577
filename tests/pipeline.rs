use kaleidoscope::ast::Expr;
use kaleidoscope::codegen::{
    Arith, CodegenContext, FnBuilder, Inst, LowerError, Module, Operand, Predicate,
};
use kaleidoscope::externs::FfiRegistry;
use kaleidoscope::lexer::{LexError, LexerContext, Token};
use kaleidoscope::parser::{ParseError, ParserContext};

fn lexed(src: &str) -> LexerContext {
    let mut lx = LexerContext::new();
    lx.lex(src).unwrap();
    lx
}

fn parsed(src: &str) -> ParserContext {
    let mut lx = lexed(src);
    let mut p = ParserContext::new();
    p.parse(&mut lx).unwrap();
    p
}

fn lowered(src: &str) -> Result<CodegenContext, LowerError> {
    let p = parsed(src);
    let mut cg = CodegenContext::new("main");
    cg.codegen(&p)?;
    Ok(cg)
}

fn show(e: &Expr) -> String {
    match e {
        Expr::Number(v) => v.clone(),
        Expr::Variable(n) => n.clone(),
        Expr::BinOp { left, op, right } => {
            let c = match op {
                Token::Plus(c) | Token::Minus(c) | Token::Star(c) | Token::Slash(c)
                | Token::Less(c) | Token::Greater(c) | Token::Assign(c) | Token::Bang(c)
                | Token::Pipe(c) | Token::Ampersand(c) | Token::Caret(c) | Token::Percent(c)
                | Token::Dollar(c) | Token::At(c) | Token::Tilde(c) => *c,
                _ => '?',
            };
            format!("({} {} {})", c, show(left), show(right))
        }
        Expr::Call { identifier, args } => {
            let a: Vec<String> = args.iter().map(show).collect();
            format!("(call {} [{}])", identifier, a.join(" "))
        }
        Expr::If { condition, then_branch, else_branch } => {
            format!("(if {} {} {})", show(condition), show(then_branch), show(else_branch))
        }
        Expr::For { ident, start, end, step, body } => format!(
            "(for {} {} {} {} {})",
            ident,
            show(start),
            show(end),
            step.as_ref().map(|s| show(s)).unwrap_or_else(|| "-".to_string()),
            show(body)
        ),
        Expr::Unary { op, left } => format!("({} {})", op, show(left)),
        Expr::Var { varnames, body } => {
            let b: Vec<String> = varnames
                .iter()
                .map(|(n, i)| match i {
                    Some(e) => format!("{}={}", n, show(e)),
                    None => n.clone(),
                })
                .collect();
            format!("(var [{}] {})", b.join(" "), show(body))
        }
        Expr::NoBody => "none".to_string(),
    }
}

/// Runs the lowered form: returns the entry's value and what the native
/// functions printed.
struct Machine<'a> {
    module: &'a Module,
    printed: Vec<f64>,
}

impl<'a> Machine<'a> {
    fn call(&mut self, f: usize, args: &[f64]) -> Result<f64, String> {
        let func = &self.module.functions[f];
        match &func.body {
            Some(b) => self.run(b, args),
            None => match func.name.as_str() {
                "printd" => {
                    self.printed.push(args[0]);
                    Ok(0.0)
                }
                "putchard" => Ok(0.0),
                other => Err(format!("unknown function {}", other)),
            },
        }
    }

    fn run(&mut self, b: &FnBuilder, args: &[f64]) -> Result<f64, String> {
        let mut by_block: Vec<Vec<usize>> = vec![Vec::new(); b.blocks.len()];
        for (i, (blk, _)) in b.code.iter().enumerate() {
            by_block[*blk].push(i);
        }
        let mut vals = vec![0.0f64; b.code.len()];
        let mut cells = vec![0.0f64; b.cells.len()];
        let mut cur = 0usize;
        let mut prev = usize::MAX;
        let mut steps = 0usize;
        loop {
            let mut next = None;
            let mut pending: Vec<f64> = Vec::new();
            for &i in &by_block[cur] {
                steps += 1;
                if steps > 1_000_000 {
                    return Err("too many steps".to_string());
                }
                let ev = |o: &Operand, vals: &Vec<f64>| -> f64 {
                    match o {
                        Operand::Const(k) => b.consts[*k].parse::<f64>().unwrap(),
                        Operand::Zero => 0.0,
                        Operand::One => 1.0,
                        Operand::Param(k) => args[*k],
                        Operand::Value(k) => vals[*k],
                    }
                };
                match &b.code[i].1 {
                    Inst::Store { cell, value } => cells[*cell] = ev(value, &vals),
                    Inst::Load { cell } => vals[i] = cells[*cell],
                    Inst::Arith { op, lhs, rhs } => {
                        let (l, r) = (ev(lhs, &vals), ev(rhs, &vals));
                        vals[i] = match op {
                            Arith::Add => l + r,
                            Arith::Sub => l - r,
                            Arith::Mul => l * r,
                            Arith::Div => l / r,
                        };
                    }
                    Inst::Compare { pred, lhs, rhs } => {
                        let (l, r) = (ev(lhs, &vals), ev(rhs, &vals));
                        let t = match pred {
                            Predicate::UnorderedLess => !(l >= r),
                            Predicate::UnorderedGreater => !(l <= r),
                            Predicate::UnorderedNotEqual => l != r,
                        };
                        vals[i] = if t { 1.0 } else { 0.0 };
                    }
                    Inst::BoolToDouble { value } => vals[i] = ev(value, &vals),
                    Inst::Arg { value } => pending.push(ev(value, &vals)),
                    Inst::Call { callee, argc } => {
                        assert_eq!(pending.len(), *argc);
                        let a = std::mem::take(&mut pending);
                        vals[i] = self.call(*callee, &a)?;
                    }
                    Inst::Br { target } => next = Some(*target),
                    Inst::CondBr { cond, then_block, else_block } => {
                        next = Some(if ev(cond, &vals) != 0.0 { *then_block } else { *else_block })
                    }
                    Inst::Phi { then_value, then_block, else_value, else_block } => {
                        vals[i] = if prev == *then_block {
                            ev(then_value, &vals)
                        } else {
                            assert_eq!(prev, *else_block);
                            ev(else_value, &vals)
                        };
                    }
                    Inst::Ret { value } => return Ok(ev(value, &vals)),
                }
            }
            match next {
                Some(n) => {
                    prev = cur;
                    cur = n;
                }
                None => return Err("block without terminator".to_string()),
            }
        }
    }
}

fn evaluate(src: &str) -> (f64, Vec<f64>) {
    let cg = lowered(src).unwrap();
    let mut m = Machine { module: &cg.module, printed: Vec::new() };
    let v = m.call(0, &[]).unwrap();
    (v, m.printed)
}

#[test]
fn lexes_tokens_and_keywords() {
    let lx = lexed("def f(x) x + 1.5 # note\nextern g(); binary^ unary! var in");
    let expected = vec![
        Token::Def,
        Token::Identifier("f".to_string()),
        Token::LParen('('),
        Token::Identifier("x".to_string()),
        Token::RParen(')'),
        Token::Identifier("x".to_string()),
        Token::Plus('+'),
        Token::Number("1.5".to_string()),
        Token::Extern,
        Token::Identifier("g".to_string()),
        Token::LParen('('),
        Token::RParen(')'),
        Token::Binary('^'),
        Token::Unary('!'),
        Token::Var,
        Token::In,
        Token::Eof,
    ];
    assert_eq!(lx.tokens, expected);
}

#[test]
fn lexes_numbers_with_one_dot() {
    let lx = lexed("1.2.3");
    assert_eq!(
        lx.tokens,
        vec![Token::Number("1.2".to_string()), Token::Number("3".to_string()), Token::Eof]
    );
}

#[test]
fn lex_rejects_operator_word_at_end() {
    let mut lx = LexerContext::new();
    assert_eq!(lx.lex("def binary"), Err(LexError::MissingOperatorChar));
}

#[test]
fn reads_and_peeks_tokens() {
    let mut lx = lexed("a b");
    assert_eq!(lx.peek_token(), Token::Identifier("a".to_string()));
    assert_eq!(lx.next_token(), Token::Identifier("a".to_string()));
    assert_eq!(lx.consume_opt_next_token(Token::Def), Ok(None));
    assert_eq!(
        lx.consume_assert_next_token(Token::Identifier(String::new())),
        Ok(Token::Identifier("b".to_string()))
    );
    assert_eq!(
        lx.consume_assert_next_token(Token::In),
        Err(ParseError::Expected { expected: Token::In, found: Token::Eof })
    );
    assert_eq!(lx.next_token(), Token::Eof);
}

#[test]
fn multiplication_binds_tighter_than_addition() {
    let p = parsed("a + b * c");
    assert_eq!(show(&p.functions[0].body), "(+ a (* b c))");
}

#[test]
fn equal_precedence_folds_left() {
    let p = parsed("a - b - c");
    assert_eq!(show(&p.functions[0].body), "(- (- a b) c)");
}

#[test]
fn assignment_binds_weakest() {
    let p = parsed("x = a < b + 1");
    assert_eq!(show(&p.functions[0].body), "(= x (< a (+ b 1)))");
}

#[test]
fn declared_operator_parses_at_its_precedence() {
    let p = parsed("def binary^ 5 (a b) a * b\n2 ^ 3 + 1");
    assert_eq!(p.binop_precedence.get('^'), Some(5));
    assert_eq!(p.functions[0].name, "binary^");
    assert!(p.functions[0].is_operator);
    assert_eq!(p.functions[0].precedence, Some("5".to_string()));
    assert_eq!(show(&p.functions[1].body), "(^ 2 (+ 3 1))");
}

#[test]
fn declared_operator_dispatches_to_its_body() {
    let (v, _) = evaluate("def binary^ 5 (a b) a * b\n2 ^ 3 + 1");
    assert_eq!(v, 8.0);
}

#[test]
fn operator_precedence_defaults_and_saturates() {
    let p = parsed("def binary| (a b) a\ndef binary& 300 (a b) a\ndef binary% 7.9 (a b) a");
    assert_eq!(p.binop_precedence.get('|'), Some(30));
    assert_eq!(p.binop_precedence.get('&'), Some(127));
    assert_eq!(p.binop_precedence.get('%'), Some(7));
}

#[test]
fn parses_calls_with_trailing_comma() {
    let p = parsed("f(1, 2,)");
    assert_eq!(show(&p.functions[0].body), "(call f [1 2])");
}

#[test]
fn parses_control_forms() {
    let p = parsed("if a then b else c\nfor i = 1, i < n in f(i)\nvar a = 1, b in a + b\n!x");
    assert_eq!(show(&p.functions[0].body), "(if a b c)");
    assert_eq!(show(&p.functions[1].body), "(for i 1 (< i n) - (call f [i]))");
    assert_eq!(show(&p.functions[2].body), "(var [a=1 b] (+ a b))");
    assert_eq!(show(&p.functions[3].body), "(! x)");
}

#[test]
fn parses_declarations_and_top_level() {
    let p = parsed("extern sin(x)\ndef f(a b) a\n1");
    assert_eq!(p.functions.len(), 3);
    assert_eq!(p.functions[0].name, "sin");
    assert!(matches!(p.functions[0].body, Expr::NoBody));
    assert_eq!(p.functions[1].args, vec!["a".to_string(), "b".to_string()]);
    assert_eq!(p.functions[2].name, "_top_level_expr");
}

fn parse_error(src: &str) -> ParseError {
    let mut lx = lexed(src);
    let mut p = ParserContext::new();
    p.parse(&mut lx).unwrap_err()
}

#[test]
fn parse_errors() {
    assert_eq!(
        parse_error("(1"),
        ParseError::Expected { expected: Token::RParen(')'), found: Token::Eof }
    );
    assert_eq!(parse_error(")"), ParseError::UnexpectedToken(Token::RParen(')')));
    assert_eq!(
        parse_error("if 1 2"),
        ParseError::Expected { expected: Token::Then, found: Token::Number("2".to_string()) }
    );
    assert_eq!(parse_error("for 1 = 1, 2 in 3"), ParseError::LoopVariableExpected);
    assert_eq!(parse_error("def 1"), ParseError::PrototypeName(Token::Number("1".to_string())));
    assert_eq!(parse_error("def f(1) 2"), ParseError::PrototypeArgument(Token::Number("1".to_string())));
    assert_eq!(parse_error("def binary^ (a) a"), ParseError::OperatorArity { expected: 2, found: 1 });
    assert_eq!(parse_error("def unary- (a b) a"), ParseError::OperatorArity { expected: 1, found: 2 });
}

#[test]
fn shadowed_variable_is_restored() {
    let (v, _) = evaluate("var x = 1 in (var x = x + 1 in x) + x");
    assert_eq!(v, 3.0);
}

#[test]
fn loop_runs_four_times_and_yields_zero() {
    let (v, printed) = evaluate("extern printd(x)\nfor i = 1, i < 5, 1 in printd(i)");
    assert_eq!(printed, vec![1.0, 2.0, 3.0, 4.0]);
    assert_eq!(v, 0.0);
}

#[test]
fn loop_without_step_counts_by_one() {
    let (_, printed) = evaluate("extern printd(x)\nfor i = 0, i < 3 in printd(i)");
    assert_eq!(printed, vec![0.0, 1.0, 2.0]);
}

#[test]
fn assignment_stores_without_loading_its_target() {
    let (v, _) = evaluate("var x = 1 in x = x + 1");
    assert_eq!(v, 2.0);
    let cg = lowered("var x = 1 in x = x + 1").unwrap();
    let main = cg.module.functions[0].body.as_ref().unwrap();
    let loads = main.code.iter().filter(|(_, i)| matches!(i, Inst::Load { .. })).count();
    assert_eq!(loads, 1);
    let stores: Vec<&Inst> =
        main.code.iter().map(|(_, i)| i).filter(|i| matches!(i, Inst::Store { .. })).collect();
    assert_eq!(stores.len(), 2);
    assert!(matches!(stores[1], Inst::Store { cell: 0, value: Operand::Value(_) }));
}

#[test]
fn zero_condition_takes_else_branch() {
    let (v, _) = evaluate("if 0 then 1 else 2");
    assert_eq!(v, 2.0);
}

#[test]
fn nan_condition_takes_then_branch() {
    let (v, _) = evaluate("if (0.0/0.0) then 1 else 2");
    assert_eq!(v, 1.0);
}

#[test]
fn comparisons_yield_one_or_zero() {
    assert_eq!(evaluate("1 < 2").0, 1.0);
    assert_eq!(evaluate("3 < 2").0, 0.0);
    assert_eq!(evaluate("3 > 2").0, 1.0);
    assert_eq!(evaluate("7 - 2 * 3 / 2").0, 4.0);
}

#[test]
fn last_top_level_value_is_returned() {
    assert_eq!(evaluate("1\n2\n3").0, 3.0);
    assert_eq!(evaluate("def f(x) x").0, 0.0);
}

#[test]
fn functions_recurse_and_first_definition_wins() {
    assert_eq!(evaluate("def f(x) 1\ndef f(x) 2\nf(0)").0, 1.0);
    let src = "def fib(n) if n < 2 then n else fib(n - 1) + fib(n - 2)\nfib(10)";
    assert_eq!(evaluate(src).0, 55.0);
    assert_eq!(evaluate("def unary!(v) if v then 0 else 1\n!0 + 5").0, 6.0);
}

#[test]
fn call_of_declared_native_lowers_but_fails_at_resolution() {
    let cg = lowered("extern missing(x)\nmissing(1)").unwrap();
    let mut m = Machine { module: &cg.module, printed: Vec::new() };
    assert_eq!(m.call(0, &[]), Err("unknown function missing".to_string()));
}

#[test]
fn lowering_errors() {
    assert_eq!(lowered("nope(1)").err(), Some(LowerError::UnknownFunction("nope".to_string())));
    assert_eq!(lowered("y + 1").err(), Some(LowerError::UnknownVariable("y".to_string())));
    assert_eq!(lowered("!1").err(), Some(LowerError::UnknownUnaryOperator('!')));
    assert_eq!(lowered("1 = 2").err(), Some(LowerError::InvalidAssignment));
    let cg = CodegenContext::new("m");
    let mut b = FnBuilder::new();
    let odd = Expr::BinOp {
        left: Box::new(Expr::Number("1".to_string())),
        op: Token::Bang('!'),
        right: Box::new(Expr::Number("2".to_string())),
    };
    assert_eq!(odd.codegen(&cg.module, &mut b), Err(LowerError::UnknownOperator('!')));
    let not_op = Expr::BinOp {
        left: Box::new(Expr::Number("1".to_string())),
        op: Token::Comma(','),
        right: Box::new(Expr::Number("2".to_string())),
    };
    assert_eq!(not_op.codegen(&cg.module, &mut b), Err(LowerError::NotAnOperator));
    assert_eq!(Expr::NoBody.codegen(&cg.module, &mut b), Err(LowerError::NoValue));
}

#[test]
fn sibling_initializers_see_earlier_bindings() {
    assert_eq!(evaluate("var a = 1, b = a + 1 in a + b").0, 3.0);
    assert_eq!(evaluate("var a in a").0, 0.0);
}

#[test]
fn registry_knows_the_two_natives() {
    let r = FfiRegistry::new();
    assert_eq!(r.get("putchard"), Some(0));
    assert_eq!(r.get("printd"), Some(1));
    assert_eq!(r.get("sin"), None);
}

#[test]
fn lexes_unicode_words_and_spaces() {
    let lx = lexed("\u{a0}héllo2\tπ\u{2003}if then else for");
    assert_eq!(
        lx.tokens,
        vec![
            Token::Identifier("héllo2".to_string()),
            Token::Identifier("π".to_string()),
            Token::If,
            Token::Then,
            Token::Else,
            Token::For,
            Token::Eof,
        ]
    );
}

#[test]
fn skips_unknown_characters_and_comments() {
    let lx = lexed("# only a comment\n; 7 ?");
    assert_eq!(lx.tokens, vec![Token::Number("7".to_string()), Token::Eof]);
    assert_eq!(lexed("").tokens, vec![Token::Eof]);
}

#[test]
fn entry_cells_are_numbered_in_order() {
    let mut cg = CodegenContext::new("m");
    assert_eq!(cg.create_entryblock_alloc("a".to_string()), 0);
    assert_eq!(cg.create_entryblock_alloc("b".to_string()), 1);
    assert_eq!(cg.main.cells, vec!["a".to_string(), "b".to_string()]);
}

#[test]
fn loop_body_reads_the_induction_variable_cell() {
    let cg = lowered("extern printd(x)\nfor i = 1, i < 3 in printd(i)").unwrap();
    let main = cg.module.functions[0].body.as_ref().unwrap();
    assert_eq!(main.cells, vec!["i".to_string()]);
    assert!(main.code.iter().any(|(_, i)| matches!(
        i,
        Inst::Compare { pred: Predicate::UnorderedNotEqual, rhs: Operand::Zero, .. }
    )));
    assert!(matches!(main.code.last(), Some((_, Inst::Ret { value: Operand::Zero }))));
}
