use std::rc::Rc;

use minilux::ast::{BinOp, Expr, FunDef, Statement};
use minilux::host::ScriptedHost;
use minilux::interp::Interpreter;
use minilux::value::Value;

fn cv(s: &str) -> Vec<char> {
    s.chars().collect()
}

fn text_of(v: Vec<char>) -> String {
    v.into_iter().collect()
}

fn assign(name: &str, value: Expr) -> Statement {
    Statement::Assignment { var: cv(name), value }
}

fn var(name: &str) -> Expr {
    Expr::Variable(cv(name))
}

fn num(n: i64) -> Expr {
    Expr::IntLit(n)
}

fn txt(s: &str) -> Expr {
    Expr::TextLit(cv(s))
}

fn bin(op: BinOp, l: Expr, r: Expr) -> Expr {
    Expr::Binary { op, left: Box::new(l), right: Box::new(r) }
}

fn print_expr(e: Expr) -> Statement {
    Statement::Printf { format: cv(""), args: vec![e] }
}

fn run(statements: Vec<Statement>) -> (Interpreter, ScriptedHost) {
    let mut host = ScriptedHost::new();
    let mut engine = Interpreter::new();
    engine.execute(&mut host, &statements).expect("run failed");
    (engine, host)
}

#[test]
fn assign_then_read_returns_last_value() {
    let (engine, _) = run(vec![
        assign("x", num(1)),
        assign("x", txt("two")),
    ]);
    assert!(engine.variable(&cv("x")).equals(&Value::Text(cv("two"))));
}

#[test]
fn never_assigned_reads_nil() {
    let (engine, _) = run(vec![assign("x", num(1))]);
    assert!(matches!(engine.variable(&cv("nowhere")), Value::Nil));
}

#[test]
fn arithmetic_program_prints_sum() {
    let (_, host) = run(vec![
        assign("x", num(5)),
        assign("y", bin(BinOp::Add, var("x"), num(3))),
        print_expr(var("y")),
    ]);
    assert_eq!(text_of(host.output), "8\n");
}

#[test]
fn push_then_pop_preserves_array() {
    let (engine, _) = run(vec![
        assign("a", Expr::ArrayLit(vec![num(1), num(2)])),
        Statement::Push { array: cv("a"), value: num(9) },
        Statement::Pop { array: cv("a") },
    ]);
    let expect = Value::Arr(vec![Value::Int(1), Value::Int(2)]);
    assert!(engine.variable(&cv("a")).equals(&expect));
}

#[test]
fn empty_array_shift_and_pop_stay_empty() {
    let (engine, _) = run(vec![
        assign("a", Expr::ArrayLit(vec![])),
        Statement::Shift { array: cv("a") },
        Statement::Pop { array: cv("a") },
    ]);
    assert!(engine.variable(&cv("a")).equals(&Value::Arr(vec![])));
}

#[test]
fn unshift_and_indexed_assignment() {
    let (engine, _) = run(vec![
        assign("a", Expr::ArrayLit(vec![num(2), num(3)])),
        Statement::Unshift { array: cv("a"), value: num(1) },
        Statement::IndexAssignment { var: cv("a"), index: num(2), value: num(9) },
        Statement::IndexAssignment { var: cv("a"), index: num(50), value: num(7) },
    ]);
    let expect = Value::Arr(vec![Value::Int(1), Value::Int(2), Value::Int(9)]);
    assert!(engine.variable(&cv("a")).equals(&expect));
}

fn define(name: &str, params: Vec<&str>, body: Vec<Statement>) -> Statement {
    Statement::FunctionDef {
        name: cv(name),
        fun: Rc::new(FunDef {
            params: params.into_iter().map(cv).collect(),
            body,
        }),
    }
}

#[test]
fn missing_arguments_bind_nil_and_shadows_restore() {
    let (engine, _) = run(vec![
        assign("a", num(10)),
        define(
            "probe",
            vec!["a", "b"],
            vec![
                assign("seen_a", var("a")),
                assign("seen_b", var("b")),
            ],
        ),
        Statement::FunctionCall { name: cv("probe"), args: vec![num(1)] },
    ]);
    // inside the call: a bound to 1, the missing b bound to Nil
    assert!(engine.variable(&cv("seen_a")).equals(&Value::Int(1)));
    assert!(matches!(engine.variable(&cv("seen_b")), Value::Nil));
    // afterwards: the caller's a restored, the unset b unset again
    assert!(engine.variable(&cv("a")).equals(&Value::Int(10)));
    assert!(matches!(engine.variable(&cv("b")), Value::Nil));
}

#[test]
fn function_return_value_in_expressions() {
    let (engine, _) = run(vec![
        define(
            "double",
            vec!["n"],
            vec![Statement::Return {
                expr: Some(bin(BinOp::Multiply, var("n"), num(2))),
            }],
        ),
        assign("r", Expr::Call { name: cv("double"), args: vec![num(21)] }),
    ]);
    assert!(engine.variable(&cv("r")).equals(&Value::Int(42)));
}

#[test]
fn unknown_function_warns_and_degrades() {
    let (engine, host) = run(vec![
        Statement::FunctionCall { name: cv("ghost_fn"), args: vec![] },
        assign("r", Expr::Call { name: cv("missing"), args: vec![] }),
    ]);
    assert!(matches!(engine.variable(&cv("r")), Value::Nil));
    let warnings: Vec<String> = host.warnings.into_iter().map(text_of).collect();
    assert_eq!(
        warnings,
        vec![
            "Warning: function 'ghost_fn' not defined".to_string(),
            "Warning: unknown function 'missing'".to_string(),
        ]
    );
}

#[test]
fn while_loop_counts() {
    let (engine, _) = run(vec![
        assign("i", num(0)),
        assign("sum", num(0)),
        Statement::While {
            condition: bin(BinOp::Less, var("i"), num(5)),
            body: vec![
                Statement::Inc { var: cv("sum"), value: var("i") },
                Statement::Inc { var: cv("i"), value: num(1) },
            ],
        },
    ]);
    assert!(engine.variable(&cv("sum")).equals(&Value::Int(10)));
}

#[test]
fn if_elseif_else_picks_first_truthy() {
    let branches = |n: i64| {
        vec![
            assign("x", num(n)),
            Statement::If {
                condition: bin(BinOp::Equal, var("x"), num(1)),
                then_body: vec![assign("r", txt("one"))],
                elseif_parts: vec![
                    (bin(BinOp::Equal, var("x"), num(2)), vec![assign("r", txt("two"))]),
                ],
                else_body: Some(vec![assign("r", txt("many"))]),
            },
        ]
    };
    let (engine, _) = run(branches(1));
    assert!(engine.variable(&cv("r")).equals(&Value::Text(cv("one"))));
    let (engine, _) = run(branches(2));
    assert!(engine.variable(&cv("r")).equals(&Value::Text(cv("two"))));
    let (engine, _) = run(branches(3));
    assert!(engine.variable(&cv("r")).equals(&Value::Text(cv("many"))));
}

#[test]
fn printf_escapes_and_final_newline() {
    let (_, host) = run(vec![Statement::Printf {
        format: cv("a\\tb\\n"),
        args: vec![],
    }]);
    assert_eq!(text_of(host.output), "a\tb\n");
}

#[test]
fn printf_renders_each_kind() {
    let (_, host) = run(vec![Statement::Printf {
        format: cv("v="),
        args: vec![
            num(7),
            txt("s"),
            Expr::ArrayLit(vec![num(1), num(2), num(3)]),
            Expr::PatternLit(cv("p+")),
        ],
    }]);
    assert_eq!(text_of(host.output), "v=7s[Array(3)]/p+/\n");
}

#[test]
fn read_line_strips_terminators() {
    let mut host = ScriptedHost::new();
    host.push_input(cv("hello\r\n"));
    let mut engine = Interpreter::new();
    engine
        .execute(&mut host, &vec![Statement::ReadLine { var: cv("line") }])
        .unwrap();
    assert!(engine.variable(&cv("line")).equals(&Value::Text(cv("hello"))));
}

#[test]
fn substitution_global_flag_replaces_all() {
    let subst = |flags: &str| {
        vec![assign(
            "r",
            Expr::Subst {
                pat: cv("a"),
                repl: cv("b"),
                flags: cv(flags),
                input: Box::new(txt("banana")),
            },
        )]
    };
    let (engine, _) = run(subst("g"));
    assert!(engine.variable(&cv("r")).equals(&Value::Text(cv("bbnbnb"))));
    let (engine, _) = run(subst(""));
    assert!(engine.variable(&cv("r")).equals(&Value::Text(cv("bbnana"))));
}

#[test]
fn substitution_case_insensitive_mode() {
    let (engine, _) = run(vec![assign(
        "r",
        Expr::Subst {
            pat: cv("ab"),
            repl: cv("-"),
            flags: cv("ig"),
            input: Box::new(txt("AbxaB")),
        },
    )]);
    assert!(engine.variable(&cv("r")).equals(&Value::Text(cv("-x-"))));
}

#[test]
fn substitution_bad_pattern_is_hard_error() {
    let mut host = ScriptedHost::new();
    let mut engine = Interpreter::new();
    let r = engine.execute(
        &mut host,
        &vec![assign(
            "r",
            Expr::Subst {
                pat: cv("("),
                repl: cv(""),
                flags: cv(""),
                input: Box::new(txt("x")),
            },
        )],
    );
    assert_eq!(text_of(r.unwrap_err()), "Invalid regex /(/");
}

#[test]
fn builtins_compute() {
    let call = |name: &str, args: Vec<Expr>| Expr::Call { name: cv(name), args };
    let (engine, _) = run(vec![
        assign("l", call("len", vec![txt("abc")])),
        assign("sl", call("strlen", vec![Expr::ArrayLit(vec![num(1), num(2)])])),
        assign("n", call("number", vec![txt(" 42 ")])),
        assign("nx", call("number", vec![txt("42x")])),
        assign("lo", call("lower", vec![txt("AbC")])),
        assign("up", call("upper", vec![txt("AbC")])),
    ]);
    assert!(engine.variable(&cv("l")).equals(&Value::Int(3)));
    assert!(engine.variable(&cv("sl")).equals(&Value::Int(2)));
    assert!(engine.variable(&cv("n")).equals(&Value::Int(42)));
    assert!(engine.variable(&cv("nx")).equals(&Value::Int(0)));
    assert!(engine.variable(&cv("lo")).equals(&Value::Text(cv("abc"))));
    assert!(engine.variable(&cv("up")).equals(&Value::Text(cv("ABC"))));
}

#[test]
fn shell_builtin_trims_one_line_ending() {
    let mut host = ScriptedHost::new();
    host.push_shell_reply(cv("result\r\n"));
    let mut engine = Interpreter::new();
    engine
        .execute(
            &mut host,
            &vec![assign("r", Expr::Call { name: cv("shell"), args: vec![txt("whoami")] })],
        )
        .unwrap();
    assert!(engine.variable(&cv("r")).equals(&Value::Text(cv("result"))));
    assert_eq!(text_of(host.shell_commands.remove(0)), "whoami");
}

#[test]
fn sleep_builtin_reaches_the_host() {
    let mut host = ScriptedHost::new();
    let mut engine = Interpreter::new();
    engine
        .execute(
            &mut host,
            &vec![Statement::FunctionCall { name: cv("sleep"), args: vec![num(2)] }],
        )
        .unwrap();
    assert_eq!(host.sleeps, vec![2]);
}

#[test]
fn sockets_go_through_the_host() {
    let mut host = ScriptedHost::new();
    host.push_socket_reply(cv("pong"));
    let mut engine = Interpreter::new();
    engine
        .execute(
            &mut host,
            &vec![
                Statement::SockOpen { name: cv("s"), host: txt("example.test"), port: num(80) },
                Statement::SockWrite { name: cv("s"), data: txt("ping") },
                Statement::SockRead { name: cv("s"), var: cv("reply") },
                Statement::SockRead { name: cv("s"), var: cv("empty") },
                Statement::SockClose { name: cv("s") },
            ],
        )
        .unwrap();
    assert!(engine.variable(&cv("reply")).equals(&Value::Text(cv("pong"))));
    assert!(engine.variable(&cv("empty")).equals(&Value::Text(cv(""))));
    assert_eq!(text_of(host.socket_writes.remove(0)), "ping");
    assert_eq!(text_of(host.opened_sockets.remove(0)), "s");
}

#[test]
fn module_cycle_is_detected() {
    let mut host = ScriptedHost::new();
    host.add_module(cv("a.lx"), vec![Statement::Import { path: cv("b.lx") }]);
    host.add_module(cv("b.lx"), vec![Statement::Import { path: cv("a.lx") }]);
    let mut engine = Interpreter::new();
    let r = engine.execute(&mut host, &vec![Statement::Import { path: cv("a.lx") }]);
    assert_eq!(
        text_of(r.unwrap_err()),
        "Import cycle detected (already in progress): a.lx"
    );
}

#[test]
fn modules_share_the_environment() {
    let mut host = ScriptedHost::new();
    host.add_module(cv("lib.lx"), vec![assign("from_module", num(99))]);
    let mut engine = Interpreter::new();
    engine
        .execute(&mut host, &vec![Statement::Import { path: cv("lib.lx") }])
        .unwrap();
    assert!(engine.variable(&cv("from_module")).equals(&Value::Int(99)));
}

#[test]
fn missing_module_is_hard_error() {
    let mut host = ScriptedHost::new();
    let mut engine = Interpreter::new();
    let r = engine.execute(&mut host, &vec![Statement::Import { path: cv("gone.lx") }]);
    assert_eq!(text_of(r.unwrap_err()), "Failed to load module: no such file");
}

#[test]
fn failure_after_module_cleanup_allows_retry() {
    let mut host = ScriptedHost::new();
    host.add_module(cv("a.lx"), vec![Statement::Import { path: cv("b.lx") }]);
    let mut engine = Interpreter::new();
    let r = engine.execute(&mut host, &vec![Statement::Import { path: cv("a.lx") }]);
    assert!(r.is_err());
    // the in-progress set was unwound, so the same module loads again
    let r = engine.execute(&mut host, &vec![Statement::Import { path: cv("a.lx") }]);
    assert!(r.is_err());
}

#[test]
fn deep_recursion_fails_cleanly() {
    let mut host = ScriptedHost::new();
    let mut engine = Interpreter::new();
    let r = engine.execute(
        &mut host,
        &vec![
            define(
                "spin",
                vec![],
                vec![Statement::FunctionCall { name: cv("spin"), args: vec![] }],
            ),
            Statement::FunctionCall { name: cv("spin"), args: vec![] },
        ],
    );
    assert_eq!(text_of(r.unwrap_err()), "Nesting depth limit exceeded");
}

#[test]
fn logical_and_unary_operators() {
    let (engine, _) = run(vec![
        assign("a", bin(BinOp::And, num(2), txt("x"))),
        assign("o", bin(BinOp::Or, num(0), txt(""))),
        assign("n", Expr::Unary {
            op: minilux::ast::UnaryOp::Not,
            expr: Box::new(num(0)),
        }),
        assign("neg", Expr::Unary {
            op: minilux::ast::UnaryOp::Negate,
            expr: Box::new(txt("9")),
        }),
    ]);
    assert!(engine.variable(&cv("a")).equals(&Value::Int(1)));
    assert!(engine.variable(&cv("o")).equals(&Value::Int(0)));
    assert!(engine.variable(&cv("n")).equals(&Value::Int(1)));
    assert!(engine.variable(&cv("neg")).equals(&Value::Int(-9)));
}

#[test]
fn indexing_in_programs() {
    let (engine, _) = run(vec![
        assign("a", Expr::ArrayLit(vec![num(1), num(2), num(3)])),
        assign("out", Expr::Index { expr: Box::new(var("a")), index: Box::new(num(5)) }),
        assign("ch", Expr::Index { expr: Box::new(txt("hi")), index: Box::new(num(1)) }),
    ]);
    assert!(matches!(engine.variable(&cv("out")), Value::Nil));
    assert!(engine.variable(&cv("ch")).equals(&Value::Text(cv("i"))));
}

#[test]
fn match_operator_in_programs() {
    let (engine, _) = run(vec![assign(
        "m",
        bin(BinOp::Match, txt("hello world"), Expr::PatternLit(cv("wor.d"))),
    )]);
    assert!(engine.variable(&cv("m")).equals(&Value::Int(1)));
}

#[test]
fn globals_stay_visible_and_mutable_inside_calls() {
    let (engine, _) = run(vec![
        assign("g", num(1)),
        define("bump", vec![], vec![assign("g", bin(BinOp::Add, var("g"), num(1)))]),
        Statement::FunctionCall { name: cv("bump"), args: vec![] },
        Statement::FunctionCall { name: cv("bump"), args: vec![] },
    ]);
    assert!(engine.variable(&cv("g")).equals(&Value::Int(3)));
}

#[test]
fn redefinition_replaces_a_function() {
    let (engine, _) = run(vec![
        define("f", vec![], vec![Statement::Return { expr: Some(num(1)) }]),
        define("f", vec![], vec![Statement::Return { expr: Some(num(2)) }]),
        assign("r", Expr::Call { name: cv("f"), args: vec![] }),
    ]);
    assert!(engine.variable(&cv("r")).equals(&Value::Int(2)));
}

#[test]
fn return_leaves_a_loop_inside_a_function() {
    let (engine, _) = run(vec![
        define(
            "first_over",
            vec!["limit"],
            vec![
                assign("i", num(0)),
                Statement::While {
                    condition: num(1),
                    body: vec![
                        Statement::If {
                            condition: bin(BinOp::Greater, var("i"), var("limit")),
                            then_body: vec![Statement::Return { expr: Some(var("i")) }],
                            elseif_parts: vec![],
                            else_body: None,
                        },
                        Statement::Inc { var: cv("i"), value: num(1) },
                    ],
                },
            ],
        ),
        assign("r", Expr::Call { name: cv("first_over"), args: vec![num(3)] }),
    ]);
    assert!(engine.variable(&cv("r")).equals(&Value::Int(4)));
}

#[test]
fn increment_starts_from_nil_as_zero() {
    let (engine, _) = run(vec![
        Statement::Inc { var: cv("fresh"), value: num(5) },
        Statement::Dec { var: cv("down"), value: num(2) },
    ]);
    assert!(engine.variable(&cv("fresh")).equals(&Value::Int(5)));
    assert!(engine.variable(&cv("down")).equals(&Value::Int(-2)));
}

#[test]
fn builtins_cannot_be_shadowed() {
    let (engine, _) = run(vec![
        define("len", vec!["x"], vec![Statement::Return { expr: Some(num(999)) }]),
        assign("r", Expr::Call { name: cv("len"), args: vec![txt("abcd")] }),
    ]);
    assert!(engine.variable(&cv("r")).equals(&Value::Int(4)));
}

#[test]
fn module_search_path_is_consulted_in_order() {
    let mut host = ScriptedHost::new();
    host.add_module(cv("/lib/m.lx"), vec![assign("loaded_from", txt("lib"))]);
    let mut engine = Interpreter::new();
    engine.set_modules_path(&cv(" /opt : /lib "));
    engine
        .execute(&mut host, &vec![Statement::Import { path: cv("m.lx") }])
        .unwrap();
    assert!(engine.variable(&cv("loaded_from")).equals(&Value::Text(cv("lib"))));
}

#[test]
fn increment_reads_the_variable_before_the_delta() {
    // the delta expression overwrites the same variable; the increment
    // still works on the value read before that evaluation
    let (engine, _) = run(vec![
        assign("x", num(10)),
        define(
            "bump",
            vec![],
            vec![
                assign("x", num(100)),
                Statement::Return { expr: Some(num(5)) },
            ],
        ),
        Statement::Inc { var: cv("x"), value: Expr::Call { name: cv("bump"), args: vec![] } },
    ]);
    assert!(engine.variable(&cv("x")).equals(&Value::Int(15)));
}

#[test]
fn push_copies_the_array_out_before_the_value() {
    let (engine, _) = run(vec![
        assign("a", Expr::ArrayLit(vec![num(1)])),
        define(
            "clobber",
            vec![],
            vec![
                assign("a", Expr::ArrayLit(vec![num(9), num(9)])),
                Statement::Return { expr: Some(num(2)) },
            ],
        ),
        Statement::Push {
            array: cv("a"),
            value: Expr::Call { name: cv("clobber"), args: vec![] },
        },
    ]);
    let expect = Value::Arr(vec![Value::Int(1), Value::Int(2)]);
    assert!(engine.variable(&cv("a")).equals(&expect));
}

#[test]
fn module_top_level_return_does_not_stop_the_module() {
    let mut host = ScriptedHost::new();
    host.add_module(
        cv("m.lx"),
        vec![
            Statement::Return { expr: Some(num(1)) },
            assign("after_return", num(7)),
        ],
    );
    let mut engine = Interpreter::new();
    engine
        .execute(&mut host, &vec![Statement::Import { path: cv("m.lx") }])
        .unwrap();
    assert!(engine.variable(&cv("after_return")).equals(&Value::Int(7)));
}
