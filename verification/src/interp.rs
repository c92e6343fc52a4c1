//! The evaluator: statement execution, expression evaluation, the
//! function-call shadow/restore protocol, and module resolution with
//! cycle detection.
//!
//! One [`Interpreter`] owns one [`Runtime`], one base-directory stack
//! and one in-progress module set for the lifetime of a run. Every
//! execution entry point promises that the base-directory stack, the
//! module search list and the in-progress set are exactly restored,
//! whatever happens inside — the scoped-cleanup discipline the language
//! relies on.

use vstd::prelude::*;

use crate::ast::{BinOp, Expr, Statement, UnaryOp};
use crate::host::Host;
use crate::pattern;
use crate::runtime::Runtime;
use crate::text;
use crate::value::{
    add_model, clip64, eq_model, models_of, lemma_models_of, print_model, sub_model,
    to_int_model, truthy, compare_model, render_model, Cmp, Val, Value, copy_chars,
};

verus! {

broadcast use vstd::std_specs::vec::group_vec_axioms;

/// Nesting budget for function calls and module loads. Deeper nesting
/// fails with a descriptive error instead of exhausting the machine
/// stack.
pub const MAX_DEPTH: u64 = 256;

/// Iteration budget of a single loop statement; far beyond anything a
/// run can reach, so a runaway loop has a defined failure.
pub const LOOP_BUDGET: u64 = u64::MAX;

// ---------------------------------------------------------------------
// Statement-level value transformations
// ---------------------------------------------------------------------

/// What `push` does to the current value of the array variable: append
/// to an array, or replace any other value by a one-element array.
pub open spec fn push_model(cur: Val, v: Val) -> Val {
    match cur {
        Val::Arr(a) => Val::Arr(a.push(v)),
        _ => Val::Arr(seq![v]),
    }
}

/// What `pop` does: drop the last element; an empty array, or any
/// non-array value, is left as it is.
pub open spec fn pop_model(cur: Val) -> Val {
    match cur {
        Val::Arr(a) => if a.len() > 0 {
            Val::Arr(a.drop_last())
        } else {
            cur
        },
        _ => cur,
    }
}

/// What `shift` does: drop the first element; an empty array, or any
/// non-array value, is left as it is.
pub open spec fn shift_model(cur: Val) -> Val {
    match cur {
        Val::Arr(a) => if a.len() > 0 {
            Val::Arr(a.subrange(1, a.len() as int))
        } else {
            cur
        },
        _ => cur,
    }
}

/// What `unshift` does: prepend to an array, or replace any other value
/// by a one-element array.
pub open spec fn unshift_model(cur: Val, v: Val) -> Val {
    match cur {
        Val::Arr(a) => Val::Arr(seq![v] + a),
        _ => Val::Arr(seq![v]),
    }
}

/// What indexed assignment does: overwrite the element when the
/// position is within bounds, and change nothing otherwise — bounds are
/// never extended.
pub open spec fn set_index_model(cur: Val, i: int, v: Val) -> Val {
    match cur {
        Val::Arr(a) => if 0 <= i < a.len() {
            Val::Arr(a.update(i, v))
        } else {
            cur
        },
        _ => cur,
    }
}

/// What indexing yields: the element of an array, one character of a
/// text, and `Nil` out of bounds or on any other value.
pub open spec fn index_model(v: Val, i: int) -> Val {
    match v {
        Val::Arr(a) => if 0 <= i < a.len() {
            a[i]
        } else {
            Val::Nil
        },
        Val::Text(s) => if 0 <= i < s.len() {
            Val::Text(seq![s[i]])
        } else {
            Val::Nil
        },
        _ => Val::Nil,
    }
}

/// Appending to a non-empty array and then popping restores the array
/// exactly.
pub proof fn lemma_push_then_pop(a: Val, v: Val)
    requires
        a matches Val::Arr(s) && s.len() > 0,
    ensures
        pop_model(push_model(a, v)) == a,
{
    let s = a->Arr_0;
    assert(s.push(v).drop_last() =~= s);
}

/// Popping or shifting an empty array leaves it an empty array.
pub proof fn lemma_empty_array_steady(a: Val)
    requires
        a == Val::Arr(Seq::<Val>::empty()),
    ensures
        pop_model(a) == a,
        shift_model(a) == a,
{
}

/// Apply the `push` transformation.
pub fn push_onto(cur: Value, v: Value) -> (r: Value)
    ensures
        r@ == push_model(cur@, v@),
{
    match cur {
        Value::Arr(mut a) => {
            let ghost a0 = a@;
            a.push(v);
            proof {
                lemma_models_of(a0);
                lemma_models_of(a@);
                assert(models_of(a@) =~= models_of(a0).push(v.model()));
            }
            Value::Arr(a)
        }
        _ => {
            let mut a: Vec<Value> = Vec::new();
            a.push(v);
            proof {
                lemma_models_of(a@);
                assert(models_of(a@) =~= seq![v.model()]);
            }
            Value::Arr(a)
        }
    }
}

/// Apply the `pop` transformation.
pub fn pop_from(cur: Value) -> (r: Value)
    ensures
        r@ == pop_model(cur@),
{
    match cur {
        Value::Arr(mut a) => {
            let ghost a0 = a@;
            if a.len() > 0 {
                a.pop();
                proof {
                    lemma_models_of(a0);
                    lemma_models_of(a@);
                    assert(models_of(a@) =~= models_of(a0).drop_last());
                }
            }
            Value::Arr(a)
        }
        other => other,
    }
}

/// Apply the `shift` transformation.
pub fn shift_from(cur: Value) -> (r: Value)
    ensures
        r@ == shift_model(cur@),
{
    match cur {
        Value::Arr(mut a) => {
            let ghost a0 = a@;
            if a.len() > 0 {
                a.remove(0);
                proof {
                    lemma_models_of(a0);
                    lemma_models_of(a@);
                    assert(models_of(a@) =~= models_of(a0).subrange(
                        1,
                        models_of(a0).len() as int,
                    ));
                }
            }
            Value::Arr(a)
        }
        other => other,
    }
}

/// Apply the `unshift` transformation.
pub fn unshift_onto(cur: Value, v: Value) -> (r: Value)
    ensures
        r@ == unshift_model(cur@, v@),
{
    match cur {
        Value::Arr(mut a) => {
            let ghost a0 = a@;
            a.insert(0, v);
            proof {
                lemma_models_of(a0);
                lemma_models_of(a@);
                assert(models_of(a@) =~= seq![v.model()] + models_of(a0));
            }
            Value::Arr(a)
        }
        _ => {
            let mut a: Vec<Value> = Vec::new();
            a.push(v);
            proof {
                lemma_models_of(a@);
                assert(models_of(a@) =~= seq![v.model()]);
            }
            Value::Arr(a)
        }
    }
}

/// Apply the indexed-assignment transformation.
pub fn set_index(cur: Value, idx: i64, v: Value) -> (r: Value)
    ensures
        r@ == set_index_model(cur@, idx as int, v@),
{
    match cur {
        Value::Arr(mut a) => {
            let ghost a0 = a@;
            if idx >= 0 && (idx as u64) < (a.len() as u64) {
                let i = idx as usize;
                a[i] = v;
                proof {
                    lemma_models_of(a0);
                    lemma_models_of(a@);
                    assert(models_of(a@) =~= models_of(a0).update(idx as int, v.model()));
                }
            } else {
                proof {
                    lemma_models_of(a0);
                }
            }
            Value::Arr(a)
        }
        other => other,
    }
}

/// Apply the indexing rule.
pub fn index_value(v: &Value, idx: i64) -> (r: Value)
    ensures
        r@ == index_model(v@, idx as int),
{
    match v {
        Value::Arr(a) => {
            proof {
                lemma_models_of(a@);
            }
            if idx >= 0 && (idx as u64) < (a.len() as u64) {
                a[idx as usize].clone()
            } else {
                Value::Nil
            }
        }
        Value::Text(s) => {
            if idx >= 0 && (idx as u64) < (s.len() as u64) {
                let mut t: Vec<char> = Vec::new();
                t.push(s[idx as usize]);
                proof {
                    assert(t@ =~= seq![s@[idx as int]]);
                }
                Value::Text(t)
            } else {
                Value::Nil
            }
        }
        _ => Value::Nil,
    }
}

// ---------------------------------------------------------------------
// Operators
// ---------------------------------------------------------------------

/// What negation and logical not return.
pub open spec fn unary_model(op: UnaryOp, v: Val) -> Val {
    match op {
        UnaryOp::Not => Val::Int(
            if truthy(v) {
                0
            } else {
                1
            },
        ),
        UnaryOp::Negate => Val::Int(clip64(-to_int_model(v))),
    }
}

/// The pattern text the match operator uses: pattern values and text
/// values stand as they are, anything else is rendered.
pub open spec fn match_pattern_of(b: Val) -> Seq<char> {
    match b {
        Val::Pat(p) => p,
        Val::Text(s) => s,
        other => render_model(other),
    }
}

/// What each binary operator returns, on the models of its operands.
/// Relational operators yield `1`/`0`, and an unordered comparison is
/// false for every one of them.
pub open spec fn binop_model(op: BinOp, a: Val, b: Val) -> Val {
    match op {
        BinOp::Add => add_model(a, b),
        BinOp::Subtract => sub_model(a, b),
        BinOp::Multiply => crate::value::mul_model(a, b),
        BinOp::Divide => crate::value::div_model(a, b),
        BinOp::Modulo => crate::value::rem_model(a, b),
        BinOp::Equal => Val::Int(
            if eq_model(a, b) {
                1
            } else {
                0
            },
        ),
        BinOp::NotEqual => Val::Int(
            if eq_model(a, b) {
                0
            } else {
                1
            },
        ),
        BinOp::Less => Val::Int(
            if compare_model(a, b) == Some(Cmp::Below) {
                1
            } else {
                0
            },
        ),
        BinOp::LessEqual => Val::Int(
            if compare_model(a, b) == Some(Cmp::Below) || compare_model(a, b) == Some(Cmp::Equal) {
                1
            } else {
                0
            },
        ),
        BinOp::Greater => Val::Int(
            if compare_model(a, b) == Some(Cmp::Above) {
                1
            } else {
                0
            },
        ),
        BinOp::GreaterEqual => Val::Int(
            if compare_model(a, b) == Some(Cmp::Above) || compare_model(a, b) == Some(Cmp::Equal) {
                1
            } else {
                0
            },
        ),
        BinOp::And => Val::Int(
            if truthy(a) && truthy(b) {
                1
            } else {
                0
            },
        ),
        BinOp::Or => Val::Int(
            if truthy(a) || truthy(b) {
                1
            } else {
                0
            },
        ),
        BinOp::Match => Val::Int(
            if pattern::matches_of(match_pattern_of(b), render_model(a)) {
                1
            } else {
                0
            },
        ),
    }
}

/// Relational comparison between text and an array — two types with no
/// ordering between them — is false for every relational operator, in
/// both operand orders.
pub proof fn lemma_text_array_unordered(op: BinOp, a: Val, b: Val)
    requires
        op == BinOp::Less || op == BinOp::LessEqual || op == BinOp::Greater || op
            == BinOp::GreaterEqual,
        a is Text,
        b is Arr,
    ensures
        binop_model(op, a, b) == Val::Int(0),
        binop_model(op, b, a) == Val::Int(0),
{
}

// ---------------------------------------------------------------------
// The host-free fragment, evaluated at the specification level
// ---------------------------------------------------------------------

/// The pattern a substitution expression compiles: the flag characters
/// `i`, `m`, `s` become a mode prefix on the pattern text.
pub open spec fn subst_pattern_of(pat: Seq<char>, flags: Seq<char>) -> Seq<char> {
    let m = (if flags.contains('i') {
        seq!['i']
    } else {
        Seq::<char>::empty()
    }) + (if flags.contains('m') {
        seq!['m']
    } else {
        Seq::<char>::empty()
    }) + (if flags.contains('s') {
        seq!['s']
    } else {
        Seq::<char>::empty()
    });
    if m.len() == 0 {
        pat
    } else {
        seq!['(', '?'] + m + seq![')'] + pat
    }
}

/// What a substitution yields on a source text: the `g` flag selects
/// replacing every non-overlapping match over replacing the first.
pub open spec fn subst_model(pat: Seq<char>, repl: Seq<char>, flags: Seq<char>, src: Seq<char>) -> Val {
    let fp = subst_pattern_of(pat, flags);
    Val::Text(
        if flags.contains('g') {
            pattern::replace_all_of(fp, repl, src)
        } else {
            pattern::replace_first_of(fp, repl, src)
        },
    )
}

/// Outcome of evaluating an expression at the specification level.
pub enum PureOut {
    /// The expression is host-free and yields this value.
    Known(Val),
    /// The expression is host-free and fails hard with this message.
    Fault(Seq<char>),
    /// The expression reaches beyond the host-free fragment: it holds a
    /// function call, whose body may do anything.
    Outside,
}

/// Outcome of evaluating a sequence of expressions.
pub enum PureListOut {
    KnownAll(Seq<Val>),
    Fault(Seq<char>),
    Outside,
}

/// Specification-level evaluation of the host-free expression fragment
/// against a fixed environment: literals, variable reads, operators,
/// array literals, indexing and substitution. The evaluator is proved
/// to return exactly these values, with the environment untouched.
pub open spec fn pure_eval(env: Runtime, e: Expr) -> PureOut
    decreases e,
{
    match e {
        Expr::IntLit(n) => PureOut::Known(Val::Int(n as int)),
        Expr::TextLit(s) => PureOut::Known(Val::Text(s@)),
        Expr::PatternLit(p) => PureOut::Known(Val::Pat(p@)),
        Expr::Variable(name) => PureOut::Known(env.var_at(name@)),
        Expr::Unary { op, expr } => match pure_eval(env, *expr) {
            PureOut::Known(v) => PureOut::Known(unary_model(op, v)),
            other => other,
        },
        Expr::Binary { op, left, right } => match pure_eval(env, *left) {
            PureOut::Known(a) => match pure_eval(env, *right) {
                PureOut::Known(b) => if op is Match && !pattern::pattern_ok(
                    match_pattern_of(b),
                ) {
                    PureOut::Fault(invalid_pattern_msg_of(match_pattern_of(b)))
                } else {
                    PureOut::Known(binop_model(op, a, b))
                },
                other => other,
            },
            other => other,
        },
        Expr::ArrayLit(elems) => match pure_eval_all(env, elems@) {
            PureListOut::KnownAll(vs) => PureOut::Known(Val::Arr(vs)),
            PureListOut::Fault(m) => PureOut::Fault(m),
            PureListOut::Outside => PureOut::Outside,
        },
        Expr::Index { expr, index } => match pure_eval(env, *expr) {
            PureOut::Known(v) => match pure_eval(env, *index) {
                PureOut::Known(ival) => PureOut::Known(index_model(v, to_int_model(ival))),
                other => other,
            },
            other => other,
        },
        Expr::Subst { pat, repl, flags, input } => match pure_eval(env, *input) {
            PureOut::Known(v) => if pattern::pattern_ok(subst_pattern_of(pat@, flags@)) {
                PureOut::Known(subst_model(pat@, repl@, flags@, render_model(v)))
            } else {
                PureOut::Fault(invalid_pattern_msg_of(pat@))
            },
            other => other,
        },
        Expr::Call { name, args } => match builtin_of(name@) {
            Some(b) => pure_builtin(env, b, args@),
            None => if env.fun_at(name@) is None {
                PureOut::Known(Val::Nil)
            } else {
                PureOut::Outside
            },
        },
    }
}

/// Specification-level evaluation of the host-free builtins: length,
/// numeric coercion and case folding are functions of their (first)
/// argument; the shell and the clock are beyond the fragment. An
/// unknown function called as an expression is a soft diagnostic
/// yielding `Nil` (stated in [`pure_eval`]).
pub open spec fn pure_builtin(env: Runtime, b: Builtin, args: Seq<Expr>) -> PureOut
    decreases args,
{
    match b {
        Builtin::Length => if args.len() == 0 {
            PureOut::Known(Val::Int(0))
        } else {
            match pure_eval(env, args[0]) {
                PureOut::Known(v) => PureOut::Known(length_model(v)),
                other => other,
            }
        },
        Builtin::Number => if args.len() == 0 {
            PureOut::Known(Val::Int(0))
        } else {
            match pure_eval(env, args[0]) {
                PureOut::Known(v) => PureOut::Known(number_model(v)),
                other => other,
            }
        },
        Builtin::Lower => if args.len() == 0 {
            PureOut::Known(Val::Text(Seq::empty()))
        } else {
            match pure_eval(env, args[0]) {
                PureOut::Known(v) => PureOut::Known(
                    Val::Text(pattern::lower_of(render_model(v))),
                ),
                other => other,
            }
        },
        Builtin::Upper => if args.len() == 0 {
            PureOut::Known(Val::Text(Seq::empty()))
        } else {
            match pure_eval(env, args[0]) {
                PureOut::Known(v) => PureOut::Known(
                    Val::Text(pattern::upper_of(render_model(v))),
                ),
                other => other,
            }
        },
        Builtin::Shell => PureOut::Outside,
        Builtin::Sleep => PureOut::Outside,
    }
}

/// Specification-level evaluation of a list of expressions, left to
/// right, stopping at the first fault.
pub open spec fn pure_eval_all(env: Runtime, es: Seq<Expr>) -> PureListOut
    decreases es,
{
    if es.len() == 0 {
        PureListOut::KnownAll(Seq::empty())
    } else {
        match pure_eval(env, es[0]) {
            PureOut::Known(v) => match pure_eval_all(env, es.subrange(1, es.len() as int)) {
                PureListOut::KnownAll(vs) => PureListOut::KnownAll(seq![v] + vs),
                other => other,
            },
            PureOut::Fault(m) => PureListOut::Fault(m),
            PureOut::Outside => PureListOut::Outside,
        }
    }
}

/// A fully known list evaluation has one value per expression.
pub proof fn lemma_pure_all_len(env: Runtime, es: Seq<Expr>)
    ensures
        pure_eval_all(env, es) matches PureListOut::KnownAll(vs) ==> vs.len() == es.len(),
    decreases es.len(),
{
    if es.len() > 0 {
        lemma_pure_all_len(env, es.subrange(1, es.len() as int));
    }
}

/// The error a failing pattern compilation raises, naming the pattern.
pub open spec fn invalid_pattern_msg_of(pat: Seq<char>) -> Seq<char> {
    "Invalid regex /"@ + pat + seq!['/']
}

fn invalid_pattern_msg(pat: &Vec<char>) -> (r: Vec<char>)
    ensures
        r@ == invalid_pattern_msg_of(pat@),
{
    let mut m = text::chars_of("Invalid regex /");
    text::push_chars(&mut m, pat);
    m.push('/');
    proof {
        assert(m@ =~= invalid_pattern_msg_of(pat@));
    }
    m
}

/// Evaluate a binary operator on two values. Every operator except the
/// match operator always succeeds; the match operator fails exactly when
/// its pattern does not compile, naming the pattern.
pub fn eval_binop(op: &BinOp, a: &Value, b: &Value) -> (r: Result<Value, Vec<char>>)
    ensures
        !(op is Match) ==> (r matches Ok(v) && v@ == binop_model(*op, a@, b@)),
        op is Match ==> ((r is Ok) == pattern::pattern_ok(match_pattern_of(b@))),
        op is Match ==> (r matches Ok(v) ==> v@ == binop_model(*op, a@, b@)),
        op is Match ==> (r matches Err(e) ==> e@ == invalid_pattern_msg_of(match_pattern_of(b@))),
{
    match op {
        BinOp::Add => Ok(a.add(b)),
        BinOp::Subtract => Ok(a.subtract(b)),
        BinOp::Multiply => Ok(a.multiply(b)),
        BinOp::Divide => Ok(a.divide(b)),
        BinOp::Modulo => Ok(a.modulo(b)),
        BinOp::Equal => Ok(Value::Int(if a.equals(b) {
            1
        } else {
            0
        })),
        BinOp::NotEqual => Ok(Value::Int(if a.equals(b) {
            0
        } else {
            1
        })),
        BinOp::Less => Ok(Value::Int(match a.compare(b) {
            Some(Cmp::Below) => 1,
            _ => 0,
        })),
        BinOp::LessEqual => Ok(Value::Int(match a.compare(b) {
            Some(Cmp::Below) => 1,
            Some(Cmp::Equal) => 1,
            _ => 0,
        })),
        BinOp::Greater => Ok(Value::Int(match a.compare(b) {
            Some(Cmp::Above) => 1,
            _ => 0,
        })),
        BinOp::GreaterEqual => Ok(Value::Int(match a.compare(b) {
            Some(Cmp::Above) => 1,
            Some(Cmp::Equal) => 1,
            _ => 0,
        })),
        BinOp::And => Ok(Value::Int(if a.is_truthy() && b.is_truthy() {
            1
        } else {
            0
        })),
        BinOp::Or => Ok(Value::Int(if a.is_truthy() || b.is_truthy() {
            1
        } else {
            0
        })),
        BinOp::Match => {
            let text_of = a.render();
            let pat = match b {
                Value::Pat(p) => copy_chars(p),
                Value::Text(s) => copy_chars(s),
                other => other.render(),
            };
            match pattern::regex_match(&pat, &text_of) {
                Some(hit) => Ok(Value::Int(if hit {
                    1
                } else {
                    0
                })),
                None => Err(invalid_pattern_msg(&pat)),
            }
        }
    }
}

/// Apply a unary operator.
pub fn eval_unop(op: &UnaryOp, v: &Value) -> (r: Value)
    ensures
        r@ == unary_model(*op, v@),
{
    match op {
        UnaryOp::Not => Value::Int(if v.is_truthy() {
            0
        } else {
            1
        }),
        UnaryOp::Negate => {
            let n = v.to_int();
            match 0i64.checked_sub(n) {
                Some(m) => Value::Int(m),
                None => Value::Int(0),
            }
        }
    }
}

// ---------------------------------------------------------------------
// Messages
// ---------------------------------------------------------------------

/// The error raised when a module is loaded while its own load is still
/// in progress.
pub open spec fn cycle_msg_of(path: Seq<char>) -> Seq<char> {
    "Import cycle detected (already in progress): "@ + path
}

fn cycle_msg(path: &Vec<char>) -> (r: Vec<char>)
    ensures
        r@ == cycle_msg_of(path@),
{
    let mut m = text::chars_of("Import cycle detected (already in progress): ");
    text::push_chars(&mut m, path);
    proof {
        assert(m@ =~= cycle_msg_of(path@));
    }
    m
}

/// The error raised when a module file cannot be read.
pub open spec fn load_fail_msg_of(detail: Seq<char>) -> Seq<char> {
    "Failed to load module: "@ + detail
}

fn load_fail_msg(detail: &Vec<char>) -> (r: Vec<char>)
    ensures
        r@ == load_fail_msg_of(detail@),
{
    let mut m = text::chars_of("Failed to load module: ");
    text::push_chars(&mut m, detail);
    proof {
        assert(m@ =~= load_fail_msg_of(detail@));
    }
    m
}

/// The error raised when the input stream fails.
pub open spec fn read_fail_msg_of(detail: Seq<char>) -> Seq<char> {
    "Failed to read input: "@ + detail
}

fn read_fail_msg(detail: &Vec<char>) -> (r: Vec<char>)
    ensures
        r@ == read_fail_msg_of(detail@),
{
    let mut m = text::chars_of("Failed to read input: ");
    text::push_chars(&mut m, detail);
    proof {
        assert(m@ =~= read_fail_msg_of(detail@));
    }
    m
}

/// The error raised when a socket cannot be opened.
pub open spec fn connect_fail_msg_of(peer: Seq<char>, port: int) -> Seq<char> {
    "Failed to connect to "@ + peer + seq![':'] + crate::value::decimal_of(port)
}

fn connect_fail_msg(peer: &Vec<char>, port: u16) -> (r: Vec<char>)
    ensures
        r@ == connect_fail_msg_of(peer@, port as int),
{
    let mut m = text::chars_of("Failed to connect to ");
    text::push_chars(&mut m, peer);
    m.push(':');
    let d = crate::value::digits_chars(port as u64);
    text::push_chars(&mut m, &d);
    proof {
        assert(m@ =~= connect_fail_msg_of(peer@, port as int));
    }
    m
}

/// The error raised when nesting exceeds the call budget.
pub open spec fn depth_msg_of() -> Seq<char> {
    "Nesting depth limit exceeded"@
}

fn depth_msg() -> (r: Vec<char>)
    ensures
        r@ == depth_msg_of(),
{
    text::chars_of("Nesting depth limit exceeded")
}

/// The error raised when a loop exceeds its iteration budget.
pub open spec fn steps_msg_of() -> Seq<char> {
    "Loop iteration budget exceeded"@
}

fn steps_msg() -> (r: Vec<char>)
    ensures
        r@ == steps_msg_of(),
{
    text::chars_of("Loop iteration budget exceeded")
}

/// The diagnostic for calling an undefined function as a statement.
pub open spec fn warn_stmt_msg_of(name: Seq<char>) -> Seq<char> {
    "Warning: function '"@ + name + "' not defined"@
}

fn warn_stmt_msg(name: &Vec<char>) -> (r: Vec<char>)
    ensures
        r@ == warn_stmt_msg_of(name@),
{
    let mut m = text::chars_of("Warning: function '");
    text::push_chars(&mut m, name);
    let tail = text::chars_of("' not defined");
    text::push_chars(&mut m, &tail);
    proof {
        assert(m@ =~= warn_stmt_msg_of(name@));
    }
    m
}

/// The diagnostic for calling an undefined function in an expression.
pub open spec fn warn_expr_msg_of(name: Seq<char>) -> Seq<char> {
    "Warning: unknown function '"@ + name + seq!['\'']
}

fn warn_expr_msg(name: &Vec<char>) -> (r: Vec<char>)
    ensures
        r@ == warn_expr_msg_of(name@),
{
    let mut m = text::chars_of("Warning: unknown function '");
    text::push_chars(&mut m, name);
    m.push('\'');
    proof {
        assert(m@ =~= warn_expr_msg_of(name@));
    }
    m
}

// ---------------------------------------------------------------------
// Statement outcomes
// ---------------------------------------------------------------------

/// The environment after binding one variable: that name holds the
/// value, everything else — variables and functions — is untouched.
pub open spec fn env_vars_set(pre: Runtime, post: Runtime, name: Seq<char>, v: Val) -> bool {
    &&& post.var_at(name) == v
    &&& post.has_var(name)
    &&& forall|n: Seq<char>| n != name ==> #[trigger] post.var_at(n) == pre.var_at(n)
    &&& forall|n: Seq<char>| n != name ==> #[trigger] post.has_var(n) == pre.has_var(n)
    &&& forall|n: Seq<char>| #[trigger] post.fun_at(n) == pre.fun_at(n)
}

/// What one statement does, as far as its own expressions and the
/// environment decide it. For statements of the host-free fragment the
/// result and the new environment are pinned exactly; for the others,
/// whatever is fixed regardless of the host's answers is stated (the
/// result shape, the environment being left alone, the engine's own
/// errors).
pub open spec fn stmt_obligation(
    pre: Runtime,
    s: Statement,
    depth: u64,
    post: Runtime,
    r: Result<Option<Value>, Vec<char>>,
) -> bool {
    match s {
        Statement::Assignment { var, value } => {
            &&& (pure_eval(pre, value) matches PureOut::Known(v) ==> (r matches Ok(o) && o is None
                && env_vars_set(pre, post, var@, v)))
            &&& (pure_eval(pre, value) matches PureOut::Fault(m) ==> (r matches Err(e) && e@ == m
                && post == pre))
        },
        Statement::IndexAssignment { var, index, value } => {
            &&& (pure_eval(pre, index) matches PureOut::Known(iv) ==> (pure_eval(pre, value)
                matches PureOut::Known(vv) ==> (r matches Ok(o) && o is None && env_vars_set(
                pre,
                post,
                var@,
                set_index_model(pre.var_at(var@), to_int_model(iv), vv),
            ))))
            &&& (pure_eval(pre, index) matches PureOut::Fault(m) ==> (r matches Err(e) && e@ == m
                && post == pre))
            &&& (pure_eval(pre, value) matches PureOut::Fault(m) ==> (pure_eval(pre, index)
                is Known ==> (r matches Err(e) && e@ == m && post == pre)))
        },
        Statement::If { condition, .. } => pure_eval(pre, condition) matches PureOut::Fault(m)
            ==> (r matches Err(e) && e@ == m && post == pre),
        Statement::While { condition, .. } => {
            &&& (pure_eval(pre, condition) matches PureOut::Fault(m) ==> (r matches Err(e) && e@
                == m && post == pre))
            &&& (pure_eval(pre, condition) matches PureOut::Known(cv) ==> (!truthy(cv) ==> (
            r matches Ok(o) && o is None && post == pre)))
        },
        Statement::Printf { format: _, args } => {
            &&& (pure_eval_all(pre, args@) is KnownAll ==> (r matches Ok(o) && o is None && post
                == pre))
            &&& (pure_eval_all(pre, args@) matches PureListOut::Fault(m) ==> (r matches Err(e)
                && e@ == m && post == pre))
        },
        Statement::ReadLine { .. } => true,
        Statement::Inc { var, value } => {
            &&& (pure_eval(pre, value) matches PureOut::Known(v) ==> (r matches Ok(o) && o is None
                && env_vars_set(pre, post, var@, add_model(pre.var_at(var@), v))))
            &&& (pure_eval(pre, value) matches PureOut::Fault(m) ==> (r matches Err(e) && e@ == m
                && post == pre))
        },
        Statement::Dec { var, value } => {
            &&& (pure_eval(pre, value) matches PureOut::Known(v) ==> (r matches Ok(o) && o is None
                && env_vars_set(pre, post, var@, sub_model(pre.var_at(var@), v))))
            &&& (pure_eval(pre, value) matches PureOut::Fault(m) ==> (r matches Err(e) && e@ == m
                && post == pre))
        },
        Statement::Push { array, value } => {
            &&& (pure_eval(pre, value) matches PureOut::Known(v) ==> (r matches Ok(o) && o is None
                && env_vars_set(pre, post, array@, push_model(pre.var_at(array@), v))))
            &&& (pure_eval(pre, value) matches PureOut::Fault(m) ==> (r matches Err(e) && e@ == m
                && post == pre))
        },
        Statement::Pop { array } => r matches Ok(o) && o is None && env_vars_set(
            pre,
            post,
            array@,
            pop_model(pre.var_at(array@)),
        ),
        Statement::Shift { array } => r matches Ok(o) && o is None && env_vars_set(
            pre,
            post,
            array@,
            shift_model(pre.var_at(array@)),
        ),
        Statement::Unshift { array, value } => {
            &&& (pure_eval(pre, value) matches PureOut::Known(v) ==> (r matches Ok(o) && o is None
                && env_vars_set(pre, post, array@, unshift_model(pre.var_at(array@), v))))
            &&& (pure_eval(pre, value) matches PureOut::Fault(m) ==> (r matches Err(e) && e@ == m
                && post == pre))
        },
        Statement::SockOpen { .. } => true,
        Statement::SockClose { .. } => r matches Ok(o) && o is None && post == pre,
        Statement::SockWrite { name: _, data } => {
            &&& (pure_eval(pre, data) is Known ==> (r matches Ok(o) && o is None && post == pre))
            &&& (pure_eval(pre, data) matches PureOut::Fault(m) ==> (r matches Err(e) && e@ == m
                && post == pre))
        },
        Statement::SockRead { name: _, var } => r matches Ok(o) && o is None && (exists|
            d: Seq<char>,
        |
            env_vars_set(pre, post, var@, Val::Text(d))),
        Statement::Import { .. } => depth == 0 ==> (r matches Err(e) && e@ == depth_msg_of()
            && post == pre),
        Statement::FunctionDef { name, fun } => {
            &&& r matches Ok(o) && o is None
            &&& post.fun_at(name@) == Some(fun)
            &&& forall|n: Seq<char>| n != name@ ==> #[trigger] post.fun_at(n) == pre.fun_at(n)
            &&& forall|n: Seq<char>| #[trigger] post.var_at(n) == pre.var_at(n)
            &&& forall|n: Seq<char>| #[trigger] post.has_var(n) == pre.has_var(n)
        },
        Statement::FunctionCall { name, args } => {
            &&& (builtin_of(name@) matches Some(b) ==> ((pure_builtin(pre, b, args@) is Known
                ==> (r matches Ok(o) && o is None && post == pre)) && (pure_builtin(pre, b, args@)
                matches PureOut::Fault(m) ==> (r matches Err(e) && e@ == m && post == pre))))
            &&& ((builtin_of(name@) is None && pre.fun_at(name@) is None) ==> (r matches Ok(o)
                && o is None && post == pre))
            &&& ((builtin_of(name@) is None && pre.fun_at(name@) is Some && pure_eval_all(
                pre,
                args@,
            ) is KnownAll && depth == 0) ==> (r matches Err(e) && e@ == depth_msg_of() && post
                == pre))
            &&& (pure_eval_all(pre, args@) matches PureListOut::Fault(m) ==> ((builtin_of(name@)
                is None && pre.fun_at(name@) is Some) ==> (r matches Err(e) && e@ == m && post
                == pre)))
        },
        Statement::Return { expr } => match expr {
            Some(e0) => {
                &&& !(r matches Ok(o) && o is None)
                &&& (pure_eval(pre, e0) matches PureOut::Known(v) ==> (r matches Ok(o) && o
                    matches Some(rv) && rv@ == v && post == pre))
                &&& (pure_eval(pre, e0) matches PureOut::Fault(m) ==> (r matches Err(er) && er@
                    == m && post == pre))
            },
            None => r matches Ok(o) && o matches Some(rv) && rv@ == Val::Nil && post == pre,
        },
    }
}

/// Every statement of the sequence met its obligation in order, with a
/// normal result, across a chain of intermediate environments from
/// `pre` to `post`.
pub open spec fn steps_ok(pre: Runtime, stmts: Seq<Statement>, depth: u64, post: Runtime) -> bool
    decreases stmts.len(),
{
    if stmts.len() == 0 {
        post == pre
    } else {
        exists|mid: Runtime, ro: Result<Option<Value>, Vec<char>>|
            {
                &&& #[trigger] stmt_obligation(pre, stmts[0], depth, mid, ro)
                &&& ro is Ok
                &&& steps_ok(mid, stmts.subrange(1, stmts.len() as int), depth, post)
            }
    }
}

/// What a whole top-level run does: the statements meet their
/// obligations in order against a chain of intermediate environments;
/// the first statement whose obligation forces an error stops the run
/// with exactly that error, and a run whose steps all pass succeeds.
pub open spec fn run_obligation(
    pre: Runtime,
    stmts: Seq<Statement>,
    depth: u64,
    post: Runtime,
    r: Result<(), Vec<char>>,
) -> bool
    decreases stmts.len(),
{
    if stmts.len() == 0 {
        r is Ok && post == pre
    } else {
        exists|mid: Runtime, ro: Result<Option<Value>, Vec<char>>|
            {
                &&& #[trigger] stmt_obligation(pre, stmts[0], depth, mid, ro)
                &&& match ro {
                    Ok(_) => run_obligation(
                        mid,
                        stmts.subrange(1, stmts.len() as int),
                        depth,
                        post,
                        r,
                    ),
                    Err(m) => r matches Err(e) && e == m && post == mid,
                }
            }
    }
}

/// Every statement of the sequence met its obligation in order with a
/// value-free normal result, across a chain of environments.
pub open spec fn block_steps_ok(
    pre: Runtime,
    stmts: Seq<Statement>,
    depth: u64,
    post: Runtime,
) -> bool
    decreases stmts.len(),
{
    if stmts.len() == 0 {
        post == pre
    } else {
        exists|mid: Runtime, ro: Result<Option<Value>, Vec<char>>|
            {
                &&& #[trigger] stmt_obligation(pre, stmts[0], depth, mid, ro)
                &&& ro == Ok::<Option<Value>, Vec<char>>(None)
                &&& block_steps_ok(mid, stmts.subrange(1, stmts.len() as int), depth, post)
            }
    }
}

/// What a nested block does: its statements meet their obligations in
/// order; the first propagating return value or forced error stops the
/// block and is the block's result; a block whose statements all pass
/// yields no value.
pub open spec fn block_obligation(
    pre: Runtime,
    stmts: Seq<Statement>,
    depth: u64,
    post: Runtime,
    r: Result<Option<Value>, Vec<char>>,
) -> bool
    decreases stmts.len(),
{
    if stmts.len() == 0 {
        r matches Ok(o) && o is None && post == pre
    } else {
        exists|mid: Runtime, ro: Result<Option<Value>, Vec<char>>|
            {
                &&& #[trigger] stmt_obligation(pre, stmts[0], depth, mid, ro)
                &&& if ro == Ok::<Option<Value>, Vec<char>>(None) {
                    block_obligation(mid, stmts.subrange(1, stmts.len() as int), depth, post, r)
                } else {
                    r == ro && post == mid
                }
            }
    }
}

#[verifier::rlimit(100)]
#[verifier::spinoff_prover]
proof fn lemma_block_steps_ok_snoc(
    pre: Runtime,
    stmts: Seq<Statement>,
    depth: u64,
    mid: Runtime,
    s: Statement,
    post: Runtime,
    ro: Result<Option<Value>, Vec<char>>,
)
    requires
        block_steps_ok(pre, stmts, depth, mid),
        stmt_obligation(mid, s, depth, post, ro),
        ro == Ok::<Option<Value>, Vec<char>>(None),
    ensures
        block_steps_ok(pre, stmts.push(s), depth, post),
    decreases stmts.len(),
{
    assert(stmts.push(s)[0] == if stmts.len() == 0 {
        s
    } else {
        stmts[0]
    });
    if stmts.len() == 0 {
        assert(stmts.push(s).subrange(1, stmts.push(s).len() as int)
            =~= Seq::<Statement>::empty());
        assert(stmt_obligation(pre, stmts.push(s)[0], depth, post, ro) && ro == Ok::<
            Option<Value>,
            Vec<char>,
        >(None) && block_steps_ok(
            post,
            stmts.push(s).subrange(1, stmts.push(s).len() as int),
            depth,
            post,
        ));
    } else {
        let (m0, r0) = choose|m0: Runtime, r0: Result<Option<Value>, Vec<char>>|
            {
                &&& #[trigger] stmt_obligation(pre, stmts[0], depth, m0, r0)
                &&& r0 == Ok::<Option<Value>, Vec<char>>(None)
                &&& block_steps_ok(m0, stmts.subrange(1, stmts.len() as int), depth, mid)
            };
        lemma_block_steps_ok_snoc(
            m0,
            stmts.subrange(1, stmts.len() as int),
            depth,
            mid,
            s,
            post,
            ro,
        );
        assert(stmts.subrange(1, stmts.len() as int).push(s) =~= stmts.push(s).subrange(
            1,
            stmts.push(s).len() as int,
        ));
        assert(stmt_obligation(pre, stmts.push(s)[0], depth, m0, r0) && r0 == Ok::<
            Option<Value>,
            Vec<char>,
        >(None) && block_steps_ok(
            m0,
            stmts.push(s).subrange(1, stmts.push(s).len() as int),
            depth,
            post,
        ));
    }
}

#[verifier::rlimit(100)]
#[verifier::spinoff_prover]
proof fn lemma_block_of_steps(pre: Runtime, stmts: Seq<Statement>, depth: u64, post: Runtime)
    requires
        block_steps_ok(pre, stmts, depth, post),
    ensures
        block_obligation(pre, stmts, depth, post, Ok(None)),
    decreases stmts.len(),
{
    if stmts.len() > 0 {
        let (m0, r0) = choose|m0: Runtime, r0: Result<Option<Value>, Vec<char>>|
            {
                &&& #[trigger] stmt_obligation(pre, stmts[0], depth, m0, r0)
                &&& r0 == Ok::<Option<Value>, Vec<char>>(None)
                &&& block_steps_ok(m0, stmts.subrange(1, stmts.len() as int), depth, post)
            };
        lemma_block_of_steps(m0, stmts.subrange(1, stmts.len() as int), depth, post);
        assert(stmt_obligation(pre, stmts[0], depth, m0, r0) && if r0 == Ok::<
            Option<Value>,
            Vec<char>,
        >(None) {
            block_obligation(m0, stmts.subrange(1, stmts.len() as int), depth, post, Ok(None))
        } else {
            false
        });
    }
}

#[verifier::rlimit(100)]
#[verifier::spinoff_prover]
proof fn lemma_block_stop(
    pre: Runtime,
    prefix: Seq<Statement>,
    s: Statement,
    rest: Seq<Statement>,
    depth: u64,
    mid: Runtime,
    post: Runtime,
    ro: Result<Option<Value>, Vec<char>>,
)
    requires
        block_steps_ok(pre, prefix, depth, mid),
        stmt_obligation(mid, s, depth, post, ro),
        ro != Ok::<Option<Value>, Vec<char>>(None),
    ensures
        block_obligation(pre, prefix + seq![s] + rest, depth, post, ro),
    decreases prefix.len(),
{
    let whole = prefix + seq![s] + rest;
    if prefix.len() == 0 {
        assert(whole[0] == s);
        assert(stmt_obligation(pre, whole[0], depth, post, ro) && if ro == Ok::<
            Option<Value>,
            Vec<char>,
        >(None) {
            false
        } else {
            ro == ro && post == post
        });
    } else {
        let (m0, r0) = choose|m0: Runtime, r0: Result<Option<Value>, Vec<char>>|
            {
                &&& #[trigger] stmt_obligation(pre, prefix[0], depth, m0, r0)
                &&& r0 == Ok::<Option<Value>, Vec<char>>(None)
                &&& block_steps_ok(m0, prefix.subrange(1, prefix.len() as int), depth, mid)
            };
        lemma_block_stop(
            m0,
            prefix.subrange(1, prefix.len() as int),
            s,
            rest,
            depth,
            mid,
            post,
            ro,
        );
        assert(whole[0] == prefix[0]);
        assert(whole.subrange(1, whole.len() as int) =~= prefix.subrange(
            1,
            prefix.len() as int,
        ) + seq![s] + rest);
        assert(stmt_obligation(pre, whole[0], depth, m0, r0) && if r0 == Ok::<
            Option<Value>,
            Vec<char>,
        >(None) {
            block_obligation(m0, whole.subrange(1, whole.len() as int), depth, post, ro)
        } else {
            false
        });
    }
}

proof fn lemma_steps_ok_snoc(
    pre: Runtime,
    stmts: Seq<Statement>,
    depth: u64,
    mid: Runtime,
    s: Statement,
    post: Runtime,
    ro: Result<Option<Value>, Vec<char>>,
)
    requires
        steps_ok(pre, stmts, depth, mid),
        stmt_obligation(mid, s, depth, post, ro),
        ro is Ok,
    ensures
        steps_ok(pre, stmts.push(s), depth, post),
    decreases stmts.len(),
{
    assert(stmts.push(s)[0] == if stmts.len() == 0 {
        s
    } else {
        stmts[0]
    });
    if stmts.len() == 0 {
        assert(stmts.push(s).subrange(1, stmts.push(s).len() as int)
            =~= Seq::<Statement>::empty());
        assert(stmt_obligation(pre, stmts.push(s)[0], depth, post, ro) && ro is Ok && steps_ok(
            post,
            stmts.push(s).subrange(1, stmts.push(s).len() as int),
            depth,
            post,
        ));
    } else {
        let (m0, r0) = choose|m0: Runtime, r0: Result<Option<Value>, Vec<char>>|
            {
                &&& #[trigger] stmt_obligation(pre, stmts[0], depth, m0, r0)
                &&& r0 is Ok
                &&& steps_ok(m0, stmts.subrange(1, stmts.len() as int), depth, mid)
            };
        lemma_steps_ok_snoc(m0, stmts.subrange(1, stmts.len() as int), depth, mid, s, post, ro);
        assert(stmts.subrange(1, stmts.len() as int).push(s) =~= stmts.push(s).subrange(
            1,
            stmts.push(s).len() as int,
        ));
        assert(stmt_obligation(pre, stmts.push(s)[0], depth, m0, r0) && r0 is Ok && steps_ok(
            m0,
            stmts.push(s).subrange(1, stmts.push(s).len() as int),
            depth,
            post,
        ));
    }
}

proof fn lemma_run_of_steps(pre: Runtime, stmts: Seq<Statement>, depth: u64, post: Runtime)
    requires
        steps_ok(pre, stmts, depth, post),
    ensures
        run_obligation(pre, stmts, depth, post, Ok(())),
    decreases stmts.len(),
{
    if stmts.len() > 0 {
        let (m0, r0) = choose|m0: Runtime, r0: Result<Option<Value>, Vec<char>>|
            {
                &&& #[trigger] stmt_obligation(pre, stmts[0], depth, m0, r0)
                &&& r0 is Ok
                &&& steps_ok(m0, stmts.subrange(1, stmts.len() as int), depth, post)
            };
        lemma_run_of_steps(m0, stmts.subrange(1, stmts.len() as int), depth, post);
        assert(stmt_obligation(pre, stmts[0], depth, m0, r0) && match r0 {
            Ok(_) => run_obligation(
                m0,
                stmts.subrange(1, stmts.len() as int),
                depth,
                post,
                Ok(()),
            ),
            Err(m) => false,
        });
    }
}

proof fn lemma_run_err(
    pre: Runtime,
    prefix: Seq<Statement>,
    s: Statement,
    rest: Seq<Statement>,
    depth: u64,
    mid: Runtime,
    post: Runtime,
    em: Vec<char>,
)
    requires
        steps_ok(pre, prefix, depth, mid),
        stmt_obligation(mid, s, depth, post, Err(em)),
    ensures
        run_obligation(pre, prefix + seq![s] + rest, depth, post, Err(em)),
    decreases prefix.len(),
{
    let whole = prefix + seq![s] + rest;
    if prefix.len() == 0 {
        assert(whole[0] == s);
        assert(whole.subrange(1, whole.len() as int) =~= rest);
        let ro: Result<Option<Value>, Vec<char>> = Err(em);
        assert(stmt_obligation(pre, whole[0], depth, post, ro) && match ro {
            Ok(_) => false,
            Err(m) => Err::<(), Vec<char>>(em) matches Err(e) && e == m && post == post,
        });
    } else {
        let (m0, r0) = choose|m0: Runtime, r0: Result<Option<Value>, Vec<char>>|
            {
                &&& #[trigger] stmt_obligation(pre, prefix[0], depth, m0, r0)
                &&& r0 is Ok
                &&& steps_ok(m0, prefix.subrange(1, prefix.len() as int), depth, mid)
            };
        lemma_run_err(m0, prefix.subrange(1, prefix.len() as int), s, rest, depth, mid, post, em);
        assert(whole[0] == prefix[0]);
        assert(whole.subrange(1, whole.len() as int) =~= prefix.subrange(
            1,
            prefix.len() as int,
        ) + seq![s] + rest);
        assert(stmt_obligation(pre, whole[0], depth, m0, r0) && match r0 {
            Ok(_) => run_obligation(
                m0,
                whole.subrange(1, whole.len() as int),
                depth,
                post,
                Err(em),
            ),
            Err(m) => false,
        });
    }
}

// ---------------------------------------------------------------------
// Output lines
// ---------------------------------------------------------------------

/// The rendered argument values of an output statement, concatenated.
pub open spec fn rendered_args(vals: Seq<Val>) -> Seq<char>
    decreases vals.len(),
{
    if vals.len() == 0 {
        Seq::empty()
    } else {
        rendered_args(vals.drop_last()) + print_model(vals.last())
    }
}

/// The exact line an output statement emits: the literal fragment, the
/// rendered arguments, escape substitution, and a final newline unless
/// the text already ends with one.
pub open spec fn printed_line_of(format: Seq<char>, vals: Seq<Val>) -> Seq<char> {
    let t = text::unescaped(format + rendered_args(vals));
    if t.len() > 0 && t.last() == '\n' {
        t
    } else {
        t + seq!['\n']
    }
}

/// Assemble the line an output statement emits.
pub fn format_line(format: &Vec<char>, vals: &Vec<Value>) -> (r: Vec<char>)
    ensures
        r@ == printed_line_of(format@, models_of(vals@)),
{
    let mut out = copy_chars(format);
    let mut i: usize = 0;
    proof {
        lemma_models_of(vals@);
        assert(rendered_args(models_of(vals@).subrange(0, 0)) =~= Seq::<char>::empty());
        assert(out@ =~= format@ + rendered_args(models_of(vals@).subrange(0, 0)));
    }
    while i < vals.len()
        invariant
            i <= vals@.len(),
            models_of(vals@).len() == vals@.len(),
            out@ == format@ + rendered_args(models_of(vals@).subrange(0, i as int)),
        decreases vals@.len() - i,
    {
        let rend = vals[i].print_render();
        text::push_chars(&mut out, &rend);
        i = i + 1;
        proof {
            lemma_models_of(vals@);
            let ms = models_of(vals@);
            assert(ms.subrange(0, i as int).drop_last() =~= ms.subrange(0, i - 1));
            assert(ms.subrange(0, i as int).last() == vals@[i - 1].model());
            assert(out@ =~= format@ + rendered_args(ms.subrange(0, i as int)));
        }
    }
    proof {
        assert(models_of(vals@).subrange(0, vals@.len() as int) =~= models_of(vals@));
    }
    let mut line = text::unescape(&out);
    if line.len() == 0 || line[line.len() - 1] != '\n' {
        line.push('\n');
        proof {
            assert(line@ =~= text::unescaped(format@ + rendered_args(models_of(vals@)))
                + seq!['\n']);
        }
    }
    line
}

// ---------------------------------------------------------------------
// The parameter shadow/restore protocol
// ---------------------------------------------------------------------

/// The value a name reads immediately after parameter binding: the
/// argument at the last parameter position bearing that name, `Nil`
/// when that position has no matching argument, and the pre-call value
/// for a name that is no parameter.
pub open spec fn binding_of(
    params: Seq<Seq<char>>,
    args: Seq<Val>,
    pre: Runtime,
    name: Seq<char>,
) -> Val
    decreases params.len(),
{
    if params.len() == 0 {
        pre.var_at(name)
    } else if params.last() == name {
        if params.len() - 1 < args.len() {
            args[params.len() - 1]
        } else {
            Val::Nil
        }
    } else {
        binding_of(params.drop_last(), args, pre, name)
    }
}

proof fn lemma_binding_absent(
    params: Seq<Seq<char>>,
    args: Seq<Val>,
    pre: Runtime,
    name: Seq<char>,
)
    requires
        forall|i: int| 0 <= i < params.len() ==> #[trigger] params[i] != name,
    ensures
        binding_of(params, args, pre, name) == pre.var_at(name),
    decreases params.len(),
{
    if params.len() > 0 {
        lemma_binding_absent(params.drop_last(), args, pre, name);
    }
}

proof fn lemma_binding_at(params: Seq<Seq<char>>, args: Seq<Val>, pre: Runtime, i: int)
    requires
        0 <= i < params.len(),
        forall|j: int| i < j < params.len() ==> #[trigger] params[j] != params[i],
    ensures
        binding_of(params, args, pre, params[i]) == if i < args.len() {
            args[i]
        } else {
            Val::Nil
        },
    decreases params.len(),
{
    if i < params.len() - 1 {
        assert(params.last() != params[i]);
        assert(params.drop_last()[i] == params[i]);
        lemma_binding_at(params.drop_last(), args, pre, i);
    }
}

proof fn lemma_last_occurrence(params: Seq<Seq<char>>, name: Seq<char>) -> (w: int)
    requires
        exists|i: int| 0 <= i < params.len() && #[trigger] params[i] == name,
    ensures
        0 <= w < params.len(),
        params[w] == name,
        forall|j: int| w < j < params.len() ==> #[trigger] params[j] != name,
    decreases params.len(),
{
    if params.last() == name {
        params.len() - 1
    } else {
        let i0 = choose|i: int| 0 <= i < params.len() && #[trigger] params[i] == name;
        assert(i0 < params.len() - 1);
        assert(params.drop_last()[i0] == name);
        let w = lemma_last_occurrence(params.drop_last(), name);
        assert(params[w] == params.drop_last()[w]);
        assert forall|j: int| w < j < params.len() implies params[j] != name by {
            if j < params.len() - 1 {
                assert(params[j] == params.drop_last()[j]);
            } else {
                assert(params[j] == params.last());
            }
        }
        w
    }
}

/// The value a saved slot stands for: a saved binding, or `Nil` for a
/// slot that was unbound (or bound to `Nil`).
pub open spec fn saved_model(o: Option<Value>) -> Val {
    match o {
        Some(v) => v.model(),
        None => Val::Nil,
    }
}

/// Shadow the parameter names: save each one's current binding, then
/// bind the matching argument, with `Nil` for missing trailing
/// arguments.
#[verifier::loop_isolation(false)]
#[verifier::rlimit(100)]
fn bind_params(rt: &mut Runtime, params: &Vec<Vec<char>>, args: &Vec<Value>) -> (saved: Vec<
    (Vec<char>, Option<Value>),
>)
    requires
        old(rt).wf(),
    ensures
        final(rt).wf(),
        saved@.len() == params.deep_view().len(),
        forall|i: int|
            0 <= i < params.deep_view().len() ==> (#[trigger] saved@[i]).0@
                == params.deep_view()[i],
        forall|i: int|
            #![trigger saved@[i]]
            (0 <= i < params.deep_view().len() && (forall|j: int|
                0 <= j < i ==> #[trigger] params.deep_view()[j] != params.deep_view()[i]))
                ==> saved_model(saved@[i].1) == old(rt).var_at(params.deep_view()[i]) && ((
            saved@[i].1 is Some) == (old(rt).var_at(params.deep_view()[i]) != Val::Nil)),
        forall|i: int|
            #![trigger params.deep_view()[i]]
            (0 <= i < params.deep_view().len() && (forall|j: int|
                i < j < params.deep_view().len() ==> #[trigger] params.deep_view()[j]
                    != params.deep_view()[i])) ==> final(rt).var_at(params.deep_view()[i]) == (
            if i < args@.len() {
                args@[i]@
            } else {
                Val::Nil
            }),
        forall|n: Seq<char>|
            #![trigger final(rt).var_at(n)]
            #![trigger final(rt).has_var(n)]
            (forall|i: int|
                0 <= i < params.deep_view().len() ==> #[trigger] params.deep_view()[i] != n)
                ==> final(rt).var_at(n) == old(rt).var_at(n) && final(rt).has_var(n) == old(
                rt,
            ).has_var(n),
        forall|n: Seq<char>| #[trigger] final(rt).fun_at(n) == old(rt).fun_at(n),
{
    let ghost pv = params.deep_view();
    proof {
        text::lemma_deep_chars(*params);
    }
    let mut saved: Vec<(Vec<char>, Option<Value>)> = Vec::new();
    let mut i: usize = 0;
    while i < params.len()
        invariant
            rt.wf(),
            i <= params@.len(),
            saved@.len() == i,
            forall|k: int| 0 <= k < i ==> (#[trigger] saved@[k]).0@ == pv[k],
            forall|k: int|
                #![trigger saved@[k]]
                (0 <= k < i && (forall|j: int| 0 <= j < k ==> #[trigger] pv[j] != pv[k]))
                    ==> saved_model(saved@[k].1) == old(rt).var_at(pv[k]) && ((saved@[k].1
                is Some) == (old(rt).var_at(pv[k]) != Val::Nil)),
            forall|k: int|
                #![trigger pv[k]]
                (0 <= k < i && (forall|j: int| k < j < i ==> #[trigger] pv[j] != pv[k]))
                    ==> rt.var_at(pv[k]) == (if k < args@.len() {
                    args@[k]@
                } else {
                    Val::Nil
                }),
            forall|n: Seq<char>|
                #![trigger rt.var_at(n)]
                #![trigger rt.has_var(n)]
                (forall|k: int| 0 <= k < i ==> #[trigger] pv[k] != n) ==> rt.var_at(n) == old(
                    rt,
                ).var_at(n) && rt.has_var(n) == old(rt).has_var(n),
            forall|n: Seq<char>| #[trigger] rt.fun_at(n) == old(rt).fun_at(n),
        decreases params@.len() - i,
    {
        let name = copy_chars(&params[i]);
        let cur = rt.get_var(&params[i]);
        let ghost cur_model = cur@;
        let o = match cur {
            Value::Nil => None,
            other => Some(other),
        };
        proof {
            assert(saved_model(o) == cur_model);
            assert((o is Some) == (cur_model != Val::Nil));
        }
        saved.push((name, o));
        let v = if i < args.len() {
            args[i].clone()
        } else {
            Value::Nil
        };
        let ghost gv = v@;
        rt.set_var(copy_chars(&params[i]), v);
        i = i + 1;
        proof {
            assert forall|k: int|
                (0 <= k < i && (forall|j: int| k < j < i ==> #[trigger] pv[j] != pv[k]))
                implies rt.var_at(pv[k]) == (if k < args@.len() {
                args@[k]@
            } else {
                Val::Nil
            }) by {
                if k == i - 1 {
                    assert(rt.var_at(pv[k]) == gv);
                } else {
                    assert(pv[i - 1] != pv[k]);
                }
            }
            assert forall|n: Seq<char>|
                (forall|k: int| 0 <= k < i ==> #[trigger] pv[k] != n) implies rt.var_at(n)
                == old(rt).var_at(n) && rt.has_var(n) == old(rt).has_var(n) by {
                assert(pv[i - 1] != n);
            }
        }
    }
    saved
}

/// Restore every shadowed name to its saved binding, removing names
/// whose slot was unbound.
#[verifier::loop_isolation(false)]
#[verifier::rlimit(100)]
fn restore_params(rt: &mut Runtime, saved: &Vec<(Vec<char>, Option<Value>)>)
    requires
        old(rt).wf(),
    ensures
        final(rt).wf(),
        forall|i: int|
            #![trigger saved@[i]]
            (0 <= i < saved@.len() && (forall|j: int|
                i < j < saved@.len() ==> (#[trigger] saved@[j]).0@ != saved@[i].0@))
                ==> final(rt).var_at(saved@[i].0@) == saved_model(saved@[i].1)
                    && final(rt).has_var(saved@[i].0@) == (saved@[i].1 is Some),
        forall|n: Seq<char>|
            #![trigger final(rt).var_at(n)]
            #![trigger final(rt).has_var(n)]
            (forall|i: int| 0 <= i < saved@.len() ==> (#[trigger] saved@[i]).0@ != n)
                ==> final(rt).var_at(n) == old(rt).var_at(n) && final(rt).has_var(n) == old(
                rt,
            ).has_var(n),
        forall|n: Seq<char>| #[trigger] final(rt).fun_at(n) == old(rt).fun_at(n),
{
    let mut i: usize = 0;
    while i < saved.len()
        invariant
            rt.wf(),
            i <= saved@.len(),
            forall|k: int|
                #![trigger saved@[k]]
                (0 <= k < i && (forall|j: int|
                    k < j < i ==> (#[trigger] saved@[j]).0@ != saved@[k].0@)) ==> rt.var_at(
                    saved@[k].0@,
                ) == saved_model(saved@[k].1) && rt.has_var(saved@[k].0@) == (saved@[k].1
                    is Some),
            forall|n: Seq<char>|
                #![trigger rt.var_at(n)]
                #![trigger rt.has_var(n)]
                (forall|k: int| 0 <= k < i ==> (#[trigger] saved@[k]).0@ != n) ==> rt.var_at(n)
                    == old(rt).var_at(n) && rt.has_var(n) == old(rt).has_var(n),
            forall|n: Seq<char>| #[trigger] rt.fun_at(n) == old(rt).fun_at(n),
        decreases saved@.len() - i,
    {
        match &saved[i].1 {
            Some(v) => {
                rt.set_var(copy_chars(&saved[i].0), v.clone());
            }
            None => {
                rt.remove_var(&saved[i].0);
            }
        }
        i = i + 1;
    }
}

// ---------------------------------------------------------------------
// ---------------------------------------------------------------------
// The interpreter
// ---------------------------------------------------------------------

/// The execution engine: one environment, one base-directory stack, one
/// module search list and one in-progress module set per run.
pub struct Interpreter {
    runtime: Runtime,
    base_dirs: Vec<Vec<char>>,
    modules_paths: Vec<Vec<char>>,
    loads_in_progress: Vec<Vec<char>>,
}

impl Interpreter {
    /// The engine state is sound: the environment is well formed and
    /// the base-directory stack is never empty.
    pub closed spec fn wf(self) -> bool {
        self.runtime.wf() && self.base_dirs@.len() >= 1
    }

    /// The environment, for speaking about variables and functions.
    pub closed spec fn env(self) -> Runtime {
        self.runtime
    }

    /// The base-directory stack, outermost first.
    pub closed spec fn base_dirs_model(self) -> Seq<Seq<char>> {
        self.base_dirs.deep_view()
    }

    /// The configured module search directories, in order.
    pub closed spec fn modules_model(self) -> Seq<Seq<char>> {
        self.modules_paths.deep_view()
    }

    /// The canonical paths of module loads currently in progress.
    pub closed spec fn loads_model(self) -> Seq<Seq<char>> {
        self.loads_in_progress.deep_view()
    }
}

impl Interpreter {
    /// A well-formed engine always has a base directory: the outermost
    /// entry never leaves the stack, so the push/pop round trip holds
    /// without further assumptions.
    pub proof fn lemma_wf_base_stack(self)
        requires
            self.wf(),
        ensures
            self.base_dirs_model().len() >= 1,
    {
        crate::text::lemma_deep_chars(self.base_dirs);
    }
}

/// Execution restores the surrounding frame: the base-directory stack,
/// the module search list and the in-progress set end exactly as they
/// began.
pub open spec fn same_frame(pre: Interpreter, post: Interpreter) -> bool {
    &&& post.base_dirs_model() == pre.base_dirs_model()
    &&& post.modules_model() == pre.modules_model()
    &&& post.loads_model() == pre.loads_model()
}

/// Whether a table of texts holds one equal to `x`.
fn contains_text(v: &Vec<Vec<char>>, x: &Vec<char>) -> (r: bool)
    ensures
        r == v.deep_view().contains(x@),
{
    proof {
        text::lemma_deep_chars(*v);
    }
    let mut i: usize = 0;
    while i < v.len()
        invariant
            i <= v@.len(),
            v.deep_view().len() == v@.len(),
            forall|k: int| 0 <= k < v@.len() ==> #[trigger] v.deep_view()[k] == v@[k]@,
            forall|k: int| 0 <= k < i ==> #[trigger] v.deep_view()[k] != x@,
        decreases v@.len() - i,
    {
        if text::chars_eq(&v[i], x) {
            proof {
                assert(v.deep_view()[i as int] == x@);
            }
            return true;
        }
        i = i + 1;
    }
    proof {
        assert(forall|k: int| 0 <= k < v.deep_view().len() ==> #[trigger] v.deep_view()[k] != x@);
    }
    false
}

/// The candidate list module resolution tries, in order: the top base
/// directory joined with the path, then each (host-canonicalized)
/// module search entry joined with it, in configured order.
pub open spec fn resolve_candidates(
    base: Seq<char>,
    entries: Seq<Seq<char>>,
    path: Seq<char>,
) -> Seq<Seq<char>> {
    seq![text::joined(base, path)] + Seq::new(entries.len(), |k: int| text::joined(entries[k], path))
}

/// The first position with a positive answer.
pub open spec fn first_true_of(answers: Seq<bool>) -> Option<int>
    decreases answers.len(),
{
    if answers.len() == 0 {
        None
    } else if answers[0] {
        Some(0)
    } else {
        match first_true_of(answers.subrange(1, answers.len() as int)) {
            Some(k) => Some(k + 1),
            None => None,
        }
    }
}

/// The resolution order of a relative module path over given host
/// answers: the first existing candidate wins; with none, the
/// working-directory join is used even if it does not exist; with no
/// working directory, the path stands as requested.
pub open spec fn resolution_of(
    base: Seq<char>,
    entries: Seq<Seq<char>>,
    path: Seq<char>,
    answers: Seq<bool>,
    wd: Option<Seq<char>>,
) -> Seq<char> {
    let cands = resolve_candidates(base, entries, path);
    match first_true_of(answers) {
        Some(k) => if 0 <= k < cands.len() {
            cands[k]
        } else {
            path
        },
        None => match wd {
            Some(d) => text::joined(d, path),
            None => path,
        },
    }
}

proof fn lemma_first_true_at(answers: Seq<bool>, i: int)
    requires
        0 <= i < answers.len(),
        answers[i],
        forall|j: int| 0 <= j < i ==> !answers[j],
    ensures
        first_true_of(answers) == Some(i),
    decreases i,
{
    if i > 0 {
        lemma_first_true_at(answers.subrange(1, answers.len() as int), i - 1);
    }
}

proof fn lemma_first_true_none(answers: Seq<bool>)
    requires
        forall|j: int| 0 <= j < answers.len() ==> !answers[j],
    ensures
        first_true_of(answers) is None,
    decreases answers.len(),
{
    if answers.len() > 0 {
        lemma_first_true_none(answers.subrange(1, answers.len() as int));
    }
}

/// The first position holding a positive existence answer, if any.
fn first_true(flags: &Vec<bool>) -> (r: Option<usize>)
    ensures
        match r {
            Some(i) => i < flags@.len() && flags@[i as int] && (forall|j: int|
                0 <= j < i ==> !flags@[j]),
            None => forall|j: int| 0 <= j < flags@.len() ==> !flags@[j],
        },
{
    let mut i: usize = 0;
    while i < flags.len()
        invariant
            i <= flags@.len(),
            forall|j: int| 0 <= j < i ==> !flags@[j],
        decreases flags@.len() - i,
    {
        if flags[i] {
            return Some(i);
        }
        i = i + 1;
    }
    None
}

/// The builtin functions, intercepted by name before user-function
/// lookup.
pub enum Builtin {
    /// `len` / `strlen`: element or character count.
    Length,
    /// `shell`: run a command, capture trimmed output.
    Shell,
    /// `number`: numeric coercion.
    Number,
    /// `lower`: lowercase folding of rendered text.
    Lower,
    /// `upper`: uppercase folding of rendered text.
    Upper,
    /// `sleep`: block for whole seconds.
    Sleep,
}

/// Recognize a builtin function name.
pub open spec fn builtin_of(name: Seq<char>) -> Option<Builtin> {
    if name == "len"@ || name == "strlen"@ {
        Some(Builtin::Length)
    } else if name == "shell"@ {
        Some(Builtin::Shell)
    } else if name == "number"@ {
        Some(Builtin::Number)
    } else if name == "lower"@ {
        Some(Builtin::Lower)
    } else if name == "upper"@ {
        Some(Builtin::Upper)
    } else if name == "sleep"@ {
        Some(Builtin::Sleep)
    } else {
        None
    }
}

fn name_is(name: &Vec<char>, lit: &str) -> (r: bool)
    ensures
        r == (name@ == lit@),
{
    let l = text::chars_of(lit);
    text::chars_eq(name, &l)
}

fn builtin_lookup(name: &Vec<char>) -> (r: Option<Builtin>)
    ensures
        r == builtin_of(name@),
{
    if name_is(name, "len") || name_is(name, "strlen") {
        Some(Builtin::Length)
    } else if name_is(name, "shell") {
        Some(Builtin::Shell)
    } else if name_is(name, "number") {
        Some(Builtin::Number)
    } else if name_is(name, "lower") {
        Some(Builtin::Lower)
    } else if name_is(name, "upper") {
        Some(Builtin::Upper)
    } else if name_is(name, "sleep") {
        Some(Builtin::Sleep)
    } else {
        None
    }
}

/// What `len`/`strlen` return: the element count of an array, the
/// character count of text, zero for every other value.
pub open spec fn length_model(v: Val) -> Val {
    match v {
        Val::Text(s) => Val::Int(clip64(s.len() as int)),
        Val::Arr(a) => Val::Int(clip64(a.len() as int)),
        _ => Val::Int(0),
    }
}

/// What `number` returns: integers pass through, text is parsed, every
/// other value coerces to zero.
pub open spec fn number_model(v: Val) -> Val {
    Val::Int(to_int_model(v))
}

/// Apply `len`/`strlen`.
pub fn length_value(v: &Value) -> (r: Value)
    ensures
        r@ == length_model(v@),
{
    match v {
        Value::Text(s) => {
            let n = s.len() as u64;
            if n <= (i64::MAX as u64) {
                Value::Int(n as i64)
            } else {
                Value::Int(0)
            }
        }
        Value::Arr(a) => {
            proof {
                lemma_models_of(a@);
            }
            let n = a.len() as u64;
            if n <= (i64::MAX as u64) {
                Value::Int(n as i64)
            } else {
                Value::Int(0)
            }
        }
        _ => Value::Int(0),
    }
}

/// Apply `number`.
pub fn number_value(v: &Value) -> (r: Value)
    ensures
        r@ == number_model(v@),
{
    Value::Int(v.to_int())
}

impl Interpreter {
    /// A fresh engine: empty environment, a relative base directory,
    /// no module search path, nothing in progress.
    pub fn new() -> (r: Interpreter)
        ensures
            r.wf(),
            r.base_dirs_model() == seq!["."@],
            r.modules_model() == Seq::<Seq<char>>::empty(),
            r.loads_model() == Seq::<Seq<char>>::empty(),
            forall|n: Seq<char>| r.env().var_at(n) == Val::Nil && !r.env().has_var(n),
            forall|n: Seq<char>| r.env().fun_at(n) is None,
    {
        let mut base_dirs: Vec<Vec<char>> = Vec::new();
        base_dirs.push(text::chars_of("."));
        let r = Interpreter {
            runtime: Runtime::new(),
            base_dirs,
            modules_paths: Vec::new(),
            loads_in_progress: Vec::new(),
        };
        proof {
            assert(r.base_dirs_model() =~~= seq!["."@]);
            assert(r.modules_model() =~~= Seq::<Seq<char>>::empty());
            assert(r.loads_model() =~~= Seq::<Seq<char>>::empty());
        }
        r
    }

    /// Push a directory on the base-directory stack; relative module
    /// paths resolve against the top of this stack.
    pub fn push_base_dir(&mut self, dir: Vec<char>)
        requires
            old(self).wf(),
        ensures
            final(self).wf(),
            final(self).base_dirs_model() == old(self).base_dirs_model().push(dir@),
            final(self).modules_model() == old(self).modules_model(),
            final(self).loads_model() == old(self).loads_model(),
            final(self).env() == old(self).env(),
    {
        let ghost d = dir@;
        self.base_dirs.push(dir);
        proof {
            assert(self.base_dirs.deep_view() =~~= old(self).base_dirs.deep_view().push(d));
        }
    }

    /// Pop the base-directory stack; the outermost entry never leaves.
    pub fn pop_base_dir(&mut self)
        requires
            old(self).wf(),
        ensures
            final(self).wf(),
            final(self).base_dirs_model() == if old(self).base_dirs_model().len() > 1 {
                old(self).base_dirs_model().drop_last()
            } else {
                old(self).base_dirs_model()
            },
            final(self).modules_model() == old(self).modules_model(),
            final(self).loads_model() == old(self).loads_model(),
            final(self).env() == old(self).env(),
    {
        if self.base_dirs.len() > 1 {
            self.base_dirs.pop();
            proof {
                assert(self.base_dirs.deep_view() =~~= old(
                    self,
                ).base_dirs.deep_view().drop_last());
            }
        }
    }

    /// Configure the module search path from a single specification,
    /// splitting on both separator conventions, trimming whitespace and
    /// discarding empty segments.
    pub fn set_modules_path(&mut self, list: &Vec<char>)
        requires
            old(self).wf(),
        ensures
            final(self).wf(),
            final(self).modules_model() == text::split_paths(list@),
            final(self).base_dirs_model() == old(self).base_dirs_model(),
            final(self).loads_model() == old(self).loads_model(),
            final(self).env() == old(self).env(),
    {
        self.modules_paths = text::split_path_list(list);
    }

    /// Resolve a requested module path: an absolute path is used as is;
    /// otherwise the current base directory, then each configured
    /// search directory (canonicalized when the host can), is tried in
    /// that order for an existing file, and the working-directory join
    /// is the fallback whether or not it exists. The first-existing
    /// selection runs over plain values: the assembled candidate list
    /// and the host's existence answers.
    #[verifier::loop_isolation(false)]
    fn resolve_module_path<H: Host>(&self, host: &mut H, path: &Vec<char>) -> (r: Vec<char>)
        requires
            self.wf(),
        ensures
            text::is_absolute(path@) ==> r@ == path@,
            !text::is_absolute(path@) ==> (r@ == text::joined(
                self.base_dirs_model().last(),
                path@,
            ) || (exists|d: Seq<char>| r@ == text::joined(d, path@)) || r@ == path@),
            !text::is_absolute(path@) ==> (exists|
                entries: Seq<Seq<char>>,
                answers: Seq<bool>,
                wd: Option<Seq<char>>,
            |
                {
                    &&& entries.len() == self.modules_model().len()
                    &&& answers.len() == entries.len() + 1
                    &&& #[trigger] resolution_of(
                        self.base_dirs_model().last(),
                        entries,
                        path@,
                        answers,
                        wd,
                    ) == r@
                }),
    {
        if path.len() > 0 && path[0] == '/' {
            return copy_chars(path);
        }
        let base = &self.base_dirs[self.base_dirs.len() - 1];
        proof {
            text::lemma_deep_chars(self.base_dirs);
            text::lemma_deep_chars(self.modules_paths);
        }
        let ghost mut gentries: Seq<Seq<char>> = Seq::empty();
        let mut candidates: Vec<Vec<char>> = Vec::new();
        candidates.push(text::join_path(base, path));
        let mut i: usize = 0;
        while i < self.modules_paths.len()
            invariant
                i <= self.modules_paths@.len(),
                candidates@.len() == i + 1,
                gentries.len() == i,
                candidates@[0]@ == text::joined(base@, path@),
                forall|k: int|
                    0 <= k < gentries.len() ==> (#[trigger] candidates@[k + 1])@ == text::joined(
                        gentries[k],
                        path@,
                    ),
                forall|k: int|
                    0 <= k < candidates@.len() ==> (exists|d: Seq<char>|
                        (#[trigger] candidates@[k])@ == text::joined(d, path@)),
            decreases self.modules_paths@.len() - i,
        {
            let entry = match host.canonical_path(&self.modules_paths[i]) {
                Some(c) => c,
                None => copy_chars(&self.modules_paths[i]),
            };
            let c = text::join_path(&entry, path);
            proof {
                assert(c@ == text::joined(entry@, path@));
                gentries = gentries.push(entry@);
            }
            candidates.push(c);
            i = i + 1;
        }
        let ghost base_model = self.base_dirs_model().last();
        proof {
            assert(base_model == base@);
        }
        let mut flags: Vec<bool> = Vec::new();
        let mut j: usize = 0;
        while j < candidates.len()
            invariant
                flags@.len() == j,
                j <= candidates@.len(),
            decreases candidates@.len() - j,
        {
            flags.push(host.path_exists(&candidates[j]));
            j = j + 1;
        }
        let ghost cands_model = resolve_candidates(base_model, gentries, path@);
        proof {
            assert(cands_model.len() == candidates@.len());
            assert forall|k: int|
                0 <= k < cands_model.len() implies cands_model[k] == (#[trigger] candidates@[k])@
                by {
                if k > 0 {
                    assert(cands_model[k] == Seq::new(
                        gentries.len(),
                        |m: int| text::joined(gentries[m], path@),
                    )[k - 1]);
                    assert(candidates@[(k - 1) + 1]@ == text::joined(gentries[k - 1], path@));
                }
            }
        }
        match first_true(&flags) {
            Some(k) => {
                let chosen = copy_chars(&candidates[k]);
                proof {
                    lemma_first_true_at(flags@, k as int);
                    assert(gentries.len() == self.modules_model().len());
                    assert(resolution_of(
                        self.base_dirs_model().last(),
                        gentries,
                        path@,
                        flags@,
                        None,
                    ) == chosen@);
                    assert(exists|d: Seq<char>| chosen@ == text::joined(d, path@));
                }
                chosen
            }
            None => {
                proof {
                    lemma_first_true_none(flags@);
                }
                match host.working_dir() {
                    Some(cwd) => {
                        let c = text::join_path(&cwd, path);
                        proof {
                            assert(c@ == text::joined(cwd@, path@));
                            assert(gentries.len() == self.modules_model().len());
                            assert(resolution_of(
                                self.base_dirs_model().last(),
                                gentries,
                                path@,
                                flags@,
                                Some(cwd@),
                            ) == c@);
                        }
                        c
                    }
                    None => {
                        let c = copy_chars(path);
                        proof {
                            assert(gentries.len() == self.modules_model().len());
                            assert(resolution_of(
                                self.base_dirs_model().last(),
                                gentries,
                                path@,
                                flags@,
                                None,
                            ) == c@);
                        }
                        c
                    }
                }
            }
        }
    }

    /// Execute a statement sequence to completion. A value propagating
    /// from a top-level `return` does not stop the run. The whole run
    /// meets [`run_obligation`]: every statement's obligation holds in
    /// order across the chain of intermediate environments, and the
    /// first forced error stops the run with exactly that error. The
    /// base-directory stack, module search list and in-progress set are
    /// restored exactly, whether the run succeeds or fails.
    #[verifier::rlimit(100)]
    pub fn execute<H: Host>(&mut self, host: &mut H, statements: &Vec<Statement>) -> (r: Result<
        (),
        Vec<char>,
    >)
        requires
            old(self).wf(),
        ensures
            final(self).wf(),
            same_frame(*old(self), *final(self)),
            run_obligation(
                old(self).env(),
                statements@,
                MAX_DEPTH,
                final(self).env(),
                r,
            ),
    {
        let ghost env0 = old(self).env();
        let mut i: usize = 0;
        proof {
            assert(statements@.subrange(0, 0) =~= Seq::<Statement>::empty());
        }
        #[verifier::loop_isolation(false)]
        while i < statements.len()
            invariant
                self.wf(),
                same_frame(*old(self), *self),
                i <= statements@.len(),
                steps_ok(env0, statements@.subrange(0, i as int), MAX_DEPTH, self.env()),
            decreases statements@.len() - i,
        {
            let ghost env_before = self.env();
            let r = self.exec_stmt(host, &statements[i], MAX_DEPTH);
            match r {
                Ok(_) => {
                    proof {
                        lemma_steps_ok_snoc(
                            env0,
                            statements@.subrange(0, i as int),
                            MAX_DEPTH,
                            env_before,
                            statements@[i as int],
                            self.env(),
                            r,
                        );
                        assert(statements@.subrange(0, i as int).push(statements@[i as int])
                            =~= statements@.subrange(0, i + 1));
                    }
                }
                Err(e) => {
                    proof {
                        lemma_run_err(
                            env0,
                            statements@.subrange(0, i as int),
                            statements@[i as int],
                            statements@.subrange(i + 1, statements@.len() as int),
                            MAX_DEPTH,
                            env_before,
                            self.env(),
                            e,
                        );
                        assert(statements@.subrange(0, i as int) + seq![statements@[i as int]]
                            + statements@.subrange(i + 1, statements@.len() as int)
                            =~= statements@);
                    }
                    return Err(e);
                }
            }
            i = i + 1;
        }
        proof {
            assert(statements@.subrange(0, statements@.len() as int) =~= statements@);
            lemma_run_of_steps(env0, statements@, MAX_DEPTH, self.env());
        }
        Ok(())
    }

    /// Run a nested block: statements in order, stopping at the first
    /// propagating return value or hard failure, which becomes the
    /// block's own result — stated in [`block_obligation`].
    #[verifier::loop_isolation(false)]
    #[verifier::rlimit(100)]
    fn exec_block<H: Host>(&mut self, host: &mut H, stmts: &Vec<Statement>, depth: u64) -> (r:
        Result<Option<Value>, Vec<char>>)
        requires
            old(self).wf(),
        ensures
            final(self).wf(),
            same_frame(*old(self), *final(self)),
            block_obligation(old(self).env(), stmts@, depth, final(self).env(), r),
        decreases depth, crate::ast::stmts_size(stmts@), 2int,
    {
        let ghost env0 = old(self).env();
        let mut i: usize = 0;
        proof {
            assert(stmts@.subrange(0, 0) =~= Seq::<Statement>::empty());
        }
        while i < stmts.len()
            invariant
                self.wf(),
                same_frame(*old(self), *self),
                i <= stmts@.len(),
                block_steps_ok(env0, stmts@.subrange(0, i as int), depth, self.env()),
            decreases stmts@.len() - i,
        {
            proof {
                crate::ast::lemma_stmts_size_elem(stmts@, i as int);
            }
            let ghost env_before = self.env();
            let r = self.exec_stmt(host, &stmts[i], depth);
            match r {
                Ok(Some(v)) => {
                    proof {
                        lemma_block_stop(
                            env0,
                            stmts@.subrange(0, i as int),
                            stmts@[i as int],
                            stmts@.subrange(i + 1, stmts@.len() as int),
                            depth,
                            env_before,
                            self.env(),
                            r,
                        );
                        assert(stmts@.subrange(0, i as int) + seq![stmts@[i as int]]
                            + stmts@.subrange(i + 1, stmts@.len() as int) =~= stmts@);
                    }
                    return Ok(Some(v));
                }
                Ok(None) => {
                    proof {
                        lemma_block_steps_ok_snoc(
                            env0,
                            stmts@.subrange(0, i as int),
                            depth,
                            env_before,
                            stmts@[i as int],
                            self.env(),
                            r,
                        );
                        assert(stmts@.subrange(0, i as int).push(stmts@[i as int])
                            =~= stmts@.subrange(0, i + 1));
                    }
                }
                Err(e) => {
                    proof {
                        lemma_block_stop(
                            env0,
                            stmts@.subrange(0, i as int),
                            stmts@[i as int],
                            stmts@.subrange(i + 1, stmts@.len() as int),
                            depth,
                            env_before,
                            self.env(),
                            r,
                        );
                        assert(stmts@.subrange(0, i as int) + seq![stmts@[i as int]]
                            + stmts@.subrange(i + 1, stmts@.len() as int) =~= stmts@);
                    }
                    return Err(e);
                }
            }
            i = i + 1;
        }
        proof {
            assert(stmts@.subrange(0, stmts@.len() as int) =~= stmts@);
            lemma_block_of_steps(env0, stmts@, depth, self.env());
        }
        Ok(None)
    }

    /// Evaluate each argument expression, left to right, in the current
    /// environment.
    #[verifier::loop_isolation(false)]
    #[verifier::rlimit(100)]
    #[verifier::spinoff_prover]
    fn eval_args<H: Host>(&mut self, host: &mut H, args: &Vec<Expr>, depth: u64) -> (r: Result<
        Vec<Value>,
        Vec<char>,
    >)
        requires
            old(self).wf(),
        ensures
            final(self).wf(),
            same_frame(*old(self), *final(self)),
            pure_eval_all(old(self).env(), args@) matches PureListOut::KnownAll(vs) ==> (
            r matches Ok(vals) && models_of(vals@) == vs && final(self).env() == old(
                self,
            ).env()),
            pure_eval_all(old(self).env(), args@) matches PureListOut::Fault(m) ==> (r matches
                Err(e) && e@ == m && final(self).env() == old(self).env()),
        decreases depth, crate::ast::exprs_size(args@), 2int,
    {
        let ghost env0 = old(self).env();
        let mut vals: Vec<Value> = Vec::new();
        let mut i: usize = 0;
        proof {
            lemma_pure_all_len(env0, args@);
            assert(args@.subrange(0, args@.len() as int) =~= args@);
            assert(models_of(vals@) =~= Seq::<Val>::empty());
            match pure_eval_all(env0, args@) {
                PureListOut::KnownAll(vs) => {
                    assert(models_of(vals@) =~= vs.subrange(0, 0));
                    assert(vs.subrange(0, vs.len() as int) =~= vs);
                }
                _ => {}
            }
        }
        while i < args.len()
            invariant
                self.wf(),
                same_frame(*old(self), *self),
                i <= args@.len(),
                vals@.len() == i,
                pure_eval_all(env0, args@) matches PureListOut::KnownAll(vs) ==> (self.env()
                    == env0 && vs.len() == args@.len() && models_of(vals@) == vs.subrange(
                    0,
                    i as int,
                ) && pure_eval_all(env0, args@.subrange(i as int, args@.len() as int))
                    == PureListOut::KnownAll(vs.subrange(i as int, vs.len() as int))),
                pure_eval_all(env0, args@) matches PureListOut::Fault(m) ==> (self.env() == env0
                    && pure_eval_all(env0, args@.subrange(i as int, args@.len() as int))
                    == PureListOut::Fault(m)),
            decreases args@.len() - i,
        {
            proof {
                crate::ast::lemma_exprs_size_elem(args@, i as int);
            }
            let ghost rest = args@.subrange(i as int, args@.len() as int);
            proof {
                assert(rest[0] == args@[i as int]);
                assert(rest.subrange(1, rest.len() as int) =~= args@.subrange(
                    i + 1,
                    args@.len() as int,
                ));
            }
            let ghost vals0 = vals@;
            let v = self.eval_expr(host, &args[i], depth)?;
            vals.push(v);
            i = i + 1;
            proof {
                lemma_models_of(vals0);
                lemma_models_of(vals@);
                let tail_exprs = args@.subrange(i as int, args@.len() as int);
                match pure_eval_all(env0, args@) {
                    PureListOut::KnownAll(vs) => {
                        match pure_eval(env0, rest[0]) {
                            PureOut::Known(h) => {
                                assert(v@ == h);
                                match pure_eval_all(env0, rest.subrange(1, rest.len() as int)) {
                                    PureListOut::KnownAll(tail) => {
                                        assert(seq![h] + tail == vs.subrange(
                                            i - 1,
                                            vs.len() as int,
                                        ));
                                        assert((seq![h] + tail)[0] == h);
                                        assert(vs.subrange(i - 1, vs.len() as int)[0] == vs[i
                                            - 1]);
                                        assert(h == vs[i - 1]);
                                        assert forall|j: int|
                                            0 <= j < tail.len() implies tail[j] == vs[i
                                            + j] by {
                                            assert((seq![h] + tail)[j + 1] == tail[j]);
                                            assert(vs.subrange(i - 1, vs.len() as int)[j + 1]
                                                == vs[i - 1 + (j + 1)]);
                                            assert(i - 1 + (j + 1) == i + j);
                                        }
                                        assert((seq![h] + tail).len() == vs.subrange(
                                            i - 1,
                                            vs.len() as int,
                                        ).len());
                                        assert(tail =~= vs.subrange(i as int, vs.len() as int));
                                        assert(pure_eval_all(env0, tail_exprs)
                                            == PureListOut::KnownAll(vs.subrange(
                                            i as int,
                                            vs.len() as int,
                                        )));
                                    }
                                    _ => {
                                        assert(false);
                                    }
                                }
                                assert(models_of(vals@) =~= vs.subrange(0, i as int));
                            }
                            _ => {
                                assert(false);
                            }
                        }
                    }
                    PureListOut::Fault(m) => {
                        assert(pure_eval_all(env0, tail_exprs) == PureListOut::Fault(m));
                    }
                    _ => {}
                }
            }
        }
        proof {
            match pure_eval_all(env0, args@) {
                PureListOut::KnownAll(vs) => {
                    assert(models_of(vals@) =~= vs);
                }
                _ => {}
            }
        }
        Ok(vals)
    }

    /// Evaluate a builtin call: the first argument, if any, is
    /// evaluated, the builtin's rule applied.
    #[verifier::loop_isolation(false)]
    fn eval_builtin<H: Host>(
        &mut self,
        host: &mut H,
        which: Builtin,
        args: &Vec<Expr>,
        depth: u64,
    ) -> (r: Result<Value, Vec<char>>)
        requires
            old(self).wf(),
        ensures
            final(self).wf(),
            same_frame(*old(self), *final(self)),
            pure_builtin(old(self).env(), which, args@) matches PureOut::Known(v) ==> (r matches
                Ok(rv) && rv@ == v && final(self).env() == old(self).env()),
            pure_builtin(old(self).env(), which, args@) matches PureOut::Fault(m) ==> (r matches
                Err(e) && e@ == m && final(self).env() == old(self).env()),
        decreases depth, crate::ast::exprs_size(args@), 2int,
    {
        let first = if args.len() > 0 {
            proof {
                crate::ast::lemma_exprs_size_elem(args@, 0);
            }
            match self.eval_expr(host, &args[0], depth) {
                Ok(v) => Some(v),
                Err(e) => {
                    return Err(e);
                }
            }
        } else {
            None
        };
        match which {
            Builtin::Length => match &first {
                Some(v) => Ok(length_value(v)),
                None => Ok(Value::Int(0)),
            },
            Builtin::Shell => match &first {
                Some(v) => {
                    let cmd = v.render();
                    let mut out = host.run_shell(&cmd);
                    text::chomp_line_end(&mut out);
                    Ok(Value::Text(out))
                }
                None => Ok(Value::Text(Vec::new())),
            },
            Builtin::Number => match &first {
                Some(v) => Ok(number_value(v)),
                None => Ok(Value::Int(0)),
            },
            Builtin::Lower => match &first {
                Some(v) => {
                    let t = v.render();
                    Ok(Value::Text(pattern::to_lower(&t)))
                }
                None => Ok(Value::Text(Vec::new())),
            },
            Builtin::Upper => match &first {
                Some(v) => {
                    let t = v.render();
                    Ok(Value::Text(pattern::to_upper(&t)))
                }
                None => Ok(Value::Text(Vec::new())),
            },
            Builtin::Sleep => {
                match &first {
                    Some(v) => {
                        let n = v.to_int();
                        let secs: u64 = if n < 0 {
                            0
                        } else {
                            n as u64
                        };
                        host.sleep_secs(secs);
                    }
                    None => {}
                }
                Ok(Value::Nil)
            }
        }
    }

    /// Call a user-defined function: arguments are already evaluated;
    /// parameters shadow any caller variables of the same name, the
    /// body runs against the shared environment, and every shadowed
    /// name is restored afterwards — on failure too.
    ///
    /// After the call every caller variable that shared a name with a
    /// (non-repeated) parameter reads exactly as it did before the
    /// call. The bindings themselves are visible through
    /// [`binding_of`]: a body whose first statement returns a variable
    /// is promised the bound value of that name — the matching
    /// argument, `Nil` for a missing trailing argument, and the
    /// caller's value for a name that is no parameter.
    #[verifier::rlimit(100)]
    #[verifier::spinoff_prover]
    pub fn call_user<H: Host>(
        &mut self,
        host: &mut H,
        params: &Vec<Vec<char>>,
        body: &Vec<Statement>,
        args: &Vec<Value>,
        depth: u64,
    ) -> (r: Result<Option<Value>, Vec<char>>)
        requires
            old(self).wf(),
        ensures
            final(self).wf(),
            same_frame(*old(self), *final(self)),
            forall|i: int|
                #![trigger params.deep_view()[i]]
                (0 <= i < params.deep_view().len() && (forall|j: int|
                    0 <= j < params.deep_view().len() && j != i
                        ==> #[trigger] params.deep_view()[j] != params.deep_view()[i]))
                    ==> final(self).env().var_at(params.deep_view()[i]) == old(
                    self,
                ).env().var_at(params.deep_view()[i]) && final(self).env().has_var(
                    params.deep_view()[i],
                ) == (old(self).env().var_at(params.deep_view()[i]) != Val::Nil),
            body@.len() == 0 ==> (r matches Ok(o) && o is None),
            body@.len() >= 1 ==> (body@[0] matches Statement::Return { expr: oe } ==> ((oe
                is None ==> (r matches Ok(o) && o matches Some(rv) && rv@ == Val::Nil)) && (
            oe matches Some(e0) ==> (e0 matches Expr::Variable(q) ==> (r matches Ok(o) && o
                matches Some(rv) && rv@ == binding_of(
                params.deep_view(),
                models_of(args@),
                old(self).env(),
                q@,
            )))))),
        decreases depth, crate::ast::stmts_size(body@), 3int,
    {
        let saved = bind_params(&mut self.runtime, params, args);
        let ghost bound = self.runtime;
        let body_result = self.exec_block(host, body, depth);
        proof {
            let pv = params.deep_view();
            let avs = models_of(args@);
            lemma_models_of(args@);
            if body@.len() >= 1 {
                let after_body = self.env();
                let (m0, r0) = choose|m0: Runtime, r0: Result<Option<Value>, Vec<char>>|
                    {
                        &&& #[trigger] stmt_obligation(bound, body@[0], depth, m0, r0)
                        &&& if r0 == Ok::<Option<Value>, Vec<char>>(None) {
                            block_obligation(
                                m0,
                                body@.subrange(1, body@.len() as int),
                                depth,
                                after_body,
                                body_result,
                            )
                        } else {
                            body_result == r0 && after_body == m0
                        }
                    };
                match body@[0] {
                    Statement::Return { expr: oe } => {
                        assert(r0 != Ok::<Option<Value>, Vec<char>>(None));
                        assert(body_result == r0);
                        match oe {
                            Some(e0) => {
                                match e0 {
                                    Expr::Variable(q) => {
                                        assert(pure_eval(bound, e0) == PureOut::Known(
                                            bound.var_at(q@),
                                        ));
                                        if exists|i: int|
                                            0 <= i < pv.len() && #[trigger] pv[i] == q@ {
                                            let w = lemma_last_occurrence(pv, q@);
                                            lemma_binding_at(pv, avs, old(self).env(), w);
                                            assert(bound.var_at(pv[w]) == (if w < args@.len() {
                                                args@[w]@
                                            } else {
                                                Val::Nil
                                            }));
                                        } else {
                                            lemma_binding_absent(pv, avs, old(self).env(), q@);
                                            assert(bound.var_at(q@) == old(self).env().var_at(
                                                q@,
                                            ));
                                        }
                                    }
                                    _ => {}
                                }
                            }
                            None => {}
                        }
                    }
                    _ => {}
                }
            }
        }
        restore_params(&mut self.runtime, &saved);
        proof {
            let pv = params.deep_view();
            assert forall|i: int|
                (0 <= i < pv.len() && (forall|j: int|
                    0 <= j < pv.len() && j != i ==> #[trigger] pv[j] != pv[i]))
                implies self.runtime.var_at(pv[i]) == old(self).runtime.var_at(pv[i])
                && self.runtime.has_var(pv[i]) == (old(self).runtime.var_at(pv[i])
                != Val::Nil) by {
                assert(saved@[i].0@ == pv[i]);
                assert(forall|j: int| i < j < saved@.len() ==> (#[trigger] saved@[j]).0@ != saved@[i].0@);
                assert(saved_model(saved@[i].1) == old(self).runtime.var_at(pv[i]));
                assert((saved@[i].1 is Some) == (old(self).runtime.var_at(pv[i]) != Val::Nil));
                assert(self.runtime.var_at(saved@[i].0@) == saved_model(saved@[i].1));
                assert(self.runtime.has_var(saved@[i].0@) == (saved@[i].1 is Some));
            }
        }
        body_result
    }

    /// Execute one statement; `Ok(Some(v))` signals an in-flight
    /// `return` propagating upward. Everything the statement's own
    /// expressions and the environment decide — results, environment
    /// effects, branch selection, the engine's own errors — is promised
    /// through [`stmt_obligation`].
    #[verifier::loop_isolation(false)]
    #[verifier::rlimit(100)]
    #[verifier::spinoff_prover]
    fn exec_stmt<H: Host>(&mut self, host: &mut H, stmt: &Statement, depth: u64) -> (r: Result<
        Option<Value>,
        Vec<char>,
    >)
        requires
            old(self).wf(),
        ensures
            final(self).wf(),
            same_frame(*old(self), *final(self)),
            stmt_obligation(old(self).env(), *stmt, depth, final(self).env(), r),
            *stmt matches Statement::If { condition, then_body, elseif_parts, else_body } ==> (
            pure_eval(old(self).env(), condition) matches PureOut::Known(cv) ==> ((truthy(cv)
                ==> block_obligation(
                old(self).env(),
                then_body@,
                depth,
                final(self).env(),
                r,
            )) && ((!truthy(cv) && elseif_parts@.len() == 0) ==> (match else_body {
                Some(ss) => block_obligation(old(self).env(), ss@, depth, final(self).env(), r),
                None => r matches Ok(o) && o is None && final(self).env() == old(self).env(),
            })))),
        decreases depth, crate::ast::stmt_size(*stmt), 1int,
    {
        let ghost env0 = old(self).env();
        match stmt {
            Statement::Assignment { var, value } => {
                let v = self.eval_expr(host, value, depth)?;
                self.runtime.set_var(copy_chars(var), v);
                Ok(None)
            }
            Statement::IndexAssignment { var, index, value } => {
                let idx = self.eval_expr(host, index, depth)?.to_int();
                let v = self.eval_expr(host, value, depth)?;
                let cur = self.runtime.get_var(var);
                let updated = set_index(cur, idx, v);
                self.runtime.set_var(copy_chars(var), updated);
                Ok(None)
            }
            Statement::If { condition, then_body, elseif_parts, else_body } => {
                let c = self.eval_expr(host, condition, depth)?;
                if c.is_truthy() {
                    return self.exec_block(host, then_body, depth);
                }
                let mut i: usize = 0;
                while i < elseif_parts.len()
                    invariant
                        self.wf(),
                        same_frame(*old(self), *self),
                        i <= elseif_parts@.len(),
                        (pure_eval(env0, *condition) is Known && elseif_parts@.len() == 0)
                            ==> self.env() == env0,
                    decreases elseif_parts@.len() - i,
                {
                    proof {
                        crate::ast::lemma_pairs_size_elem(elseif_parts@, i as int);
                    }
                    let c = self.eval_expr(host, &elseif_parts[i].0, depth)?;
                    if c.is_truthy() {
                        return self.exec_block(host, &elseif_parts[i].1, depth);
                    }
                    i = i + 1;
                }
                match else_body {
                    Some(stmts) => {
                        self.exec_block(host, stmts, depth)
                    }
                    None => Ok(None),
                }
            }
            Statement::While { condition, body } => {
                let mut steps: u64 = LOOP_BUDGET;
                loop
                    invariant
                        self.wf(),
                        same_frame(*old(self), *self),
                        pure_eval(env0, *condition) is Fault ==> (steps == LOOP_BUDGET
                            && self.env() == env0),
                        (pure_eval(env0, *condition) matches PureOut::Known(cv) && !truthy(cv))
                            ==> (steps == LOOP_BUDGET && self.env() == env0),
                    decreases steps,
                {
                    if steps == 0 {
                        return Err(steps_msg());
                    }
                    steps = steps - 1;
                    let c = self.eval_expr(host, condition, depth)?;
                    if !c.is_truthy() {
                        return Ok(None);
                    }
                    let r = self.exec_block(host, body, depth)?;
                    if let Some(v) = r {
                        return Ok(Some(v));
                    }
                }
            }
            Statement::Printf { format, args } => {
                let vals = self.eval_args(host, args, depth)?;
                let line = format_line(format, &vals);
                host.emit_out(&line);
                Ok(None)
            }
            Statement::ReadLine { var } => {
                match host.read_line() {
                    Ok(mut input) => {
                        text::chomp_crlf(&mut input);
                        self.runtime.set_var(copy_chars(var), Value::Text(input));
                        Ok(None)
                    }
                    Err(e) => Err(read_fail_msg(&e)),
                }
            }
            Statement::Inc { var, value } => {
                let cur = self.runtime.get_var(var);
                let delta = self.eval_expr(host, value, depth)?;
                let next = cur.add(&delta);
                self.runtime.set_var(copy_chars(var), next);
                Ok(None)
            }
            Statement::Dec { var, value } => {
                let cur = self.runtime.get_var(var);
                let delta = self.eval_expr(host, value, depth)?;
                let next = cur.subtract(&delta);
                self.runtime.set_var(copy_chars(var), next);
                Ok(None)
            }
            Statement::Push { array, value } => {
                let cur = self.runtime.get_var(array);
                let v = self.eval_expr(host, value, depth)?;
                let next = push_onto(cur, v);
                self.runtime.set_var(copy_chars(array), next);
                Ok(None)
            }
            Statement::Pop { array } => {
                let cur = self.runtime.get_var(array);
                let next = pop_from(cur);
                self.runtime.set_var(copy_chars(array), next);
                Ok(None)
            }
            Statement::Shift { array } => {
                let cur = self.runtime.get_var(array);
                let next = shift_from(cur);
                self.runtime.set_var(copy_chars(array), next);
                Ok(None)
            }
            Statement::Unshift { array, value } => {
                let cur = self.runtime.get_var(array);
                let v = self.eval_expr(host, value, depth)?;
                let next = unshift_onto(cur, v);
                self.runtime.set_var(copy_chars(array), next);
                Ok(None)
            }
            Statement::SockOpen { name, host: peer, port } => {
                let peer_text = self.eval_expr(host, peer, depth)?.render();
                let port_num = self.eval_expr(host, port, depth)?.to_int();
                let port16: u16 = #[verifier::truncate] (port_num as u16);
                if host.open_socket(name, &peer_text, port16) {
                    Ok(None)
                } else {
                    Err(connect_fail_msg(&peer_text, port16))
                }
            }
            Statement::SockClose { name } => {
                host.close_socket(name);
                Ok(None)
            }
            Statement::SockWrite { name, data } => {
                let v = self.eval_expr(host, data, depth)?;
                let rendered = v.render();
                host.write_socket(name, &rendered);
                Ok(None)
            }
            Statement::SockRead { name, var } => {
                let data = match host.read_socket(name) {
                    Some(d) => d,
                    None => Vec::new(),
                };
                let ghost gd = data@;
                self.runtime.set_var(copy_chars(var), Value::Text(data));
                proof {
                    assert(env_vars_set(env0, self.env(), var@, Val::Text(gd)));
                }
                Ok(None)
            }
            Statement::Import { path } => {
                self.exec_import(host, path, depth)
            }
            Statement::FunctionDef { name, fun } => {
                self.runtime.define_function(copy_chars(name), crate::runtime::rc_clone(fun));
                Ok(None)
            }
            Statement::FunctionCall { name, args } => {
                match builtin_lookup(name) {
                    Some(which) => {
                        let _ = self.eval_builtin(host, which, args, depth)?;
                        Ok(None)
                    }
                    None => {
                        match self.runtime.get_function(name) {
                            Some(fun) => {
                                let vals = self.eval_args(host, args, depth)?;
                                if depth == 0 {
                                    return Err(depth_msg());
                                }
                                self.call_user(host, &fun.params, &fun.body, &vals, depth - 1)
                            }
                            None => {
                                let w = warn_stmt_msg(name);
                                host.emit_warning(&w);
                                Ok(None)
                            }
                        }
                    }
                }
            }
            Statement::Return { expr } => {
                match expr {
                    Some(e) => {
                        let v = self.eval_expr(host, e, depth)?;
                        Ok(Some(v))
                    }
                    None => Ok(Some(Value::Nil)),
                }
            }
        }
    }

    /// Load and run a module against the shared environment: resolve
    /// the path, refuse a load already in progress, parse through the
    /// host, execute with the module's directory as base, and restore
    /// the base-directory stack and the in-progress set on every exit
    /// path before any failure propagates.
    #[verifier::loop_isolation(false)]
    fn exec_import<H: Host>(&mut self, host: &mut H, path: &Vec<char>, depth: u64) -> (r: Result<
        Option<Value>,
        Vec<char>,
    >)
        requires
            old(self).wf(),
        ensures
            final(self).wf(),
            same_frame(*old(self), *final(self)),
            depth == 0 ==> (r matches Err(e) && e@ == depth_msg_of() && final(self).env() == old(
                self,
            ).env()),
        decreases depth, 0nat, 0int,
    {
        if depth == 0 {
            return Err(depth_msg());
        }
        let resolved = self.resolve_module_path(host, path);
        let canonical = match host.canonical_path(&resolved) {
            Some(c) => c,
            None => copy_chars(&resolved),
        };
        if contains_text(&self.loads_in_progress, &canonical) {
            return Err(cycle_msg(&canonical));
        }
        let ghost c = canonical@;
        self.loads_in_progress.push(canonical);
        proof {
            assert(self.loads_in_progress.deep_view() =~~= old(
                self,
            ).loads_in_progress.deep_view().push(c));
        }
        let outcome = match host.load_module(&resolved) {
            Ok(stmts) => {
                let parent = text::parent_dir(&resolved);
                let pushed = match parent {
                    Some(dir) => {
                        let canon_dir = match host.canonical_path(&dir) {
                            Some(c) => c,
                            None => dir,
                        };
                        self.push_base_dir(canon_dir);
                        true
                    }
                    None => false,
                };
                let run = self.exec_module(host, &stmts, depth - 1);
                if pushed {
                    self.pop_base_dir();
                    proof {
                        assert(self.base_dirs.deep_view() =~= old(self).base_dirs.deep_view());
                    }
                }
                match run {
                    Ok(_) => Ok(None),
                    Err(e) => Err(e),
                }
            }
            Err(e) => Err(load_fail_msg(&e)),
        };
        let ghost pre = self.loads_in_progress.deep_view();
        self.loads_in_progress.pop();
        proof {
            assert(self.loads_in_progress.deep_view() =~~= pre.drop_last());
            assert(pre.drop_last() =~~= old(self).loads_in_progress.deep_view());
        }
        outcome
    }

    /// Run a module's statement list the way the top level does: a
    /// value propagating from a top-level `return` of the module is
    /// discarded and the remaining statements still run; a hard failure
    /// stops the module.
    #[verifier::loop_isolation(false)]
    fn exec_module<H: Host>(&mut self, host: &mut H, stmts: &Vec<Statement>, depth: u64) -> (r:
        Result<Option<Value>, Vec<char>>)
        requires
            old(self).wf(),
        ensures
            final(self).wf(),
            same_frame(*old(self), *final(self)),
            r matches Ok(o) ==> o is None,
        decreases depth, crate::ast::stmts_size(stmts@), 2int,
    {
        let mut i: usize = 0;
        while i < stmts.len()
            invariant
                self.wf(),
                same_frame(*old(self), *self),
                i <= stmts@.len(),
            decreases stmts@.len() - i,
        {
            proof {
                crate::ast::lemma_stmts_size_elem(stmts@, i as int);
            }
            let r = self.exec_stmt(host, &stmts[i], depth);
            match r {
                Ok(_) => {}
                Err(e) => {
                    return Err(e);
                }
            }
            i = i + 1;
        }
        Ok(None)
    }

    /// Evaluate an expression to a value. On the host-free fragment
    /// the result is exactly the specification-level [`pure_eval`]
    /// outcome, with the environment untouched.
    #[verifier::loop_isolation(false)]
    fn eval_expr<H: Host>(&mut self, host: &mut H, expr: &Expr, depth: u64) -> (r: Result<
        Value,
        Vec<char>,
    >)
        requires
            old(self).wf(),
        ensures
            final(self).wf(),
            same_frame(*old(self), *final(self)),
            pure_eval(old(self).env(), *expr) matches PureOut::Known(v) ==> (r matches Ok(rv)
                && rv@ == v && final(self).env() == old(self).env()),
            pure_eval(old(self).env(), *expr) matches PureOut::Fault(m) ==> (r matches Err(e)
                && e@ == m && final(self).env() == old(self).env()),
        decreases depth, crate::ast::expr_size(*expr), 1int,
    {
        let ghost env0 = old(self).env();
        match expr {
            Expr::IntLit(n) => Ok(Value::Int(*n)),
            Expr::TextLit(s) => Ok(Value::Text(copy_chars(s))),
            Expr::PatternLit(p) => Ok(Value::Pat(copy_chars(p))),
            Expr::Variable(name) => Ok(self.runtime.get_var(name)),
            Expr::Binary { op, left, right } => {
                let a = self.eval_expr(host, left, depth)?;
                let b = self.eval_expr(host, right, depth)?;
                eval_binop(op, &a, &b)
            }
            Expr::Unary { op, expr: inner } => {
                let v = self.eval_expr(host, inner, depth)?;
                Ok(eval_unop(op, &v))
            }
            Expr::ArrayLit(elems) => {
                let vals = self.eval_args(host, elems, depth)?;
                let r = Value::Arr(vals);
                proof {
                    match pure_eval_all(env0, elems@) {
                        PureListOut::KnownAll(vs) => {
                            assert(r.model() == Val::Arr(vs));
                        }
                        _ => {}
                    }
                }
                Ok(r)
            }
            Expr::Index { expr: inner, index } => {
                let v = self.eval_expr(host, inner, depth)?;
                let idx = self.eval_expr(host, index, depth)?.to_int();
                Ok(index_value(&v, idx))
            }
            Expr::Subst { pat, repl, flags, input } => {
                let src = self.eval_expr(host, input, depth)?;
                let source = src.render();
                let mut mode: Vec<char> = Vec::new();
                if text::contains_char(flags, 'i') {
                    mode.push('i');
                }
                if text::contains_char(flags, 'm') {
                    mode.push('m');
                }
                if text::contains_char(flags, 's') {
                    mode.push('s');
                }
                let mut full_pat: Vec<char> = Vec::new();
                if mode.len() > 0 {
                    full_pat.push('(');
                    full_pat.push('?');
                    text::push_chars(&mut full_pat, &mode);
                    full_pat.push(')');
                }
                text::push_chars(&mut full_pat, pat);
                proof {
                    assert(mode@ =~= (if flags@.contains('i') {
                        seq!['i']
                    } else {
                        Seq::<char>::empty()
                    }) + (if flags@.contains('m') {
                        seq!['m']
                    } else {
                        Seq::<char>::empty()
                    }) + (if flags@.contains('s') {
                        seq!['s']
                    } else {
                        Seq::<char>::empty()
                    }));
                    assert(full_pat@ =~= subst_pattern_of(pat@, flags@));
                }
                let replaced = if text::contains_char(flags, 'g') {
                    pattern::regex_replace_all(&full_pat, repl, &source)
                } else {
                    pattern::regex_replace_first(&full_pat, repl, &source)
                };
                match replaced {
                    Some(out) => Ok(Value::Text(out)),
                    None => Err(invalid_pattern_msg(pat)),
                }
            }
            Expr::Call { name, args } => {
                match builtin_lookup(name) {
                    Some(which) => {
                        self.eval_builtin(host, which, args, depth)
                    }
                    None => {
                        match self.runtime.get_function(name) {
                            Some(fun) => {
                                let vals = self.eval_args(host, args, depth)?;
                                if depth == 0 {
                                    return Err(depth_msg());
                                }
                                let ret = self.call_user(
                                    host,
                                    &fun.params,
                                    &fun.body,
                                    &vals,
                                    depth - 1,
                                )?;
                                match ret {
                                    Some(v) => Ok(v),
                                    None => Ok(Value::Nil),
                                }
                            }
                            None => {
                                let w = warn_expr_msg(name);
                                host.emit_warning(&w);
                                Ok(Value::Nil)
                            }
                        }
                    }
                }
            }
        }
    }

    /// Read a variable of the environment; an unbound name yields
    /// `Nil`.
    pub fn variable(&self, name: &Vec<char>) -> (r: Value)
        requires
            self.wf(),
        ensures
            r@ == self.env().var_at(name@),
    {
        self.runtime.get_var(name)
    }
}

} // verus!
