use crate::nodes::binaryop::BinaryOp;
use crate::nodes::expr::{args_view, expr_view, spanned_view, Expr, ExprV};
use crate::nodes::func::{table_lookup, Func, FuncTable, FuncV};
use crate::nodes::value::{Value, ValueV};
use crate::span::{Span, Spanned};
use crate::Error;
use vstd::prelude::*;
use vstd::string::StringExecFns;

verus! {

broadcast use vstd::std_specs::vec::group_vec_axioms, vstd::seq::group_seq_axioms;

// ---------------------------------------------------------------------------
// The binding stack
// ---------------------------------------------------------------------------
/// The image of a binding stack: each name as characters, each value as its
/// image, oldest binding first.
pub open spec fn stack_view(st: Seq<(String, Value)>) -> Seq<(Seq<char>, ValueV)> {
    st.map_values(|p: (String, Value)| (p.0@, p.1@))
}

/// Searches the binding stack from most-recently-pushed to oldest: shadowing
/// means the most recent binding wins.
pub open spec fn stack_lookup(st: Seq<(Seq<char>, ValueV)>, name: Seq<char>) -> Option<ValueV>
    decreases st.len(),
{
    if st.len() == 0 {
        None
    } else if st.last().0 == name {
        Some(st.last().1)
    } else {
        stack_lookup(st.drop_last(), name)
    }
}

/// The fresh stack a call executes against: exactly the callee's parameters
/// bound positionally — caller locals are not visible.
pub open spec fn zip_bindings(names: Seq<Seq<char>>, vals: Seq<ValueV>) -> Seq<
    (Seq<char>, ValueV),
> {
    Seq::new(names.len(), |k: int| (names[k], vals[k]))
}

// ---------------------------------------------------------------------------
// Error-node freedom
// ---------------------------------------------------------------------------
/// Whether an expression tree is free of parse-error placeholder nodes.
/// Evaluation is only attempted when the parse produced zero errors, in which
/// case every tree is; reaching a placeholder is an internal-invariant
/// violation, so `eval_expr` requires this.
pub open spec fn no_error_nodes(e: ExprV) -> bool
    decreases e,
{
    match e {
        ExprV::Error => false,
        ExprV::Value(_) => true,
        ExprV::Local(_) => true,
        ExprV::Var(_, a, b) => no_error_nodes((*a).0) && no_error_nodes((*b).0),
        ExprV::Then(a, b) => no_error_nodes((*a).0) && no_error_nodes((*b).0),
        ExprV::Binary(a, _, b) => no_error_nodes((*a).0) && no_error_nodes((*b).0),
        ExprV::Call(f, args) => no_error_nodes((*f).0) && args_no_error(args.0),
        ExprV::Return(a) => no_error_nodes((*a).0),
        ExprV::If(c, a, b) => no_error_nodes((*c).0) && no_error_nodes((*a).0) && no_error_nodes(
            (*b).0,
        ),
    }
}

/// Error-node freedom of an argument list.
pub open spec fn args_no_error(args: Seq<(ExprV, Span)>) -> bool
    decreases args,
{
    if args.len() == 0 {
        true
    } else {
        args_no_error(args.drop_last()) && no_error_nodes(args.last().0)
    }
}

/// Every function body in the table is free of error nodes.
pub open spec fn table_no_error(funcs: Seq<(Seq<char>, FuncV)>) -> bool {
    forall|k: int| 0 <= k < funcs.len() ==> no_error_nodes((#[trigger] funcs[k]).1.body.0)
}

/// An element of an error-free argument list is error-free.
pub proof fn lemma_args_no_error_index(args: Seq<(ExprV, Span)>, k: int)
    requires
        args_no_error(args),
        0 <= k < args.len(),
    ensures
        no_error_nodes(args[k].0),
    decreases args.len(),
{
    if k + 1 < args.len() {
        assert(args.drop_last()[k] == args[k]);
        lemma_args_no_error_index(args.drop_last(), k);
    }
}

/// A definition found by lookup is one of the table's entries.
pub proof fn lemma_table_lookup_member(funcs: Seq<(Seq<char>, FuncV)>, name: Seq<char>)
    requires
        table_lookup(funcs, name) is Some,
    ensures
        exists|k: int|
            0 <= k < funcs.len() && (#[trigger] funcs[k]).1 == table_lookup(funcs, name)->0,
    decreases funcs.len(),
{
    if funcs.len() > 0 && funcs[0].0 != name {
        lemma_table_lookup_member(funcs.drop_first(), name);
        let k0 = choose|k: int|
            0 <= k < funcs.drop_first().len() && (#[trigger] funcs.drop_first()[k]).1
                == table_lookup(funcs.drop_first(), name)->0;
        assert(funcs[k0 + 1] == funcs.drop_first()[k0]);
    }
}

// ---------------------------------------------------------------------------
// Evaluation, specification level
// ---------------------------------------------------------------------------
/// The diagnostic message for an unbound name.
pub open spec fn unbound_msg(name: Seq<char>) -> Seq<char> {
    "No such variable '"@ + name + "' in scope"@
}

/// The diagnostic message for a call with the wrong number of arguments.
pub open spec fn arity_msg(name: Seq<char>) -> Seq<char> {
    "'"@ + name + "' called with wrong number of arguments"@
}

/// The value this value holds as a 32-bit number, or the "is not a number"
/// error at `sp`.
pub open spec fn as_i32_v(v: ValueV, sp: Span) -> Result<i32, (Span, Seq<char>)> {
    match v {
        ValueV::I32(x) => Ok(x),
        _ => Err((sp, "is not a number"@)),
    }
}

/// The value this value holds as a boolean, or the "is not a bool" error.
pub open spec fn as_bool_v(v: ValueV, sp: Span) -> Result<bool, (Span, Seq<char>)> {
    match v {
        ValueV::Bool(b) => Ok(b),
        _ => Err((sp, "is not a bool"@)),
    }
}

/// The result of a numeric or relational operator on two 32-bit numbers.
/// Addition, subtraction and multiplication wrap around; division and
/// remainder truncate toward zero, fail at `bsp` on a zero divisor, and wrap
/// on the one overflowing dividend/divisor pair.
pub open spec fn apply_arith(op: BinaryOp, xa: i32, xb: i32, bsp: Span) -> Result<
    ValueV,
    (Span, Seq<char>),
> {
    match op {
        BinaryOp::Add => Ok(ValueV::I32(xa.wrapping_add(xb))),
        BinaryOp::Sub => Ok(ValueV::I32(xa.wrapping_sub(xb))),
        BinaryOp::Mul => Ok(ValueV::I32(xa.wrapping_mul(xb))),
        BinaryOp::Div => if xb == 0 {
            Err((bsp, "division by zero"@))
        } else {
            match xa.checked_div(xb) {
                Some(q) => Ok(ValueV::I32(q)),
                None => Ok(ValueV::I32(i32::MIN)),
            }
        },
        BinaryOp::Mod => if xb == 0 {
            Err((bsp, "division by zero"@))
        } else {
            match xa.checked_rem(xb) {
                Some(q) => Ok(ValueV::I32(q)),
                None => Ok(ValueV::I32(0)),
            }
        },
        BinaryOp::Gt => Ok(ValueV::Bool(xa > xb)),
        BinaryOp::Geq => Ok(ValueV::Bool(xa >= xb)),
        BinaryOp::Lt => Ok(ValueV::Bool(xa < xb)),
        BinaryOp::Leq => Ok(ValueV::Bool(xa <= xb)),
        _ => Ok(ValueV::Null),
    }
}

/// Whether the operator takes two numbers.
pub open spec fn is_arith_op(op: BinaryOp) -> bool {
    match op {
        BinaryOp::Add | BinaryOp::Sub | BinaryOp::Mul | BinaryOp::Div | BinaryOp::Mod
        | BinaryOp::Gt | BinaryOp::Geq | BinaryOp::Lt | BinaryOp::Leq => true,
        _ => false,
    }
}

/// Big-step evaluation of one expression against a function table and a
/// binding stack, with a call-depth budget `fuel`: each call into a function
/// body spends one unit, and an exhausted budget is the "recursion limit
/// reached" error at the call's span. The rules:
///
/// - a literal is its value; a local is looked up on the stack, shadowing
///   inner-most; an unbound name that names a table entry (or the built-in
///   `print`) is a function reference, and any other unbound name fails;
/// - `var` binds strictly lexically: the binding exists only for the body;
/// - `Then` yields the second value; `Return` yields its inner value and does
///   not unwind enclosing sequencing (the documented quirk);
/// - arithmetic requires `I32` operands, `&&`/`||` require booleans and
///   short-circuit, and `==`/`!=` compare structurally with no coercion;
/// - a call evaluates the callee, dispatches `print` (which evaluates and
///   discards its arguments and yields `Null`), checks arity at the argument
///   list's span, evaluates the arguments left to right, and runs the body
///   against exactly the parameter bindings;
/// - an `if` requires a boolean condition and picks a branch.
pub open spec fn spec_eval(
    e: (ExprV, Span),
    funcs: Seq<(Seq<char>, FuncV)>,
    st: Seq<(Seq<char>, ValueV)>,
    fuel: nat,
) -> Result<ValueV, (Span, Seq<char>)>
    decreases fuel, e.0, 1int,
{
    match e.0 {
        ExprV::Error => Err((e.1, "internal error: parse placeholder reached"@)),
        ExprV::Value(v) => Ok(v),
        ExprV::Local(name) => match stack_lookup(st, name) {
            Some(v) => Ok(v),
            None => if table_lookup(funcs, name) is Some || name == "print"@ {
                Ok(ValueV::Func(name))
            } else {
                Err((e.1, unbound_msg(name)))
            },
        },
        ExprV::Var(name, init, body) => match spec_eval(*init, funcs, st, fuel) {
            Err(er) => Err(er),
            Ok(v) => spec_eval(*body, funcs, st.push((name, v)), fuel),
        },
        ExprV::Then(a, b) => match spec_eval(*a, funcs, st, fuel) {
            Err(er) => Err(er),
            Ok(_) => spec_eval(*b, funcs, st, fuel),
        },
        ExprV::Return(a) => spec_eval(*a, funcs, st, fuel),
        ExprV::If(c, a, b) => match spec_eval(*c, funcs, st, fuel) {
            Err(er) => Err(er),
            Ok(cv) => match cv {
                ValueV::Bool(true) => spec_eval(*a, funcs, st, fuel),
                ValueV::Bool(false) => spec_eval(*b, funcs, st, fuel),
                _ => Err(((*c).1, "conditions must be booleans"@)),
            },
        },
        ExprV::Binary(a, op, b) => match spec_eval(*a, funcs, st, fuel) {
            Err(er) => Err(er),
            Ok(va) => if op == BinaryOp::And || op == BinaryOp::Or {
                match as_bool_v(va, (*a).1) {
                    Err(er) => Err(er),
                    Ok(ba) => if (op == BinaryOp::And && !ba) || (op == BinaryOp::Or && ba) {
                        Ok(ValueV::Bool(ba))
                    } else {
                        match spec_eval(*b, funcs, st, fuel) {
                            Err(er) => Err(er),
                            Ok(vb) => match as_bool_v(vb, (*b).1) {
                                Err(er) => Err(er),
                                Ok(bb) => Ok(ValueV::Bool(bb)),
                            },
                        }
                    },
                }
            } else if op == BinaryOp::Eq || op == BinaryOp::Neq {
                match spec_eval(*b, funcs, st, fuel) {
                    Err(er) => Err(er),
                    Ok(vb) => if op == BinaryOp::Eq {
                        Ok(ValueV::Bool(Value::spec_eq(va, vb)))
                    } else {
                        Ok(ValueV::Bool(!Value::spec_eq(va, vb)))
                    },
                }
            } else {
                match as_i32_v(va, (*a).1) {
                    Err(er) => Err(er),
                    Ok(xa) => match spec_eval(*b, funcs, st, fuel) {
                        Err(er) => Err(er),
                        Ok(vb) => match as_i32_v(vb, (*b).1) {
                            Err(er) => Err(er),
                            Ok(xb) => apply_arith(op, xa, xb, (*b).1),
                        },
                    },
                }
            },
        },
        ExprV::Call(f, args) => match spec_eval(*f, funcs, st, fuel) {
            Err(er) => Err(er),
            Ok(fv) => match fv {
                ValueV::Func(name) => if name == "print"@ {
                    match spec_eval_args(args.0, funcs, st, fuel) {
                        Err(er) => Err(er),
                        Ok(_) => Ok(ValueV::Null),
                    }
                } else {
                    match table_lookup(funcs, name) {
                        None => Err(((*f).1, "no such function in scope"@)),
                        Some(fd) => if fd.args.len() != args.0.len() {
                            Err((args.1, arity_msg(name)))
                        } else {
                            match spec_eval_args(args.0, funcs, st, fuel) {
                                Err(er) => Err(er),
                                Ok(vals) => if fuel == 0 {
                                    Err((e.1, "recursion limit reached"@))
                                } else {
                                    spec_eval(
                                        fd.body,
                                        funcs,
                                        zip_bindings(fd.args, vals),
                                        (fuel - 1) as nat,
                                    )
                                },
                            }
                        },
                    }
                },
                _ => Err(((*f).1, "is not callable"@)),
            },
        },
    }
}

/// Evaluates an argument list left to right against the caller's stack.
pub open spec fn spec_eval_args(
    args: Seq<(ExprV, Span)>,
    funcs: Seq<(Seq<char>, FuncV)>,
    st: Seq<(Seq<char>, ValueV)>,
    fuel: nat,
) -> Result<Seq<ValueV>, (Span, Seq<char>)>
    decreases fuel, args, 0int,
{
    if args.len() == 0 {
        Ok(Seq::empty())
    } else {
        match spec_eval(args[0], funcs, st, fuel) {
            Err(er) => Err(er),
            Ok(v) => match spec_eval_args(args.drop_first(), funcs, st, fuel) {
                Err(er) => Err(er),
                Ok(vs) => Ok(seq![v] + vs),
            },
        }
    }
}

// ---------------------------------------------------------------------------
// Evaluation, executable
// ---------------------------------------------------------------------------
/// The images of a list of values.
pub open spec fn vals_view(vs: Seq<Value>) -> Seq<ValueV> {
    vs.map_values(|v: Value| v@)
}

/// The value-image sequence extends pointwise under `push`.
proof fn lemma_vals_view_push(vs: Seq<Value>, v: Value)
    ensures
        vals_view(vs.push(v)) == vals_view(vs).push(v@),
{
    assert(vals_view(vs.push(v)) =~= vals_view(vs).push(v@));
}

/// The stack image extends pointwise under `push`.
proof fn lemma_stack_view_push(st: Seq<(String, Value)>, p: (String, Value))
    ensures
        stack_view(st.push(p)) == stack_view(st).push((p.0@, p.1@)),
{
    assert(stack_view(st.push(p)) =~= stack_view(st).push((p.0@, p.1@)));
}

/// A successful argument evaluation yields one value per argument.
pub proof fn lemma_eval_args_len(
    args: Seq<(ExprV, Span)>,
    funcs: Seq<(Seq<char>, FuncV)>,
    st: Seq<(Seq<char>, ValueV)>,
    fuel: nat,
)
    ensures
        match spec_eval_args(args, funcs, st, fuel) {
            Ok(vs) => vs.len() == args.len(),
            Err(_) => true,
        },
    decreases args.len(),
{
    if args.len() > 0 {
        lemma_eval_args_len(args.drop_first(), funcs, st, fuel);
    }
}

/// The numeric or relational operators; the executable form of `apply_arith`.
fn arith_x(op: BinaryOp, xa: i32, xb: i32, bsp: Span) -> (r: Result<Value, Error>)
    requires
        is_arith_op(op),
    ensures
        match (r, apply_arith(op, xa, xb, bsp)) {
            (Ok(v), Ok(sv)) => v@ == sv,
            (Err(e), Err(se)) => e.span == se.0 && e.msg@ == se.1,
            _ => false,
        },
{
    match op {
        BinaryOp::Add => Ok(Value::I32(xa.wrapping_add(xb))),
        BinaryOp::Sub => Ok(Value::I32(xa.wrapping_sub(xb))),
        BinaryOp::Mul => Ok(Value::I32(xa.wrapping_mul(xb))),
        BinaryOp::Div => {
            if xb == 0 {
                Err(Error { span: bsp, msg: "division by zero".to_owned() })
            } else {
                match xa.checked_div(xb) {
                    Some(q) => Ok(Value::I32(q)),
                    None => Ok(Value::I32(i32::MIN)),
                }
            }
        },
        BinaryOp::Mod => {
            if xb == 0 {
                Err(Error { span: bsp, msg: "division by zero".to_owned() })
            } else {
                match xa.checked_rem(xb) {
                    Some(q) => Ok(Value::I32(q)),
                    None => Ok(Value::I32(0)),
                }
            }
        },
        BinaryOp::Gt => Ok(Value::Bool(xa > xb)),
        BinaryOp::Geq => Ok(Value::Bool(xa >= xb)),
        BinaryOp::Lt => Ok(Value::Bool(xa < xb)),
        BinaryOp::Leq => Ok(Value::Bool(xa <= xb)),
        _ => unreached(),
    }
}

/// Walks a function body's expression tree against the function table and the
/// binding stack, producing a runtime value or a span-tagged evaluation
/// error, exactly as `spec_eval` describes. The stack is left as it was
/// found, whether evaluation succeeds or fails.
///
/// `fuel` bounds the depth of function calls (not expression nesting); the
/// entry points pass a budget large enough for any reasonable program, and
/// exceeding it reports the "recursion limit reached" error rather than
/// exhausting the host's stack.
pub fn eval_expr(
    expr: &Spanned<Expr>,
    funcs: &FuncTable,
    stack: &mut Vec<(String, Value)>,
    fuel: u64,
) -> (r: Result<Value, Error>)
    requires
        no_error_nodes(expr_view(expr.0)),
        table_no_error(funcs@),
    ensures
        final(stack)@ == old(stack)@,
        ({
            let s = spec_eval(spanned_view(*expr), funcs@, stack_view(old(stack)@), fuel as nat);
            match (r, s) {
                (Ok(v), Ok(sv)) => v@ == sv,
                (Err(e), Err(se)) => e.span == se.0 && e.msg@ == se.1,
                _ => false,
            }
        }),
    decreases fuel, expr.0, 1int,
{
    let ghost st0 = stack_view(stack@);
    match &expr.0 {
        Expr::Error => unreached(),
        Expr::Value(v) => Ok(v.dup()),
        Expr::Local(name) => {
            let mut idx = stack.len();
            proof {
                assert(stack_view(stack@).subrange(0, idx as int) =~= stack_view(stack@));
            }
            while idx > 0
                invariant
                    idx <= stack@.len(),
                    st0 == stack_view(stack@),
                    expr.0 == Expr::Local(*name),
                    spec_eval(
                        spanned_view(*expr),
                        funcs@,
                        st0,
                        fuel as nat,
                    ) == spec_eval((ExprV::Local(name@), expr.1), funcs@, st0, fuel as nat),
                    stack_lookup(st0, name@) == stack_lookup(
                        st0.subrange(0, idx as int),
                        name@,
                    ),
                decreases idx,
            {
                proof {
                    assert(st0[idx - 1] == (stack@[idx - 1].0@, stack@[idx - 1].1@));
                    assert(st0.subrange(0, idx as int).last() == st0[idx - 1]);
                    assert(st0.subrange(0, idx as int).drop_last() =~= st0.subrange(
                        0,
                        idx - 1,
                    ));
                }
                if stack[idx - 1].0 == *name {
                    return Ok(stack[idx - 1].1.dup());
                }
                idx = idx - 1;
            }
            proof {
                assert(st0.subrange(0, 0) =~= Seq::<(Seq<char>, ValueV)>::empty());
            }
            if funcs.contains(name.as_str()) || *name == "print".to_owned() {
                Ok(Value::Func(name.clone()))
            } else {
                let mut m = "No such variable '".to_owned();
                m.append(name.as_str());
                m.append("' in scope");
                Err(Error { span: expr.1, msg: m })
            }
        },
        Expr::Var(name, init, body) => {
            let v = match eval_expr(&*init, funcs, stack, fuel) {
                Ok(v) => v,
                Err(e) => {
                    return Err(e);
                },
            };
            let ghost spre = stack@;
            stack.push((name.clone(), v));
            proof {
                lemma_stack_view_push(spre, stack@.last());
                assert(stack_view(stack@) =~= st0.push((name@, v@)));
            }
            let res = eval_expr(&*body, funcs, stack, fuel);
            stack.pop();
            proof {
                assert(stack@ =~= old(stack)@);
            }
            res
        },
        Expr::Then(a, b) => {
            match eval_expr(&*a, funcs, stack, fuel) {
                Err(e) => Err(e),
                Ok(_) => eval_expr(&*b, funcs, stack, fuel),
            }
        },
        Expr::Return(a) => eval_expr(&*a, funcs, stack, fuel),
        Expr::If(c, a, b) => {
            match eval_expr(&*c, funcs, stack, fuel) {
                Err(e) => Err(e),
                Ok(cv) => match cv {
                    Value::Bool(true) => eval_expr(&*a, funcs, stack, fuel),
                    Value::Bool(false) => eval_expr(&*b, funcs, stack, fuel),
                    _ => Err(
                        Error { span: c.1, msg: "conditions must be booleans".to_owned() },
                    ),
                },
            }
        },
        Expr::Binary(a, op, b) => {
            let op = *op;
            let va = match eval_expr(&*a, funcs, stack, fuel) {
                Ok(v) => v,
                Err(e) => {
                    return Err(e);
                },
            };
            if op == BinaryOp::And || op == BinaryOp::Or {
                let ba = match va.bool(a.1) {
                    Ok(x) => x,
                    Err(e) => {
                        return Err(e);
                    },
                };
                if (op == BinaryOp::And && !ba) || (op == BinaryOp::Or && ba) {
                    Ok(Value::Bool(ba))
                } else {
                    let vb = match eval_expr(&*b, funcs, stack, fuel) {
                        Ok(v) => v,
                        Err(e) => {
                            return Err(e);
                        },
                    };
                    match vb.bool(b.1) {
                        Ok(bb) => Ok(Value::Bool(bb)),
                        Err(e) => Err(e),
                    }
                }
            } else if op == BinaryOp::Eq || op == BinaryOp::Neq {
                let vb = match eval_expr(&*b, funcs, stack, fuel) {
                    Ok(v) => v,
                    Err(e) => {
                        return Err(e);
                    },
                };
                let eq = va.eq_value(&vb);
                if op == BinaryOp::Eq {
                    Ok(Value::Bool(eq))
                } else {
                    Ok(Value::Bool(!eq))
                }
            } else {
                let xa = match va.num_i32(a.1) {
                    Ok(x) => x,
                    Err(e) => {
                        return Err(e);
                    },
                };
                let vb = match eval_expr(&*b, funcs, stack, fuel) {
                    Ok(v) => v,
                    Err(e) => {
                        return Err(e);
                    },
                };
                let xb = match vb.num_i32(b.1) {
                    Ok(x) => x,
                    Err(e) => {
                        return Err(e);
                    },
                };
                arith_x(op, xa, xb, b.1)
            }
        },
        Expr::Call(f, args) => {
            let fv = match eval_expr(&*f, funcs, stack, fuel) {
                Ok(v) => v,
                Err(e) => {
                    return Err(e);
                },
            };
            match fv {
                Value::Func(name) => {
                    proof {
                        crate::nodes::expr::lemma_args_view(args.0@);
                        assert(args_view(args.0@).subrange(
                            0,
                            args_view(args.0@).len() as int,
                        ) =~= args_view(args.0@));
                    }
                    if name == "print".to_owned() {
                        match eval_args(&args.0, 0, funcs, stack, fuel) {
                            Err(e) => Err(e),
                            Ok(_) => Ok(Value::Null),
                        }
                    } else {
                        match funcs.get(name.as_str()) {
                            None => Err(
                                Error { span: f.1, msg: "no such function in scope".to_owned() },
                            ),
                            Some(fd) => {
                                let ghost fdv = table_lookup(funcs@, name@)->0;
                                if fd.args.len() != args.0.len() {
                                    let mut m = "'".to_owned();
                                    m.append(name.as_str());
                                    m.append("' called with wrong number of arguments");
                                    Err(Error { span: args.1, msg: m })
                                } else {
                                    let vals = match eval_args(&args.0, 0, funcs, stack, fuel) {
                                        Ok(vs) => vs,
                                        Err(e) => {
                                            return Err(e);
                                        },
                                    };
                                    if fuel == 0 {
                                        Err(
                                            Error {
                                                span: expr.1,
                                                msg: "recursion limit reached".to_owned(),
                                            },
                                        )
                                    } else {
                                        let mut callee_stack: Vec<(String, Value)> = Vec::new();
                                        let np = fd.args.len();
                                        let mut k: usize = 0;
                                        proof {
                                            lemma_eval_args_len(
                                                args_view(args.0@),
                                                funcs@,
                                                stack_view(old(stack)@),
                                                fuel as nat,
                                            );
                                            crate::nodes::expr::lemma_args_view(args.0@);
                                            assert(args_view(args.0@).subrange(
                                                0,
                                                args_view(args.0@).len() as int,
                                            ) =~= args_view(args.0@));
                                            assert(stack_view(callee_stack@) =~= zip_bindings(
                                                fdv.args,
                                                vals_view(vals@),
                                            ).subrange(0, 0));
                                            assert(fdv.args.len() == fd.args@.len());
                                        }
                                        while k < np
                                            invariant
                                                np == fd.args@.len(),
                                                np == fdv.args.len(),
                                                np == vals@.len(),
                                                k <= np,
                                                fdv == func_view_of(fd),
                                                stack_view(callee_stack@) =~= zip_bindings(
                                                    fdv.args,
                                                    vals_view(vals@),
                                                ).subrange(0, k as int),
                                            decreases np - k,
                                        {
                                            proof {
                                                assert(fdv.args[k as int] == fd.args@[k as int]@);
                                                assert(vals_view(vals@)[k as int] == vals@[
                                                    k as int
                                                ]@);
                                            }
                                            let ghost cs0 = callee_stack@;
                                            callee_stack.push(
                                                (fd.args[k].clone(), vals[k].dup()),
                                            );
                                            proof {
                                                lemma_stack_view_push(cs0, callee_stack@.last());
                                                assert(stack_view(callee_stack@) =~= zip_bindings(
                                                    fdv.args,
                                                    vals_view(vals@),
                                                ).subrange(0, k as int + 1));
                                            }
                                            k = k + 1;
                                        }
                                        proof {
                                            assert(zip_bindings(
                                                fdv.args,
                                                vals_view(vals@),
                                            ).subrange(
                                                0,
                                                np as int,
                                            ) =~= zip_bindings(fdv.args, vals_view(vals@)));
                                            lemma_table_lookup_member(funcs@, name@);
                                        }
                                        eval_expr(&fd.body, funcs, &mut callee_stack, fuel - 1)
                                    }
                                }
                            },
                        }
                    }
                },
                other => Err(Error { span: f.1, msg: "is not callable".to_owned() }),
            }
        },
    }
}

/// The image of a definition, as `FuncTable::get` reports it.
pub open spec fn func_view_of(f: &Func) -> FuncV {
    crate::nodes::func::func_view(*f)
}

/// Evaluates the arguments from index `k` on, left to right, against the
/// caller's stack; the executable form of `spec_eval_args`.
fn eval_args(
    args: &Vec<Spanned<Expr>>,
    k: usize,
    funcs: &FuncTable,
    stack: &mut Vec<(String, Value)>,
    fuel: u64,
) -> (r: Result<Vec<Value>, Error>)
    requires
        k <= args@.len(),
        args_no_error(args_view(args@)),
        table_no_error(funcs@),
    ensures
        final(stack)@ == old(stack)@,
        ({
            let s = spec_eval_args(
                args_view(args@).subrange(k as int, args_view(args@).len() as int),
                funcs@,
                stack_view(old(stack)@),
                fuel as nat,
            );
            match (r, s) {
                (Ok(vs), Ok(svs)) => vals_view(vs@) == svs,
                (Err(e), Err(se)) => e.span == se.0 && e.msg@ == se.1,
                _ => false,
            }
        }),
    decreases fuel, args, args@.len() - k,
{
    let ghost av = args_view(args@);
    proof {
        crate::nodes::expr::lemma_args_view(args@);
    }
    if k == args.len() {
        proof {
            assert(av.subrange(k as int, av.len() as int) =~= Seq::<(ExprV, Span)>::empty());
            assert(vals_view(Seq::<Value>::empty()) =~= Seq::<ValueV>::empty());
        }
        Ok(Vec::new())
    } else {
        proof {
            lemma_args_no_error_index(av, k as int);
            assert(av.subrange(k as int, av.len() as int)[0] == av[k as int]);
            assert(av.subrange(k as int, av.len() as int).drop_first() =~= av.subrange(
                k as int + 1,
                av.len() as int,
            ));
        }
        let v = match eval_expr(&args[k], funcs, stack, fuel) {
            Ok(v) => v,
            Err(e) => {
                return Err(e);
            },
        };
        match eval_args(args, k + 1, funcs, stack, fuel) {
            Err(e) => Err(e),
            Ok(rest) => {
                let mut out: Vec<Value> = Vec::new();
                let ghost vv = v@;
                proof {
                    lemma_vals_view_push(out@, v);
                    assert(vals_view(Seq::<Value>::empty()) =~= Seq::<ValueV>::empty());
                }
                out.push(v);
                let mut rest = rest;
                let ghost restv = vals_view(rest@);
                let n = rest.len();
                let mut q: usize = 0;
                while q < n
                    invariant
                        n == rest@.len(),
                        restv == vals_view(rest@),
                        q <= n,
                        vals_view(out@) =~= seq![vv] + restv.subrange(0, q as int),
                    decreases n - q,
                {
                    proof {
                        assert(restv[q as int] == rest@[q as int]@);
                    }
                    let ghost out0 = out@;
                    out.push(rest[q].dup());
                    proof {
                        lemma_vals_view_push(out0, out@.last());
                        assert(vals_view(out@) =~= seq![vv] + restv.subrange(0, q as int + 1));
                    }
                    q = q + 1;
                }
                proof {
                    assert(restv.subrange(0, n as int) =~= restv);
                }
                Ok(out)
            },
        }
    }
}

} // verus!
