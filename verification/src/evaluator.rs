//! The tree-walking evaluator.
use vstd::prelude::*;
use vstd::string::*;
use crate::ast::{SExpr, SStmt, Expression, Statement, Program, stmts_view, exprs_view, pairs_view, idents_view, lemma_stmts_view, lemma_exprs_view, lemma_pairs_view, copy_identifiers};
use crate::object::{Object, HashPair, SObject, SKey, EnvRef, kind_name, hash_key, keys_distinct, value_wf, entries_wf, lemma_values_wf, lemma_entries_wf, objs_view, hash_pairs_view, lemma_objs_view, lemma_hash_pairs_view};
use crate::environment::{Environment, SEnv, env_get, env_set, env_enclose, env_wf, lemma_get_after_set, lemma_set_keeps_other_names, lemma_enclosed_sees_outer, lemma_get_wf, lemma_set_wf, lemma_enclose_wf};
use crate::builtins::{builtin_named, apply_builtin, lookup_builtin, call_builtin, lemma_builtins_pure};
use crate::object::Builtin;
use crate::text::push_str;

verus! {

broadcast use vstd::seq::group_seq_axioms, vstd::std_specs::vec::group_vec_axioms;

/// Whether a condition counts as true: everything but `false` and `null`.
pub open spec fn is_truthy(o: SObject) -> bool {
    match o {
        SObject::Null => false,
        SObject::Boolean(b) => b,
        _ => true,
    }
}

/// Integer division rounding toward zero, as `/` on `i64` does.
pub open spec fn trunc_div(a: int, b: int) -> int {
    let q = (if a < 0 { -a } else { a }) / (if b < 0 { -b } else { b });
    if (a < 0) != (b < 0) {
        -q
    } else {
        q
    }
}

/// Whether `v` fits in an `i64`.
pub open spec fn fits_i64(v: int) -> bool {
    i64::MIN <= v <= i64::MAX
}

/// A prefix operator applied to a value; `None` where the evaluation panics
/// (negating the least `i64`).
pub open spec fn eval_prefix(op: Seq<char>, r: SObject) -> Option<SObject> {
    if op == "!"@ {
        Some(
            match r {
                SObject::Boolean(b) => SObject::Boolean(!b),
                SObject::Null => SObject::Boolean(true),
                _ => SObject::Boolean(false),
            },
        )
    } else if op == "-"@ {
        match r {
            SObject::Integer(n) => if n == i64::MIN {
                None
            } else {
                Some(SObject::Integer((-n) as i64))
            },
            other => Some(SObject::Error("unknown operator: -"@ + kind_name(other))),
        }
    } else {
        Some(SObject::Error("unknown operator: "@ + op + kind_name(r)))
    }
}

/// An infix operator on two integers; `None` where the evaluation panics
/// (overflow, or division by zero).
pub open spec fn eval_integer_infix(op: Seq<char>, a: i64, b: i64) -> Option<SObject> {
    if op == "+"@ {
        if fits_i64(a + b) {
            Some(SObject::Integer((a + b) as i64))
        } else {
            None
        }
    } else if op == "-"@ {
        if fits_i64(a - b) {
            Some(SObject::Integer((a - b) as i64))
        } else {
            None
        }
    } else if op == "*"@ {
        if fits_i64(a * b) {
            Some(SObject::Integer((a * b) as i64))
        } else {
            None
        }
    } else if op == "/"@ {
        if b == 0 || !fits_i64(trunc_div(a as int, b as int)) {
            None
        } else {
            Some(SObject::Integer(trunc_div(a as int, b as int) as i64))
        }
    } else if op == "<"@ {
        Some(SObject::Boolean(a < b))
    } else if op == ">"@ {
        Some(SObject::Boolean(a > b))
    } else if op == "=="@ {
        Some(SObject::Boolean(a == b))
    } else if op == "!="@ {
        Some(SObject::Boolean(a != b))
    } else {
        Some(SObject::Error("unknown operator: INTEGER "@ + op + " INTEGER"@))
    }
}

/// An infix operator on two values; `None` where the evaluation panics.
pub open spec fn eval_infix(op: Seq<char>, l: SObject, r: SObject) -> Option<SObject> {
    if kind_name(l) != kind_name(r) {
        Some(SObject::Error("type mismatch: "@ + kind_name(l) + " "@ + op + " "@ + kind_name(r)))
    } else {
        match (l, r) {
            (SObject::Integer(a), SObject::Integer(b)) => eval_integer_infix(op, a, b),
            (SObject::Str(a), SObject::Str(b)) => if op == "+"@ {
                Some(SObject::Str(a + b))
            } else {
                Some(SObject::Error("unknown operator: STRING "@ + op + " STRING"@))
            },
            (SObject::Boolean(a), SObject::Boolean(b)) => if op == "=="@ {
                Some(SObject::Boolean(a == b))
            } else if op == "!="@ {
                Some(SObject::Boolean(a != b))
            } else {
                Some(SObject::Error("unknown operator: BOOLEAN "@ + op + " BOOLEAN"@))
            },
            _ => Some(
                SObject::Error("unknown operator: "@ + kind_name(l) + " "@ + op + " "@ + kind_name(r)),
            ),
        }
    }
}

/// The index of the entry of a hash stored under key `k`, or -1.
pub open spec fn hash_index(pairs: Seq<(SObject, SObject)>, k: SKey) -> int
    decreases pairs.len(),
{
    if pairs.len() == 0 {
        -1
    } else {
        let j = hash_index(pairs.drop_last(), k);
        if j >= 0 {
            j
        } else if hash_key(pairs.last().0) == Some(k) {
            pairs.len() - 1
        } else {
            -1
        }
    }
}

/// The entries of a hash after storing `value` under the key of `key`: an
/// entry with that key is replaced in place, else one is added at the end.
pub open spec fn hash_insert(pairs: Seq<(SObject, SObject)>, key: SObject, value: SObject) -> Seq<
    (SObject, SObject),
> {
    let j = hash_index(pairs, hash_key(key).unwrap());
    if j >= 0 {
        pairs.update(j, (key, value))
    } else {
        pairs.push((key, value))
    }
}

/// `left[index]`.
pub open spec fn eval_index(left: SObject, index: SObject) -> SObject {
    match left {
        SObject::Array(els) => match index {
            SObject::Integer(i) => if i < 0 || i >= els.len() {
                SObject::Null
            } else {
                els[i as int]
            },
            _ => SObject::Error("index operator not supported: "@ + kind_name(left)),
        },
        SObject::Hash(pairs) => match hash_key(index) {
            Some(k) => {
                let j = hash_index(pairs, k);
                if j >= 0 {
                    pairs[j].1
                } else {
                    SObject::Null
                }
            },
            None => SObject::Error("unusable as hash key: "@ + kind_name(index)),
        },
        _ => SObject::Error("index operator not supported: "@ + kind_name(left)),
    }
}

/// The value inside a `return`, or the value itself.
pub open spec fn unwrap_return(o: SObject) -> SObject {
    match o {
        SObject::ReturnValue(v) => *v,
        _ => o,
    }
}

/// Binds `params[i..]` to `args[i..]` in scope `sc`, as far as both reach.
pub open spec fn bind_params(env: SEnv, sc: nat, params: Seq<Seq<char>>, args: Seq<SObject>, i: nat) -> SEnv
    decreases params.len() - i,
{
    if i < params.len() && i < args.len() {
        bind_params(env_set(env, sc as int, params[i as int], args[i as int]), sc, params, args, i + 1)
    } else {
        env
    }
}

/// Evaluation of expression `e` in scope `scope` of `env`, with at most `fuel`
/// nested steps: the value and the environment after it, or `None` when the
/// fuel runs out or the evaluation panics.
pub open spec fn eval_expr(e: SExpr, env: SEnv, scope: nat, fuel: nat) -> Option<(SObject, SEnv)>
    decreases fuel,
{
    if fuel == 0 {
        None
    } else {
        let f = (fuel - 1) as nat;
        match e {
            SExpr::Int(n) => Some((SObject::Integer(n), env)),
            SExpr::Str(s) => Some((SObject::Str(s), env)),
            SExpr::Bool(b) => Some((SObject::Boolean(b), env)),
            SExpr::Ident(name) => Some(
                (
                    match env_get(env.frames, scope as int, name) {
                        Some(v) => v,
                        None => match builtin_named(name) {
                            Some(b) => SObject::Builtin(b),
                            None => SObject::Error("identifier not found: "@ + name),
                        },
                    },
                    env,
                ),
            ),
            SExpr::Prefix(op, right) => match eval_expr(*right, env, scope, f) {
                None => None,
                Some((r, env1)) => if r is Error {
                    Some((r, env1))
                } else {
                    match eval_prefix(op, r) {
                        Some(v) => Some((v, env1)),
                        None => None,
                    }
                },
            },
            SExpr::Infix(op, left, right) => match eval_expr(*left, env, scope, f) {
                None => None,
                Some((l, env1)) => if l is Error {
                    Some((l, env1))
                } else {
                    match eval_expr(*right, env1, scope, f) {
                        None => None,
                        Some((r, env2)) => if r is Error {
                            Some((r, env2))
                        } else {
                            match eval_infix(op, l, r) {
                                Some(v) => Some((v, env2)),
                                None => None,
                            }
                        },
                    }
                },
            },
            SExpr::If(cond, cons, alt) => match eval_expr(*cond, env, scope, f) {
                None => None,
                Some((c, env1)) => if c is Error {
                    Some((c, env1))
                } else if is_truthy(c) {
                    eval_block(cons, 0, SObject::Null, env1, scope, f)
                } else {
                    match alt {
                        Some(a) => eval_block(a, 0, SObject::Null, env1, scope, f),
                        None => Some((SObject::Null, env1)),
                    }
                },
            },
            SExpr::Function(params, body) => Some((SObject::Function(params, body, scope), env)),
            SExpr::Call(func, args) => match eval_expr(*func, env, scope, f) {
                None => None,
                Some((fv, env1)) => if fv is Error {
                    Some((fv, env1))
                } else {
                    match eval_exprs(args, 0, Seq::empty(), env1, scope, f) {
                        None => None,
                        Some((vals, env2)) => if vals.len() == 1 && vals[0] is Error {
                            Some((vals[0], env2))
                        } else {
                            apply_function(fv, vals, env2, f)
                        },
                    }
                },
            },
            SExpr::Array(els) => match eval_exprs(els, 0, Seq::empty(), env, scope, f) {
                None => None,
                Some((vals, env1)) => if vals.len() == 1 && vals[0] is Error {
                    Some((vals[0], env1))
                } else {
                    Some((SObject::Array(vals), env1))
                },
            },
            SExpr::Index(left, index) => match eval_expr(*left, env, scope, f) {
                None => None,
                Some((l, env1)) => if l is Error {
                    Some((l, env1))
                } else {
                    match eval_expr(*index, env1, scope, f) {
                        None => None,
                        Some((i, env2)) => if i is Error {
                            Some((i, env2))
                        } else {
                            Some((eval_index(l, i), env2))
                        },
                    }
                },
            },
            SExpr::Hash(pairs) => eval_hash(pairs, 0, Seq::empty(), env, scope, f),
        }
    }
}

/// Evaluation of `es[i..]` in order, after `acc` was gathered from `es[..i]`:
/// the values, or the single error that stopped it.
pub open spec fn eval_exprs(
    es: Seq<SExpr>,
    i: nat,
    acc: Seq<SObject>,
    env: SEnv,
    scope: nat,
    fuel: nat,
) -> Option<(Seq<SObject>, SEnv)>
    decreases fuel,
{
    if fuel == 0 {
        None
    } else if i >= es.len() {
        Some((acc, env))
    } else {
        let f = (fuel - 1) as nat;
        match eval_expr(es[i as int], env, scope, f) {
            None => None,
            Some((v, env1)) => if v is Error {
                Some((seq![v], env1))
            } else {
                eval_exprs(es, i + 1, acc.push(v), env1, scope, f)
            },
        }
    }
}

/// Evaluation of the entries `ps[i..]` of a hash literal, the entries of
/// `ps[..i]` having given `acc`.
pub open spec fn eval_hash(
    ps: Seq<(SExpr, SExpr)>,
    i: nat,
    acc: Seq<(SObject, SObject)>,
    env: SEnv,
    scope: nat,
    fuel: nat,
) -> Option<(SObject, SEnv)>
    decreases fuel,
{
    if fuel == 0 {
        None
    } else if i >= ps.len() {
        Some((SObject::Hash(acc), env))
    } else {
        let f = (fuel - 1) as nat;
        match eval_expr(ps[i as int].0, env, scope, f) {
            None => None,
            Some((key, env1)) => if key is Error {
                Some((key, env1))
            } else if hash_key(key) is None {
                Some((SObject::Error("unusable as hash key: "@ + kind_name(key)), env1))
            } else {
                match eval_expr(ps[i as int].1, env1, scope, f) {
                    None => None,
                    Some((val, env2)) => if val is Error {
                        Some((val, env2))
                    } else {
                        eval_hash(ps, i + 1, hash_insert(acc, key, val), env2, scope, f)
                    },
                }
            },
        }
    }
}

/// Evaluation of a statement.
pub open spec fn eval_stmt(s: SStmt, env: SEnv, scope: nat, fuel: nat) -> Option<(SObject, SEnv)>
    decreases fuel,
{
    if fuel == 0 {
        None
    } else {
        let f = (fuel - 1) as nat;
        match s {
            SStmt::Expr(e) => eval_expr(e, env, scope, f),
            SStmt::Return(v) => match v {
                Some(e) => match eval_expr(e, env, scope, f) {
                    None => None,
                    Some((val, env1)) => if val is Error {
                        Some((val, env1))
                    } else {
                        Some((SObject::ReturnValue(Box::new(val)), env1))
                    },
                },
                None => Some((SObject::ReturnValue(Box::new(SObject::Null)), env)),
            },
            SStmt::Let(name, e) => match eval_expr(e, env, scope, f) {
                None => None,
                Some((val, env1)) => if val is Error {
                    Some((val, env1))
                } else {
                    Some((SObject::Null, env_set(env1, scope as int, name, val)))
                },
            },
            SStmt::Block(b) => eval_block(b, 0, SObject::Null, env, scope, f),
        }
    }
}

/// Evaluation of the statements `ss[i..]` of a block, `last` being the value
/// of the statement before them: stops at a `return` value or an error.
pub open spec fn eval_block(
    ss: Seq<SStmt>,
    i: nat,
    last: SObject,
    env: SEnv,
    scope: nat,
    fuel: nat,
) -> Option<(SObject, SEnv)>
    decreases fuel,
{
    if fuel == 0 {
        None
    } else if i >= ss.len() {
        Some((last, env))
    } else {
        let f = (fuel - 1) as nat;
        match eval_stmt(ss[i as int], env, scope, f) {
            None => None,
            Some((r, env1)) => if r is ReturnValue || r is Error {
                Some((r, env1))
            } else {
                eval_block(ss, i + 1, r, env1, scope, f)
            },
        }
    }
}

/// A call of `fv` with `args`: a function runs its body in a new scope
/// enclosed by the one it was made in, its parameters bound to the arguments.
pub open spec fn apply_function(fv: SObject, args: Seq<SObject>, env: SEnv, fuel: nat) -> Option<(SObject, SEnv)>
    decreases fuel,
{
    if fuel == 0 {
        None
    } else {
        let f = (fuel - 1) as nat;
        match fv {
            SObject::Function(params, body, fenv) => {
                let sc = env.frames.len();
                let env1 = bind_params(env_enclose(env, fenv), sc, params, args, 0);
                match eval_block(body, 0, SObject::Null, env1, sc, f) {
                    None => None,
                    Some((r, env2)) => Some((unwrap_return(r), env2)),
                }
            },
            SObject::Builtin(b) => Some(apply_builtin(b, args, env)),
            other => Some((SObject::Error("not a function "@ + kind_name(other)), env)),
        }
    }
}

/// Evaluation of the statements `ss[i..]` of a program in the global scope:
/// stops at a `return` (giving the returned value) or an error.
pub open spec fn eval_prog(ss: Seq<SStmt>, i: nat, last: SObject, env: SEnv, fuel: nat) -> Option<(SObject, SEnv)>
    decreases fuel,
{
    if fuel == 0 {
        None
    } else if i >= ss.len() {
        Some((last, env))
    } else {
        let f = (fuel - 1) as nat;
        match eval_stmt(ss[i as int], env, 0, f) {
            None => None,
            Some((r, env1)) => match r {
                SObject::ReturnValue(v) => Some((*v, env1)),
                SObject::Error(_) => Some((r, env1)),
                _ => eval_prog(ss, i + 1, r, env1, f),
            },
        }
    }
}


/// What evaluating program `p` in `env` gives, when it finishes without a
/// panic: the value and the environment after it.
pub open spec fn program_result(p: Seq<SStmt>, env: SEnv) -> Option<(SObject, SEnv)> {
    if exists|f: nat| eval_prog(p, 0, SObject::Null, env, f) is Some {
        eval_prog(p, 0, SObject::Null, env, choose|f: nat| eval_prog(p, 0, SObject::Null, env, f) is Some)
    } else {
        None
    }
}

/// What evaluating statement `s` in scope `scope` of `env` gives, when it
/// finishes without a panic.
pub open spec fn statement_result(s: SStmt, env: SEnv, scope: nat) -> Option<(SObject, SEnv)> {
    if exists|f: nat| eval_stmt(s, env, scope, f) is Some {
        eval_stmt(s, env, scope, choose|f: nat| eval_stmt(s, env, scope, f) is Some)
    } else {
        None
    }
}

/// What evaluating expression `e` in scope `scope` of `env` gives, when it
/// finishes without a panic.
pub open spec fn expression_result(e: SExpr, env: SEnv, scope: nat) -> Option<(SObject, SEnv)> {
    if exists|f: nat| eval_expr(e, env, scope, f) is Some {
        eval_expr(e, env, scope, choose|f: nat| eval_expr(e, env, scope, f) is Some)
    } else {
        None
    }
}

/// More fuel never changes a finished evaluation of an expression.
pub proof fn lemma_eval_expr_fuel(e: SExpr, env: SEnv, scope: nat, f1: nat, f2: nat)
    requires
        f1 <= f2,
        eval_expr(e, env, scope, f1) is Some,
    ensures
        eval_expr(e, env, scope, f2) == eval_expr(e, env, scope, f1),
    decreases f1,
{
    let g1 = (f1 - 1) as nat;
    let g2 = (f2 - 1) as nat;
    match e {
        SExpr::Prefix(op, right) => {
            lemma_eval_expr_fuel(*right, env, scope, g1, g2);
        },
        SExpr::Infix(op, left, right) => {
            lemma_eval_expr_fuel(*left, env, scope, g1, g2);
            let l = eval_expr(*left, env, scope, g1).unwrap();
            if !(l.0 is Error) {
                lemma_eval_expr_fuel(*right, l.1, scope, g1, g2);
            }
        },
        SExpr::If(cond, cons, alt) => {
            lemma_eval_expr_fuel(*cond, env, scope, g1, g2);
            let c = eval_expr(*cond, env, scope, g1).unwrap();
            if !(c.0 is Error) {
                if is_truthy(c.0) {
                    lemma_eval_block_fuel(cons, 0, SObject::Null, c.1, scope, g1, g2);
                } else {
                    match alt {
                        Some(a) => {
                            lemma_eval_block_fuel(a, 0, SObject::Null, c.1, scope, g1, g2);
                        },
                        None => {},
                    }
                }
            }
        },
        SExpr::Call(func, args) => {
            lemma_eval_expr_fuel(*func, env, scope, g1, g2);
            let fv = eval_expr(*func, env, scope, g1).unwrap();
            if !(fv.0 is Error) {
                lemma_eval_exprs_fuel(args, 0, Seq::empty(), fv.1, scope, g1, g2);
                let vs = eval_exprs(args, 0, Seq::empty(), fv.1, scope, g1).unwrap();
                if !(vs.0.len() == 1 && vs.0[0] is Error) {
                    lemma_apply_function_fuel(fv.0, vs.0, vs.1, g1, g2);
                }
            }
        },
        SExpr::Array(els) => {
            lemma_eval_exprs_fuel(els, 0, Seq::empty(), env, scope, g1, g2);
        },
        SExpr::Index(left, index) => {
            lemma_eval_expr_fuel(*left, env, scope, g1, g2);
            let l = eval_expr(*left, env, scope, g1).unwrap();
            if !(l.0 is Error) {
                lemma_eval_expr_fuel(*index, l.1, scope, g1, g2);
            }
        },
        SExpr::Hash(pairs) => {
            lemma_eval_hash_fuel(pairs, 0, Seq::empty(), env, scope, g1, g2);
        },
        _ => {},
    }
}

/// More fuel never changes a finished evaluation of a list of expressions.
pub proof fn lemma_eval_exprs_fuel(
    es: Seq<SExpr>,
    i: nat,
    acc: Seq<SObject>,
    env: SEnv,
    scope: nat,
    f1: nat,
    f2: nat,
)
    requires
        f1 <= f2,
        eval_exprs(es, i, acc, env, scope, f1) is Some,
    ensures
        eval_exprs(es, i, acc, env, scope, f2) == eval_exprs(es, i, acc, env, scope, f1),
    decreases f1,
{
    let g1 = (f1 - 1) as nat;
    let g2 = (f2 - 1) as nat;
    if i < es.len() {
        lemma_eval_expr_fuel(es[i as int], env, scope, g1, g2);
        let v = eval_expr(es[i as int], env, scope, g1).unwrap();
        if !(v.0 is Error) {
            lemma_eval_exprs_fuel(es, i + 1, acc.push(v.0), v.1, scope, g1, g2);
        }
    }
}

/// More fuel never changes a finished evaluation of a hash literal.
pub proof fn lemma_eval_hash_fuel(
    ps: Seq<(SExpr, SExpr)>,
    i: nat,
    acc: Seq<(SObject, SObject)>,
    env: SEnv,
    scope: nat,
    f1: nat,
    f2: nat,
)
    requires
        f1 <= f2,
        eval_hash(ps, i, acc, env, scope, f1) is Some,
    ensures
        eval_hash(ps, i, acc, env, scope, f2) == eval_hash(ps, i, acc, env, scope, f1),
    decreases f1,
{
    let g1 = (f1 - 1) as nat;
    let g2 = (f2 - 1) as nat;
    if i < ps.len() {
        lemma_eval_expr_fuel(ps[i as int].0, env, scope, g1, g2);
        let k = eval_expr(ps[i as int].0, env, scope, g1).unwrap();
        if !(k.0 is Error) && hash_key(k.0) is Some {
            lemma_eval_expr_fuel(ps[i as int].1, k.1, scope, g1, g2);
            let v = eval_expr(ps[i as int].1, k.1, scope, g1).unwrap();
            if !(v.0 is Error) {
                lemma_eval_hash_fuel(ps, i + 1, hash_insert(acc, k.0, v.0), v.1, scope, g1, g2);
            }
        }
    }
}

/// More fuel never changes a finished evaluation of a statement.
pub proof fn lemma_eval_stmt_fuel(st: SStmt, env: SEnv, scope: nat, f1: nat, f2: nat)
    requires
        f1 <= f2,
        eval_stmt(st, env, scope, f1) is Some,
    ensures
        eval_stmt(st, env, scope, f2) == eval_stmt(st, env, scope, f1),
    decreases f1,
{
    let g1 = (f1 - 1) as nat;
    let g2 = (f2 - 1) as nat;
    match st {
        SStmt::Expr(e) => {
            lemma_eval_expr_fuel(e, env, scope, g1, g2);
        },
        SStmt::Return(v) => match v {
            Some(e) => {
                lemma_eval_expr_fuel(e, env, scope, g1, g2);
            },
            None => {},
        },
        SStmt::Let(name, e) => {
            lemma_eval_expr_fuel(e, env, scope, g1, g2);
        },
        SStmt::Block(b) => {
            lemma_eval_block_fuel(b, 0, SObject::Null, env, scope, g1, g2);
        },
    }
}

/// More fuel never changes a finished evaluation of a block.
pub proof fn lemma_eval_block_fuel(
    ss: Seq<SStmt>,
    i: nat,
    last: SObject,
    env: SEnv,
    scope: nat,
    f1: nat,
    f2: nat,
)
    requires
        f1 <= f2,
        eval_block(ss, i, last, env, scope, f1) is Some,
    ensures
        eval_block(ss, i, last, env, scope, f2) == eval_block(ss, i, last, env, scope, f1),
    decreases f1,
{
    let g1 = (f1 - 1) as nat;
    let g2 = (f2 - 1) as nat;
    if i < ss.len() {
        lemma_eval_stmt_fuel(ss[i as int], env, scope, g1, g2);
        let r = eval_stmt(ss[i as int], env, scope, g1).unwrap();
        if !(r.0 is ReturnValue || r.0 is Error) {
            lemma_eval_block_fuel(ss, i + 1, r.0, r.1, scope, g1, g2);
        }
    }
}

/// More fuel never changes a finished call.
pub proof fn lemma_apply_function_fuel(fv: SObject, args: Seq<SObject>, env: SEnv, f1: nat, f2: nat)
    requires
        f1 <= f2,
        apply_function(fv, args, env, f1) is Some,
    ensures
        apply_function(fv, args, env, f2) == apply_function(fv, args, env, f1),
    decreases f1,
{
    let g1 = (f1 - 1) as nat;
    let g2 = (f2 - 1) as nat;
    match fv {
        SObject::Function(params, body, fenv) => {
            let sc = env.frames.len();
            let env1 = bind_params(env_enclose(env, fenv), sc, params, args, 0);
            lemma_eval_block_fuel(body, 0, SObject::Null, env1, sc, g1, g2);
        },
        _ => {},
    }
}

/// More fuel never changes a finished evaluation of a program.
pub proof fn lemma_eval_prog_fuel(
    ss: Seq<SStmt>,
    i: nat,
    last: SObject,
    env: SEnv,
    f1: nat,
    f2: nat,
)
    requires
        f1 <= f2,
        eval_prog(ss, i, last, env, f1) is Some,
    ensures
        eval_prog(ss, i, last, env, f2) == eval_prog(ss, i, last, env, f1),
    decreases f1,
{
    let g1 = (f1 - 1) as nat;
    let g2 = (f2 - 1) as nat;
    if i < ss.len() {
        lemma_eval_stmt_fuel(ss[i as int], env, 0, g1, g2);
        let r = eval_stmt(ss[i as int], env, 0, g1).unwrap();
        if !(r.0 is ReturnValue || r.0 is Error) {
            lemma_eval_prog_fuel(ss, i + 1, r.0, r.1, g1, g2);
        }
    }
}

/// Evaluation is deterministic: whatever fuel lets a program finish, it
/// finishes with the value and environment that `program_result` gives.
pub proof fn lemma_program_result_any_fuel(p: Seq<SStmt>, env: SEnv, fuel: nat)
    requires
        eval_prog(p, 0, SObject::Null, env, fuel) is Some,
    ensures
        program_result(p, env) == eval_prog(p, 0, SObject::Null, env, fuel),
{
    let g = choose|f: nat| eval_prog(p, 0, SObject::Null, env, f) is Some;
    if g <= fuel {
        lemma_eval_prog_fuel(p, 0, SObject::Null, env, g, fuel);
    } else {
        lemma_eval_prog_fuel(p, 0, SObject::Null, env, fuel, g);
    }
}

/// Evaluation is deterministic: whatever fuel lets a statement finish, it
/// finishes with the value and environment that `statement_result` gives.
pub proof fn lemma_statement_result_any_fuel(s: SStmt, env: SEnv, scope: nat, fuel: nat)
    requires
        eval_stmt(s, env, scope, fuel) is Some,
    ensures
        statement_result(s, env, scope) == eval_stmt(s, env, scope, fuel),
{
    let g = choose|f: nat| eval_stmt(s, env, scope, f) is Some;
    if g <= fuel {
        lemma_eval_stmt_fuel(s, env, scope, g, fuel);
    } else {
        lemma_eval_stmt_fuel(s, env, scope, fuel, g);
    }
}

/// Evaluation is deterministic: whatever fuel lets an expression finish, it
/// finishes with the value and environment that `expression_result` gives.
pub proof fn lemma_expression_result_any_fuel(e: SExpr, env: SEnv, scope: nat, fuel: nat)
    requires
        eval_expr(e, env, scope, fuel) is Some,
    ensures
        expression_result(e, env, scope) == eval_expr(e, env, scope, fuel),
{
    let g = choose|f: nat| eval_expr(e, env, scope, f) is Some;
    if g <= fuel {
        lemma_eval_expr_fuel(e, env, scope, g, fuel);
    } else {
        lemma_eval_expr_fuel(e, env, scope, fuel, g);
    }
}

/// `after` begins with the lines of `before`.
pub open spec fn output_kept(before: Seq<Seq<char>>, after: Seq<Seq<char>>) -> bool {
    &&& before.len() <= after.len()
    &&& forall|i: int| 0 <= i < before.len() ==> #[trigger] after[i] == before[i]
}

proof fn lemma_bind_params_grows(env: SEnv, sc: nat, params: Seq<Seq<char>>, args: Seq<SObject>, i: nat)
    ensures
        bind_params(env, sc, params, args, i).frames.len() == env.frames.len(),
        bind_params(env, sc, params, args, i).output == env.output,
    decreases params.len() - i,
{
    if i < params.len() && i < args.len() {
        lemma_bind_params_grows(env_set(env, sc as int, params[i as int], args[i as int]), sc, params, args, i + 1);
    }
}

/// Evaluating an expression never removes a scope or an output line.
pub proof fn lemma_eval_expr_grows(e: SExpr, env: SEnv, scope: nat, fuel: nat)
    requires
        eval_expr(e, env, scope, fuel) is Some,
    ensures
        eval_expr(e, env, scope, fuel).unwrap().1.frames.len() >= env.frames.len(),
        output_kept(env.output, eval_expr(e, env, scope, fuel).unwrap().1.output),
    decreases fuel,
{
    let g = (fuel - 1) as nat;
    match e {
        SExpr::Prefix(op, right) => {
            lemma_eval_expr_grows(*right, env, scope, g);
        },
        SExpr::Infix(op, left, right) => {
            lemma_eval_expr_grows(*left, env, scope, g);
            let l = eval_expr(*left, env, scope, g).unwrap();
            if !(l.0 is Error) {
                lemma_eval_expr_grows(*right, l.1, scope, g);
            }
        },
        SExpr::If(cond, cons, alt) => {
            lemma_eval_expr_grows(*cond, env, scope, g);
            let c = eval_expr(*cond, env, scope, g).unwrap();
            if !(c.0 is Error) {
                if is_truthy(c.0) {
                    lemma_eval_block_grows(cons, 0, SObject::Null, c.1, scope, g);
                } else {
                    match alt {
                        Some(a) => {
                            lemma_eval_block_grows(a, 0, SObject::Null, c.1, scope, g);
                        },
                        None => {},
                    }
                }
            }
        },
        SExpr::Call(func, args) => {
            lemma_eval_expr_grows(*func, env, scope, g);
            let fv = eval_expr(*func, env, scope, g).unwrap();
            if !(fv.0 is Error) {
                lemma_eval_exprs_grows(args, 0, Seq::empty(), fv.1, scope, g);
                let vs = eval_exprs(args, 0, Seq::empty(), fv.1, scope, g).unwrap();
                if !(vs.0.len() == 1 && vs.0[0] is Error) {
                    lemma_apply_function_grows(fv.0, vs.0, vs.1, g);
                }
            }
        },
        SExpr::Array(els) => {
            lemma_eval_exprs_grows(els, 0, Seq::empty(), env, scope, g);
        },
        SExpr::Index(left, index) => {
            lemma_eval_expr_grows(*left, env, scope, g);
            let l = eval_expr(*left, env, scope, g).unwrap();
            if !(l.0 is Error) {
                lemma_eval_expr_grows(*index, l.1, scope, g);
            }
        },
        SExpr::Hash(pairs) => {
            lemma_eval_hash_grows(pairs, 0, Seq::empty(), env, scope, g);
        },
        _ => {},
    }
}

/// Evaluating a list of expressions never removes a scope or an output line.
pub proof fn lemma_eval_exprs_grows(
    es: Seq<SExpr>,
    i: nat,
    acc: Seq<SObject>,
    env: SEnv,
    scope: nat,
    fuel: nat,
)
    requires
        eval_exprs(es, i, acc, env, scope, fuel) is Some,
    ensures
        eval_exprs(es, i, acc, env, scope, fuel).unwrap().1.frames.len() >= env.frames.len(),
        output_kept(env.output, eval_exprs(es, i, acc, env, scope, fuel).unwrap().1.output),
    decreases fuel,
{
    let g = (fuel - 1) as nat;
    if i < es.len() {
        lemma_eval_expr_grows(es[i as int], env, scope, g);
        let v = eval_expr(es[i as int], env, scope, g).unwrap();
        if !(v.0 is Error) {
            lemma_eval_exprs_grows(es, i + 1, acc.push(v.0), v.1, scope, g);
        }
    }
}

/// Evaluating a hash literal never removes a scope or an output line.
pub proof fn lemma_eval_hash_grows(
    ps: Seq<(SExpr, SExpr)>,
    i: nat,
    acc: Seq<(SObject, SObject)>,
    env: SEnv,
    scope: nat,
    fuel: nat,
)
    requires
        eval_hash(ps, i, acc, env, scope, fuel) is Some,
    ensures
        eval_hash(ps, i, acc, env, scope, fuel).unwrap().1.frames.len() >= env.frames.len(),
        output_kept(env.output, eval_hash(ps, i, acc, env, scope, fuel).unwrap().1.output),
    decreases fuel,
{
    let g = (fuel - 1) as nat;
    if i < ps.len() {
        lemma_eval_expr_grows(ps[i as int].0, env, scope, g);
        let k = eval_expr(ps[i as int].0, env, scope, g).unwrap();
        if !(k.0 is Error) && hash_key(k.0) is Some {
            lemma_eval_expr_grows(ps[i as int].1, k.1, scope, g);
            let v = eval_expr(ps[i as int].1, k.1, scope, g).unwrap();
            if !(v.0 is Error) {
                lemma_eval_hash_grows(ps, i + 1, hash_insert(acc, k.0, v.0), v.1, scope, g);
            }
        }
    }
}

/// Evaluating a statement never removes a scope or an output line.
pub proof fn lemma_eval_stmt_grows(st: SStmt, env: SEnv, scope: nat, fuel: nat)
    requires
        eval_stmt(st, env, scope, fuel) is Some,
    ensures
        eval_stmt(st, env, scope, fuel).unwrap().1.frames.len() >= env.frames.len(),
        output_kept(env.output, eval_stmt(st, env, scope, fuel).unwrap().1.output),
    decreases fuel,
{
    let g = (fuel - 1) as nat;
    match st {
        SStmt::Expr(e) => {
            lemma_eval_expr_grows(e, env, scope, g);
        },
        SStmt::Return(v) => match v {
            Some(e) => {
                lemma_eval_expr_grows(e, env, scope, g);
            },
            None => {},
        },
        SStmt::Let(name, e) => {
            lemma_eval_expr_grows(e, env, scope, g);
        },
        SStmt::Block(b) => {
            lemma_eval_block_grows(b, 0, SObject::Null, env, scope, g);
        },
    }
}

/// Evaluating a block never removes a scope or an output line.
pub proof fn lemma_eval_block_grows(
    ss: Seq<SStmt>,
    i: nat,
    last: SObject,
    env: SEnv,
    scope: nat,
    fuel: nat,
)
    requires
        eval_block(ss, i, last, env, scope, fuel) is Some,
    ensures
        eval_block(ss, i, last, env, scope, fuel).unwrap().1.frames.len() >= env.frames.len(),
        output_kept(env.output, eval_block(ss, i, last, env, scope, fuel).unwrap().1.output),
    decreases fuel,
{
    let g = (fuel - 1) as nat;
    if i < ss.len() {
        lemma_eval_stmt_grows(ss[i as int], env, scope, g);
        let r = eval_stmt(ss[i as int], env, scope, g).unwrap();
        if !(r.0 is ReturnValue || r.0 is Error) {
            lemma_eval_block_grows(ss, i + 1, r.0, r.1, scope, g);
        }
    }
}

/// A call never removes a scope or an output line.
pub proof fn lemma_apply_function_grows(fv: SObject, args: Seq<SObject>, env: SEnv, fuel: nat)
    requires
        apply_function(fv, args, env, fuel) is Some,
    ensures
        apply_function(fv, args, env, fuel).unwrap().1.frames.len() >= env.frames.len(),
        output_kept(env.output, apply_function(fv, args, env, fuel).unwrap().1.output),
    decreases fuel,
{
    let g = (fuel - 1) as nat;
    match fv {
        SObject::Function(params, body, fenv) => {
            let sc = env.frames.len();
            let env1 = bind_params(env_enclose(env, fenv), sc, params, args, 0);
            lemma_bind_params_grows(env_enclose(env, fenv), sc, params, args, 0);
            lemma_eval_block_grows(body, 0, SObject::Null, env1, sc, g);
        },
        SObject::Builtin(b) => {
            lemma_builtins_pure(b, args, env);
        },
        _ => {},
    }
}

/// Evaluating a program never removes a scope or an output line.
pub proof fn lemma_eval_prog_grows(ss: Seq<SStmt>, i: nat, last: SObject, env: SEnv, fuel: nat)
    requires
        eval_prog(ss, i, last, env, fuel) is Some,
    ensures
        eval_prog(ss, i, last, env, fuel).unwrap().1.frames.len() >= env.frames.len(),
        output_kept(env.output, eval_prog(ss, i, last, env, fuel).unwrap().1.output),
    decreases fuel,
{
    let g = (fuel - 1) as nat;
    if i < ss.len() {
        lemma_eval_stmt_grows(ss[i as int], env, 0, g);
        let r = eval_stmt(ss[i as int], env, 0, g).unwrap();
        if !(r.0 is ReturnValue || r.0 is Error) {
            lemma_eval_prog_grows(ss, i + 1, r.0, r.1, g);
        }
    }
}

/// A `let` binding is seen by the statement after it: the program
/// `let n = e; n` evaluates to the value of `e` (unwrapped, should it be a
/// `return` value), with `n` bound to it in the global scope.
pub proof fn lemma_let_then_read(n: Seq<char>, e: SExpr, env: SEnv)
    requires
        env.frames.len() > 0,
        expression_result(e, env, 0) is Some,
        !(expression_result(e, env, 0).unwrap().0 is Error),
    ensures
        program_result(seq![SStmt::Let(n, e), SStmt::Expr(SExpr::Ident(n))], env) == Some(
            (
                unwrap_return(expression_result(e, env, 0).unwrap().0),
                env_set(expression_result(e, env, 0).unwrap().1, 0, n, expression_result(e, env, 0).unwrap().0),
            ),
        ),
{
    let f = choose|f: nat| eval_expr(e, env, 0, f) is Some;
    let r = eval_expr(e, env, 0, f).unwrap();
    lemma_eval_expr_fuel(e, env, 0, f, f + 1);
    lemma_eval_expr_grows(e, env, 0, f);
    lemma_get_after_set(r.1, 0, n, r.0);
    let p = seq![SStmt::Let(n, e), SStmt::Expr(SExpr::Ident(n))];
    let env2 = env_set(r.1, 0, n, r.0);
    assert(eval_stmt(p[0], env, 0, f + 2) == Some((SObject::Null, env2)));
    assert(eval_expr(SExpr::Ident(n), env2, 0, 1) == Some((r.0, env2)));
    assert(eval_stmt(p[1], env2, 0, f + 1) == Some((r.0, env2)));
    assert(eval_prog(p, 2, r.0, env2, f + 1) == Some((r.0, env2)));
    assert(eval_prog(p, 1, SObject::Null, env2, f + 2) == Some((unwrap_return(r.0), env2)));
    assert(eval_prog(p, 0, SObject::Null, env, f + 3) == Some((unwrap_return(r.0), env2)));
    lemma_program_result_any_fuel(p, env, f + 3);
}

/// `hash_index` finds the first entry stored under `k`, and -1 when there is none.
proof fn lemma_hash_index_first(ps: Seq<(SObject, SObject)>, k: SKey)
    ensures
        -1 <= hash_index(ps, k) < ps.len(),
        hash_index(ps, k) >= 0 ==> hash_key(ps[hash_index(ps, k)].0) == Some(k),
        forall|m: int|
            0 <= m < ps.len() && #[trigger] hash_key(ps[m].0) == Some(k) ==> 0 <= hash_index(ps, k)
                <= m,
    decreases ps.len(),
{
    if ps.len() > 0 {
        let d = ps.drop_last();
        lemma_hash_index_first(d, k);
        assert forall|m: int| 0 <= m < ps.len() && #[trigger] hash_key(ps[m].0) == Some(k) implies 0
            <= hash_index(ps, k) <= m by {
            if m < ps.len() - 1 {
                assert(d[m] == ps[m]);
            }
        }
    }
}

/// Storing under a key keeps a hash free of duplicate keys.
pub proof fn lemma_hash_insert_keeps_keys_distinct(
    pairs: Seq<(SObject, SObject)>,
    key: SObject,
    value: SObject,
)
    requires
        keys_distinct(pairs),
        hash_key(key) is Some,
    ensures
        keys_distinct(hash_insert(pairs, key, value)),
{
    let k = hash_key(key).unwrap();
    lemma_hash_index_first(pairs, k);
    let r = hash_insert(pairs, key, value);
    let j = hash_index(pairs, k);
    if j >= 0 {
        assert forall|a: int, b: int| 0 <= a < b < r.len() implies hash_key(#[trigger] r[a].0)
            != hash_key(#[trigger] r[b].0) by {
            assert(hash_key(pairs[a].0) != hash_key(pairs[b].0));
        }
        assert forall|a: int| 0 <= a < r.len() implies (#[trigger] hash_key(r[a].0)) is Some by {
            assert(hash_key(pairs[a].0) is Some);
        }
    } else {
        assert forall|a: int, b: int| 0 <= a < b < r.len() implies hash_key(#[trigger] r[a].0)
            != hash_key(#[trigger] r[b].0) by {
            if b == pairs.len() {
                assert(hash_key(pairs[a].0) is Some);
            } else {
                assert(hash_key(pairs[a].0) != hash_key(pairs[b].0));
            }
        }
        assert forall|a: int| 0 <= a < r.len() implies (#[trigger] hash_key(r[a].0)) is Some by {
            if a < pairs.len() {
                assert(hash_key(pairs[a].0) is Some);
            }
        }
    }
}

/// Read after write for hashes: indexing with a key gives the value last
/// stored under it, and storing under one key leaves what every other key
/// gives as it was.
pub proof fn lemma_hash_get_after_insert(
    pairs: Seq<(SObject, SObject)>,
    key: SObject,
    value: SObject,
    probe: SObject,
)
    requires
        hash_key(key) is Some,
    ensures
        eval_index(SObject::Hash(hash_insert(pairs, key, value)), key) == value,
        hash_key(probe) is Some && hash_key(probe) != hash_key(key) ==> eval_index(
            SObject::Hash(hash_insert(pairs, key, value)),
            probe,
        ) == eval_index(SObject::Hash(pairs), probe),
{
    let k = hash_key(key).unwrap();
    let r = hash_insert(pairs, key, value);
    let j = hash_index(pairs, k);
    lemma_hash_index_first(pairs, k);
    lemma_hash_index_first(r, k);
    if j >= 0 {
        assert(hash_key(r[j].0) == Some(k));
        let i = hash_index(r, k);
        if i < j {
            assert(r[i] == pairs[i]);
        }
    } else {
        assert(r.drop_last() =~= pairs);
    }
    if hash_key(probe) is Some && hash_key(probe) != hash_key(key) {
        let k2 = hash_key(probe).unwrap();
        lemma_hash_index_first(pairs, k2);
        lemma_hash_index_first(r, k2);
        if j >= 0 {
            let a = hash_index(pairs, k2);
            let b = hash_index(r, k2);
            if a >= 0 {
                assert(r[a] == pairs[a]);
            }
            if b >= 0 {
                assert(r[b] == pairs[b]);
            }
        } else {
            assert(r.drop_last() =~= pairs);
        }
    }
}

/// All values of `vs` are well-formed.
pub open spec fn all_wf(vs: Seq<SObject>) -> bool {
    forall|i: int| 0 <= i < vs.len() ==> #[trigger] value_wf(vs[i])
}

/// Storing well-formed values under a key keeps a well-formed hash well-formed.
#[verifier::spinoff_prover]
pub proof fn lemma_hash_insert_wf(pairs: Seq<(SObject, SObject)>, key: SObject, value: SObject)
    requires
        value_wf(SObject::Hash(pairs)),
        hash_key(key) is Some,
        value_wf(key),
        value_wf(value),
    ensures
        value_wf(SObject::Hash(hash_insert(pairs, key, value))),
{
    lemma_hash_insert_keeps_keys_distinct(pairs, key, value);
    let r = hash_insert(pairs, key, value);
    lemma_entries_wf(pairs);
    lemma_entries_wf(r);
    assert(entries_wf(pairs));
    assert(forall|i: int| 0 <= i < pairs.len() ==> value_wf(#[trigger] pairs[i].0) && value_wf(pairs[i].1));
    let k = hash_key(key).unwrap();
    lemma_hash_index_first(pairs, k);
    let j = hash_index(pairs, k);
    if j >= 0 {
        assert(r == pairs.update(j, (key, value)));
    } else {
        assert(r == pairs.push((key, value)));
    }
    assert forall|i: int| 0 <= i < r.len() implies value_wf(#[trigger] r[i].0) && value_wf(r[i].1) by {
        if j >= 0 {
            if i != j {
                assert(value_wf(pairs[i].0));
                assert(value_wf(pairs[i].1));
                assert(r[i] == pairs[i]);
            }
        } else if i < pairs.len() {
            assert(value_wf(pairs[i].0));
            assert(value_wf(pairs[i].1));
            assert(r[i] == pairs[i]);
        } else {
            assert(r[i] == (key, value));
        }
    }
}

/// Indexing into a well-formed value gives a well-formed value.
pub proof fn lemma_eval_index_wf(left: SObject, index: SObject)
    requires
        value_wf(left),
    ensures
        value_wf(eval_index(left, index)),
{
    match left {
        SObject::Array(els) => {
            lemma_values_wf(els);
        },
        SObject::Hash(pairs) => {
            lemma_entries_wf(pairs);
            match hash_key(index) {
                Some(k) => {
                    lemma_hash_index_first(pairs, k);
                },
                None => {},
            }
        },
        _ => {},
    }
}

/// The built-ins give well-formed values for well-formed arguments, and leave
/// the scopes alone.
pub proof fn lemma_builtin_wf(b: Builtin, args: Seq<SObject>, env: SEnv)
    requires
        all_wf(args),
        env_wf(env),
    ensures
        value_wf(apply_builtin(b, args, env).0),
        env_wf(apply_builtin(b, args, env).1),
{
    lemma_builtins_pure(b, args, env);
    if args.len() > 0 {
        assert(value_wf(args[0]));
        match args[0] {
            SObject::Array(els) => {
                lemma_values_wf(els);
                lemma_values_wf(els.drop_first());
                if args.len() == 2 {
                    lemma_values_wf(els.push(args[1]));
                }
                if b == Builtin::Rest && els.len() > 0 {
                    assert forall|i: int| 0 <= i < els.drop_first().len() implies #[trigger] value_wf(
                        els.drop_first()[i],
                    ) by {
                        assert(value_wf(els[i + 1]));
                    }
                }
                if b == Builtin::Push && args.len() == 2 {
                    assert(value_wf(args[1]));
                    assert forall|i: int| 0 <= i < els.push(args[1]).len() implies #[trigger] value_wf(
                        els.push(args[1])[i],
                    ) by {
                        if i < els.len() {
                            assert(value_wf(els[i]));
                        }
                    }
                }
                if els.len() > 0 {
                    assert(value_wf(els[0]));
                    assert(value_wf(els[els.len() - 1]));
                }
            },
            _ => {},
        }
    }
}

proof fn lemma_bind_params_wf(env: SEnv, sc: nat, params: Seq<Seq<char>>, args: Seq<SObject>, i: nat)
    requires
        env_wf(env),
        all_wf(args),
    ensures
        env_wf(bind_params(env, sc, params, args, i)),
    decreases params.len() - i,
{
    if i < params.len() && i < args.len() {
        lemma_set_wf(env, sc as int, params[i as int], args[i as int]);
        lemma_bind_params_wf(env_set(env, sc as int, params[i as int], args[i as int]), sc, params, args, i + 1);
    }
}

/// Evaluating an expression in a well-formed environment gives a well-formed
/// value and leaves the environment well-formed.
pub proof fn lemma_eval_expr_wf(e: SExpr, env: SEnv, scope: nat, fuel: nat)
    requires
        env_wf(env),
        eval_expr(e, env, scope, fuel) is Some,
    ensures
        value_wf(eval_expr(e, env, scope, fuel).unwrap().0),
        env_wf(eval_expr(e, env, scope, fuel).unwrap().1),
    decreases fuel,
{
    let g = (fuel - 1) as nat;
    match e {
        SExpr::Ident(name) => {
            lemma_get_wf(env, scope as int, name);
            match env_get(env.frames, scope as int, name) {
                Some(v) => {},
                None => match builtin_named(name) {
                    Some(b) => {
                        assert(value_wf(SObject::Builtin(b)));
                    },
                    None => {
                        assert(value_wf(SObject::Error("identifier not found: "@ + name)));
                    },
                },
            }
        },
        SExpr::Prefix(op, right) => {
            lemma_eval_expr_wf(*right, env, scope, g);
        },
        SExpr::Infix(op, left, right) => {
            lemma_eval_expr_wf(*left, env, scope, g);
            let l = eval_expr(*left, env, scope, g).unwrap();
            if !(l.0 is Error) {
                lemma_eval_expr_wf(*right, l.1, scope, g);
            }
        },
        SExpr::If(cond, cons, alt) => {
            lemma_eval_expr_wf(*cond, env, scope, g);
            let c = eval_expr(*cond, env, scope, g).unwrap();
            if !(c.0 is Error) {
                if is_truthy(c.0) {
                    lemma_eval_block_wf(cons, 0, SObject::Null, c.1, scope, g);
                } else {
                    match alt {
                        Some(a) => {
                            lemma_eval_block_wf(a, 0, SObject::Null, c.1, scope, g);
                        },
                        None => {},
                    }
                }
            }
        },
        SExpr::Call(func, args) => {
            lemma_eval_expr_wf(*func, env, scope, g);
            let fv = eval_expr(*func, env, scope, g).unwrap();
            if !(fv.0 is Error) {
                lemma_eval_exprs_wf(args, 0, Seq::empty(), fv.1, scope, g);
                let vs = eval_exprs(args, 0, Seq::empty(), fv.1, scope, g).unwrap();
                if vs.0.len() == 1 && vs.0[0] is Error {
                    assert(value_wf(vs.0[0]));
                } else {
                    lemma_apply_function_wf(fv.0, vs.0, vs.1, g);
                }
            }
        },
        SExpr::Array(els) => {
            lemma_eval_exprs_wf(els, 0, Seq::empty(), env, scope, g);
            let vs = eval_exprs(els, 0, Seq::empty(), env, scope, g).unwrap();
            lemma_values_wf(vs.0);
            if vs.0.len() == 1 {
                assert(value_wf(vs.0[0]));
            }
        },
        SExpr::Index(left, index) => {
            lemma_eval_expr_wf(*left, env, scope, g);
            let l = eval_expr(*left, env, scope, g).unwrap();
            if !(l.0 is Error) {
                lemma_eval_expr_wf(*index, l.1, scope, g);
                let i = eval_expr(*index, l.1, scope, g).unwrap();
                lemma_eval_index_wf(l.0, i.0);
            }
        },
        SExpr::Hash(pairs) => {
            let empty = Seq::<(SObject, SObject)>::empty();
            assert(keys_distinct(empty));
            assert(entries_wf(empty));
            lemma_eval_hash_wf(pairs, 0, empty, env, scope, g);
        },
        _ => {},
    }
}

/// Evaluating a list of expressions in a well-formed environment gives
/// well-formed values.
pub proof fn lemma_eval_exprs_wf(
    es: Seq<SExpr>,
    i: nat,
    acc: Seq<SObject>,
    env: SEnv,
    scope: nat,
    fuel: nat,
)
    requires
        env_wf(env),
        all_wf(acc),
        eval_exprs(es, i, acc, env, scope, fuel) is Some,
    ensures
        all_wf(eval_exprs(es, i, acc, env, scope, fuel).unwrap().0),
        env_wf(eval_exprs(es, i, acc, env, scope, fuel).unwrap().1),
    decreases fuel,
{
    let g = (fuel - 1) as nat;
    if i < es.len() {
        lemma_eval_expr_wf(es[i as int], env, scope, g);
        let v = eval_expr(es[i as int], env, scope, g).unwrap();
        if v.0 is Error {
            assert(all_wf(seq![v.0]));
        } else {
            assert(all_wf(acc.push(v.0)));
            lemma_eval_exprs_wf(es, i + 1, acc.push(v.0), v.1, scope, g);
        }
    }
}

/// A hash literal evaluates to a well-formed value: in particular, a hash
/// with no key twice.
pub proof fn lemma_eval_hash_wf(
    ps: Seq<(SExpr, SExpr)>,
    i: nat,
    acc: Seq<(SObject, SObject)>,
    env: SEnv,
    scope: nat,
    fuel: nat,
)
    requires
        env_wf(env),
        value_wf(SObject::Hash(acc)),
        eval_hash(ps, i, acc, env, scope, fuel) is Some,
    ensures
        value_wf(eval_hash(ps, i, acc, env, scope, fuel).unwrap().0),
        env_wf(eval_hash(ps, i, acc, env, scope, fuel).unwrap().1),
    decreases fuel,
{
    let g = (fuel - 1) as nat;
    if i < ps.len() {
        lemma_eval_expr_wf(ps[i as int].0, env, scope, g);
        let k = eval_expr(ps[i as int].0, env, scope, g).unwrap();
        if !(k.0 is Error) && hash_key(k.0) is Some {
            lemma_eval_expr_wf(ps[i as int].1, k.1, scope, g);
            let v = eval_expr(ps[i as int].1, k.1, scope, g).unwrap();
            if !(v.0 is Error) {
                lemma_hash_insert_wf(acc, k.0, v.0);
                lemma_eval_hash_wf(ps, i + 1, hash_insert(acc, k.0, v.0), v.1, scope, g);
            }
        }
    }
}

/// Evaluating a statement in a well-formed environment gives a well-formed
/// value and leaves the environment well-formed.
pub proof fn lemma_eval_stmt_wf(st: SStmt, env: SEnv, scope: nat, fuel: nat)
    requires
        env_wf(env),
        eval_stmt(st, env, scope, fuel) is Some,
    ensures
        value_wf(eval_stmt(st, env, scope, fuel).unwrap().0),
        env_wf(eval_stmt(st, env, scope, fuel).unwrap().1),
    decreases fuel,
{
    let g = (fuel - 1) as nat;
    match st {
        SStmt::Expr(e) => {
            lemma_eval_expr_wf(e, env, scope, g);
        },
        SStmt::Return(v) => match v {
            Some(e) => {
                lemma_eval_expr_wf(e, env, scope, g);
                let r = eval_expr(e, env, scope, g).unwrap();
                assert(value_wf(SObject::ReturnValue(Box::new(r.0))));
            },
            None => {
                assert(value_wf(SObject::Null));
                assert(value_wf(SObject::ReturnValue(Box::new(SObject::Null))));
            },
        },
        SStmt::Let(name, e) => {
            lemma_eval_expr_wf(e, env, scope, g);
            let r = eval_expr(e, env, scope, g).unwrap();
            if !(r.0 is Error) {
                lemma_set_wf(r.1, scope as int, name, r.0);
            }
        },
        SStmt::Block(b) => {
            lemma_eval_block_wf(b, 0, SObject::Null, env, scope, g);
        },
    }
}

/// Evaluating a block in a well-formed environment gives a well-formed value
/// and leaves the environment well-formed.
pub proof fn lemma_eval_block_wf(
    ss: Seq<SStmt>,
    i: nat,
    last: SObject,
    env: SEnv,
    scope: nat,
    fuel: nat,
)
    requires
        env_wf(env),
        value_wf(last),
        eval_block(ss, i, last, env, scope, fuel) is Some,
    ensures
        value_wf(eval_block(ss, i, last, env, scope, fuel).unwrap().0),
        env_wf(eval_block(ss, i, last, env, scope, fuel).unwrap().1),
    decreases fuel,
{
    let g = (fuel - 1) as nat;
    if i < ss.len() {
        lemma_eval_stmt_wf(ss[i as int], env, scope, g);
        let r = eval_stmt(ss[i as int], env, scope, g).unwrap();
        if !(r.0 is ReturnValue || r.0 is Error) {
            lemma_eval_block_wf(ss, i + 1, r.0, r.1, scope, g);
        }
    }
}

/// A call with well-formed arguments in a well-formed environment gives a
/// well-formed value and leaves the environment well-formed.
pub proof fn lemma_apply_function_wf(fv: SObject, args: Seq<SObject>, env: SEnv, fuel: nat)
    requires
        env_wf(env),
        all_wf(args),
        apply_function(fv, args, env, fuel) is Some,
    ensures
        value_wf(apply_function(fv, args, env, fuel).unwrap().0),
        env_wf(apply_function(fv, args, env, fuel).unwrap().1),
    decreases fuel,
{
    let g = (fuel - 1) as nat;
    match fv {
        SObject::Function(params, body, fenv) => {
            let sc = env.frames.len();
            lemma_enclose_wf(env, fenv);
            lemma_bind_params_wf(env_enclose(env, fenv), sc, params, args, 0);
            let env1 = bind_params(env_enclose(env, fenv), sc, params, args, 0);
            lemma_eval_block_wf(body, 0, SObject::Null, env1, sc, g);
        },
        SObject::Builtin(b) => {
            lemma_builtin_wf(b, args, env);
        },
        _ => {},
    }
}

/// Evaluating a program in a well-formed environment gives a well-formed value
/// and leaves the environment well-formed.
pub proof fn lemma_eval_prog_wf(ss: Seq<SStmt>, i: nat, last: SObject, env: SEnv, fuel: nat)
    requires
        env_wf(env),
        value_wf(last),
        eval_prog(ss, i, last, env, fuel) is Some,
    ensures
        value_wf(eval_prog(ss, i, last, env, fuel).unwrap().0),
        env_wf(eval_prog(ss, i, last, env, fuel).unwrap().1),
    decreases fuel,
{
    let g = (fuel - 1) as nat;
    if i < ss.len() {
        lemma_eval_stmt_wf(ss[i as int], env, 0, g);
        let r = eval_stmt(ss[i as int], env, 0, g).unwrap();
        if !(r.0 is ReturnValue || r.0 is Error) {
            lemma_eval_prog_wf(ss, i + 1, r.0, r.1, g);
        }
    }
}

/// An expression that finishes does so with every fuel from some amount on.
proof fn lemma_expr_fuel_from(e: SExpr, env: SEnv, scope: nat) -> (n: nat)
    requires
        expression_result(e, env, scope) is Some,
    ensures
        forall|g: nat| g >= n ==> #[trigger] eval_expr(e, env, scope, g) == expression_result(e, env, scope),
{
    let n = choose|f: nat| eval_expr(e, env, scope, f) is Some;
    assert forall|g: nat| g >= n implies #[trigger] eval_expr(e, env, scope, g) == expression_result(e, env, scope) by {
        lemma_eval_expr_fuel(e, env, scope, n, g);
    }
    n
}

/// What every large enough fuel gives is what `expression_result` gives.
proof fn lemma_expr_result_from(e: SExpr, env: SEnv, scope: nat, n: nat, c: Option<(SObject, SEnv)>)
    requires
        forall|g: nat| g >= n ==> #[trigger] eval_expr(e, env, scope, g) == c,
    ensures
        expression_result(e, env, scope) == c,
{
    assert(eval_expr(e, env, scope, n) == c);
    if c is Some {
        lemma_expression_result_any_fuel(e, env, scope, n);
    } else if exists|f: nat| eval_expr(e, env, scope, f) is Some {
        let f = choose|f: nat| eval_expr(e, env, scope, f) is Some;
        let m = if f >= n { f } else { n };
        lemma_eval_expr_fuel(e, env, scope, f, m);
        assert(eval_expr(e, env, scope, m) == c);
    }
}

/// What every large enough fuel gives is what `statement_result` gives.
proof fn lemma_stmt_result_from(st: SStmt, env: SEnv, scope: nat, n: nat, c: Option<(SObject, SEnv)>)
    requires
        forall|g: nat| g >= n ==> #[trigger] eval_stmt(st, env, scope, g) == c,
    ensures
        statement_result(st, env, scope) == c,
{
    assert(eval_stmt(st, env, scope, n) == c);
    if c is Some {
        lemma_statement_result_any_fuel(st, env, scope, n);
    } else if exists|f: nat| eval_stmt(st, env, scope, f) is Some {
        let f = choose|f: nat| eval_stmt(st, env, scope, f) is Some;
        let m = if f >= n { f } else { n };
        lemma_eval_stmt_fuel(st, env, scope, f, m);
        assert(eval_stmt(st, env, scope, m) == c);
    }
}

/// The value of an infix expression once its left operand has given `L`:
/// an error stops there; otherwise the right operand is evaluated, its
/// error stops there, and else `eval_infix` combines the two values
/// (`None` where that panics or the right operand does not finish).
pub open spec fn infix_after_left(op: Seq<char>, r: SExpr, scope: nat, left: (SObject, SEnv)) -> Option<(SObject, SEnv)> {
    if left.0 is Error {
        Some(left)
    } else {
        match expression_result(r, left.1, scope) {
            None => None,
            Some((rv, env2)) => if rv is Error {
                Some((rv, env2))
            } else {
                match eval_infix(op, left.0, rv) {
                    Some(v) => Some((v, env2)),
                    None => None,
                }
            },
        }
    }
}

/// Operands are evaluated left to right and the first error is the result:
/// `l op r` gives the error of `l` without evaluating `r`, else the error of
/// `r`, else `eval_infix` of the two values.
pub proof fn lemma_infix_left_to_right(op: Seq<char>, l: SExpr, r: SExpr, env: SEnv, scope: nat)
    requires
        expression_result(l, env, scope) is Some,
    ensures
        expression_result(SExpr::Infix(op, Box::new(l), Box::new(r)), env, scope) == infix_after_left(
            op,
            r,
            scope,
            expression_result(l, env, scope).unwrap(),
        ),
{
    let e = SExpr::Infix(op, Box::new(l), Box::new(r));
    let left = expression_result(l, env, scope).unwrap();
    let n1 = lemma_expr_fuel_from(l, env, scope);
    let c = infix_after_left(op, r, scope, left);
    if !(left.0 is Error) && expression_result(r, left.1, scope) is Some {
        let n2 = lemma_expr_fuel_from(r, left.1, scope);
        let n = n1 + n2 + 1;
        assert forall|g: nat| g >= n implies #[trigger] eval_expr(e, env, scope, g) == c by {
            assert(eval_expr(l, env, scope, (g - 1) as nat) == Some(left));
            assert(eval_expr(r, left.1, scope, (g - 1) as nat) == expression_result(r, left.1, scope));
        }
        lemma_expr_result_from(e, env, scope, n, c);
    } else if left.0 is Error {
        assert forall|g: nat| g >= n1 + 1 implies #[trigger] eval_expr(e, env, scope, g) == c by {
            assert(eval_expr(l, env, scope, (g - 1) as nat) == Some(left));
        }
        lemma_expr_result_from(e, env, scope, n1 + 1, c);
    } else {
        assert forall|g: nat| g >= n1 + 1 implies #[trigger] eval_expr(e, env, scope, g) == c by {
            assert(eval_expr(l, env, scope, (g - 1) as nat) == Some(left));
            if eval_expr(r, left.1, scope, (g - 1) as nat) is Some {
                lemma_expression_result_any_fuel(r, left.1, scope, (g - 1) as nat);
            }
        }
        lemma_expr_result_from(e, env, scope, n1 + 1, c);
    }
}

/// The value of a prefix expression once its operand has given `v`.
pub open spec fn prefix_after(op: Seq<char>, v: (SObject, SEnv)) -> Option<(SObject, SEnv)> {
    if v.0 is Error {
        Some(v)
    } else {
        match eval_prefix(op, v.0) {
            Some(r) => Some((r, v.1)),
            None => None,
        }
    }
}

/// A prefix operator applies to the value of its operand; an error of the
/// operand is passed on.
pub proof fn lemma_prefix_after_operand(op: Seq<char>, r: SExpr, env: SEnv, scope: nat)
    requires
        expression_result(r, env, scope) is Some,
    ensures
        expression_result(SExpr::Prefix(op, Box::new(r)), env, scope) == prefix_after(
            op,
            expression_result(r, env, scope).unwrap(),
        ),
{
    let e = SExpr::Prefix(op, Box::new(r));
    let v = expression_result(r, env, scope).unwrap();
    let n = lemma_expr_fuel_from(r, env, scope);
    let c = prefix_after(op, v);
    assert forall|g: nat| g >= n + 1 implies #[trigger] eval_expr(e, env, scope, g) == c by {
        assert(eval_expr(r, env, scope, (g - 1) as nat) == Some(v));
    }
    lemma_expr_result_from(e, env, scope, n + 1, c);
}

/// The value of an index expression once its left side has given `left`.
pub open spec fn index_after_left(index: SExpr, scope: nat, left: (SObject, SEnv)) -> Option<(SObject, SEnv)> {
    if left.0 is Error {
        Some(left)
    } else {
        match expression_result(index, left.1, scope) {
            None => None,
            Some((iv, env2)) => if iv is Error {
                Some((iv, env2))
            } else {
                Some((eval_index(left.0, iv), env2))
            },
        }
    }
}

/// `left[index]` evaluates `left`, then `index`, stops at the first error,
/// and else indexes.
pub proof fn lemma_index_left_to_right(l: SExpr, i: SExpr, env: SEnv, scope: nat)
    requires
        expression_result(l, env, scope) is Some,
    ensures
        expression_result(SExpr::Index(Box::new(l), Box::new(i)), env, scope) == index_after_left(
            i,
            scope,
            expression_result(l, env, scope).unwrap(),
        ),
{
    let e = SExpr::Index(Box::new(l), Box::new(i));
    let left = expression_result(l, env, scope).unwrap();
    let n1 = lemma_expr_fuel_from(l, env, scope);
    let c = index_after_left(i, scope, left);
    if !(left.0 is Error) && expression_result(i, left.1, scope) is Some {
        let n2 = lemma_expr_fuel_from(i, left.1, scope);
        let n = n1 + n2 + 1;
        assert forall|g: nat| g >= n implies #[trigger] eval_expr(e, env, scope, g) == c by {
            assert(eval_expr(l, env, scope, (g - 1) as nat) == Some(left));
            assert(eval_expr(i, left.1, scope, (g - 1) as nat) == expression_result(i, left.1, scope));
        }
        lemma_expr_result_from(e, env, scope, n, c);
    } else {
        assert forall|g: nat| g >= n1 + 1 implies #[trigger] eval_expr(e, env, scope, g) == c by {
            assert(eval_expr(l, env, scope, (g - 1) as nat) == Some(left));
            if !(left.0 is Error) && eval_expr(i, left.1, scope, (g - 1) as nat) is Some {
                lemma_expression_result_any_fuel(i, left.1, scope, (g - 1) as nat);
            }
        }
        lemma_expr_result_from(e, env, scope, n1 + 1, c);
    }
}

/// A `let` binds the value of its expression in the current scope and gives
/// `null`; an error is passed on and binds nothing.
pub proof fn lemma_let_binds(name: Seq<char>, e: SExpr, env: SEnv, scope: nat)
    requires
        expression_result(e, env, scope) is Some,
    ensures
        statement_result(SStmt::Let(name, e), env, scope) == ({
            let (v, env1) = expression_result(e, env, scope).unwrap();
            if v is Error {
                Some((v, env1))
            } else {
                Some((SObject::Null, env_set(env1, scope as int, name, v)))
            }
        }),
{
    let st = SStmt::Let(name, e);
    let (v, env1) = expression_result(e, env, scope).unwrap();
    let c = if v is Error {
        Some((v, env1))
    } else {
        Some((SObject::Null, env_set(env1, scope as int, name, v)))
    };
    let n = lemma_expr_fuel_from(e, env, scope);
    assert forall|g: nat| g >= n + 1 implies #[trigger] eval_stmt(st, env, scope, g) == c by {
        assert(eval_expr(e, env, scope, (g - 1) as nat) == Some((v, env1)));
    }
    lemma_stmt_result_from(st, env, scope, n + 1, c);
}

/// `return e` wraps the value of `e` as a return value; an error is passed on
/// unwrapped; `return` with no value returns `null`.
pub proof fn lemma_return_wraps(e: SExpr, env: SEnv, scope: nat)
    requires
        expression_result(e, env, scope) is Some,
    ensures
        statement_result(SStmt::Return(Some(e)), env, scope) == ({
            let (v, env1) = expression_result(e, env, scope).unwrap();
            if v is Error {
                Some((v, env1))
            } else {
                Some((SObject::ReturnValue(Box::new(v)), env1))
            }
        }),
        statement_result(SStmt::Return(None), env, scope) == Some(
            (SObject::ReturnValue(Box::new(SObject::Null)), env),
        ),
{
    let st = SStmt::Return(Some(e));
    let (v, env1) = expression_result(e, env, scope).unwrap();
    let c = if v is Error {
        Some((v, env1))
    } else {
        Some((SObject::ReturnValue(Box::new(v)), env1))
    };
    let n = lemma_expr_fuel_from(e, env, scope);
    assert forall|g: nat| g >= n + 1 implies #[trigger] eval_stmt(st, env, scope, g) == c by {
        assert(eval_expr(e, env, scope, (g - 1) as nat) == Some((v, env1)));
    }
    lemma_stmt_result_from(st, env, scope, n + 1, c);
    assert(eval_stmt(SStmt::Return(None), env, scope, 1) is Some);
    lemma_statement_result_any_fuel(SStmt::Return(None), env, scope, 1);
}

/// A condition chooses a branch: an error stops there; a value other than
/// `false` and `null` (so `0` and `""` too) runs the consequence, else the
/// alternative, else gives `null`; the branch runs as a block in the same
/// scope, without a new one.
pub proof fn lemma_if_chooses(
    cond: SExpr,
    cons: Seq<SStmt>,
    alt: Option<Seq<SStmt>>,
    env: SEnv,
    scope: nat,
)
    requires
        expression_result(cond, env, scope) is Some,
    ensures
        expression_result(SExpr::If(Box::new(cond), cons, alt), env, scope) == ({
            let (c, env1) = expression_result(cond, env, scope).unwrap();
            if c is Error {
                Some((c, env1))
            } else if is_truthy(c) {
                statement_result(SStmt::Block(cons), env1, scope)
            } else {
                match alt {
                    Some(a) => statement_result(SStmt::Block(a), env1, scope),
                    None => Some((SObject::Null, env1)),
                }
            }
        }),
{
    let e = SExpr::If(Box::new(cond), cons, alt);
    let (c, env1) = expression_result(cond, env, scope).unwrap();
    let n1 = lemma_expr_fuel_from(cond, env, scope);
    if c is Error || (!is_truthy(c) && alt is None) {
        let res = Some((if c is Error { c } else { SObject::Null }, env1));
        assert forall|g: nat| g >= n1 + 1 implies #[trigger] eval_expr(e, env, scope, g) == res by {
            assert(eval_expr(cond, env, scope, (g - 1) as nat) == Some((c, env1)));
        }
        lemma_expr_result_from(e, env, scope, n1 + 1, res);
    } else {
        let b = if is_truthy(c) { cons } else { alt.unwrap() };
        let bs = SStmt::Block(b);
        let res = statement_result(bs, env1, scope);
        if res is Some {
            let f = choose|f: nat| eval_stmt(bs, env1, scope, f) is Some;
            let n = n1 + f;
            assert forall|g: nat| g >= n + 1 implies #[trigger] eval_expr(e, env, scope, g) == res by {
                assert(eval_expr(cond, env, scope, (g - 1) as nat) == Some((c, env1)));
                lemma_eval_stmt_fuel(bs, env1, scope, f, g);
                assert(eval_stmt(bs, env1, scope, g) == eval_block(b, 0, SObject::Null, env1, scope, (g - 1) as nat));
            }
            lemma_expr_result_from(e, env, scope, n + 1, res);
        } else {
            assert forall|g: nat| g >= n1 + 1 implies #[trigger] eval_expr(e, env, scope, g) == res by {
                assert(eval_expr(cond, env, scope, (g - 1) as nat) == Some((c, env1)));
                assert(eval_stmt(bs, env1, scope, g) == eval_block(b, 0, SObject::Null, env1, scope, (g - 1) as nat));
                if eval_stmt(bs, env1, scope, g) is Some {
                    assert(exists|f: nat| eval_stmt(bs, env1, scope, f) is Some);
                }
            }
            lemma_expr_result_from(e, env, scope, n1 + 1, res);
        }
    }
}

proof fn lemma_eval_prog_shift(s: SStmt, rest: Seq<SStmt>, i: nat, last: SObject, env: SEnv, fuel: nat)
    ensures
        eval_prog(seq![s] + rest, i + 1, last, env, fuel) == eval_prog(rest, i, last, env, fuel),
    decreases fuel,
{
    let ss = seq![s] + rest;
    if fuel > 0 && i < rest.len() {
        assert(ss[(i + 1) as int] == rest[i as int]);
        let f = (fuel - 1) as nat;
        match eval_stmt(rest[i as int], env, 0, f) {
            Some((r, env1)) => {
                lemma_eval_prog_shift(s, rest, i + 1, r, env1, f);
            },
            None => {},
        }
    }
}

/// A program's first statement decides first: a `return` ends the program
/// with the returned value, an error ends it with the error, and otherwise
/// the rest of the program runs in the environment it left (its value being
/// the program's when nothing follows).
pub proof fn lemma_program_first_statement(s: SStmt, rest: Seq<SStmt>, env: SEnv)
    requires
        statement_result(s, env, 0) is Some,
    ensures
        program_result(seq![s] + rest, env) == ({
            let (r, env1) = statement_result(s, env, 0).unwrap();
            if r is ReturnValue {
                Some((unwrap_return(r), env1))
            } else if r is Error {
                Some((r, env1))
            } else if rest.len() == 0 {
                Some((r, env1))
            } else {
                program_result(rest, env1)
            }
        }),
{
    let ss = seq![s] + rest;
    let (r, env1) = statement_result(s, env, 0).unwrap();
    let n = choose|f: nat| eval_stmt(s, env, 0, f) is Some;
    assert(ss[0] == s);
    if r is ReturnValue || r is Error || rest.len() == 0 {
        lemma_eval_stmt_fuel(s, env, 0, n, n);
        if !(r is ReturnValue || r is Error) {
            lemma_eval_prog_shift(s, rest, 0, r, env1, n);
        }
        assert(eval_prog(ss, 0, SObject::Null, env, n + 1) is Some);
        lemma_program_result_any_fuel(ss, env, n + 1);
    } else {
        // rest is not empty: the value before it is forgotten.
        if exists|f: nat| eval_prog(rest, 0, SObject::Null, env1, f) is Some {
            let m = choose|f: nat| eval_prog(rest, 0, SObject::Null, env1, f) is Some;
            let k = n + m;
            lemma_eval_stmt_fuel(s, env, 0, n, k);
            lemma_eval_prog_fuel(rest, 0, SObject::Null, env1, m, k);
            lemma_eval_prog_shift(s, rest, 0, r, env1, k);
            assert(eval_prog(rest, 0, r, env1, k) == eval_prog(rest, 0, SObject::Null, env1, k));
            assert(eval_prog(ss, 0, SObject::Null, env, k + 1) == eval_prog(rest, 0, SObject::Null, env1, k));
            lemma_program_result_any_fuel(ss, env, k + 1);
            lemma_program_result_any_fuel(rest, env1, k);
        } else {
            if exists|f: nat| eval_prog(ss, 0, SObject::Null, env, f) is Some {
                let g = choose|f: nat| eval_prog(ss, 0, SObject::Null, env, f) is Some;
                let k = g + n;
                lemma_eval_prog_fuel(ss, 0, SObject::Null, env, g, k + 1);
                lemma_eval_stmt_fuel(s, env, 0, n, k);
                lemma_eval_prog_shift(s, rest, 0, r, env1, k);
                assert(eval_prog(rest, 0, r, env1, k) == eval_prog(rest, 0, SObject::Null, env1, k));
                assert(eval_prog(rest, 0, SObject::Null, env1, k) is Some);
            }
        }
    }
}

/// Array elements and call arguments are evaluated left to right and the
/// first error stops the list: the result is that error alone, or else one
/// value per expression, in order, none of them an error.
pub proof fn lemma_eval_exprs_shape(
    es: Seq<SExpr>,
    i: nat,
    acc: Seq<SObject>,
    env: SEnv,
    scope: nat,
    fuel: nat,
)
    requires
        i <= es.len(),
        forall|j: int| 0 <= j < acc.len() ==> !(#[trigger] acc[j] is Error),
        eval_exprs(es, i, acc, env, scope, fuel) is Some,
    ensures
        ({
            let vs = eval_exprs(es, i, acc, env, scope, fuel).unwrap().0;
            ||| vs.len() == 1 && vs[0] is Error
            ||| vs.len() == acc.len() + es.len() - i && vs.subrange(0, acc.len() as int) == acc
                && forall|j: int| 0 <= j < vs.len() ==> !(#[trigger] vs[j] is Error)
        }),
    decreases fuel,
{
    let g = (fuel - 1) as nat;
    if i < es.len() {
        let v = eval_expr(es[i as int], env, scope, g).unwrap();
        if !(v.0 is Error) {
            let acc1 = acc.push(v.0);
            lemma_eval_exprs_shape(es, i + 1, acc1, v.1, scope, g);
            let vs = eval_exprs(es, i, acc, env, scope, fuel).unwrap().0;
            if vs.len() == acc1.len() + es.len() - (i + 1) && vs.subrange(0, acc1.len() as int) == acc1 {
                assert(vs.subrange(0, acc.len() as int) =~= acc1.subrange(0, acc.len() as int));
                assert(acc1.subrange(0, acc.len() as int) =~= acc);
            }
        }
    } else {
        assert(acc.subrange(0, acc.len() as int) =~= acc);
    }
}

proof fn lemma_eval_block_shift(
    s: SStmt,
    rest: Seq<SStmt>,
    i: nat,
    last: SObject,
    env: SEnv,
    scope: nat,
    fuel: nat,
)
    ensures
        eval_block(seq![s] + rest, i + 1, last, env, scope, fuel) == eval_block(rest, i, last, env, scope, fuel),
    decreases fuel,
{
    let ss = seq![s] + rest;
    if fuel > 0 && i < rest.len() {
        assert(ss[(i + 1) as int] == rest[i as int]);
        let f = (fuel - 1) as nat;
        match eval_stmt(rest[i as int], env, scope, f) {
            Some((r, env1)) => {
                lemma_eval_block_shift(s, rest, i + 1, r, env1, scope, f);
            },
            None => {},
        }
    }
}

/// A block runs its statements in order in the same scope: an empty block
/// gives `null`; a `return` value (kept wrapped, so that enclosing blocks
/// stop too) or an error stops it; otherwise the rest runs in the environment
/// the first statement left, and the last statement's value is the block's.
pub proof fn lemma_block_first_statement(s: SStmt, rest: Seq<SStmt>, env: SEnv, scope: nat)
    requires
        statement_result(s, env, scope) is Some,
    ensures
        statement_result(SStmt::Block(Seq::empty()), env, scope) == Some((SObject::Null, env)),
        statement_result(SStmt::Block(seq![s] + rest), env, scope) == ({
            let (r, env1) = statement_result(s, env, scope).unwrap();
            if r is ReturnValue || r is Error || rest.len() == 0 {
                Some((r, env1))
            } else {
                statement_result(SStmt::Block(rest), env1, scope)
            }
        }),
{
    assert(eval_stmt(SStmt::Block(Seq::empty()), env, scope, 2) == Some((SObject::Null, env)));
    lemma_statement_result_any_fuel(SStmt::Block(Seq::empty()), env, scope, 2);
    let ss = seq![s] + rest;
    let bs = SStmt::Block(ss);
    let (r, env1) = statement_result(s, env, scope).unwrap();
    let n = choose|f: nat| eval_stmt(s, env, scope, f) is Some;
    assert(ss[0] == s);
    if r is ReturnValue || r is Error || rest.len() == 0 {
        let c = Some((r, env1));
        assert forall|g: nat| g >= n + 3 implies #[trigger] eval_stmt(bs, env, scope, g) == c by {
            lemma_eval_stmt_fuel(s, env, scope, n, (g - 2) as nat);
            if !(r is ReturnValue || r is Error) {
                lemma_eval_block_shift(s, rest, 0, r, env1, scope, (g - 2) as nat);
            }
        }
        lemma_stmt_result_from(bs, env, scope, n + 3, c);
    } else {
        let rb = SStmt::Block(rest);
        let c = statement_result(rb, env1, scope);
        let m: nat = if c is Some {
            choose|f: nat| eval_stmt(rb, env1, scope, f) is Some
        } else {
            0
        };
        assert forall|g: nat| g >= n + m + 3 implies #[trigger] eval_stmt(bs, env, scope, g) == c by {
            let k = (g - 2) as nat;
            lemma_eval_stmt_fuel(s, env, scope, n, k);
            lemma_eval_block_shift(s, rest, 0, r, env1, scope, k);
            assert(eval_block(rest, 0, r, env1, scope, k) == eval_block(rest, 0, SObject::Null, env1, scope, k));
            assert(eval_stmt(bs, env, scope, g) == eval_stmt(rb, env1, scope, (g - 1) as nat));
            if c is Some {
                lemma_eval_stmt_fuel(rb, env1, scope, m, (g - 1) as nat);
            } else if eval_stmt(rb, env1, scope, (g - 1) as nat) is Some {
                lemma_statement_result_any_fuel(rb, env1, scope, (g - 1) as nat);
            }
        }
        lemma_stmt_result_from(bs, env, scope, n + m + 3, c);
    }
}

/// `name` is none of the parameters `params[i..]` that get an argument.
pub open spec fn not_bound_from(params: Seq<Seq<char>>, args: Seq<SObject>, i: nat, name: Seq<char>) -> bool {
    forall|j: int| i <= j < params.len() && j < args.len() ==> #[trigger] params[j] != name
}

proof fn lemma_bind_params_keeps(
    env: SEnv,
    sc: nat,
    params: Seq<Seq<char>>,
    args: Seq<SObject>,
    i: nat,
    from: int,
    name: Seq<char>,
)
    requires
        not_bound_from(params, args, i, name),
    ensures
        env_get(bind_params(env, sc, params, args, i).frames, from, name) == env_get(env.frames, from, name),
    decreases params.len() - i,
{
    if i < params.len() && i < args.len() {
        assert(params[i as int] != name);
        lemma_set_keeps_other_names(env, sc as int, params[i as int], args[i as int], from, name);
        lemma_bind_params_keeps(env_set(env, sc as int, params[i as int], args[i as int]), sc, params, args, i + 1, from, name);
    }
}

proof fn lemma_bind_params_binds(env: SEnv, sc: nat, params: Seq<Seq<char>>, args: Seq<SObject>, i: nat, k: nat)
    requires
        i <= k < params.len(),
        k < args.len(),
        sc < env.frames.len(),
        not_bound_from(params, args, k + 1, params[k as int]),
    ensures
        env_get(bind_params(env, sc, params, args, i).frames, sc as int, params[k as int]) == Some(args[k as int]),
    decreases k - i,
{
    let e1 = env_set(env, sc as int, params[i as int], args[i as int]);
    if i == k {
        lemma_get_after_set(env, sc as int, params[k as int], args[k as int]);
        lemma_bind_params_keeps(e1, sc, params, args, k + 1, sc as int, params[k as int]);
    } else {
        lemma_bind_params_binds(e1, sc, params, args, i + 1, k);
    }
}

proof fn lemma_bind_params_below(env: SEnv, sc: nat, params: Seq<Seq<char>>, args: Seq<SObject>, i: nat, f: int)
    requires
        0 <= f < sc,
        f < env.frames.len(),
    ensures
        bind_params(env, sc, params, args, i).frames[f] == env.frames[f],
    decreases params.len() - i,
{
    if i < params.len() && i < args.len() {
        lemma_bind_params_below(env_set(env, sc as int, params[i as int], args[i as int]), sc, params, args, i + 1, f);
    }
}

/// Lexical scoping of calls. A call of a function made in scope `fenv` runs
/// its body in a new scope (numbered after the existing ones) enclosed by
/// `fenv`: each parameter that gets an argument is bound to it (the shorter
/// of the two lists decides, and a later parameter of the same name wins);
/// every other name means there what it means in `fenv`, whichever scope
/// the call was made from; and no existing scope is changed.
pub proof fn lemma_call_scope(
    params: Seq<Seq<char>>,
    args: Seq<SObject>,
    env: SEnv,
    fenv: nat,
    k: nat,
    name: Seq<char>,
)
    requires
        fenv < env.frames.len(),
    ensures
        ({
            let sc = env.frames.len();
            let e1 = bind_params(env_enclose(env, fenv), sc, params, args, 0);
            &&& k < params.len() && k < args.len() && not_bound_from(params, args, k + 1, params[k as int])
                ==> env_get(e1.frames, sc as int, params[k as int]) == Some(args[k as int])
            &&& not_bound_from(params, args, 0, name) ==> env_get(e1.frames, sc as int, name) == env_get(
                env.frames,
                fenv as int,
                name,
            )
            &&& forall|f: int| 0 <= f < sc ==> #[trigger] e1.frames[f] == env.frames[f]
        }),
{
    let sc = env.frames.len();
    let e0 = env_enclose(env, fenv);
    if k < params.len() && k < args.len() && not_bound_from(params, args, k + 1, params[k as int]) {
        lemma_bind_params_binds(e0, sc, params, args, 0, k);
    }
    if not_bound_from(params, args, 0, name) {
        lemma_bind_params_keeps(e0, sc, params, args, 0, sc as int, name);
        lemma_enclosed_sees_outer(env, fenv, name);
    }
    assert forall|f: int| 0 <= f < sc implies #[trigger] bind_params(e0, sc, params, args, 0).frames[f]
        == env.frames[f] by {
        lemma_bind_params_below(e0, sc, params, args, 0, f);
    }
}

/// `acc` after storing each entry of `kvs`, in order, as a hash literal does.
pub open spec fn insert_all(acc: Seq<(SObject, SObject)>, kvs: Seq<(SObject, SObject)>) -> Seq<(SObject, SObject)>
    decreases kvs.len(),
{
    if kvs.len() == 0 {
        acc
    } else {
        hash_insert(insert_all(acc, kvs.drop_last()), kvs.last().0, kvs.last().1)
    }
}

/// The index of the last entry of `kvs` whose key is `k`, or -1.
pub open spec fn last_with_key(kvs: Seq<(SObject, SObject)>, k: SKey) -> int
    decreases kvs.len(),
{
    if kvs.len() == 0 {
        -1
    } else if hash_key(kvs.last().0) == Some(k) {
        kvs.len() - 1
    } else {
        last_with_key(kvs.drop_last(), k)
    }
}

proof fn lemma_last_with_key_range(kvs: Seq<(SObject, SObject)>, k: SKey)
    ensures
        -1 <= last_with_key(kvs, k) < kvs.len(),
    decreases kvs.len(),
{
    if kvs.len() > 0 {
        lemma_last_with_key_range(kvs.drop_last(), k);
    }
}

/// A later key wins: after storing the entries `kvs` in order, indexing with
/// a key gives the value of the last entry stored under it, and a key that
/// none of them has gives what it gave before.
pub proof fn lemma_last_key_wins(acc: Seq<(SObject, SObject)>, kvs: Seq<(SObject, SObject)>, probe: SObject)
    requires
        forall|i: int| 0 <= i < kvs.len() ==> (#[trigger] hash_key(kvs[i].0)) is Some,
        hash_key(probe) is Some,
    ensures
        eval_index(SObject::Hash(insert_all(acc, kvs)), probe) == ({
            let j = last_with_key(kvs, hash_key(probe).unwrap());
            if j >= 0 {
                kvs[j].1
            } else {
                eval_index(SObject::Hash(acc), probe)
            }
        }),
    decreases kvs.len(),
{
    if kvs.len() > 0 {
        let d = kvs.drop_last();
        assert forall|i: int| 0 <= i < d.len() implies (#[trigger] hash_key(d[i].0)) is Some by {
            assert(d[i] == kvs[i]);
        }
        lemma_last_key_wins(acc, d, probe);
        let last = kvs.last();
        assert(hash_key(kvs[kvs.len() - 1].0) is Some);
        lemma_hash_get_after_insert(insert_all(acc, d), last.0, last.1, probe);
        if hash_key(last.0) == hash_key(probe) {
            lemma_hash_get_after_insert(insert_all(acc, d), last.0, last.1, last.0);
            // indexing depends on the probe only through its key
            let r = hash_insert(insert_all(acc, d), last.0, last.1);
            assert(eval_index(SObject::Hash(r), probe) == eval_index(SObject::Hash(r), last.0));
        } else {
            let j = last_with_key(d, hash_key(probe).unwrap());
            lemma_last_with_key_range(d, hash_key(probe).unwrap());
            if j >= 0 {
                assert(kvs[j] == d[j]);
            }
        }
    }
}

proof fn lemma_insert_all_front(acc: Seq<(SObject, SObject)>, kv: (SObject, SObject), kvs: Seq<(SObject, SObject)>)
    ensures
        insert_all(hash_insert(acc, kv.0, kv.1), kvs) == insert_all(acc, seq![kv] + kvs),
    decreases kvs.len(),
{
    let all = seq![kv] + kvs;
    if kvs.len() == 0 {
        assert(all.drop_last() =~= Seq::<(SObject, SObject)>::empty());
        assert(insert_all(acc, all.drop_last()) == acc);
        assert(all.last() == kv);
    } else {
        lemma_insert_all_front(acc, kv, kvs.drop_last());
        assert(all.drop_last() =~= seq![kv] + kvs.drop_last());
        assert(all.last() == kvs.last());
    }
}

/// A hash literal that gives a hash has stored one entry per pair, each
/// under a usable key, in the order written; with `lemma_last_key_wins`, a
/// later duplicate key wins.
pub proof fn lemma_eval_hash_stores_in_order(
    ps: Seq<(SExpr, SExpr)>,
    i: nat,
    acc: Seq<(SObject, SObject)>,
    env: SEnv,
    scope: nat,
    fuel: nat,
)
    requires
        i <= ps.len(),
        eval_hash(ps, i, acc, env, scope, fuel) matches Some((SObject::Hash(_), _)),
    ensures
        exists|kvs: Seq<(SObject, SObject)>|
            #![trigger insert_all(acc, kvs)]
            kvs.len() == ps.len() - i && (forall|j: int|
                0 <= j < kvs.len() ==> (#[trigger] hash_key(kvs[j].0)) is Some) && eval_hash(
                ps,
                i,
                acc,
                env,
                scope,
                fuel,
            ).unwrap().0 == SObject::Hash(insert_all(acc, kvs)),
    decreases fuel,
{
    let g = (fuel - 1) as nat;
    if i >= ps.len() {
        let kvs = Seq::<(SObject, SObject)>::empty();
        assert(insert_all(acc, kvs) == acc);
    } else {
        let k = eval_expr(ps[i as int].0, env, scope, g).unwrap();
        let v = eval_expr(ps[i as int].1, k.1, scope, g).unwrap();
        let acc1 = hash_insert(acc, k.0, v.0);
        lemma_eval_hash_stores_in_order(ps, i + 1, acc1, v.1, scope, g);
        let rest = choose|kvs: Seq<(SObject, SObject)>|
            #![trigger insert_all(acc1, kvs)]
            kvs.len() == ps.len() - (i + 1) && (forall|j: int|
                0 <= j < kvs.len() ==> (#[trigger] hash_key(kvs[j].0)) is Some) && eval_hash(
                ps,
                i + 1,
                acc1,
                v.1,
                scope,
                g,
            ).unwrap().0 == SObject::Hash(insert_all(acc1, kvs));
        let kvs = seq![(k.0, v.0)] + rest;
        lemma_insert_all_front(acc, (k.0, v.0), rest);
        assert forall|j: int| 0 <= j < kvs.len() implies (#[trigger] hash_key(kvs[j].0)) is Some by {
            if j > 0 {
                assert(kvs[j] == rest[j - 1]);
            }
        }
        assert(eval_hash(ps, i, acc, env, scope, fuel).unwrap().0 == SObject::Hash(insert_all(acc, kvs)));
    }
}

/// A hash literal gives a hash or an error, nothing else: the first error
/// met while evaluating key, value, key, value, … in order, or the error for
/// the first key that cannot be a hash key (its value then not evaluated).
pub proof fn lemma_eval_hash_hash_or_error(
    ps: Seq<(SExpr, SExpr)>,
    i: nat,
    acc: Seq<(SObject, SObject)>,
    env: SEnv,
    scope: nat,
    fuel: nat,
)
    requires
        eval_hash(ps, i, acc, env, scope, fuel) is Some,
    ensures
        eval_hash(ps, i, acc, env, scope, fuel).unwrap().0 is Hash || eval_hash(
            ps,
            i,
            acc,
            env,
            scope,
            fuel,
        ).unwrap().0 is Error,
    decreases fuel,
{
    let g = (fuel - 1) as nat;
    if i < ps.len() {
        let k = eval_expr(ps[i as int].0, env, scope, g).unwrap();
        if !(k.0 is Error) && hash_key(k.0) is Some {
            let v = eval_expr(ps[i as int].1, k.1, scope, g).unwrap();
            if !(v.0 is Error) {
                lemma_eval_hash_hash_or_error(ps, i + 1, hash_insert(acc, k.0, v.0), v.1, scope, g);
            }
        }
    }
}

proof fn lemma_operator_texts_differ()
    ensures
        "+"@ != "-"@,
        "+"@ != "*"@,
        "+"@ != "/"@,
        "+"@ != "<"@,
        "+"@ != ">"@,
        "+"@ != "=="@,
        "+"@ != "!="@,
        "-"@ != "*"@,
        "-"@ != "/"@,
        "-"@ != "<"@,
        "-"@ != ">"@,
        "-"@ != "=="@,
        "-"@ != "!="@,
        "*"@ != "/"@,
        "*"@ != "<"@,
        "*"@ != ">"@,
        "*"@ != "=="@,
        "*"@ != "!="@,
        "/"@ != "<"@,
        "/"@ != ">"@,
        "/"@ != "=="@,
        "/"@ != "!="@,
        "<"@ != ">"@,
        "<"@ != "=="@,
        "<"@ != "!="@,
        ">"@ != "=="@,
        ">"@ != "!="@,
        "=="@ != "!="@,
{
    reveal_strlit("+");
    reveal_strlit("-");
    reveal_strlit("*");
    reveal_strlit("/");
    reveal_strlit("<");
    reveal_strlit(">");
    reveal_strlit("==");
    reveal_strlit("!=");
    assert("+"@[0] != "-"@[0]);
    assert("+"@[0] != "*"@[0]);
    assert("+"@[0] != "/"@[0]);
    assert("+"@[0] != "<"@[0]);
    assert("+"@[0] != ">"@[0]);
    assert("-"@[0] != "*"@[0]);
    assert("-"@[0] != "/"@[0]);
    assert("-"@[0] != "<"@[0]);
    assert("-"@[0] != ">"@[0]);
    assert("*"@[0] != "/"@[0]);
    assert("*"@[0] != "<"@[0]);
    assert("*"@[0] != ">"@[0]);
    assert("/"@[0] != "<"@[0]);
    assert("/"@[0] != ">"@[0]);
    assert("<"@[0] != ">"@[0]);
    assert("=="@[0] != "!="@[0]);
}

/// `a op b` on two integer literals.
pub open spec fn int_op(op: Seq<char>, a: i64, b: i64) -> SExpr {
    SExpr::Infix(op, Box::new(SExpr::Int(a)), Box::new(SExpr::Int(b)))
}

proof fn lemma_int_literal(n: i64, env: SEnv, scope: nat)
    ensures
        expression_result(SExpr::Int(n), env, scope) == Some((SObject::Integer(n), env)),
{
    assert(eval_expr(SExpr::Int(n), env, scope, 1) == Some((SObject::Integer(n), env)));
    lemma_expression_result_any_fuel(SExpr::Int(n), env, scope, 1);
}

/// Integer comparisons compare the values: `a < b`, `a > b`, `a == b` and
/// `a != b` give the truth of the relation, and change nothing. In
/// particular `>` is strict (`n > n` is false), `a > b` is `b < a`, and
/// `!=` is the negation of `==`.
pub proof fn lemma_integer_comparisons(a: i64, b: i64, env: SEnv, scope: nat)
    ensures
        expression_result(int_op("<"@, a, b), env, scope) == Some((SObject::Boolean(a < b), env)),
        expression_result(int_op(">"@, a, b), env, scope) == Some((SObject::Boolean(a > b), env)),
        expression_result(int_op("=="@, a, b), env, scope) == Some((SObject::Boolean(a == b), env)),
        expression_result(int_op("!="@, a, b), env, scope) == Some((SObject::Boolean(a != b), env)),
        expression_result(int_op(">"@, a, a), env, scope) == Some((SObject::Boolean(false), env)),
        expression_result(int_op(">"@, a, b), env, scope) == expression_result(int_op("<"@, b, a), env, scope),
{
    reveal_strlit("+");
    reveal_strlit("-");
    reveal_strlit("*");
    reveal_strlit("/");
    reveal_strlit("<");
    reveal_strlit(">");
    reveal_strlit("==");
    reveal_strlit("!=");
    lemma_operator_texts_differ();
    lemma_int_literal(a, env, scope);
    lemma_int_literal(b, env, scope);
    lemma_infix_left_to_right("<"@, SExpr::Int(a), SExpr::Int(b), env, scope);
    lemma_infix_left_to_right(">"@, SExpr::Int(a), SExpr::Int(b), env, scope);
    lemma_infix_left_to_right("=="@, SExpr::Int(a), SExpr::Int(b), env, scope);
    lemma_infix_left_to_right("!="@, SExpr::Int(a), SExpr::Int(b), env, scope);
    lemma_infix_left_to_right(">"@, SExpr::Int(a), SExpr::Int(a), env, scope);
    lemma_infix_left_to_right("<"@, SExpr::Int(b), SExpr::Int(a), env, scope);
}

/// Integer arithmetic computes the mathematical result whenever it fits in
/// an `i64`: `+`, `-`, `*`, and `/` rounding toward zero (`q * b + r == a`
/// with `|r| < |b|` and `r` of the sign of `a`).
pub proof fn lemma_integer_arithmetic(a: i64, b: i64, env: SEnv, scope: nat)
    ensures
        i64::MIN <= a + b <= i64::MAX ==> expression_result(int_op("+"@, a, b), env, scope) == Some(
            (SObject::Integer((a + b) as i64), env),
        ),
        i64::MIN <= a - b <= i64::MAX ==> expression_result(int_op("-"@, a, b), env, scope) == Some(
            (SObject::Integer((a - b) as i64), env),
        ),
        i64::MIN <= a * b <= i64::MAX ==> expression_result(int_op("*"@, a, b), env, scope) == Some(
            (SObject::Integer((a * b) as i64), env),
        ),
        b != 0 && !(a == i64::MIN && b == -1) ==> (exists|q: i64|
            expression_result(int_op("/"@, a, b), env, scope) == Some((SObject::Integer(q), env)) && ({
                let r = a - q * b;
                &&& (if r < 0 { -r } else { r }) < (if b < 0 { -b } else { b as int })
                &&& (r == 0 || (r < 0) == (a < 0))
            })),
{
    reveal_strlit("+");
    reveal_strlit("-");
    reveal_strlit("*");
    reveal_strlit("/");
    lemma_operator_texts_differ();
    lemma_int_literal(a, env, scope);
    lemma_int_literal(b, env, scope);
    lemma_infix_left_to_right("+"@, SExpr::Int(a), SExpr::Int(b), env, scope);
    lemma_infix_left_to_right("-"@, SExpr::Int(a), SExpr::Int(b), env, scope);
    lemma_infix_left_to_right("*"@, SExpr::Int(a), SExpr::Int(b), env, scope);
    lemma_infix_left_to_right("/"@, SExpr::Int(a), SExpr::Int(b), env, scope);
    if b != 0 && !(a == i64::MIN && b == -1) {
        let ma: int = if a < 0 { -a } else { a as int };
        let mb: int = if b < 0 { -b } else { b as int };
        let mq = ma / mb;
        assert(0 <= ma - mq * mb < mb) by (nonlinear_arith)
            requires mb > 0, ma >= 0, mq == ma / mb;
        assert(mq <= ma) by (nonlinear_arith)
            requires mb >= 1, ma >= 0, mq == ma / mb;
        let q = trunc_div(a as int, b as int);
        assert(q == if (a < 0) != (b < 0) { -mq } else { mq });
        assert(fits_i64(q)) by (nonlinear_arith)
            requires q == (if (a < 0) != (b < 0) { -mq } else { mq }), 0 <= mq <= ma,
                ma == (if a < 0 { -a } else { a as int }), mb == (if b < 0 { -b } else { b as int }),
                mb >= 1, !(a == i64::MIN && b == -1), i64::MIN <= a <= i64::MAX, i64::MIN <= b <= i64::MAX,
                mq == ma / mb;
        let qi = q as i64;
        let r = a - qi * b;
        assert(r == (if a < 0 { -(ma - mq * mb) } else { ma - mq * mb })) by (nonlinear_arith)
            requires qi == q, q == (if (a < 0) != (b < 0) { -mq } else { mq }),
                ma == (if a < 0 { -a } else { a as int }), mb == (if b < 0 { -b } else { b as int }),
                r == a - qi * b;
        assert(expression_result(int_op("/"@, a, b), env, scope) == Some((SObject::Integer(qi), env)));
    }
}

proof fn lemma_literal_value(e: SExpr, v: SObject, env: SEnv, scope: nat)
    requires
        e == SExpr::Int(v->Integer_0) && v is Integer || e == SExpr::Bool(v->Boolean_0) && v is Boolean
            || e == SExpr::Str(v->Str_0) && v is Str,
    ensures
        expression_result(e, env, scope) == Some((v, env)),
{
    assert(eval_expr(e, env, scope, 1) == Some((v, env)));
    lemma_expression_result_any_fuel(e, env, scope, 1);
}

/// `!` negates a boolean, turns `null` into `true` and anything else into
/// `false`; `-` negates an integer (`-(-n) == n`).
pub proof fn lemma_prefix_operators(b: bool, n: i64, env: SEnv, scope: nat)
    ensures
        expression_result(SExpr::Prefix("!"@, Box::new(SExpr::Bool(b))), env, scope) == Some(
            (SObject::Boolean(!b), env),
        ),
        expression_result(SExpr::Prefix("!"@, Box::new(SExpr::Int(n))), env, scope) == Some(
            (SObject::Boolean(false), env),
        ),
        n != i64::MIN ==> expression_result(SExpr::Prefix("-"@, Box::new(SExpr::Int(n))), env, scope)
            == Some((SObject::Integer((-n) as i64), env)),
{
    reveal_strlit("!");
    reveal_strlit("-");
    assert("!"@[0] != "-"@[0]);
    lemma_literal_value(SExpr::Bool(b), SObject::Boolean(b), env, scope);
    lemma_literal_value(SExpr::Int(n), SObject::Integer(n), env, scope);
    lemma_prefix_after_operand("!"@, SExpr::Bool(b), env, scope);
    lemma_prefix_after_operand("!"@, SExpr::Int(n), env, scope);
    lemma_prefix_after_operand("-"@, SExpr::Int(n), env, scope);
}

/// Booleans compare by value with `==` and `!=`; strings join with `+`.
pub proof fn lemma_boolean_and_string_operators(a: bool, b: bool, x: Seq<char>, y: Seq<char>, env: SEnv, scope: nat)
    ensures
        expression_result(
            SExpr::Infix("=="@, Box::new(SExpr::Bool(a)), Box::new(SExpr::Bool(b))),
            env,
            scope,
        ) == Some((SObject::Boolean(a == b), env)),
        expression_result(
            SExpr::Infix("!="@, Box::new(SExpr::Bool(a)), Box::new(SExpr::Bool(b))),
            env,
            scope,
        ) == Some((SObject::Boolean(a != b), env)),
        expression_result(
            SExpr::Infix("+"@, Box::new(SExpr::Str(x)), Box::new(SExpr::Str(y))),
            env,
            scope,
        ) == Some((SObject::Str(x + y), env)),
{
    lemma_operator_texts_differ();
    reveal_strlit("BOOLEAN");
    reveal_strlit("STRING");
    lemma_literal_value(SExpr::Bool(a), SObject::Boolean(a), env, scope);
    lemma_literal_value(SExpr::Bool(b), SObject::Boolean(b), env, scope);
    lemma_literal_value(SExpr::Str(x), SObject::Str(x), env, scope);
    lemma_literal_value(SExpr::Str(y), SObject::Str(y), env, scope);
    lemma_infix_left_to_right("=="@, SExpr::Bool(a), SExpr::Bool(b), env, scope);
    lemma_infix_left_to_right("!="@, SExpr::Bool(a), SExpr::Bool(b), env, scope);
    lemma_infix_left_to_right("+"@, SExpr::Str(x), SExpr::Str(y), env, scope);
}

/// Only `false` and `null` are false conditions: `if (c) { A } else { B }`
/// runs `B` for those two and `A` for every other value, `0`, `""` and `[]`
/// included.
pub proof fn lemma_truthiness(v: SObject)
    ensures
        is_truthy(v) <==> !(v == SObject::Boolean(false) || v == SObject::Null),
        is_truthy(SObject::Integer(0)),
        is_truthy(SObject::Str(Seq::empty())),
        is_truthy(SObject::Array(Seq::empty())),
        is_truthy(SObject::Boolean(true)),
{
}

/// Indexing an array with an integer gives the element at that position,
/// counted from 0, and `null` outside the array (negative positions too).
pub proof fn lemma_array_index(els: Seq<SObject>, i: i64)
    ensures
        0 <= i < els.len() ==> eval_index(SObject::Array(els), SObject::Integer(i)) == els[i as int],
        (i < 0 || i >= els.len()) ==> eval_index(SObject::Array(els), SObject::Integer(i)) == SObject::Null,
{
}

/// An error value with message `msg`.
pub fn new_error(msg: String) -> (r: Object)
    ensures
        r@ == SObject::Error(msg@),
{
    Object::Error(msg)
}

/// Whether `op` is the text `lit`.
fn is_op(op: &String, lit: &str) -> (r: bool)
    ensures
        r == (op@ == lit@),
{
    *op == lit.to_owned()
}

/// `a` followed by `b`.
fn msg2(a: &str, b: &str) -> (r: String)
    ensures
        r@ == a@ + b@,
{
    let mut m = String::from_str(a);
    push_str(&mut m, b);
    m
}

/// `a`, `b` and `c` one after the other.
fn msg3(a: &str, b: &str, c: &str) -> (r: String)
    ensures
        r@ == a@ + b@ + c@,
{
    let mut m = String::from_str(a);
    push_str(&mut m, b);
    push_str(&mut m, c);
    m
}

/// `a` to `f` one after the other.
fn msg6(a: &str, b: &str, c: &str, d: &str, e: &str, f: &str) -> (r: String)
    ensures
        r@ == a@ + b@ + c@ + d@ + e@ + f@,
{
    let mut m = String::from_str(a);
    push_str(&mut m, b);
    push_str(&mut m, c);
    push_str(&mut m, d);
    push_str(&mut m, e);
    push_str(&mut m, f);
    m
}

/// The position of a value's variant in the declaration of `SObject`.
pub open spec fn kind_tag(o: SObject) -> int {
    match o {
        SObject::Integer(_) => 0,
        SObject::Boolean(_) => 1,
        SObject::Str(_) => 2,
        SObject::Null => 3,
        SObject::ReturnValue(_) => 4,
        SObject::Error(_) => 5,
        SObject::Function(..) => 6,
        SObject::Builtin(_) => 7,
        SObject::Array(_) => 8,
        SObject::Hash(_) => 9,
    }
}

/// Two values have the same type name exactly when they are of the same variant.
proof fn lemma_kind_name_tag(a: SObject, b: SObject)
    ensures
        (kind_name(a) == kind_name(b)) == (kind_tag(a) == kind_tag(b)),
{
    broadcast use vstd::string::group_string_axioms;

    reveal_strlit("INTEGER");
    reveal_strlit("BOOLEAN");
    reveal_strlit("STRING");
    reveal_strlit("NULL");
    reveal_strlit("RETURN_VALUE");
    reveal_strlit("ERROR");
    reveal_strlit("FUNCTION");
    reveal_strlit("BUILTIN");
    reveal_strlit("ARRAY");
    reveal_strlit("HASH");
    if kind_name(a) == kind_name(b) {
        assert(kind_name(a)[0] == kind_name(b)[0]);
        assert(kind_name(a)[1] == kind_name(b)[1]);
    }
}

fn kind_tag_exec(o: &Object) -> (t: u8)
    ensures
        t as int == kind_tag(o@),
{
    match o {
        Object::Integer(_) => 0,
        Object::Boolean(_) => 1,
        Object::String(_) => 2,
        Object::Null => 3,
        Object::ReturnValue(_) => 4,
        Object::Error(_) => 5,
        Object::Function { .. } => 6,
        Object::Builtin(_) => 7,
        Object::Array(_) => 8,
        Object::Hash(_) => 9,
    }
}

/// Whether two values have the same type name.
fn same_kind(l: &Object, r: &Object) -> (b: bool)
    ensures
        b == (kind_name(l@) == kind_name(r@)),
{
    proof {
        lemma_kind_name_tag(l@, r@);
    }
    kind_tag_exec(l) == kind_tag_exec(r)
}

fn eval_prefix_exec(op: &String, right: Object) -> (r: Object)
    requires
        eval_prefix(op@, right@) is Some,
    ensures
        r@ == eval_prefix(op@, right@).unwrap(),
{
    if is_op(op, "!") {
        match right {
            Object::Boolean(b) => Object::Boolean(!b),
            Object::Null => Object::Boolean(true),
            _ => Object::Boolean(false),
        }
    } else if is_op(op, "-") {
        match right {
            Object::Integer(n) => Object::Integer(-n),
            other => new_error(msg2("unknown operator: -", other.kind_name())),
        }
    } else {
        new_error(msg3("unknown operator: ", op.as_str(), right.kind_name()))
    }
}

/// `a / b` rounded toward zero, computed on magnitudes.
fn div_toward_zero(a: i64, b: i64) -> (q: i64)
    requires
        b != 0,
        fits_i64(trunc_div(a as int, b as int)),
    ensures
        q == trunc_div(a as int, b as int),
{
    let ua: u64 = if a < 0 { (0i128 - (a as i128)) as u64 } else { a as u64 };
    let ub: u64 = if b < 0 { (0i128 - (b as i128)) as u64 } else { b as u64 };
    let m: u64 = ua / ub;
    if (a < 0) != (b < 0) {
        (0i128 - (m as i128)) as i64
    } else {
        m as i64
    }
}

fn eval_integer_infix_exec(op: &String, a: i64, b: i64) -> (r: Object)
    requires
        eval_integer_infix(op@, a, b) is Some,
    ensures
        r@ == eval_integer_infix(op@, a, b).unwrap(),
{
    if is_op(op, "+") {
        Object::Integer(a + b)
    } else if is_op(op, "-") {
        Object::Integer(a - b)
    } else if is_op(op, "*") {
        Object::Integer(a * b)
    } else if is_op(op, "/") {
        Object::Integer(div_toward_zero(a, b))
    } else if is_op(op, "<") {
        Object::Boolean(a < b)
    } else if is_op(op, ">") {
        Object::Boolean(a > b)
    } else if is_op(op, "==") {
        Object::Boolean(a == b)
    } else if is_op(op, "!=") {
        Object::Boolean(a != b)
    } else {
        new_error(msg3("unknown operator: INTEGER ", op.as_str(), " INTEGER"))
    }
}

fn eval_infix_exec(op: &String, left: Object, right: Object) -> (r: Object)
    requires
        eval_infix(op@, left@, right@) is Some,
    ensures
        r@ == eval_infix(op@, left@, right@).unwrap(),
{
    if !same_kind(&left, &right) {
        return new_error(
            msg6("type mismatch: ", left.kind_name(), " ", op.as_str(), " ", right.kind_name()),
        );
    }
    match (&left, &right) {
        (Object::Integer(a), Object::Integer(b)) => eval_integer_infix_exec(op, *a, *b),
        (Object::String(a), Object::String(b)) => {
            if is_op(op, "+") {
                let mut s = a.clone();
                push_str(&mut s, b.as_str());
                Object::String(s)
            } else {
                new_error(msg3("unknown operator: STRING ", op.as_str(), " STRING"))
            }
        },
        (Object::Boolean(a), Object::Boolean(b)) => {
            if is_op(op, "==") {
                Object::Boolean(*a == *b)
            } else if is_op(op, "!=") {
                Object::Boolean(*a != *b)
            } else {
                new_error(msg3("unknown operator: BOOLEAN ", op.as_str(), " BOOLEAN"))
            }
        },
        _ => new_error(
            msg6("unknown operator: ", left.kind_name(), " ", op.as_str(), " ", right.kind_name()),
        ),
    }
}

fn is_truthy_exec(o: &Object) -> (r: bool)
    ensures
        r == is_truthy(o@),
{
    match o {
        Object::Null => false,
        Object::Boolean(b) => *b,
        _ => true,
    }
}

proof fn lemma_hash_index_step(ps: Seq<(SObject, SObject)>, k: SKey, i: int)
    requires
        0 <= i < ps.len(),
        hash_index(ps.take(i), k) == -1,
    ensures
        hash_index(ps.take(i + 1), k) == if hash_key(ps[i].0) == Some(k) { i } else { -1 },
{
    assert(ps.take(i + 1).drop_last() =~= ps.take(i));
}

proof fn lemma_hash_index_found(ps: Seq<(SObject, SObject)>, k: SKey, i: int)
    requires
        0 <= i <= ps.len(),
        hash_index(ps.take(i), k) >= 0,
    ensures
        hash_index(ps, k) == hash_index(ps.take(i), k),
    decreases ps.len() - i,
{
    if i == ps.len() {
        assert(ps.take(i) =~= ps);
    } else {
        assert(ps.take(i + 1).drop_last() =~= ps.take(i));
        lemma_hash_index_found(ps, k, i + 1);
    }
}

/// The index of the entry of `pairs` stored under `k`.
fn hash_find(pairs: &Vec<HashPair>, k: &crate::object::HashKey) -> (r: Option<usize>)
    ensures
        match r {
            Some(j) => hash_index(hash_pairs_view(pairs@), k@) == j && j < pairs@.len(),
            None => hash_index(hash_pairs_view(pairs@), k@) == -1,
        },
{
    let ghost ps = hash_pairs_view(pairs@);
    proof {
        lemma_hash_pairs_view(pairs@);
    }
    assert(ps.take(0) =~= Seq::<(SObject, SObject)>::empty());
    let mut i: usize = 0;
    while i < pairs.len()
        invariant
            i <= pairs@.len(),
            ps == hash_pairs_view(pairs@),
            ps.len() == pairs@.len(),
            forall|j: int| 0 <= j < pairs@.len() ==> #[trigger] ps[j] == (pairs@[j].key@, pairs@[j].value@),
            hash_index(ps.take(i as int), k@) == -1,
        decreases pairs@.len() - i,
    {
        proof {
            lemma_hash_index_step(ps, k@, i as int);
        }
        match pairs[i].key.hash_key() {
            Some(k2) => {
                if k2.same(k) {
                    proof {
                        lemma_hash_index_found(ps, k@, i as int + 1);
                    }
                    assert(i < pairs@.len());
                    return Some(i);
                }
            },
            None => {},
        }
        i = i + 1;
    }
    assert(ps.take(i as int) =~= ps);
    None
}

fn eval_index_exec(left: Object, index: Object) -> (r: Object)
    ensures
        r@ == eval_index(left@, index@),
{
    match (&left, &index) {
        (Object::Array(els), Object::Integer(i)) => {
            proof {
                lemma_objs_view(els@);
            }
            let idx = *i;
            if idx < 0 || (idx as u64) >= (els.len() as u64) {
                Object::Null
            } else {
                els[idx as usize].copy()
            }
        },
        (Object::Hash(pairs), _) => match index.hash_key() {
            Some(k) => match hash_find(pairs, &k) {
                Some(j) => {
                    proof {
                        lemma_hash_pairs_view(pairs@);
                    }
                    pairs[j].value.copy()
                },
                None => Object::Null,
            },
            None => new_error(msg2("unusable as hash key: ", index.kind_name())),
        },
        _ => new_error(msg2("index operator not supported: ", left.kind_name())),
    }
}

fn unwrap_return_exec(o: Object) -> (r: Object)
    ensures
        r@ == unwrap_return(o@),
{
    match o {
        Object::ReturnValue(v) => *v,
        other => other,
    }
}

proof fn lemma_objs_view_push(s: Seq<Object>, x: Object)
    ensures
        objs_view(s.push(x)) == objs_view(s).push(x@),
{
    assert(s.push(x).drop_last() =~= s);
}

proof fn lemma_hash_pairs_view_update(s: Seq<HashPair>, j: int, x: HashPair)
    requires
        0 <= j < s.len(),
    ensures
        hash_pairs_view(s.update(j, x)) == hash_pairs_view(s).update(j, (x.key@, x.value@)),
{
    lemma_hash_pairs_view(s);
    lemma_hash_pairs_view(s.update(j, x));
    assert(hash_pairs_view(s.update(j, x)) =~= hash_pairs_view(s).update(j, (x.key@, x.value@)));
}

proof fn lemma_hash_pairs_view_push(s: Seq<HashPair>, x: HashPair)
    ensures
        hash_pairs_view(s.push(x)) == hash_pairs_view(s).push((x.key@, x.value@)),
{
    assert(s.push(x).drop_last() =~= s);
}

fn eval_expr_f(expr: &Expression, env: &mut Environment, scope: EnvRef, Ghost(fuel): Ghost<nat>) -> (r: Object)
    requires
        eval_expr(expr@, old(env)@, scope as nat, fuel) is Some,
    ensures
        eval_expr(expr@, old(env)@, scope as nat, fuel) == Some((r@, final(env)@)),
    decreases fuel,
{
    let ghost f = (fuel - 1) as nat;
    match expr {
        Expression::IntegerLiteral(n) => Object::Integer(*n),
        Expression::StringLiteral(s) => Object::String(s.clone()),
        Expression::Boolean(b) => Object::Boolean(*b),
        Expression::Identifier(id) => {
            if let Some(v) = env.get(scope, id.value.as_str()) {
                return v;
            }
            if let Some(b) = lookup_builtin(id.value.as_str()) {
                return Object::Builtin(b);
            }
            new_error(msg2("identifier not found: ", id.value.as_str()))
        },
        Expression::Prefix { operator, right } => {
            let r = eval_expr_f(right, env, scope, Ghost(f));
            if r.is_error() {
                return r;
            }
            eval_prefix_exec(operator, r)
        },
        Expression::Infix { operator, left, right } => {
            let l = eval_expr_f(left, env, scope, Ghost(f));
            if l.is_error() {
                return l;
            }
            let r = eval_expr_f(right, env, scope, Ghost(f));
            if r.is_error() {
                return r;
            }
            eval_infix_exec(operator, l, r)
        },
        Expression::If { condition, consequence, alternative } => {
            let cond = eval_expr_f(condition, env, scope, Ghost(f));
            if cond.is_error() {
                return cond;
            }
            if is_truthy_exec(&cond) {
                eval_block_f(&consequence.statements, env, scope, Ghost(f))
            } else {
                match alternative {
                    Some(alt) => eval_block_f(&alt.statements, env, scope, Ghost(f)),
                    None => Object::Null,
                }
            }
        },
        Expression::Function { parameters, body } => Object::Function {
            parameters: copy_identifiers(parameters),
            body: body.copy(),
            env: scope,
        },
        Expression::Call { function, arguments } => {
            let func = eval_expr_f(function, env, scope, Ghost(f));
            if func.is_error() {
                return func;
            }
            let args = eval_exprs_f(arguments, env, scope, Ghost(f));
            proof {
                lemma_objs_view(args@);
            }
            if args.len() == 1 && args[0].is_error() {
                let mut args = args;
                return args.pop().unwrap();
            }
            apply_function_f(func, args, env, Ghost(f))
        },
        Expression::Array(elements) => {
            let els = eval_exprs_f(elements, env, scope, Ghost(f));
            proof {
                lemma_objs_view(els@);
            }
            if els.len() == 1 && els[0].is_error() {
                let mut els = els;
                return els.pop().unwrap();
            }
            Object::Array(els)
        },
        Expression::Index { left, index } => {
            let l = eval_expr_f(left, env, scope, Ghost(f));
            if l.is_error() {
                return l;
            }
            let i = eval_expr_f(index, env, scope, Ghost(f));
            if i.is_error() {
                return i;
            }
            eval_index_exec(l, i)
        },
        Expression::Hash(pairs) => eval_hash_f(pairs, env, scope, Ghost(f)),
    }
}

fn eval_exprs_f(exps: &Vec<Expression>, env: &mut Environment, scope: EnvRef, Ghost(fuel): Ghost<nat>) -> (r: Vec<Object>)
    requires
        eval_exprs(exprs_view(exps@), 0, Seq::empty(), old(env)@, scope as nat, fuel) is Some,
    ensures
        eval_exprs(exprs_view(exps@), 0, Seq::empty(), old(env)@, scope as nat, fuel) == Some((objs_view(r@), final(env)@)),
    decreases fuel,
{
    let ghost es = exprs_view(exps@);
    let ghost target = eval_exprs(es, 0, Seq::empty(), old(env)@, scope as nat, fuel);
    proof {
        lemma_exprs_view(exps@);
    }
    let mut result: Vec<Object> = Vec::new();
    let mut i: usize = 0;
    let ghost mut fu = fuel;
    assert(objs_view(result@) =~= Seq::<SObject>::empty());
    while i < exps.len()
        invariant
            i <= exps@.len(),
            fu <= fuel,
            es == exprs_view(exps@),
            es.len() == exps@.len(),
            forall|j: int| 0 <= j < exps@.len() ==> #[trigger] es[j] == exps@[j]@,
            eval_exprs(es, i as nat, objs_view(result@), env@, scope as nat, fu) == target,
            target is Some,
            target == eval_exprs(es, 0, Seq::empty(), old(env)@, scope as nat, fuel),
        decreases exps@.len() - i,
    {
        let ghost g = (fu - 1) as nat;
        let v = eval_expr_f(&exps[i], env, scope, Ghost(g));
        if v.is_error() {
            let mut single: Vec<Object> = Vec::new();
            single.push(v);
            proof {
                lemma_objs_view(single@);
                assert(objs_view(single@) =~= seq![objs_view(single@)[0]]);
            }
            return single;
        }
        proof {
            lemma_objs_view_push(result@, v);
        }
        result.push(v);
        i = i + 1;
        proof {
            fu = g;
        }
    }
    result
}

fn eval_hash_f(pairs: &Vec<(Expression, Expression)>, env: &mut Environment, scope: EnvRef, Ghost(fuel): Ghost<nat>) -> (r: Object)
    requires
        eval_hash(pairs_view(pairs@), 0, Seq::empty(), old(env)@, scope as nat, fuel) is Some,
    ensures
        eval_hash(pairs_view(pairs@), 0, Seq::empty(), old(env)@, scope as nat, fuel) == Some((r@, final(env)@)),
    decreases fuel,
{
    let ghost ps = pairs_view(pairs@);
    let ghost target = eval_hash(ps, 0, Seq::empty(), old(env)@, scope as nat, fuel);
    proof {
        lemma_pairs_view(pairs@);
    }
    let mut acc: Vec<HashPair> = Vec::new();
    let mut i: usize = 0;
    let ghost mut fu = fuel;
    assert(hash_pairs_view(acc@) =~= Seq::<(SObject, SObject)>::empty());
    while i < pairs.len()
        invariant
            i <= pairs@.len(),
            fu <= fuel,
            ps == pairs_view(pairs@),
            ps.len() == pairs@.len(),
            forall|j: int| 0 <= j < pairs@.len() ==> #[trigger] ps[j] == (pairs@[j].0@, pairs@[j].1@),
            eval_hash(ps, i as nat, hash_pairs_view(acc@), env@, scope as nat, fu) == target,
            target is Some,
            target == eval_hash(ps, 0, Seq::empty(), old(env)@, scope as nat, fuel),
        decreases pairs@.len() - i,
    {
        let ghost g = (fu - 1) as nat;
        let key = eval_expr_f(&pairs[i].0, env, scope, Ghost(g));
        if key.is_error() {
            return key;
        }
        let hk = match key.hash_key() {
            Some(k) => k,
            None => {
                return new_error(msg2("unusable as hash key: ", key.kind_name()));
            },
        };
        let value = eval_expr_f(&pairs[i].1, env, scope, Ghost(g));
        if value.is_error() {
            return value;
        }
        let ghost before = acc@;
        match hash_find(&acc, &hk) {
            Some(j) => {
                proof {
                    lemma_hash_pairs_view(acc@);
                    lemma_hash_pairs_view_update(acc@, j as int, HashPair { key, value });
                }
                acc.set(j, HashPair { key, value });
            },
            None => {
                proof {
                    lemma_hash_pairs_view_push(acc@, HashPair { key, value });
                }
                acc.push(HashPair { key, value });
            },
        }
        i = i + 1;
        proof {
            fu = g;
        }
    }
    Object::Hash(acc)
}

fn eval_stmt_f(stmt: &Statement, env: &mut Environment, scope: EnvRef, Ghost(fuel): Ghost<nat>) -> (r: Object)
    requires
        eval_stmt(stmt@, old(env)@, scope as nat, fuel) is Some,
    ensures
        eval_stmt(stmt@, old(env)@, scope as nat, fuel) == Some((r@, final(env)@)),
    decreases fuel,
{
    let ghost f = (fuel - 1) as nat;
    match stmt {
        Statement::Expression(e) => eval_expr_f(e, env, scope, Ghost(f)),
        Statement::Return(rs) => {
            let val = match &rs.value {
                Some(e) => eval_expr_f(e, env, scope, Ghost(f)),
                None => Object::Null,
            };
            if val.is_error() {
                return val;
            }
            Object::ReturnValue(Box::new(val))
        },
        Statement::Let(ls) => {
            let val = eval_expr_f(&ls.value, env, scope, Ghost(f));
            if val.is_error() {
                return val;
            }
            env.set(scope, ls.name.value.clone(), val);
            Object::Null
        },
        Statement::Block(b) => eval_block_f(&b.statements, env, scope, Ghost(f)),
    }
}

fn eval_block_f(stmts: &Vec<Statement>, env: &mut Environment, scope: EnvRef, Ghost(fuel): Ghost<nat>) -> (r: Object)
    requires
        eval_block(stmts_view(stmts@), 0, SObject::Null, old(env)@, scope as nat, fuel) is Some,
    ensures
        eval_block(stmts_view(stmts@), 0, SObject::Null, old(env)@, scope as nat, fuel) == Some((r@, final(env)@)),
    decreases fuel,
{
    let ghost ss = stmts_view(stmts@);
    let ghost target = eval_block(ss, 0, SObject::Null, old(env)@, scope as nat, fuel);
    proof {
        lemma_stmts_view(stmts@);
    }
    let mut result = Object::Null;
    let mut i: usize = 0;
    let ghost mut fu = fuel;
    while i < stmts.len()
        invariant
            i <= stmts@.len(),
            fu <= fuel,
            ss == stmts_view(stmts@),
            ss.len() == stmts@.len(),
            forall|j: int| 0 <= j < stmts@.len() ==> #[trigger] ss[j] == stmts@[j]@,
            eval_block(ss, i as nat, result@, env@, scope as nat, fu) == target,
            target is Some,
            target == eval_block(ss, 0, SObject::Null, old(env)@, scope as nat, fuel),
        decreases stmts@.len() - i,
    {
        let ghost g = (fu - 1) as nat;
        let r = eval_stmt_f(&stmts[i], env, scope, Ghost(g));
        match r {
            Object::ReturnValue(_) | Object::Error(_) => {
                return r;
            },
            _ => {},
        }
        result = r;
        i = i + 1;
        proof {
            fu = g;
        }
    }
    result
}

fn apply_function_f(func: Object, args: Vec<Object>, env: &mut Environment, Ghost(fuel): Ghost<nat>) -> (r: Object)
    requires
        apply_function(func@, objs_view(args@), old(env)@, fuel) is Some,
    ensures
        apply_function(func@, objs_view(args@), old(env)@, fuel) == Some((r@, final(env)@)),
    decreases fuel,
{
    let ghost f = (fuel - 1) as nat;
    let ghost av = objs_view(args@);
    proof {
        lemma_objs_view(args@);
    }
    match func {
        Object::Function { parameters, body, env: fenv } => {
            let ghost pv = idents_view(parameters@);
            let ghost e0 = env@;
            let sc = env.new_enclosed(fenv);
            let mut i: usize = 0;
            while i < parameters.len() && i < args.len()
                invariant
                    i <= parameters@.len(),
                    i <= args@.len(),
                    sc as nat == e0.frames.len(),
                    pv == idents_view(parameters@),
                    av == objs_view(args@),
                    av.len() == args@.len(),
                    forall|j: int| 0 <= j < args@.len() ==> #[trigger] av[j] == args@[j]@,
                    bind_params(env@, sc as nat, pv, av, i as nat) == bind_params(
                        env_enclose(e0, fenv as nat),
                        sc as nat,
                        pv,
                        av,
                        0,
                    ),
                decreases parameters@.len() - i,
            {
                env.set(sc, parameters[i].value.clone(), args[i].copy());
                i = i + 1;
            }
            let evaluated = eval_block_f(&body.statements, env, sc, Ghost(f));
            unwrap_return_exec(evaluated)
        },
        Object::Builtin(b) => call_builtin(b, &args, env),
        other => new_error(msg2("not a function ", other.kind_name())),
    }
}

fn eval_prog_f(program: &Program, env: &mut Environment, Ghost(fuel): Ghost<nat>) -> (r: Object)
    requires
        eval_prog(program@, 0, SObject::Null, old(env)@, fuel) is Some,
    ensures
        eval_prog(program@, 0, SObject::Null, old(env)@, fuel) == Some((r@, final(env)@)),
{
    let ghost ss = program@;
    let ghost target = eval_prog(ss, 0, SObject::Null, old(env)@, fuel);
    proof {
        lemma_stmts_view(program.statements@);
    }
    let mut result = Object::Null;
    let mut i: usize = 0;
    let ghost mut fu = fuel;
    while i < program.statements.len()
        invariant
            i <= program.statements@.len(),
            fu <= fuel,
            ss == program@,
            ss.len() == program.statements@.len(),
            forall|j: int| 0 <= j < program.statements@.len() ==> #[trigger] ss[j] == program.statements@[j]@,
            eval_prog(ss, i as nat, result@, env@, fu) == target,
            target is Some,
            target == eval_prog(ss, 0, SObject::Null, old(env)@, fuel),
        decreases program.statements@.len() - i,
    {
        let ghost g = (fu - 1) as nat;
        let r = eval_stmt_f(&program.statements[i], env, 0, Ghost(g));
        match r {
            Object::ReturnValue(v) => {
                return *v;
            },
            Object::Error(_) => {
                return r;
            },
            _ => {},
        }
        result = r;
        i = i + 1;
        proof {
            fu = g;
        }
    }
    result
}

/// Evaluates `program` in the global scope of `env`: the value of its last
/// statement, of the first `return`, or the first error. In a well-formed
/// environment the value is well-formed (no hash in it holds a key twice) and
/// the environment stays well-formed. Programs that do not
/// finish, and those whose evaluation panics (integer overflow, division by
/// zero), are outside the contract.
pub fn eval_program(program: &Program, env: &mut Environment) -> (r: Object)
    requires
        program_result(program@, old(env)@) is Some,
    ensures
        program_result(program@, old(env)@) == Some((r@, final(env)@)),
        final(env)@.frames.len() >= old(env)@.frames.len(),
        env_wf(old(env)@) ==> value_wf(r@) && env_wf(final(env)@),
{
    let ghost fuel = choose|f: nat| eval_prog(program@, 0, SObject::Null, old(env)@, f) is Some;
    proof {
        if env_wf(old(env)@) {
            assert(value_wf(SObject::Null));
            lemma_eval_prog_wf(program@, 0, SObject::Null, old(env)@, fuel);
        }
        lemma_eval_prog_grows(program@, 0, SObject::Null, old(env)@, fuel);
    }
    eval_prog_f(program, env, Ghost(fuel))
}

/// Evaluates `stmt` in scope `scope` of `env`.
pub fn eval_statement(stmt: &Statement, env: &mut Environment, scope: EnvRef) -> (r: Object)
    requires
        statement_result(stmt@, old(env)@, scope as nat) is Some,
    ensures
        statement_result(stmt@, old(env)@, scope as nat) == Some((r@, final(env)@)),
        final(env)@.frames.len() >= old(env)@.frames.len(),
        env_wf(old(env)@) ==> value_wf(r@) && env_wf(final(env)@),
{
    let ghost fuel = choose|f: nat| eval_stmt(stmt@, old(env)@, scope as nat, f) is Some;
    proof {
        if env_wf(old(env)@) {
            lemma_eval_stmt_wf(stmt@, old(env)@, scope as nat, fuel);
        }
        lemma_eval_stmt_grows(stmt@, old(env)@, scope as nat, fuel);
    }
    eval_stmt_f(stmt, env, scope, Ghost(fuel))
}

/// Evaluates `expr` in scope `scope` of `env`.
pub fn eval_expression(expr: &Expression, env: &mut Environment, scope: EnvRef) -> (r: Object)
    requires
        expression_result(expr@, old(env)@, scope as nat) is Some,
    ensures
        expression_result(expr@, old(env)@, scope as nat) == Some((r@, final(env)@)),
        final(env)@.frames.len() >= old(env)@.frames.len(),
        env_wf(old(env)@) ==> value_wf(r@) && env_wf(final(env)@),
{
    let ghost fuel = choose|f: nat| eval_expr(expr@, old(env)@, scope as nat, f) is Some;
    proof {
        if env_wf(old(env)@) {
            lemma_eval_expr_wf(expr@, old(env)@, scope as nat, fuel);
        }
        lemma_eval_expr_grows(expr@, old(env)@, scope as nat, fuel);
    }
    eval_expr_f(expr, env, scope, Ghost(fuel))
}

} // verus!
