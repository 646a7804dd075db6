//! The built-in functions.
use vstd::prelude::*;
use vstd::utf8::encode_utf8;
use vstd::string::*;
use crate::object::{Builtin, Object, SObject, kind_name, inspect, inspect_all, objs_view, lemma_objs_view, copy_objects};
use crate::environment::{Environment, SEnv, env_wf};
use crate::object::value_wf;
use crate::evaluator::{all_wf, lemma_builtin_wf};
use crate::text::{int_text, push_str, push_int};

verus! {

/// The built-in function called `name`, if there is one.
pub open spec fn builtin_named(name: Seq<char>) -> Option<Builtin> {
    if name == "len"@ {
        Some(Builtin::Len)
    } else if name == "first"@ {
        Some(Builtin::First)
    } else if name == "last"@ {
        Some(Builtin::Last)
    } else if name == "rest"@ {
        Some(Builtin::Rest)
    } else if name == "push"@ {
        Some(Builtin::Push)
    } else if name == "print"@ {
        Some(Builtin::Print)
    } else {
        None
    }
}

/// The error for a call with `got` arguments where `want` are expected.
pub open spec fn arity_error(got: nat, want: nat) -> SObject {
    SObject::Error("wrong number of arguments. got="@ + int_text(got as int) + ", want="@ + int_text(want as int))
}

/// What calling built-in `b` with `args` gives, and the environment after it
/// (`print` appends one output line per argument).
pub open spec fn apply_builtin(b: Builtin, args: Seq<SObject>, env: SEnv) -> (SObject, SEnv) {
    match b {
        Builtin::Len => (if args.len() != 1 {
            arity_error(args.len(), 1)
        } else {
            match args[0] {
                SObject::Str(s) => SObject::Integer((encode_utf8(s).len() as usize) as i64),
                SObject::Array(els) => SObject::Integer(els.len() as i64),
                other => SObject::Error("argument to `len` not supported, got "@ + kind_name(other)),
            }
        }, env),
        Builtin::First => (if args.len() != 1 {
            arity_error(args.len(), 1)
        } else {
            match args[0] {
                SObject::Array(els) => if els.len() > 0 {
                    els[0]
                } else {
                    SObject::Null
                },
                other => SObject::Error("argument to `first` must be ARRAY, got "@ + kind_name(other)),
            }
        }, env),
        Builtin::Last => (if args.len() != 1 {
            arity_error(args.len(), 1)
        } else {
            match args[0] {
                SObject::Array(els) => if els.len() > 0 {
                    els.last()
                } else {
                    SObject::Null
                },
                other => SObject::Error("argument to `last` must be ARRAY, got "@ + kind_name(other)),
            }
        }, env),
        Builtin::Rest => (if args.len() != 1 {
            arity_error(args.len(), 1)
        } else {
            match args[0] {
                SObject::Array(els) => if els.len() > 0 {
                    SObject::Array(els.drop_first())
                } else {
                    SObject::Null
                },
                other => SObject::Error("argument to `rest` must be ARRAY, got "@ + kind_name(other)),
            }
        }, env),
        Builtin::Push => (if args.len() != 2 {
            arity_error(args.len(), 2)
        } else {
            match args[0] {
                SObject::Array(els) => SObject::Array(els.push(args[1])),
                other => SObject::Error("argument to `push` must be ARRAY, got "@ + kind_name(other)),
            }
        }, env),
        Builtin::Print => (SObject::Null, SEnv { output: env.output + inspect_all(args), ..env }),
    }
}


/// Only `print` touches the environment, and it only appends output lines.
pub proof fn lemma_builtins_pure(b: Builtin, args: Seq<SObject>, env: SEnv)
    ensures
        b != Builtin::Print ==> apply_builtin(b, args, env).1 == env,
        apply_builtin(b, args, env).1.frames == env.frames,
        env.output.len() <= apply_builtin(b, args, env).1.output.len(),
        forall|i: int|
            0 <= i < env.output.len() ==> #[trigger] apply_builtin(b, args, env).1.output[i]
                == env.output[i],
{
}

/// `len` counts the elements of an array and the UTF-8 bytes of a string,
/// and `first`/`last` give the elements at either end.
pub proof fn lemma_len_first_last(els: Seq<SObject>, text: Seq<char>, env: SEnv)
    requires
        els.len() < i64::MAX,
        encode_utf8(text).len() < i64::MAX,
        encode_utf8(text).len() <= usize::MAX,
    ensures
        apply_builtin(Builtin::Len, seq![SObject::Array(els)], env).0 == SObject::Integer(els.len() as i64),
        apply_builtin(Builtin::Len, seq![SObject::Str(text)], env).0 == SObject::Integer(
            encode_utf8(text).len() as i64,
        ),
        els.len() > 0 ==> apply_builtin(Builtin::First, seq![SObject::Array(els)], env).0 == els[0],
        els.len() > 0 ==> apply_builtin(Builtin::Last, seq![SObject::Array(els)], env).0 == els[els.len()
            - 1],
{
}

/// `push` gives a new array one element longer that ends in the pushed
/// value; `first` and `rest` see the elements it kept, and the array that was
/// pushed to is left as it was.
pub proof fn lemma_push_laws(a: Seq<SObject>, x: SObject, env: SEnv)
    requires
        a.len() < i64::MAX,
    ensures
        apply_builtin(Builtin::Push, seq![SObject::Array(a), x], env).0 == SObject::Array(a.push(x)),
        apply_builtin(
            Builtin::Len,
            seq![apply_builtin(Builtin::Push, seq![SObject::Array(a), x], env).0],
            env,
        ).0 == SObject::Integer((a.len() + 1) as i64),
        apply_builtin(
            Builtin::Last,
            seq![apply_builtin(Builtin::Push, seq![SObject::Array(a), x], env).0],
            env,
        ).0 == x,
        a.len() > 0 ==> apply_builtin(
            Builtin::First,
            seq![apply_builtin(Builtin::Push, seq![SObject::Array(a), x], env).0],
            env,
        ).0 == apply_builtin(Builtin::First, seq![SObject::Array(a)], env).0,
        a.len() > 0 ==> apply_builtin(
            Builtin::Rest,
            seq![apply_builtin(Builtin::Push, seq![SObject::Array(a), x], env).0],
            env,
        ).0 == apply_builtin(
            Builtin::Push,
            seq![apply_builtin(Builtin::Rest, seq![SObject::Array(a)], env).0, x],
            env,
        ).0,
{
    if a.len() > 0 {
        assert(a.push(x).drop_first() =~= a.drop_first().push(x));
    }
}

/// The built-in function called `name`, if there is one.
pub fn lookup_builtin(name: &str) -> (r: Option<Builtin>)
    ensures
        r == builtin_named(name@),
{
    let n = name.to_owned();
    if n == String::from_str("len") {
        Some(Builtin::Len)
    } else if n == String::from_str("first") {
        Some(Builtin::First)
    } else if n == String::from_str("last") {
        Some(Builtin::Last)
    } else if n == String::from_str("rest") {
        Some(Builtin::Rest)
    } else if n == String::from_str("push") {
        Some(Builtin::Push)
    } else if n == String::from_str("print") {
        Some(Builtin::Print)
    } else {
        None
    }
}

/// The arity error, when `args` does not hold exactly `want` values.
fn check_arity(args: &Vec<Object>, want: usize) -> (r: Option<Object>)
    ensures
        match r {
            Some(e) => args@.len() != want && e@ == arity_error(args@.len(), want as nat),
            None => args@.len() == want,
        },
{
    if args.len() != want {
        let mut m = String::from_str("wrong number of arguments. got=");
        crate::text::push_digits(&mut m, args.len() as u64);
        push_str(&mut m, ", want=");
        crate::text::push_digits(&mut m, want as u64);
        Some(Object::Error(m))
    } else {
        None
    }
}

/// The error `prefix` followed by the type name of `o`.
fn kind_error(prefix: &str, o: &Object) -> (r: Object)
    ensures
        r@ == SObject::Error(prefix@ + kind_name(o@)),
{
    let mut m = String::from_str(prefix);
    push_str(&mut m, o.kind_name());
    Object::Error(m)
}

fn b_len(args: &Vec<Object>) -> (r: Object)
    ensures
        r@ == apply_builtin(Builtin::Len, objs_view(args@), SEnv { frames: Seq::empty(), output: Seq::empty() }).0,
{
    proof {
        lemma_objs_view(args@);
    }
    if let Some(e) = check_arity(args, 1) {
        return e;
    }
    match &args[0] {
        Object::String(s) => Object::Integer(s.as_str().len() as i64),
        Object::Array(els) => {
            proof {
                lemma_objs_view(els@);
            }
            Object::Integer(els.len() as i64)
        },
        other => kind_error("argument to `len` not supported, got ", other),
    }
}

fn b_first(args: &Vec<Object>) -> (r: Object)
    ensures
        r@ == apply_builtin(Builtin::First, objs_view(args@), SEnv { frames: Seq::empty(), output: Seq::empty() }).0,
{
    proof {
        lemma_objs_view(args@);
    }
    if let Some(e) = check_arity(args, 1) {
        return e;
    }
    match &args[0] {
        Object::Array(els) => {
            proof {
                lemma_objs_view(els@);
            }
            if els.len() > 0 {
                els[0].copy()
            } else {
                Object::Null
            }
        },
        other => kind_error("argument to `first` must be ARRAY, got ", other),
    }
}

fn b_last(args: &Vec<Object>) -> (r: Object)
    ensures
        r@ == apply_builtin(Builtin::Last, objs_view(args@), SEnv { frames: Seq::empty(), output: Seq::empty() }).0,
{
    proof {
        lemma_objs_view(args@);
    }
    if let Some(e) = check_arity(args, 1) {
        return e;
    }
    match &args[0] {
        Object::Array(els) => {
            proof {
                lemma_objs_view(els@);
            }
            if els.len() > 0 {
                els[els.len() - 1].copy()
            } else {
                Object::Null
            }
        },
        other => kind_error("argument to `last` must be ARRAY, got ", other),
    }
}

fn b_rest(args: &Vec<Object>) -> (r: Object)
    ensures
        r@ == apply_builtin(Builtin::Rest, objs_view(args@), SEnv { frames: Seq::empty(), output: Seq::empty() }).0,
{
    proof {
        lemma_objs_view(args@);
    }
    if let Some(e) = check_arity(args, 1) {
        return e;
    }
    match &args[0] {
        Object::Array(els) => {
            proof {
                lemma_objs_view(els@);
            }
            if els.len() == 0 {
                Object::Null
            } else {
                let mut rest: Vec<Object> = Vec::new();
                let mut i: usize = 1;
                while i < els.len()
                    invariant
                        1 <= i <= els@.len(),
                        rest@.len() == i - 1,
                        forall|j: int| 0 <= j < i - 1 ==> #[trigger] rest@[j]@ == els@[j + 1]@,
                    decreases els@.len() - i,
                {
                    rest.push(els[i].copy());
                    i = i + 1;
                }
                proof {
                    lemma_objs_view(rest@);
                    assert(objs_view(rest@) =~= objs_view(els@).drop_first());
                }
                Object::Array(rest)
            }
        },
        other => kind_error("argument to `rest` must be ARRAY, got ", other),
    }
}

fn b_push(args: &Vec<Object>) -> (r: Object)
    ensures
        r@ == apply_builtin(Builtin::Push, objs_view(args@), SEnv { frames: Seq::empty(), output: Seq::empty() }).0,
{
    proof {
        lemma_objs_view(args@);
    }
    if let Some(e) = check_arity(args, 2) {
        return e;
    }
    match &args[0] {
        Object::Array(els) => {
            let mut new = copy_objects(els);
            let ghost before = new@;
            new.push(args[1].copy());
            proof {
                lemma_objs_view(before);
                lemma_objs_view(els@);
                lemma_objs_view(new@);
                assert(objs_view(new@) =~= objs_view(els@).push(objs_view(args@)[1]));
            }
            Object::Array(new)
        },
        other => kind_error("argument to `push` must be ARRAY, got ", other),
    }
}

fn b_print(args: &Vec<Object>, env: &mut Environment) -> (r: Object)
    ensures
        r@ == SObject::Null,
        final(env)@ == (SEnv { output: old(env)@.output + inspect_all(objs_view(args@)), ..old(env)@ }),
{
    let ghost start = env@;
    assert(objs_view(args@.take(0)) =~= Seq::<SObject>::empty());
    assert(start.output + inspect_all(objs_view(args@.take(0))) =~= start.output);
    for i in 0..args.len()
        invariant
            env@ == (SEnv { output: start.output + inspect_all(objs_view(args@.take(i as int))), ..start }),
    {
        proof {
            assert(args@.take(i as int + 1).drop_last() =~= args@.take(i as int));
            assert(objs_view(args@.take(i as int + 1)).drop_last() =~= objs_view(args@.take(i as int)));
        }
        let line = args[i].inspect();
        env.write_line(line);
        assert(env@.output =~= start.output + inspect_all(objs_view(args@.take(i as int + 1))));
    }
    assert(args@.take(args@.len() as int) =~= args@);
    Object::Null
}

/// Calls built-in `b` with `args`.
pub fn call_builtin(b: Builtin, args: &Vec<Object>, env: &mut Environment) -> (r: Object)
    ensures
        (r@, final(env)@) == apply_builtin(b, objs_view(args@), old(env)@),
        all_wf(objs_view(args@)) && env_wf(old(env)@) ==> value_wf(r@) && env_wf(final(env)@),
{
    proof {
        if all_wf(objs_view(args@)) && env_wf(env@) {
            lemma_builtin_wf(b, objs_view(args@), env@);
        }
    }
    match b {
        Builtin::Len => b_len(args),
        Builtin::First => b_first(args),
        Builtin::Last => b_last(args),
        Builtin::Rest => b_rest(args),
        Builtin::Push => b_push(args),
        Builtin::Print => b_print(args, env),
    }
}

} // verus!
