use liakos::builtins::{call_builtin, lookup_builtin};
use liakos::environment::Environment;
use liakos::object::{Builtin, Object};

fn call(name: &str, args: Vec<Object>) -> Object {
    let b = lookup_builtin(name).expect("a builtin");
    let mut env = Environment::new();
    call_builtin(b, &args, &mut env)
}

fn arr(v: &[i64]) -> Object {
    Object::Array(v.iter().map(|n| Object::Integer(*n)).collect())
}

#[test]
fn lookup_knows_the_builtins() {
    assert_eq!(lookup_builtin("len"), Some(Builtin::Len));
    assert_eq!(lookup_builtin("first"), Some(Builtin::First));
    assert_eq!(lookup_builtin("last"), Some(Builtin::Last));
    assert_eq!(lookup_builtin("rest"), Some(Builtin::Rest));
    assert_eq!(lookup_builtin("push"), Some(Builtin::Push));
    assert_eq!(lookup_builtin("print"), Some(Builtin::Print));
    assert_eq!(lookup_builtin("puts"), None);
}

#[test]
fn builtins_other_than_print_write_nothing() {
    let mut env = Environment::new();
    let r = call_builtin(Builtin::Len, &vec![arr(&[1, 2])], &mut env);
    assert!(matches!(r, Object::Integer(2)));
    assert!(env.take_output().is_empty());
}

#[test]
fn len_counts_bytes_of_strings() {
    assert!(matches!(call("len", vec![Object::String("héllo".to_string())]), Object::Integer(6)));
    assert!(matches!(call("len", vec![arr(&[])]), Object::Integer(0)));
}

#[test]
fn builtin_errors() {
    let cases = [
        (call("len", vec![]), "wrong number of arguments. got=0, want=1"),
        (call("len", vec![arr(&[1]), arr(&[2])]), "wrong number of arguments. got=2, want=1"),
        (call("push", vec![arr(&[1])]), "wrong number of arguments. got=1, want=2"),
        (call("len", vec![Object::Integer(1)]), "argument to `len` not supported, got INTEGER"),
        (call("first", vec![Object::Boolean(true)]), "argument to `first` must be ARRAY, got BOOLEAN"),
        (call("last", vec![Object::Null]), "argument to `last` must be ARRAY, got NULL"),
        (call("rest", vec![Object::String("a".to_string())]), "argument to `rest` must be ARRAY, got STRING"),
        (call("push", vec![Object::Integer(1), Object::Integer(2)]), "argument to `push` must be ARRAY, got INTEGER"),
    ];
    for (got, want) in cases {
        match got {
            Object::Error(m) => assert_eq!(m, want),
            other => panic!("expected error {}, got {:?}", want, other),
        }
    }
}

#[test]
fn empty_arrays_give_null() {
    assert!(matches!(call("first", vec![arr(&[])]), Object::Null));
    assert!(matches!(call("last", vec![arr(&[])]), Object::Null));
    assert!(matches!(call("rest", vec![arr(&[])]), Object::Null));
}

#[test]
fn push_rest_first_last() {
    let pushed = call("push", vec![arr(&[1, 2]), Object::Integer(3)]);
    assert_eq!(pushed.inspect(), "[1, 2, 3]");
    assert_eq!(call("last", vec![pushed.copy()]).inspect(), "3");
    assert_eq!(call("first", vec![pushed.copy()]).inspect(), "1");
    assert_eq!(call("rest", vec![pushed]).inspect(), "[2, 3]");
}

#[test]
fn print_writes_output_and_gives_null() {
    let mut env = Environment::new();
    let r = call_builtin(
        Builtin::Print,
        &vec![Object::String("hi".to_string()), Object::Integer(7), arr(&[1])],
        &mut env,
    );
    assert!(matches!(r, Object::Null));
    assert_eq!(env.take_output(), vec!["hi".to_string(), "7".to_string(), "[1]".to_string()]);
}
