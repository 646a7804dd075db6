use liakos::environment::Environment;
use liakos::object::Object;

fn int_of(o: Option<Object>) -> Option<i64> {
    match o {
        Some(Object::Integer(n)) => Some(n),
        Some(other) => panic!("expected an integer, got {:?}", other),
        None => None,
    }
}

#[test]
fn get_after_set() {
    let mut env = Environment::new();
    assert_eq!(int_of(env.get(0, "a")), None);
    let r = env.set(0, "a".to_string(), Object::Integer(1));
    assert!(matches!(r, Object::Integer(1)));
    assert_eq!(int_of(env.get(0, "a")), Some(1));
    env.set(0, "a".to_string(), Object::Integer(2));
    assert_eq!(int_of(env.get(0, "a")), Some(2));
    env.set(0, "b".to_string(), Object::Integer(3));
    assert_eq!(int_of(env.get(0, "a")), Some(2));
    assert_eq!(int_of(env.get(0, "b")), Some(3));
}

#[test]
fn enclosed_scope_sees_outer_and_shadows() {
    let mut env = Environment::new();
    env.set(0, "x".to_string(), Object::Integer(10));
    let inner = env.new_enclosed(0);
    assert_eq!(inner, 1);
    assert_eq!(int_of(env.get(inner, "x")), Some(10));
    env.set(inner, "x".to_string(), Object::Integer(20));
    assert_eq!(int_of(env.get(inner, "x")), Some(20));
    assert_eq!(int_of(env.get(0, "x")), Some(10));
    env.set(inner, "y".to_string(), Object::Integer(5));
    assert_eq!(int_of(env.get(0, "y")), None);
}

#[test]
fn output_is_collected_and_taken() {
    let mut env = Environment::new();
    env.write_line("one".to_string());
    env.write_line("two".to_string());
    assert_eq!(env.take_output(), vec!["one".to_string(), "two".to_string()]);
    assert!(env.take_output().is_empty());
}
