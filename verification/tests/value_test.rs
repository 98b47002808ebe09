use lox::environment::Environment;
use lox::value::{to_number, LoxError, Value};

#[test]
fn test_truthiness() {
    assert!(!bool::from(Value::<f64>::Nil));
    assert!(!bool::from(Value::<f64>::Boolean(false)));
    assert!(bool::from(Value::<f64>::Boolean(true)));
    assert!(bool::from(Value::Number(0.0)));
    assert!(bool::from(Value::<f64>::Str(String::new())));
    assert!(!Value::<f64>::Nil.is_truthy());
    assert!(Value::Number(1.5).is_truthy());
}

#[test]
fn test_to_number() {
    assert_eq!(to_number(Value::Number(2.5)), Ok(2.5));
    assert_eq!(
        to_number(Value::<f64>::Str("x".to_string())),
        Err(LoxError::NumberConversionError(Value::Str("x".to_string())))
    );
    assert_eq!(
        to_number(Value::<f64>::Nil),
        Err(LoxError::NumberConversionError(Value::Nil))
    );
    assert_eq!(
        to_number(Value::<f64>::Boolean(true)),
        Err(LoxError::NumberConversionError(Value::Boolean(true)))
    );
}

#[test]
fn test_declare_in_child_unseen_by_parent() {
    let mut env: Environment<Value<f64>> = Environment::new();
    let parent = env.root();
    env.declare(parent, "x", Value::Number(1.0));
    let child = env.child_of(parent);
    env.declare(child, "x", Value::Number(2.0));
    env.declare(child, "y", Value::Number(3.0));
    assert_eq!(*env.read(parent, "x").unwrap(), Value::Number(1.0));
    assert!(env.read(parent, "y").is_err());
    assert_eq!(*env.read(child, "x").unwrap(), Value::Number(2.0));
}

#[test]
fn test_update_seen_by_sibling_scopes() {
    let mut env: Environment<Value<f64>> = Environment::new();
    let root = env.root();
    env.declare(root, "x", Value::Number(1.0));
    let a = env.child_of(root);
    let b = env.child_of(root);
    assert_eq!(env.update(a, "x", Value::Number(5.0)), Ok(Value::Number(1.0)));
    assert_eq!(*env.read(b, "x").unwrap(), Value::Number(5.0));
    assert_eq!(*env.read(root, "x").unwrap(), Value::Number(5.0));
}

#[test]
fn test_update_of_undeclared_changes_nothing() {
    let mut env: Environment<Value<f64>> = Environment::new();
    let root = env.root();
    env.declare(root, "x", Value::Number(1.0));
    let child = env.child_of(root);
    assert_eq!(
        env.update(child, "y", Value::Nil),
        Err(LoxError::VariableNotFound("y".to_string()))
    );
    assert!(env.read(child, "y").is_err());
    assert_eq!(*env.read(child, "x").unwrap(), Value::Number(1.0));
}

#[test]
fn test_update_hits_nearest_binding() {
    let mut env: Environment<Value<f64>> = Environment::new();
    let root = env.root();
    env.declare(root, "x", Value::Number(1.0));
    let child = env.child_of(root);
    env.declare(child, "x", Value::Number(2.0));
    assert_eq!(env.update(child, "x", Value::Number(3.0)), Ok(Value::Number(2.0)));
    assert_eq!(*env.read(child, "x").unwrap(), Value::Number(3.0));
    assert_eq!(*env.read(root, "x").unwrap(), Value::Number(1.0));
}

#[test]
fn test_child_scope_ids_are_fresh() {
    let mut env: Environment<Value<f64>> = Environment::new();
    let root = env.root();
    assert_eq!(root, 0);
    let a = env.child_of(root);
    let b = env.child_of(a);
    assert_eq!(a, 1);
    assert_eq!(b, 2);
}

#[test]
fn test_declare_keeps_other_names() {
    let mut env: Environment<Value<f64>> = Environment::new();
    let root = env.root();
    env.declare(root, "a", Value::Number(1.0));
    let child = env.child_of(root);
    env.declare(child, "b", Value::Number(2.0));
    env.declare(root, "c", Value::Number(3.0));
    assert_eq!(*env.read(root, "a").unwrap(), Value::Number(1.0));
    assert_eq!(*env.read(child, "a").unwrap(), Value::Number(1.0));
    assert_eq!(*env.read(child, "b").unwrap(), Value::Number(2.0));
    assert_eq!(*env.read(child, "c").unwrap(), Value::Number(3.0));
}

#[test]
fn test_opening_a_child_keeps_reads() {
    let mut env: Environment<Value<f64>> = Environment::new();
    let root = env.root();
    env.declare(root, "a", Value::Boolean(true));
    let before = env.read(root, "a").unwrap().clone();
    let _child = env.child_of(root);
    assert_eq!(*env.read(root, "a").unwrap(), before);
    assert!(env.read(root, "zz").is_err());
}

#[test]
fn test_root_is_open_in_any_environment() {
    let env: Environment<Value<f64>> = Environment::new();
    assert_eq!(env.root(), 0);
    assert_eq!(env.scope_count(), 1);
}

#[test]
fn test_close_scope_releases_the_last_scope() {
    let mut env: Environment<Value<f64>> = Environment::new();
    let root = env.root();
    env.declare(root, "x", Value::Number(1.0));
    let child = env.child_of(root);
    env.declare(child, "y", Value::Number(2.0));
    assert_eq!(env.scope_count(), 2);
    env.close_scope(child);
    assert_eq!(env.scope_count(), 1);
    assert_eq!(*env.read(root, "x").unwrap(), Value::Number(1.0));
    assert!(env.read(root, "y").is_err());
    let again = env.child_of(root);
    assert_eq!(again, child);
    assert!(env.read(again, "y").is_err());
    assert_eq!(*env.read(again, "x").unwrap(), Value::Number(1.0));
}
