use lox::environment::Environment;
use lox::value::{LoxError, Value};

type Env = Environment<Value<f64>>;

#[test]
fn test_environment_new_creates_root() {
    let env: Env = Environment::new();
    let root = env.root();
    // New environment should be empty (reading undefined returns error)
    assert!(env.read(root, "x").is_err());
}

#[test]
fn test_environment_new_is_usable() {
    let mut env: Env = Environment::new();
    let root = env.root();
    env.declare(root, "x", Value::Number(42.0));
    assert_eq!(*env.read(root, "x").unwrap(), Value::Number(42.0));
}

#[test]
fn test_environment_child_of_can_access_parent() {
    let mut env: Env = Environment::new();
    let parent = env.root();
    env.declare(parent, "x", Value::Number(42.0));
    let child = env.child_of(parent);
    // Child should be able to access parent's variables
    assert_eq!(*env.read(child, "x").unwrap(), Value::Number(42.0));
}

#[test]
fn test_declare_new_variable_returns_none() {
    let mut env: Env = Environment::new();
    let root = env.root();
    let result = env.declare(root, "x", Value::Number(42.0));
    assert_eq!(result, None);
}

#[test]
fn test_declare_overwrites_existing_variable() {
    let mut env: Env = Environment::new();
    let root = env.root();
    env.declare(root, "x", Value::Number(42.0));
    let result = env.declare(root, "x", Value::Number(99.0));
    assert_eq!(result, Some(Value::Number(42.0)));
}

#[test]
fn test_declare_multiple_variables() {
    let mut env: Env = Environment::new();
    let root = env.root();
    let r1 = env.declare(root, "x", Value::Number(1.0));
    let r2 = env.declare(root, "y", Value::Str("hello".to_string()));
    let r3 = env.declare(root, "z", Value::Boolean(true));

    assert_eq!(r1, None);
    assert_eq!(r2, None);
    assert_eq!(r3, None);
}

#[test]
fn test_read_declared_variable() {
    let mut env: Env = Environment::new();
    let root = env.root();
    env.declare(root, "x", Value::Number(42.0));
    let result = env.read(root, "x");
    assert_eq!(*result.unwrap(), Value::Number(42.0));
}

#[test]
fn test_read_undefined_variable_is_error() {
    let env: Env = Environment::new();
    let root = env.root();
    let result = env.read(root, "undefined");
    assert!(result.is_err());
}

#[test]
fn test_read_undefined_variable_error_contains_name() {
    let env: Env = Environment::new();
    let root = env.root();
    match env.read(root, "undefined") {
        Err(LoxError::VariableNotFound(name)) => assert_eq!(name, "undefined"),
        _ => panic!("Expected VariableNotFound error"),
    }
}

#[test]
fn test_read_different_types() {
    let mut env: Env = Environment::new();
    let root = env.root();
    env.declare(root, "num", Value::Number(3.5));
    env.declare(root, "str", Value::Str("test".to_string()));
    env.declare(root, "bool", Value::Boolean(false));
    env.declare(root, "nil", Value::Nil);

    assert_eq!(*env.read(root, "num").unwrap(), Value::Number(3.5));
    assert_eq!(*env.read(root, "str").unwrap(), Value::Str("test".to_string()));
    assert_eq!(*env.read(root, "bool").unwrap(), Value::Boolean(false));
    assert_eq!(*env.read(root, "nil").unwrap(), Value::Nil);
}

#[test]
fn test_update_existing_variable_returns_old_value() {
    let mut env: Env = Environment::new();
    let root = env.root();
    env.declare(root, "x", Value::Number(42.0));
    let result = env.update(root, "x", Value::Number(99.0));
    assert_eq!(result.unwrap(), Value::Number(42.0));
}

#[test]
fn test_update_actually_changes_value() {
    let mut env: Env = Environment::new();
    let root = env.root();
    env.declare(root, "x", Value::Number(42.0));
    env.update(root, "x", Value::Number(99.0)).unwrap();
    assert_eq!(*env.read(root, "x").unwrap(), Value::Number(99.0));
}

#[test]
fn test_update_undefined_variable_is_error() {
    let mut env: Env = Environment::new();
    let root = env.root();
    let result = env.update(root, "undefined", Value::Number(42.0));
    assert!(result.is_err());
}

#[test]
fn test_update_different_types() {
    let mut env: Env = Environment::new();
    let root = env.root();
    env.declare(root, "x", Value::Number(42.0));

    // Update to string
    let old = env.update(root, "x", Value::Str("hello".to_string())).unwrap();
    assert_eq!(old, Value::Number(42.0));
    assert_eq!(*env.read(root, "x").unwrap(), Value::Str("hello".to_string()));

    // Update to boolean
    let old = env.update(root, "x", Value::Boolean(true)).unwrap();
    assert_eq!(old, Value::Str("hello".to_string()));
    assert_eq!(*env.read(root, "x").unwrap(), Value::Boolean(true));
}

#[test]
fn test_parent_lookup_when_not_in_local_scope() {
    let mut env: Env = Environment::new();
    let parent = env.root();
    env.declare(parent, "x", Value::Number(42.0));

    let child = env.child_of(parent);
    let result = env.read(child, "x");
    assert_eq!(*result.unwrap(), Value::Number(42.0));
}

#[test]
fn test_local_shadows_parent() {
    let mut env: Env = Environment::new();
    let parent = env.root();
    env.declare(parent, "x", Value::Number(42.0));

    let child = env.child_of(parent);
    env.declare(child, "x", Value::Number(99.0));

    // Child shadows parent's variable
    assert_eq!(*env.read(child, "x").unwrap(), Value::Number(99.0));
}

#[test]
fn test_child_can_access_parent_variables() {
    let mut env: Env = Environment::new();
    let parent = env.root();
    env.declare(parent, "x", Value::Number(1.0));
    env.declare(parent, "y", Value::Number(2.0));

    let child = env.child_of(parent);
    assert_eq!(*env.read(child, "x").unwrap(), Value::Number(1.0));
    assert_eq!(*env.read(child, "y").unwrap(), Value::Number(2.0));
}

#[test]
fn test_child_declaration_does_not_affect_parent() {
    let mut env: Env = Environment::new();
    let parent = env.root();
    env.declare(parent, "x", Value::Number(42.0));

    let child = env.child_of(parent);
    env.declare(child, "y", Value::Number(99.0));
    // Child can see its own variable
    assert_eq!(*env.read(child, "y").unwrap(), Value::Number(99.0));
}

#[test]
fn test_update_in_parent_from_child() {
    let mut env: Env = Environment::new();
    let parent = env.root();
    env.declare(parent, "x", Value::Number(42.0));

    let child = env.child_of(parent);
    let old = env.update(child, "x", Value::Number(99.0)).unwrap();
    // Verify the old value returned by update
    assert_eq!(old, Value::Number(42.0));
    // Verify the update modified the value in the child's scope
    assert_eq!(*env.read(child, "x").unwrap(), Value::Number(99.0));
}

#[test]
fn test_declare_creates_shadowing_variable() {
    let mut env: Env = Environment::new();
    let parent = env.root();
    env.declare(parent, "x", Value::Number(42.0));

    let child = env.child_of(parent);
    env.declare(child, "x", Value::Number(99.0));

    // Child sees its own x (shadows parent's x)
    assert_eq!(*env.read(child, "x").unwrap(), Value::Number(99.0));
}

#[test]
fn test_grandchild_environment() {
    let mut env: Env = Environment::new();
    let grandparent = env.root();
    env.declare(grandparent, "x", Value::Number(1.0));

    let parent = env.child_of(grandparent);
    env.declare(parent, "y", Value::Number(2.0));

    let grandchild = env.child_of(parent);
    assert_eq!(*env.read(grandchild, "x").unwrap(), Value::Number(1.0));
    assert_eq!(*env.read(grandchild, "y").unwrap(), Value::Number(2.0));
}

#[test]
fn test_variable_not_found_in_chain() {
    let mut env: Env = Environment::new();
    let parent = env.root();
    env.declare(parent, "x", Value::Number(42.0));

    let child = env.child_of(parent);
    assert!(env.read(child, "undefined").is_err());
}

#[test]
fn test_multiple_variables_in_parent_chain() {
    let mut env: Env = Environment::new();
    let parent = env.root();
    env.declare(parent, "a", Value::Number(1.0));
    env.declare(parent, "b", Value::Str("b".to_string()));

    let child = env.child_of(parent);
    env.declare(child, "c", Value::Boolean(true));

    assert_eq!(*env.read(child, "a").unwrap(), Value::Number(1.0));
    assert_eq!(*env.read(child, "b").unwrap(), Value::Str("b".to_string()));
    assert_eq!(*env.read(child, "c").unwrap(), Value::Boolean(true));
}

#[test]
fn test_declare_string_variable() {
    let mut env: Env = Environment::new();
    let root = env.root();
    let result = env.declare(root, "name", Value::Str("Alice".to_string()));
    assert_eq!(result, None);
    assert_eq!(*env.read(root, "name").unwrap(), Value::Str("Alice".to_string()));
}

#[test]
fn test_declare_boolean_variable() {
    let mut env: Env = Environment::new();
    let root = env.root();
    let result = env.declare(root, "flag", Value::Boolean(true));
    assert_eq!(result, None);
    assert_eq!(*env.read(root, "flag").unwrap(), Value::Boolean(true));
}

#[test]
fn test_declare_nil_variable() {
    let mut env: Env = Environment::new();
    let root = env.root();
    let result = env.declare(root, "nothing", Value::Nil);
    assert_eq!(result, None);
    assert_eq!(*env.read(root, "nothing").unwrap(), Value::Nil);
}

#[test]
fn test_update_preserves_variable_name() {
    let mut env: Env = Environment::new();
    let root = env.root();
    env.declare(root, "x", Value::Number(1.0));
    env.update(root, "x", Value::Number(2.0)).unwrap();
    env.update(root, "x", Value::Number(3.0)).unwrap();

    assert_eq!(*env.read(root, "x").unwrap(), Value::Number(3.0));
}

#[test]
fn test_sequential_declares_and_updates() {
    let mut env: Env = Environment::new();
    let root = env.root();
    env.declare(root, "x", Value::Number(1.0));
    env.declare(root, "y", Value::Number(2.0));
    env.update(root, "x", Value::Number(10.0)).unwrap();
    env.declare(root, "z", Value::Number(3.0));
    env.update(root, "y", Value::Number(20.0)).unwrap();

    assert_eq!(*env.read(root, "x").unwrap(), Value::Number(10.0));
    assert_eq!(*env.read(root, "y").unwrap(), Value::Number(20.0));
    assert_eq!(*env.read(root, "z").unwrap(), Value::Number(3.0));
}

#[test]
fn test_read_clones_value() {
    let mut env: Env = Environment::new();
    let root = env.root();
    let stored = Value::Str("hello".to_string());
    env.declare(root, "x", stored.clone());

    let read1 = env.read(root, "x").unwrap().clone();
    let read2 = env.read(root, "x").unwrap().clone();

    assert_eq!(read1, read2);
    assert_eq!(read1, stored);
}

#[test]
fn test_parent_child_lifecycle() {
    // (1) Create parent and do operations
    let mut env: Env = Environment::new();
    let parent = env.root();
    env.declare(parent, "x", Value::Number(42.0));
    env.declare(parent, "y", Value::Number(10.0));
    assert_eq!(*env.read(parent, "x").unwrap(), Value::Number(42.0));
    assert_eq!(*env.read(parent, "y").unwrap(), Value::Number(10.0));

    // (2) Create child and do operations - the key is that we can modify
    // parent through the child, and those changes propagate to parent
    let x_value_in_child = {
        let child = env.child_of(parent);
        env.declare(child, "z", Value::Number(100.0));

        // Child can read parent's variables
        assert_eq!(*env.read(child, "x").unwrap(), Value::Number(42.0));
        assert_eq!(*env.read(child, "y").unwrap(), Value::Number(10.0));
        assert_eq!(*env.read(child, "z").unwrap(), Value::Number(100.0));

        // Child can update parent's variables
        env.update(child, "x", Value::Number(99.0)).unwrap();
        assert_eq!(*env.read(child, "x").unwrap(), Value::Number(99.0));

        // Return the updated value before the child scope is left
        env.read(child, "x").unwrap().clone()
    };

    // (3) Verify the child's update to parent persisted
    assert_eq!(x_value_in_child, Value::Number(99.0));
    assert_eq!(*env.read(parent, "x").unwrap(), Value::Number(99.0));
}
