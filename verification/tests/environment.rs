use blang::environment::Environment;
use blang::types::{Integer, Object};

fn number(value: i64) -> Object {
    Object::Integer(Integer { value })
}

fn value_of(env: &Environment, key: &str) -> i64 {
    match env.get(key) {
        Object::Integer(i) => i.value,
        other => panic!("{} is {}", key, other.inspect()),
    }
}

#[test]
fn test_environment_update_and_get() {
    let mut env = Environment::new();
    assert!(!env.has_key("a"));
    assert_eq!(env.get("a").inspect(), "unknown identifier: a");
    env.update("a".to_string(), number(1));
    env.update("b".to_string(), number(2));
    assert!(env.has_key("a"));
    assert_eq!(value_of(&env, "a"), 1);
    assert_eq!(value_of(&env, "b"), 2);
    env.update("a".to_string(), number(3));
    assert_eq!(value_of(&env, "a"), 3);
    assert_eq!(value_of(&env, "b"), 2);
    assert_eq!(env.get("").inspect(), "unknown identifier: ");
}

#[test]
fn test_environment_list_keys() {
    let mut env = Environment::new();
    assert_eq!(env.list_keys().len(), 0);
    env.update("a".to_string(), number(1));
    env.update("b".to_string(), number(2));
    env.update("a".to_string(), number(3));
    env.update("c".to_string(), number(4));
    let mut keys: Vec<String> = env.list_keys().into_iter().cloned().collect();
    keys.sort();
    assert_eq!(keys, vec!["a".to_string(), "b".to_string(), "c".to_string()]);
}

#[test]
fn test_environment_copy_is_independent() {
    let mut env = Environment::new();
    env.update("a".to_string(), number(1));
    let mut copy = env.get_copy();
    copy.update("a".to_string(), number(2));
    copy.update("b".to_string(), number(3));
    assert_eq!(value_of(&env, "a"), 1);
    assert!(!env.has_key("b"));
    assert_eq!(value_of(&copy, "a"), 2);
    env.update("c".to_string(), number(4));
    assert!(!copy.has_key("c"));
}

#[test]
fn test_environment_extend() {
    let mut env = Environment::new();
    env.update("a".to_string(), number(1));
    env.update("b".to_string(), number(2));
    let mut other = Environment::new();
    other.update("b".to_string(), number(20));
    other.update("c".to_string(), number(30));
    env.extend(&other);
    assert_eq!(value_of(&env, "a"), 1);
    assert_eq!(value_of(&env, "b"), 20);
    assert_eq!(value_of(&env, "c"), 30);
    assert_eq!(env.list_keys().len(), 3);
    assert_eq!(value_of(&other, "b"), 20);
    assert!(!other.has_key("a"));
}
