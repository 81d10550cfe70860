use schema_salad::error::BindError;
use schema_salad::scope::SeedData;

#[test]
fn nested_id_is_prefixed_by_parent() {
    let mut reg = SeedData::new();
    assert_eq!(reg.generate_id("main").unwrap(), "main");
    assert_eq!(reg.generate_id("step1").unwrap(), "main/step1");
}

#[test]
fn fragment_id_ignores_parent() {
    let mut reg = SeedData::new();
    reg.generate_id("main").unwrap();
    assert_eq!(reg.generate_id("#step1").unwrap(), "step1");
    // the fragment becomes the new parent
    assert_eq!(reg.generate_id("inner").unwrap(), "step1/inner");
}

#[test]
fn nested_parent_is_raw_segment() {
    let mut reg = SeedData::new();
    reg.generate_id("main").unwrap();
    assert_eq!(reg.generate_id("step1").unwrap(), "main/step1");
    assert_eq!(reg.generate_id("out").unwrap(), "step1/out");
}

#[test]
fn colon_id_is_rooted_with_hash() {
    let mut reg = SeedData::new();
    reg.generate_id("main").unwrap();
    assert_eq!(reg.generate_id("file:x").unwrap(), "file#x");
    assert_eq!(reg.generate_id("a#b").unwrap(), "a#b");
}

#[test]
fn duplicate_id_in_scope_fails() {
    let mut reg = SeedData::new();
    reg.generate_id("main").unwrap();
    reg.generate_id("x").unwrap();
    reg.pop_parent_id();
    let r = reg.generate_id("x");
    assert!(matches!(r, Err(BindError::DuplicateId { ref id }) if id == "main/x"));
}

#[test]
fn subscope_prefixes_nested_ids() {
    let mut reg = SeedData::new();
    reg.generate_id("main").unwrap();
    reg.push_subscope("run");
    assert_eq!(reg.generate_id("s").unwrap(), "main/run/s");
    reg.pop_parent_id();
    reg.pop_parent_id();
    assert_eq!(reg.generate_id("t").unwrap(), "main/t");
}

#[test]
fn subscope_without_parent_is_its_name() {
    let mut reg = SeedData::new();
    reg.push_subscope("run");
    assert_eq!(reg.generate_id("s").unwrap(), "run/s");
}

#[test]
fn pop_on_empty_stack_is_harmless() {
    let mut reg = SeedData::new();
    reg.pop_parent_id();
    assert_eq!(reg.generate_id("a").unwrap(), "a");
}

#[test]
fn fork_keeps_scopes_but_no_ids() {
    let mut reg = SeedData::new();
    reg.generate_id("main").unwrap();
    let mut trial = reg.fork();
    assert!(!trial.contains(&"main".to_string()));
    assert_eq!(trial.generate_id("x").unwrap(), "main/x");
    assert!(!reg.contains(&"main/x".to_string()));
    reg.extend(trial).unwrap();
    assert!(reg.contains(&"main/x".to_string()));
}

#[test]
fn extend_reports_a_clash() {
    let mut reg = SeedData::new();
    reg.generate_id("a").unwrap();
    reg.pop_parent_id();
    let mut other = SeedData::new();
    other.generate_id("a").unwrap();
    let r = reg.extend(other);
    assert!(matches!(r, Err(BindError::DuplicateId { ref id }) if id == "a"));
}
