use schema_salad::naming::{StrExt, ToSnakeCase};

#[test]
fn test_empty_string() {
    assert_eq!("".to_snake_case(), "");
}

#[test]
fn test_lowercase() {
    assert_eq!("hello".to_snake_case(), "hello");
}

#[test]
fn test_camel_case() {
    assert_eq!("helloWorld".to_snake_case(), "hello_world");
}

#[test]
fn test_pascal_case() {
    assert_eq!("HelloWorld".to_snake_case(), "hello_world");
}

#[test]
fn test_complex_case() {
    assert_eq!("ThisIsATest".to_snake_case(), "this_is_a_test");
}

#[test]
fn test_with_numbers() {
    assert_eq!("Hello123World".to_snake_case(), "hello123_world");
}

#[test]
fn test_already_snake_case() {
    assert_eq!("hello_world".to_snake_case(), "hello_world");
}

#[test]
fn snake_between_splits_only_after_small_letters() {
    assert_eq!(StrExt::to_snake_case(&String::from("ThisIsATest")), "this_is_atest");
    assert_eq!(StrExt::to_snake_case(&String::from("helloWorld")), "hello_world");
    assert_eq!(StrExt::to_snake_case(&String::from("")), "");
}
