use schema_salad::preprocess::{get_uri_extension, Directive, DirectiveError, ImportFormat, PeekableMapAccess, Preprocessor};
use schema_salad::raw::RawTree;

fn s(x: &str) -> RawTree {
    RawTree::Str(x.to_string())
}

#[test]
fn extension_after_last_slash_and_dot() {
    assert_eq!(get_uri_extension("dir/file.yml").as_deref(), Some("yml"));
    assert_eq!(get_uri_extension("https://h.org/a.b/c.json").as_deref(), Some("json"));
    assert_eq!(get_uri_extension("dir.x/file"), None);
    assert_eq!(get_uri_extension("file.json"), None);
}

#[test]
fn peek_does_not_consume() {
    let es = vec![(s("a"), RawTree::Int(1)), (s("b"), RawTree::Int(2))];
    let mut access = PeekableMapAccess::new(&es);
    assert!(matches!(access.peek_key(), Some(RawTree::Str(k)) if k == "a"));
    assert!(matches!(access.peek_key(), Some(RawTree::Str(k)) if k == "a"));
    assert!(matches!(access.next_entry(), Some((RawTree::Str(k), RawTree::Int(1))) if k == "a"));
    assert!(matches!(access.peek_key(), Some(RawTree::Str(k)) if k == "b"));
    access.next_entry();
    assert!(access.peek_key().is_none());
    assert!(access.next_entry().is_none());
}

#[test]
fn import_directive_picks_format() {
    let t = RawTree::Mapping(vec![(s("$import"), s("dir/tool.yaml"))]);
    let pre = Preprocessor::new(&t);
    assert!(matches!(pre.directive(), Ok(Directive::Import { ref uri, format: ImportFormat::Yaml }) if uri == "dir/tool.yaml"));
    let t = RawTree::Mapping(vec![(s("$import"), s("dir/tool.json"))]);
    assert!(matches!(Preprocessor::new(&t).directive(), Ok(Directive::Import { format: ImportFormat::Json, .. })));
}

#[test]
fn include_directive_takes_any_uri() {
    let t = RawTree::Mapping(vec![(s("$include"), s("script.sh"))]);
    assert!(matches!(Preprocessor::new(&t).directive(), Ok(Directive::Include { ref uri }) if uri == "script.sh"));
}

#[test]
fn directive_errors() {
    let t = RawTree::Mapping(vec![(s("$import"), s("dir/tool.txt"))]);
    assert!(matches!(Preprocessor::new(&t).directive(), Err(DirectiveError::UnknownExtension { ref ext }) if ext == "txt"));
    let t = RawTree::Mapping(vec![(s("$import"), s("tool.json"))]);
    assert!(matches!(Preprocessor::new(&t).directive(), Err(DirectiveError::MissingExtension)));
    let t = RawTree::Mapping(vec![(s("$include"), RawTree::Int(3))]);
    assert!(matches!(Preprocessor::new(&t).directive(), Err(DirectiveError::UriNotString)));
}

#[test]
fn plain_trees_have_no_directive() {
    let t = RawTree::Mapping(vec![(s("class"), s("x")), (s("$import"), s("a/b.json"))]);
    assert!(matches!(Preprocessor::new(&t).directive(), Ok(Directive::Plain)));
    assert!(matches!(Preprocessor::new(&RawTree::Int(1)).directive(), Ok(Directive::Plain)));
}
