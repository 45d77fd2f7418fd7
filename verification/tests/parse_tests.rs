use docc::parse;
use docc::Args;
use docc::Node;
use docc::ParseError;

fn args_of(pairs: &[(&str, &str)]) -> Args {
    let mut a = Args::new();
    for (k, v) in pairs {
        a.insert(k.to_string(), v.to_string());
    }
    a
}

#[test]
fn test_parse_directive_with_args() {
    assert_eq!(
        parse("@Foo(bar: baz, buz: qux)").unwrap(),
        Node::Directive {
            name: "Foo".into(),
            args: args_of(&[("bar", "baz"), ("buz", "qux")]),
            children: vec![],
        }
    )
}

#[test]
fn test_parse_directive_with_text_children() {
    assert_eq!(
        parse("\n@Foo {\n    bar\n\n    baz\n}\n                ").unwrap(),
        Node::Directive {
            name: "Foo".into(),
            args: Args::new(),
            children: vec![Node::Text("bar".into()), Node::Text("baz".into())],
        }
    )
}

#[test]
fn test_parse_directive_with_args_and_text_children() {
    assert_eq!(
        parse("\n@Foo(bar: baz) {\n    qux\n}\n                ").unwrap(),
        Node::Directive {
            name: "Foo".into(),
            args: args_of(&[("bar", "baz")]),
            children: vec![Node::Text("qux".into())],
        }
    )
}

#[test]
fn test_parse_nested_directives() {
    assert_eq!(
        parse("\n@Foo {\n    @Bar(baz: buz) {\n        qux\n    }\n}\n                ").unwrap(),
        Node::Directive {
            name: "Foo".into(),
            args: Args::new(),
            children: vec![Node::Directive {
                name: "Bar".into(),
                args: args_of(&[("baz", "buz")]),
                children: vec![Node::Text("qux".into())],
            }],
        }
    )
}

#[test]
fn test_parse_multiple_children_types() {
    assert_eq!(
        parse("\n@Foo {\n    @Bar()\n\n    baz\n}\n                ").unwrap(),
        Node::Directive {
            name: "Foo".into(),
            args: Args::new(),
            children: vec![
                Node::Directive {
                    name: "Bar".into(),
                    args: Args::new(),
                    children: vec![],
                },
                Node::Text("baz".into()),
            ],
        }
    )
}

#[test]
fn test_parse_comment() {
    assert_eq!(
        parse("\n@Foo {\n    @Comment {\n        wee\n    }\n}\n                ").unwrap(),
        Node::Directive {
            name: "Foo".into(),
            args: Args::new(),
            children: vec![Node::Comment("wee".into())],
        }
    )
}

#[test]
fn test_parse_missing_root_marker() {
    assert_eq!(parse("hello"), Err(ParseError::ExpectedRootDirective));
    assert_eq!(parse(""), Err(ParseError::ExpectedRootDirective));
    assert_eq!(parse("   \n  x @Foo {}"), Err(ParseError::ExpectedRootDirective));
}

#[test]
fn test_parse_unterminated_quote() {
    assert_eq!(parse("@Foo(bar: \"baz"), Err(ParseError::UnterminatedString));
}

#[test]
fn test_parse_unterminated_block() {
    assert_eq!(parse("@Foo {"), Err(ParseError::UnexpectedEndOfInput));
    assert_eq!(parse("@Foo {\n  bar\n"), Err(ParseError::UnexpectedEndOfInput));
}

#[test]
fn test_parse_unterminated_comment() {
    assert_eq!(parse("@Comment { hi"), Err(ParseError::UnterminatedComment));
}

#[test]
fn test_parse_comment_without_brace() {
    assert_eq!(parse("@Comment hi"), Err(ParseError::ExpectedCommentBrace));
}

#[test]
fn test_parse_bare_directive_rejected() {
    assert_eq!(parse("@Foo"), Err(ParseError::ExpectedParenOrBrace));
}

#[test]
fn test_parse_empty_directive_name() {
    assert_eq!(parse("@(bar: baz)"), Err(ParseError::EmptyDirectiveName));
}

#[test]
fn test_parse_empty_arg_name() {
    assert_eq!(parse("@Foo(1: baz)"), Err(ParseError::ExpectedArgName));
}

#[test]
fn test_parse_missing_colon() {
    assert_eq!(parse("@Foo(bar baz)"), Err(ParseError::ExpectedColon));
}

#[test]
fn test_parse_eof_in_args() {
    assert_eq!(parse("@Foo("), Err(ParseError::UnexpectedEndOfInput));
}

#[test]
fn test_quoted_value_preserves_whitespace() {
    assert_eq!(
        parse("@Foo(k: \"a, b\")").unwrap(),
        Node::Directive {
            name: "Foo".into(),
            args: args_of(&[("k", "a, b")]),
            children: vec![],
        }
    );
}

#[test]
fn test_quoted_value_keeps_escapes_verbatim() {
    // The backslash and the escaped quote both stay in the value.
    assert_eq!(
        parse("@Foo(k: \"a\\\"b\")").unwrap(),
        Node::Directive {
            name: "Foo".into(),
            args: args_of(&[("k", "a\\\"b")]),
            children: vec![],
        }
    );
}

#[test]
fn test_unquoted_value_verbatim() {
    assert_eq!(
        parse("@Foo(k: a b  c)").unwrap(),
        Node::Directive {
            name: "Foo".into(),
            args: args_of(&[("k", "a b  c")]),
            children: vec![],
        }
    );
}

#[test]
fn test_comment_body_trimmed() {
    assert_eq!(
        parse("@Comment { \n  hello \n }").unwrap(),
        Node::Comment("hello".into())
    );
}

#[test]
fn test_comment_body_not_parsed() {
    // Markup inside a comment stays raw text.
    assert_eq!(
        parse("@Comment { @Foo(bar: baz) hi }").unwrap(),
        Node::Comment("@Foo(bar: baz) hi".into())
    );
}

#[test]
fn test_repeated_key_last_wins() {
    let node = parse("@Foo(k: a, k: b)").unwrap();
    match &node {
        Node::Directive { args, .. } => {
            assert_eq!(args.get("k"), Some(&"b".to_string()));
        }
        _ => panic!("expected a directive"),
    }
}

#[test]
fn test_reparse_is_deterministic() {
    let input = "\n@Foo(bar: baz) {\n    @Bar()\n    qux\n}\n";
    assert_eq!(parse(input), parse(input));
    let bad = "@Foo(bar: \"oops";
    assert_eq!(parse(bad), parse(bad));
}

#[test]
fn test_args_get() {
    let mut a = Args::new();
    a.insert("title".to_string(), "Hello".to_string());
    assert_eq!(a.get("title"), Some(&"Hello".to_string()));
    assert_eq!(a.get("missing"), None);
}

#[test]
fn test_is_directive() {
    let node = parse("@Foo(bar: baz)").unwrap();
    assert!(node.is_directive("Foo"));
    assert!(!node.is_directive("Bar"));
    assert!(!Node::Text("Foo".into()).is_directive("Foo"));
}

#[test]
fn test_children() {
    let node = parse("@Foo {\n  bar\n}").unwrap();
    assert_eq!(node.children(), &[Node::Text("bar".into())]);
    assert_eq!(Node::Comment("c".into()).children(), &[] as &[Node]);
}

#[test]
fn test_parse_args_then_block() {
    let node = parse("@Foo(a: b) {\n  c\n}").unwrap();
    assert!(node.is_directive("Foo"));
    assert_eq!(node.children(), &[Node::Text("c".into())]);
}

#[test]
fn test_error_messages() {
    assert_eq!(
        ParseError::ExpectedRootDirective.message(),
        "expected directive at root"
    );
    assert_eq!(
        ParseError::ExpectedParenOrBrace.message(),
        "expected ( or { after directive name"
    );
    assert_eq!(
        ParseError::UnterminatedString.message(),
        "unterminated quoted string"
    );
    assert_eq!(
        ParseError::UnexpectedEndOfInput.message(),
        "unexpected end of input"
    );
}
