use pygxml::path::{
    compile, ChildIndex, FilterOp, FilterValue, Modifier, ParseError, Program, Step, TerminalShape,
};
use pygxml::wildcard::NameMatcher;

fn first_child(p: &Program) -> &Step {
    &p.steps[0]
}

#[test]
fn simple_descent() {
    let p = compile("a.b.c").unwrap();
    assert_eq!(p.steps.len(), 3);
    assert!(matches!(first_child(&p), Step::Child { index: ChildIndex::Auto, .. }));
    assert!(p.modifiers.is_empty());
}

#[test]
fn path_indexed() {
    let p = compile("a.0.b").unwrap();
    if let Step::Child { index, .. } = &p.steps[0] {
        assert_eq!(*index, ChildIndex::Nth(0));
    } else {
        panic!()
    }
}

#[test]
fn count_terminal() {
    let p = compile("a.#").unwrap();
    if let Step::Child { index, .. } = &p.steps[0] {
        assert_eq!(*index, ChildIndex::Count);
    } else {
        panic!()
    }
}

#[test]
fn path_each_projection() {
    let p = compile("a.#.b").unwrap();
    if let Step::Child { index, .. } = &p.steps[0] {
        assert_eq!(*index, ChildIndex::Each);
    } else {
        panic!()
    }
}

#[test]
fn attribute_terminal() {
    let p = compile("a.@id").unwrap();
    assert!(matches!(&p.steps[1], Step::Attribute(s) if s == "id"));
}

#[test]
fn filter_first() {
    let p = compile("a.#(price>10).title").unwrap();
    match &p.steps[0] {
        Step::Child { index: ChildIndex::FilterFirst(f), .. } => {
            assert_eq!(f.op, FilterOp::Gt);
            assert_eq!(f.value, FilterValue::Number("10".to_string()));
            match &f.value {
                FilterValue::Number(numeral) => {
                    assert_eq!(numeral.parse::<f64>().unwrap(), 10.0)
                }
                _ => panic!("expected a number"),
            }
        }
        _ => panic!("expected FilterFirst"),
    }
    assert!(matches!(&p.steps[1], Step::Child { index: ChildIndex::Auto, .. }));
}

#[test]
fn filter_all() {
    let p = compile("a.#(price>10)#.title").unwrap();
    match &p.steps[0] {
        Step::Child { index: ChildIndex::FilterAll(f), .. } => {
            assert_eq!(f.op, FilterOp::Gt);
        }
        _ => panic!(),
    }
    assert!(p.multi);
}

#[test]
fn filter_string_value() {
    let p = compile("a.#(@id==\"b1\").title").unwrap();
    match &p.steps[0] {
        Step::Child { index: ChildIndex::FilterFirst(f), .. } => {
            assert_eq!(f.op, FilterOp::Eq);
            assert_eq!(f.value, FilterValue::String("b1".into()));
        }
        _ => panic!(),
    }
}

#[test]
fn filter_glob() {
    let p = compile("a.#(name%\"J*\").title").unwrap();
    match &p.steps[0] {
        Step::Child { index: ChildIndex::FilterFirst(f), .. } => {
            assert_eq!(f.op, FilterOp::GlobMatch);
        }
        _ => panic!(),
    }
}

#[test]
fn path_modifier_reverse() {
    let p = compile("a.#.title|@reverse").unwrap();
    assert_eq!(p.modifiers, vec![Modifier::Reverse]);
}

#[test]
fn multiple_modifiers() {
    let p = compile("a.#.title|@reverse|@first").unwrap();
    assert_eq!(p.modifiers, vec![Modifier::Reverse, Modifier::First]);
}

#[test]
fn attribute_not_terminal_errors() {
    assert!(compile("a.@id.b").is_err());
}

#[test]
fn unknown_modifier_errors() {
    assert!(compile("a|@bogus").is_err());
}

fn kind(path: &str) -> ParseError {
    compile(path).expect_err("path should not compile").kind
}

#[test]
fn every_kind_of_error() {
    assert!(matches!(kind(""), ParseError::EmptyPath));
    assert!(matches!(kind("..."), ParseError::EmptyPath));
    assert!(matches!(kind("a.#(>1)"), ParseError::EmptyPath));
    assert!(matches!(kind("a.99999999999999999999999"), ParseError::BadIndex(s) if s == "99999999999999999999999"));
    assert!(matches!(kind("0.a"), ParseError::OrphanIndex));
    assert!(matches!(kind("#"), ParseError::OrphanHash));
    assert!(matches!(kind("#(a>1)"), ParseError::OrphanHash));
    assert!(matches!(kind("a.@id.b"), ParseError::AttributeNotTerminal));
    assert!(matches!(kind("a.#text.b"), ParseError::TextNotTerminal));
    assert!(matches!(kind("a.@"), ParseError::EmptyAttribute));
    assert!(matches!(kind("a.#(b>1"), ParseError::UnmatchedParen));
    assert!(matches!(kind("a)"), ParseError::UnmatchedParen));
    assert!(matches!(kind("a.#(b)"), ParseError::FilterMissingOp(s) if s == "b"));
    assert!(matches!(kind("a.#(b!c)"), ParseError::FilterMissingOp(s) if s == "!c"));
    assert!(matches!(kind("a|@bogus"), ParseError::UnknownModifier(s) if s == "bogus"));
    assert!(matches!(kind("a|@"), ParseError::EmptyModifier));
    assert!(matches!(kind("a|sum"), ParseError::EmptyModifier));
    assert!(matches!(kind("a.**"), ParseError::DescendantWithoutName));
    assert!(matches!(kind("a.**.@id"), ParseError::DescendantWithoutName));
    assert!(matches!(kind("a.**.b.0"), ParseError::DescendantWithIndex));
    assert!(matches!(kind("a.**.b.#"), ParseError::DescendantWithIndex));
    assert!(matches!(kind("a.**.b.#(c=1)"), ParseError::DescendantWithIndex));
}

#[test]
fn kinds_in_words() {
    assert_eq!(kind("").message(), "empty path");
    assert_eq!(kind("a|@bogus").message(), "unknown modifier: @bogus");
    assert_eq!(kind("a.#(b)").message(), "filter expression missing operator: b");
    assert_eq!(kind("0.a").message(), "index without preceding name");
    assert_eq!(kind("#").message(), "# without preceding name");
    assert_eq!(kind("a.@id.b").message(), "@attr must be the last component");
    assert_eq!(kind("a.#text.b").message(), "#text must be the last component");
    assert_eq!(kind("a.@").message(), "@ must be followed by an attribute name");
    assert_eq!(kind("a.#(b>1").message(), "unmatched ( in filter");
    assert_eq!(kind("a|@").message(), "modifier name is empty");
    assert_eq!(kind("a.**").message(), "** must be followed by an element name");
    assert_eq!(
        kind("a.**.b.0").message(),
        "** does not accept an explicit selector (no index/#/filter)"
    );
    assert_eq!(ParseError::BadIndex("9".to_string()).message(), "bad index: 9");
    assert_eq!(
        ParseError::FilterBadValue("x".to_string()).message(),
        "filter value parse error: x"
    );
}

#[test]
fn message_points_at_the_place() {
    let error = compile("a|@bogus").expect_err("unknown");
    assert_eq!(error.path, "a|@bogus");
    assert_eq!(
        error.message(),
        "unknown modifier: @bogus\n  in path: \"a|@bogus\"\n              ^"
    );
    let error = compile("a.#(b>1").expect_err("unmatched");
    assert_eq!(
        error.message(),
        "unmatched ( in filter\n  in path: \"a.#(b>1\"\n               ^"
    );
    let error = compile("0.a").expect_err("orphan");
    assert_eq!(error.message(), "index without preceding name\n  in path: \"0.a\"");
    let error = compile("0.\"\t\"").expect_err("quotes in the path");
    assert_eq!(
        error.message(),
        "index without preceding name\n  in path: \"0.\\\"\\t\\\"\""
    );
}

#[test]
fn steps_of_a_long_path() {
    let p = compile("store.b*k.2.**.x.#text|@reverse | @sortn|@uniq|@mean").unwrap();
    assert_eq!(p.steps.len(), 4);
    match &p.steps[1] {
        Step::Child { name, index, descendant } => {
            assert_eq!(*name, NameMatcher::Glob("b*k".to_string()));
            assert_eq!(*index, ChildIndex::Nth(2));
            assert!(!*descendant);
        }
        _ => panic!(),
    }
    match &p.steps[2] {
        Step::Child { name, index, descendant } => {
            assert_eq!(*name, NameMatcher::Exact("x".to_string()));
            assert_eq!(*index, ChildIndex::Each);
            assert!(*descendant);
        }
        _ => panic!(),
    }
    assert!(matches!(&p.steps[3], Step::Text));
    assert_eq!(
        p.modifiers,
        vec![Modifier::Reverse, Modifier::SortNumeric, Modifier::Unique, Modifier::Avg]
    );
    assert!(p.multi);
    assert_eq!(p.terminal_shape, TerminalShape::Element);
}

#[test]
fn every_modifier_name() {
    let p = compile(
        "a|@reverse|@first|@last|@count|@sort|@sort_n|@sortn|@unique|@uniq|@flatten|@tostr|@sum|@avg|@mean|@min|@max",
    )
    .unwrap();
    assert_eq!(
        p.modifiers,
        vec![
            Modifier::Reverse,
            Modifier::First,
            Modifier::Last,
            Modifier::Count,
            Modifier::Sort,
            Modifier::SortNumeric,
            Modifier::SortNumeric,
            Modifier::Unique,
            Modifier::Unique,
            Modifier::Flatten,
            Modifier::Tostr,
            Modifier::Sum,
            Modifier::Avg,
            Modifier::Avg,
            Modifier::Min,
            Modifier::Max,
        ]
    );
}

#[test]
fn every_filter_operator() {
    for (text, op) in [
        ("==", FilterOp::Eq),
        ("=", FilterOp::Eq),
        ("!=", FilterOp::Ne),
        ("<", FilterOp::Lt),
        ("<=", FilterOp::Le),
        (">", FilterOp::Gt),
        (">=", FilterOp::Ge),
        ("%", FilterOp::GlobMatch),
        ("!%", FilterOp::GlobNotMatch),
    ] {
        let p = compile(&format!("a.#( b {} x )", text)).unwrap();
        match &p.steps[0] {
            Step::Child { index: ChildIndex::FilterFirst(f), .. } => {
                assert_eq!(f.op, op);
                assert_eq!(f.value, FilterValue::String("x".to_string()));
                assert_eq!(f.path.len(), 1);
                assert_eq!(f.attr_only, None);
            }
            _ => panic!(),
        }
    }
}

#[test]
fn every_filter_value() {
    for (text, value) in [
        ("\"a\\\"b\"", FilterValue::String("a\"b".to_string())),
        ("'a b'", FilterValue::String("a b".to_string())),
        ("true", FilterValue::Bool(true)),
        ("false", FilterValue::Bool(false)),
        ("True", FilterValue::String("True".to_string())),
        ("-1.5e3", FilterValue::Number("-1.5e3".to_string())),
        ("inf", FilterValue::Number("inf".to_string())),
        ("Foo", FilterValue::String("Foo".to_string())),
        ("", FilterValue::String(String::new())),
        ("\\'", FilterValue::String("\\'".to_string())),
        ("'a\\'b'", FilterValue::String("a'b".to_string())),
    ] {
        let p = compile(&format!("a.#(@b={})#", text)).unwrap();
        match &p.steps[0] {
            Step::Child { index: ChildIndex::FilterAll(f), .. } => {
                assert_eq!(f.attr_only, Some("b".to_string()));
                assert_eq!(f.value, value, "{}", text);
            }
            _ => panic!(),
        }
    }
}

#[test]
fn quotes_keep_parentheses_and_pipes() {
    let p = compile("a.#(b.c==\")|x.y\")#.e|@first").unwrap();
    assert_eq!(p.steps.len(), 2);
    assert_eq!(p.modifiers, vec![Modifier::First]);
    match &p.steps[0] {
        Step::Child { index: ChildIndex::FilterAll(f), .. } => {
            assert_eq!(f.value, FilterValue::String(")|x.y".to_string()));
            assert_eq!(f.path.len(), 2);
        }
        _ => panic!(),
    }
    assert!(matches!(kind("a.#(b.#(c=1).d==2)"), ParseError::UnmatchedParen));
}

#[test]
fn escapes_keep_dots_and_ats() {
    let p = compile("a\\.b.\\@c").unwrap();
    assert_eq!(p.steps.len(), 2);
    match (&p.steps[0], &p.steps[1]) {
        (Step::Child { name: a, .. }, Step::Child { name: b, .. }) => {
            assert_eq!(*a, NameMatcher::Exact("a\\.b".to_string()));
            assert_eq!(*b, NameMatcher::Exact("\\@c".to_string()));
        }
        _ => panic!(),
    }
    let p = compile("a.@x\\.y").unwrap();
    assert!(matches!(&p.steps[1], Step::Attribute(s) if s == "x.y"));
}

#[test]
fn shapes_follow_the_modifiers() {
    let shape = |path: &str| compile(path).unwrap().terminal_shape;
    assert_eq!(shape("a.b"), TerminalShape::Element);
    assert_eq!(shape("a.b|@count"), TerminalShape::Count);
    assert_eq!(shape("a.b|@count|@sum"), TerminalShape::Element);
    assert_eq!(shape("a.b|@sum"), TerminalShape::Text);
    assert_eq!(shape("a.b.0|@sum"), TerminalShape::Element);
    assert_eq!(shape("a.b.#(c=1)|@first"), TerminalShape::Text);
    assert_eq!(shape("a.@id|@count"), TerminalShape::Element);
    assert_eq!(shape("a.#text|@sort"), TerminalShape::Element);
}

#[test]
fn selectors_compare_without_filters() {
    assert_eq!(ChildIndex::Auto, ChildIndex::Auto);
    assert_ne!(ChildIndex::Nth(1), ChildIndex::Nth(2));
    assert_ne!(ChildIndex::Auto, ChildIndex::Each);
    let a = compile("a.#(b=1)").unwrap();
    match &a.steps[0] {
        Step::Child { index, .. } => assert!(*index != *index),
        _ => panic!(),
    }
}

#[test]
fn escaped_path_is_one_name() {
    for name in ["a.b", "@id", "#", "12", "a|b", "x(y)", "\"q\"", "*?", "\\", " ", " a ", "b\t"] {
        let mut path = String::new();
        for c in name.chars() {
            path.push('\\');
            path.push(c);
        }
        let p = compile(&path).unwrap();
        assert_eq!(p.steps.len(), 1);
        match &p.steps[0] {
            Step::Child { name: matcher, index, descendant } => {
                assert_eq!(matcher.as_source(), path);
                assert!(matcher.matches(name, name));
                assert!(!matcher.matches(&path, &path));
                assert_eq!(*index, ChildIndex::Auto);
                assert!(!*descendant);
            }
            _ => panic!("{} is a name", path),
        }
    }
}

#[test]
fn dotted_path_descends_by_bare_names() {
    let parts = ["store", "x-1", "ns:book", "t_t", "é"];
    let p = compile(&parts.join(".")).unwrap();
    assert_eq!(p.steps.len(), parts.len());
    for (step, part) in p.steps.iter().zip(parts) {
        match step {
            Step::Child { name, index, descendant } => {
                assert_eq!(*name, NameMatcher::Exact(part.to_string()));
                assert_eq!(*index, ChildIndex::Auto);
                assert!(!*descendant);
            }
            _ => panic!("{} is a name", part),
        }
    }
    assert!(p.modifiers.is_empty());
    assert!(!p.multi);
}

#[test]
fn steps_stand_where_they_can() {
    for path in ["a.b.#", "a.#.b", "a.**.b.c", "a.#(@x==1)#.b.@y", "a.b.#text", "a.#(b.c>1).d"] {
        let p = compile(path).unwrap();
        let last = p.steps.len() - 1;
        for (k, step) in p.steps.iter().enumerate() {
            match step {
                Step::Attribute(_) | Step::Text => assert_eq!(k, last, "{}", path),
                Step::Child { index, descendant, .. } => {
                    if *index == ChildIndex::Count {
                        assert_eq!(k, last, "{}", path);
                    }
                    if *descendant {
                        assert_eq!(*index, ChildIndex::Each, "{}", path);
                    }
                    if let ChildIndex::FilterAll(f) | ChildIndex::FilterFirst(f) = index {
                        let only = matches!(f.path.as_slice(), [Step::Attribute(_)]);
                        assert_eq!(f.attr_only.is_some(), only, "{}", path);
                    }
                }
            }
        }
    }
}

fn shown(path: &str) -> String {
    format!("{:?}", compile(path).unwrap())
}

#[test]
fn white_space_around_the_pipe_makes_no_difference() {
    let p = compile("a.b | @count").unwrap();
    assert_eq!(p.steps.len(), 2);
    match (&p.steps[0], &p.steps[1]) {
        (Step::Child { name: a, .. }, Step::Child { name: b, .. }) => {
            assert_eq!(*a, NameMatcher::Exact("a".to_string()));
            assert_eq!(*b, NameMatcher::Exact("b".to_string()));
        }
        _ => panic!(),
    }
    assert_eq!(p.modifiers, vec![Modifier::Count]);
    assert_eq!(shown("a.b | @count"), shown("a.b|@count"));
    assert_eq!(shown("a.b\u{3000}|@first\t| @count "), shown("a.b|@first|@count"));
    assert!(matches!(kind(" | @count"), ParseError::EmptyPath));
}

fn only_name(path: &str) -> String {
    let p = compile(path).unwrap();
    assert_eq!(p.steps.len(), 1);
    match &p.steps[0] {
        Step::Child { name, .. } => name.as_source().to_string(),
        _ => panic!("{} is a name", path),
    }
}

#[test]
fn white_space_away_from_the_pipe_belongs_to_the_name() {
    assert_eq!(only_name(" a"), " a");
    assert_eq!(only_name(" "), " ");
    assert_eq!(only_name(" a b\n"), " a b\n");
    assert_eq!(only_name(" a | @count"), " a");
    assert_eq!(only_name("a\\ |@count"), "a\\ ");
    assert_eq!(only_name("a\\  |@count"), "a\\ ");
    assert_eq!(only_name("a\\\\ |@count"), "a\\\\");
}

#[test]
fn a_copy_of_a_program_is_the_same_program() {
    for path in ["a.b.0", "a.#(b.#(c=1)#.d>2)#.e|@sort|@first", "a.**.b.@c", "a.#(@x!=true).#text"] {
        let Ok(p) = compile(path) else { continue };
        assert_eq!(format!("{:?}", p.clone()), format!("{:?}", p), "{}", path);
        assert_eq!(format!("{:?}", p.steps[0].clone()), format!("{:?}", p.steps[0]));
    }
    match &compile("a.#(@x!=5)").unwrap().steps[0] {
        Step::Child { index: ChildIndex::FilterFirst(f), .. } => {
            assert_eq!(format!("{:?}", f.clone()), format!("{:?}", f));
        }
        _ => panic!(),
    }
}
