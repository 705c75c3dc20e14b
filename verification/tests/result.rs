use pygxml::result::{
    all_strings, char_at, children_named, classify_scalar, collect_direct_children,
    element_has_child_elements, equals_text, equals_texts, length, mode, mode_label, normal_index,
    show_dict, show_entries, slice_places, substring, text_chars, to_bool, to_float, to_int,
    to_str, unique_child_names, BoolReading, CharError, Held, IntReading, Mode, ScalarKind,
};

const BOOK: &[u8] = br#"<book id="b1"><title>A</title><tag>x</tag><none/><tag>y</tag></book>"#;
const BROKEN: &[u8] = &[0x61, 0xff, 0x62];

fn names(list: &[Vec<u8>]) -> Vec<String> {
    list.iter().map(|n| String::from_utf8(n.clone()).unwrap()).collect()
}

#[test]
fn elements_with_children_are_dictionaries() {
    assert!(element_has_child_elements(BOOK));
    assert!(element_has_child_elements(b"<a>text<b/></a>"));
    assert!(!element_has_child_elements(b"<a>text</a>"));
    assert!(!element_has_child_elements(b"<a/>"));
    assert!(!element_has_child_elements(b"<a></a><b/>"));
    assert!(!element_has_child_elements(b""));
}

#[test]
fn children_cover_their_bytes() {
    let spans = collect_direct_children(BOOK);
    let pieces: Vec<&[u8]> = spans.iter().map(|s| &BOOK[s.start..s.end]).collect();
    assert_eq!(
        pieces,
        [
            b"<title>A</title>".as_slice(),
            b"<tag>x</tag>".as_slice(),
            b"<none/>".as_slice(),
            b"<tag>y</tag>".as_slice(),
        ]
    );
    assert_eq!(spans[1].name, b"tag");
}

#[test]
fn grandchildren_are_no_children() {
    let bytes = b"<a><b><c/><b>1</b></b><d/></a>";
    let spans = collect_direct_children(bytes);
    assert_eq!(spans.len(), 2);
    assert_eq!(&bytes[spans[0].start..spans[0].end], b"<b><c/><b>1</b></b>");
    assert_eq!(&bytes[spans[1].start..spans[1].end], b"<d/>");
}

#[test]
fn keys_are_the_names_once() {
    let spans = collect_direct_children(BOOK);
    assert_eq!(names(&unique_child_names(&spans)), ["title", "tag", "none"]);
    assert_eq!(unique_child_names(&collect_direct_children(b"<a>1</a>")).len(), 0);
}

#[test]
fn values_over_all_keys_are_all_children() {
    let spans = collect_direct_children(BOOK);
    let total: usize = unique_child_names(&spans)
        .iter()
        .map(|name| children_named(BOOK, name).unwrap().len())
        .sum();
    assert_eq!(total, spans.len());
}

#[test]
fn keys_have_values() {
    let tags = children_named(BOOK, b"tag").unwrap();
    assert_eq!(tags, [b"<tag>x</tag>".to_vec(), b"<tag>y</tag>".to_vec()]);
    assert!(children_named(BOOK, b"price").is_none());
}

#[test]
fn modes() {
    assert!(mode(&[]) == Mode::Empty);
    assert!(mode(&[Held::Scalar(b"<a><b/></a>")]) == Mode::ScalarLike);
    assert!(mode(&[Held::Fragment(b"<a>1</a>")]) == Mode::ScalarLike);
    assert!(mode(&[Held::Fragment(BOOK)]) == Mode::DictElement);
    assert!(mode(&[Held::Document(BOOK)]) == Mode::DictElement);
    assert!(mode(&[Held::Scalar(b"1"), Held::Scalar(b"2")]) == Mode::Multi);
    assert_eq!(mode_label(Mode::Empty), "empty");
    assert_eq!(mode_label(Mode::ScalarLike), "scalar");
    assert_eq!(mode_label(Mode::DictElement), "dict");
    assert_eq!(mode_label(Mode::Multi), "multi");
}

#[test]
fn held_things_have_text_and_bytes() {
    assert_eq!(Held::Fragment(b"<a>x<b>y</b></a>").text(), b"xy");
    assert_eq!(Held::Scalar(b"<a>x</a>").text(), b"<a>x</a>");
    assert_eq!(Held::Document(b"<a>x</a>").bytes(), b"<a>x</a>");
}

#[test]
fn kinds_of_scalars() {
    assert!(classify_scalar("30") == ScalarKind::Int(30));
    assert!(classify_scalar("-7") == ScalarKind::Int(-7));
    assert!(classify_scalar("9223372036854775807") == ScalarKind::Int(i64::MAX));
    assert!(classify_scalar("-9223372036854775808") == ScalarKind::Int(i64::MIN));
    assert!(classify_scalar("9223372036854775808") == ScalarKind::Float);
    assert!(classify_scalar("30.0") == ScalarKind::Float);
    assert!(classify_scalar("nan") == ScalarKind::Float);
    assert!(classify_scalar("") == ScalarKind::Str);
    assert!(classify_scalar("thirty") == ScalarKind::Str);
}

#[test]
fn integers() {
    assert!(matches!(to_int(b" 30 "), IntReading::Value(30)));
    assert!(matches!(to_int(b"+5"), IntReading::Value(5)));
    assert!(matches!(to_int(b""), IntReading::Value(0)));
    assert!(matches!(to_int(b"abc"), IntReading::Value(0)));
    assert!(matches!(to_int(BROKEN), IntReading::Value(0)));
    match to_int(b" 30.7 ") {
        IntReading::Truncated(s) => assert_eq!(s, "30.7"),
        IntReading::Value(_) => panic!("the number has a fraction"),
    }
}

#[test]
fn floats() {
    assert_eq!(to_float(b" 2.5 "), Some("2.5".to_string()));
    assert_eq!(to_float(b"30"), Some("30".to_string()));
    assert_eq!(to_float(b"x"), None);
    assert_eq!(to_float(b""), None);
}

#[test]
fn truth_values_as_they_are_spelled() {
    let yes = ["1", "true", "\"t\"", "\"T\"", "\"1\"", "\"true\"", "\"TRUE\"", "\"True\"", "2", "-3"];
    let no = ["0", "false", "\"f\"", "\"F\"", "\"0\"", "\"false\"", "\"FALSE\"", "\"False\"", "yes", "", "TRUE"];
    for text in yes {
        assert!(matches!(to_bool(&[Held::Scalar(text.as_bytes())]), BoolReading::Value(true)), "{}", text);
    }
    for text in no {
        assert!(matches!(to_bool(&[Held::Scalar(text.as_bytes())]), BoolReading::Value(false)), "{}", text);
    }
}

#[test]
fn truth_values_of_results() {
    assert!(matches!(to_bool(&[]), BoolReading::Value(false)));
    assert!(matches!(to_bool(&[Held::Fragment(BOOK)]), BoolReading::Value(true)));
    assert!(matches!(to_bool(&[Held::Scalar(b"0"), Held::Scalar(b"0")]), BoolReading::Value(true)));
    assert!(matches!(to_bool(&[Held::Fragment(b"<a>1</a>")]), BoolReading::Value(true)));
    match to_bool(&[Held::Scalar(b"0.5")]) {
        BoolReading::Truncated(s) => assert_eq!(s, "0.5"),
        BoolReading::Value(_) => panic!("the number has a fraction"),
    }
}

#[test]
fn strings() {
    assert_eq!(to_str(&[]), Some(String::new()));
    assert_eq!(to_str(&[Held::Fragment(b"<a> x </a>")]), Some("x".to_string()));
    assert_eq!(to_str(&[Held::Scalar(BROKEN)]), None);
    assert_eq!(to_str(&[Held::Fragment(b"<a><b/></a>")]), Some("<a><b/></a>".to_string()));
    assert_eq!(
        to_str(&[Held::Fragment(b"<a>1</a>"), Held::Scalar(b"2")]),
        Some("<a>1</a>\n2".to_string())
    );
    assert_eq!(
        to_str(&[Held::Scalar(BROKEN), Held::Scalar(b"2")]),
        Some("a\u{fffd}b\n2".to_string())
    );
}

#[test]
fn comparisons() {
    let items = [Held::Fragment(b"<a>x</a>"), Held::Scalar(b"y")];
    assert_eq!(all_strings(&items), Some(vec!["x".to_string(), "y".to_string()]));
    assert_eq!(equals_texts(&items, &vec!["x".to_string(), "y".to_string()]), Some(true));
    assert_eq!(equals_texts(&items, &vec!["x".to_string()]), Some(false));
    assert_eq!(equals_texts(&[Held::Scalar(BROKEN)], &vec![]), None);
    assert!(equals_text(&items, "x"));
    assert!(!equals_text(&items, "y"));
    assert!(!equals_text(&[], ""));
    assert!(!equals_text(&[Held::Scalar(BROKEN)], "ab"));
}

#[test]
fn indices_count_from_both_ends() {
    assert_eq!(normal_index(0, 3), Some(0));
    assert_eq!(normal_index(2, 3), Some(2));
    assert_eq!(normal_index(3, 3), None);
    assert_eq!(normal_index(-1, 3), Some(2));
    assert_eq!(normal_index(-3, 3), Some(0));
    assert_eq!(normal_index(-4, 3), None);
    assert_eq!(normal_index(isize::MIN, 3), None);
    assert_eq!(normal_index(0, 0), None);
}

#[test]
fn slices_take_places() {
    assert_eq!(slice_places(0, 5, 1, 5), [0, 1, 2, 3, 4]);
    assert_eq!(slice_places(4, -1, -1, 5), [4, 3, 2, 1, 0]);
    assert_eq!(slice_places(1, 5, 2, 5), [1, 3]);
    assert_eq!(slice_places(3, 1, 1, 5), Vec::<usize>::new());
    assert_eq!(slice_places(0, 3, 0, 5), Vec::<usize>::new());
    assert_eq!(slice_places(0, 5, isize::MAX, 5), [0]);
    assert_eq!(slice_places(0, 9, 4, 5), [0, 4]);
}

#[test]
fn characters_of_a_text() {
    let text = "héß".as_bytes();
    assert_eq!(text_chars(text), Some(vec!['h', 'é', 'ß']));
    assert_eq!(text_chars(BROKEN), None);
    assert!(matches!(char_at(text, 1), Ok('é')));
    assert!(matches!(char_at(text, -1), Ok('ß')));
    assert!(matches!(char_at(text, 3), Err(CharError::OutOfRange)));
    assert!(matches!(char_at(BROKEN, 0), Err(CharError::NotText)));
    assert_eq!(substring(text, 0, 2, 1), Some("hé".to_string()));
    assert_eq!(substring(text, 2, -1, -1), Some("ßéh".to_string()));
    assert_eq!(substring(BROKEN, 0, 1, 1), None);
}

#[test]
fn lengths() {
    assert_eq!(length(&[]), Some(0));
    assert_eq!(length(&[Held::Scalar("héß".as_bytes())]), Some(3));
    assert_eq!(length(&[Held::Fragment(b"<a> x </a>")]), Some(3));
    assert_eq!(length(&[Held::Fragment(BOOK)]), Some(3));
    assert_eq!(length(&[Held::Scalar(b"1"), Held::Scalar(b"2")]), Some(2));
    assert_eq!(length(&[Held::Scalar(BROKEN)]), None);
}

#[test]
fn how_results_are_shown() {
    let keys = |list: &[&str]| -> Vec<Vec<u8>> { list.iter().map(|k| k.as_bytes().to_vec()).collect() };
    assert_eq!(show_dict(&keys(&["a"])), "<Result type=dict, keys=[a]>");
    assert_eq!(show_dict(&keys(&["a", "b"])), "<Result type=dict, keys=[a, b]>");
    assert_eq!(show_dict(&keys(&["a", "b", "c"])), "<Result type=dict, keys=[a, b, ...]>");
    assert_eq!(show_dict(&vec![BROKEN.to_vec()]), "<Result type=dict, keys=[a\u{fffd}b]>");
    assert_eq!(
        show_entries(&vec!["1".to_string(), "2".to_string()]),
        "<Result type=list, value=[1, 2]>"
    );
    assert_eq!(
        show_entries(&vec!["1".to_string(), "2".to_string(), "3".to_string()]),
        "<Result type=list, value=[1, 2, ...]>"
    );
}
