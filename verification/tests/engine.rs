use pygxml::engine::{
    run, run_with_readings, run_within, run_within_with_readings, validate, EngineError,
};
use pygxml::item::{extract_element_text, item_text, Item};
use pygxml::number::{Number, Readings};
use pygxml::path;
use pygxml::path::Modifier;

fn show(value: f64) -> String {
    if value.is_nan() {
        "nan".to_string()
    } else if value.is_finite() && value.fract() == 0.0 && value.abs() < 1e15 {
        format!("{}", value as i64)
    } else {
        format!("{}", value)
    }
}

fn total(modifier: Modifier, texts: &[String]) -> String {
    let xs: Vec<f64> = texts.iter().map(|t| t.parse::<f64>().unwrap()).collect();
    show(match modifier {
        Modifier::Sum => xs.iter().sum(),
        Modifier::Avg => {
            if xs.is_empty() {
                f64::NAN
            } else {
                xs.iter().sum::<f64>() / xs.len() as f64
            }
        }
        Modifier::Min => xs.iter().cloned().fold(f64::INFINITY, f64::min),
        Modifier::Max => xs.iter().cloned().fold(f64::NEG_INFINITY, f64::max),
        _ => panic!("no aggregate"),
    })
}

fn answer(error: EngineError, known: &mut Readings) -> Option<EngineError> {
    match error {
        EngineError::NumbersNeeded { texts } => {
            assert!(!texts.is_empty());
            for text in texts {
                let bits = text.parse::<f64>().unwrap().to_bits();
                known.add_number(text, Number::from_bits(bits));
            }
            None
        }
        EngineError::TotalNeeded { modifier, texts } => {
            let outcome = total(modifier, &texts);
            known.add_total(modifier, texts, outcome);
            None
        }
        other => Some(other),
    }
}

fn run_all(xml: &[u8], p: &str) -> Result<Vec<Item>, EngineError> {
    let prog = path::compile(p).unwrap();
    let mut known = Readings::new();
    loop {
        match run_with_readings(&prog, xml, &known) {
            Ok(items) => return Ok(items),
            Err(error) => {
                if let Some(error) = answer(error, &mut known) {
                    return Err(error);
                }
            }
        }
    }
}

fn texts(items: &[Item]) -> Vec<String> {
    items.iter().map(|it| String::from_utf8_lossy(&item_text(it)).into_owned()).collect()
}

fn run_path(xml: &[u8], p: &str) -> Vec<String> {
    texts(&run_all(xml, p).expect("run should succeed"))
}

fn run_path_err(xml: &[u8], p: &str) -> EngineError {
    run_all(xml, p).expect_err("run should error")
}

const BOOKS: &[u8] = br#"<store>
  <book id="b1"><title>XML in a Nutshell</title><price>30</price></book>
  <book id="b2"><title>The Cathedral and the Bazaar</title><price>20</price></book>
  <book id="b3"><title>Programming Rust</title><price>45</price></book>
</store>"#;

#[test]
fn auto_terminal_collects_all_matches() {
    let prog = path::compile("store.book").unwrap();
    let items = run(&prog, BOOKS).unwrap();
    assert_eq!(items.len(), 3);
}

#[test]
fn auto_single_match_descends() {
    let xml = br#"<store><magazine><title>L</title></magazine></store>"#;
    assert_eq!(run_path(xml, "store.magazine.title"), vec!["L"]);
}

#[test]
fn auto_multi_with_rest_errors() {
    let err = run_path_err(BOOKS, "store.book.title");
    match err {
        EngineError::AmbiguousMatch { name } => assert_eq!(name, "book"),
        _ => unreachable!("no other error"),
    }
}

#[test]
fn auto_multi_attr_terminal_errors() {
    let err = run_path_err(BOOKS, "store.book.@id");
    match err {
        EngineError::AmbiguousMatch { name } => assert_eq!(name, "book"),
        _ => unreachable!("no other error"),
    }
}

#[test]
fn auto_zero_matches_with_rest_is_empty() {
    assert!(run_path(BOOKS, "store.cd.title").is_empty());
}

#[test]
fn engine_indexed() {
    assert_eq!(run_path(BOOKS, "store.book.1.title"), vec!["The Cathedral and the Bazaar"]);
    assert_eq!(run_path(BOOKS, "store.book.2.@id"), vec!["b3"]);
}

#[test]
fn count() {
    assert_eq!(run_path(BOOKS, "store.book.#"), vec!["3"]);
}

#[test]
fn engine_each_projection() {
    assert_eq!(
        run_path(BOOKS, "store.book.#.title"),
        vec!["XML in a Nutshell", "The Cathedral and the Bazaar", "Programming Rust"]
    );
}

#[test]
fn each_attr() {
    assert_eq!(run_path(BOOKS, "store.book.#.@id"), vec!["b1", "b2", "b3"]);
}

#[test]
fn missing_returns_empty() {
    assert!(run_path(BOOKS, "store.cd.title").is_empty());
    assert!(run_path(BOOKS, "store.book.99.title").is_empty());
}

#[test]
fn wildcard_name() {
    assert_eq!(run_path(BOOKS, "store.b*k.0.title"), vec!["XML in a Nutshell"]);
}

#[test]
fn empty_element() {
    let xml = br#"<root><a id="x"/></root>"#;
    assert_eq!(run_path(xml, "root.a.@id"), vec!["x"]);
    assert_eq!(run_path(xml, "root.a"), vec![""]);
}

#[test]
fn cdata_and_entities() {
    let xml = br#"<root><a>foo &amp; bar</a><b><![CDATA[<raw>]]></b></root>"#;
    assert_eq!(run_path(xml, "root.a"), vec!["foo & bar"]);
    assert_eq!(run_path(xml, "root.b"), vec!["<raw>"]);
}

#[test]
fn explicit_text_terminal() {
    assert_eq!(run_path(BOOKS, "store.book.0.#text"), vec!["XML in a Nutshell30"]);
}

#[test]
fn filter_first_numeric_gt() {
    assert_eq!(run_path(BOOKS, "store.book.#(price>25).title"), vec!["XML in a Nutshell"]);
}

#[test]
fn filter_first_numeric_le() {
    assert_eq!(
        run_path(BOOKS, "store.book.#(price<=20).title"),
        vec!["The Cathedral and the Bazaar"]
    );
}

#[test]
fn filter_all_numeric() {
    assert_eq!(
        run_path(BOOKS, "store.book.#(price>=30)#.title"),
        vec!["XML in a Nutshell", "Programming Rust"]
    );
}

#[test]
fn filter_string_eq() {
    assert_eq!(
        run_path(BOOKS, "store.book.#(@id==\"b2\").title"),
        vec!["The Cathedral and the Bazaar"]
    );
}

#[test]
fn filter_string_ne() {
    let r = run_path(BOOKS, "store.book.#(@id!=\"b1\")#.title");
    assert_eq!(r, vec!["The Cathedral and the Bazaar", "Programming Rust"]);
}

#[test]
fn filter_glob_pattern() {
    assert_eq!(run_path(BOOKS, "store.book.#(title%\"Programming*\").@id"), vec!["b3"]);
}

#[test]
fn filter_no_match() {
    assert!(run_path(BOOKS, "store.book.#(price>9999).title").is_empty());
}

#[test]
fn engine_modifier_reverse() {
    assert_eq!(
        run_path(BOOKS, "store.book.#.title|@reverse"),
        vec!["Programming Rust", "The Cathedral and the Bazaar", "XML in a Nutshell"]
    );
}

#[test]
fn modifier_first() {
    assert_eq!(run_path(BOOKS, "store.book.#.title|@first"), vec!["XML in a Nutshell"]);
}

#[test]
fn modifier_last() {
    assert_eq!(run_path(BOOKS, "store.book.#.title|@last"), vec!["Programming Rust"]);
}

#[test]
fn modifier_count() {
    assert_eq!(run_path(BOOKS, "store.book.#.title|@count"), vec!["3"]);
}

#[test]
fn modifier_chain() {
    assert_eq!(run_path(BOOKS, "store.book.#.title|@reverse|@first"), vec!["Programming Rust"]);
}

#[test]
fn element_terminal_captures_fragment() {
    let prog = path::compile("store.book.0").unwrap();
    let items = run(&prog, BOOKS).unwrap();
    assert_eq!(items.len(), 1);
    match &items[0] {
        Item::Element(frag) => {
            let s = std::str::from_utf8(frag).unwrap();
            assert!(s.starts_with("<book id=\"b1\">"));
            assert!(s.ends_with("</book>"));
            assert!(s.contains("<title>XML in a Nutshell</title>"));
        }
        _ => panic!("expected Element"),
    }
}

#[test]
fn empty_element_terminal_captures_fragment() {
    let xml = br#"<root><a id="x"/></root>"#;
    let prog = path::compile("root.a").unwrap();
    let items = run(&prog, xml).unwrap();
    assert_eq!(items.len(), 1);
    match &items[0] {
        Item::Element(frag) => {
            assert_eq!(std::str::from_utf8(frag).unwrap(), "<a id=\"x\"/>");
        }
        _ => panic!("expected Element"),
    }
}

#[test]
fn attribute_terminal_emits_scalar() {
    let prog = path::compile("store.book.0.@id").unwrap();
    let items = run(&prog, BOOKS).unwrap();
    assert_eq!(items.len(), 1);
    assert!(matches!(items[0], Item::Scalar(_)));
}

const NESTED: &[u8] = br#"<root>
        <a><b><c><x>shallow</x></c></b></a>
        <m><n><o><p><x>deep</x></p></o></n></m>
        <q><x>direct</x></q>
    </root>"#;

#[test]
fn descendant_collects_all_matches() {
    assert_eq!(run_path(NESTED, "root.**.x"), vec!["shallow", "deep", "direct"]);
}

#[test]
fn descendant_with_no_match_is_empty() {
    assert!(run_path(NESTED, "root.**.zzz").is_empty());
}

#[test]
fn descendant_collects_when_nested() {
    let xml = br#"<root><wrap><wrap><target>found</target></wrap></wrap></root>"#;
    assert_eq!(run_path(xml, "root.**.target"), vec!["found"]);
}

#[test]
fn descendant_then_attribute_terminal() {
    let xml = br#"<root><a><b><c id="X"/></b></a></root>"#;
    assert_eq!(run_path(xml, "root.**.c.@id"), vec!["X"]);
}

#[test]
fn descendant_then_attribute_each() {
    let xml = br#"<root><a><c id="X"/></a><b><c id="Y"/></b></root>"#;
    assert_eq!(run_path(xml, "root.**.c.@id"), vec!["X", "Y"]);
}

#[test]
fn ambiguity_in_words() {
    assert_eq!(
        run_path_err(BOOKS, "store.book.title").message(),
        "path is ambiguous: book matches multiple elements but the path continues; specify .N (single) or .# (each)"
    );
}

#[test]
fn numbers_are_asked_for() {
    let prog = path::compile("store.book.#(price>25)#.title").unwrap();
    match run(&prog, BOOKS) {
        Err(EngineError::NumbersNeeded { texts }) => {
            assert_eq!(texts, vec!["30", "25", "20", "25", "45", "25"]);
        }
        _ => panic!("expected a question"),
    }
    let mut known = Readings::new();
    known.add_number("30".to_string(), Number::from_bits(30.0f64.to_bits()));
    known.add_number("25".to_string(), Number::from_bits(25.0f64.to_bits()));
    match run_with_readings(&prog, BOOKS, &known) {
        Err(EngineError::NumbersNeeded { texts }) => assert_eq!(texts, vec!["20", "45"]),
        _ => panic!("expected a question"),
    }
    known.add_number("20".to_string(), Number::from_bits(20.0f64.to_bits()));
    known.add_number("45".to_string(), Number::from_bits(45.0f64.to_bits()));
    let items = run_with_readings(&prog, BOOKS, &known).unwrap();
    assert_eq!(texts(&items), vec!["XML in a Nutshell", "Programming Rust"]);
}

#[test]
fn question_comes_before_ambiguity() {
    let xml = br#"<s><a><n>1</n></a></s><s><a><n>2</n></a></s>"#;
    let prog = path::compile("s.a.#(n>0).n").unwrap();
    assert!(matches!(run(&prog, xml), Err(EngineError::NumbersNeeded { .. })));
    assert!(matches!(run_path_err(xml, "s.a.#(n>0).n"), EngineError::AmbiguousMatch { name } if name == "s"));
    assert!(matches!(run_path_err(xml, "s.a.#(n>0)#.n"), EngineError::AmbiguousMatch { name } if name == "s"));
}

#[test]
fn questions_in_words() {
    let prog = path::compile("store.book.#(price>25)#.title").unwrap();
    assert_eq!(
        run(&prog, BOOKS).expect_err("asks").message(),
        "the path compares numbers that are not known"
    );
    let prog = path::compile("store.book.#.price|@sum").unwrap();
    assert_eq!(
        run(&prog, BOOKS).expect_err("asks").message(),
        "the path collapses numbers that are not known"
    );
}

#[test]
fn filters_by_attribute_and_child() {
    assert_eq!(run_path(BOOKS, "store.book.#(price!=30)#.@id"), vec!["b2", "b3"]);
    assert_eq!(run_path(BOOKS, "store.book.#(price==2e1).@id"), vec!["b2"]);
    assert_eq!(run_path(BOOKS, "store.book.#(title!%\"*Rust\")#.@id"), vec!["b1", "b2"]);
    assert_eq!(run_path(BOOKS, "store.book.#(@id<\"b2\")#.@id"), Vec::<String>::new());
    assert_eq!(run_path(BOOKS, "store.book.#(missing==\"\")#.@id"), Vec::<String>::new());
    assert_eq!(run_path(BOOKS, "store.book.#(title.#text%\"XML*\")#.price"), vec!["30"]);
    let xml = br#"<r><a><ok>true</ok></a><a><ok>false</ok></a><a/></r>"#;
    assert_eq!(run_path(xml, "r.a.#(ok=true)#.ok"), vec!["true"]);
    assert_eq!(run_path(xml, "r.a.#(ok!=true)#.ok"), vec!["false"]);
    let xml = br#"<r><a n="1"/><a n="2"/><a n="3"/></r>"#;
    assert_eq!(run_path(xml, "r.a.#(@n>=2).@n"), vec!["2"]);
    assert_eq!(run_path(xml, "r.a.#(@n>=2)#.@n"), vec!["2", "3"]);
    assert_eq!(run_path(xml, "r.a.#(@n<=\" 2 \")#.@n"), vec!["1", "2"]);
}

#[test]
fn ambiguous_predicate_is_an_error() {
    let xml = br#"<r><a><b><c>1</c></b><b><c>2</c></b></a></r>"#;
    match run_path_err(xml, "r.a.#(b.c==\"1\")#") {
        EngineError::AmbiguousMatch { name } => assert_eq!(name, "b"),
        _ => panic!("expected ambiguity"),
    }
}

#[test]
fn counts_and_positions_agree() {
    let all = run_path(BOOKS, "store.book");
    assert_eq!(run_path(BOOKS, "store.book.#"), vec![all.len().to_string()]);
    for n in 0..4usize {
        let one = run_path(BOOKS, &format!("store.book.{}", n));
        let expected: Vec<String> = all.iter().skip(n).take(1).cloned().collect();
        assert_eq!(one, expected);
    }
    assert_eq!(run_path(BOOKS, "store.cd.#"), vec!["0"]);
}

#[test]
fn filter_first_is_the_first_of_filter_all() {
    let all = run_path(BOOKS, "store.book.#(price>=30)#");
    let first = run_path(BOOKS, "store.book.#(price>=30)");
    assert_eq!(all.len(), 2);
    assert_eq!(first, all[..1].to_vec());
}

#[test]
fn prefixes_match_by_local_name_or_in_full() {
    let xml = br#"<atom:feed><atom:entry a:id="1">x</atom:entry><rss:entry>y</rss:entry></atom:feed>"#;
    assert_eq!(run_path(xml, "feed.entry"), vec!["x", "y"]);
    assert_eq!(run_path(xml, "atom:feed.atom:entry"), vec!["x"]);
    assert_eq!(run_path(xml, "feed.atom:entry.@id"), vec!["1"]);
}

#[test]
fn attribute_values_are_resolved() {
    let xml = br#"<r><a t="x &lt; y" u="&bad;"/></r>"#;
    assert_eq!(run_path(xml, "r.a.@t"), vec!["x < y"]);
    assert_eq!(run_path(xml, "r.a.@u"), vec!["&bad;"]);
    assert_eq!(run_path(xml, "r.a.@v"), Vec::<String>::new());
}

#[test]
fn unresolved_text_is_left_out() {
    let xml = br#"<r><a>one &bad; two</a><a>three<b/>four</a></r>"#;
    assert_eq!(run_path(xml, "r.a"), vec!["", "threefour"]);
}

#[test]
fn text_and_attributes_at_the_top() {
    assert_eq!(run_path(BOOKS, "#text"), vec![""]);
    assert_eq!(run_path(BOOKS, "@id"), Vec::<String>::new());
}

#[test]
fn within_a_fragment_paths_start_inside() {
    let fragment = br#"<book id="b1"><title>T</title><price>30</price></book>"#;
    let get = |p: &str| texts(&run_within(&path::compile(p).unwrap(), fragment).unwrap());
    assert_eq!(get("title"), vec!["T"]);
    assert_eq!(get("@id"), vec!["b1"]);
    assert_eq!(get("#text"), vec!["T30"]);
    assert_eq!(get("book"), Vec::<String>::new());
    let known = Readings::new();
    let prog = path::compile("price").unwrap();
    assert_eq!(
        texts(&run_within_with_readings(&prog, b"<e a='1'/>", &known).unwrap()),
        Vec::<String>::new()
    );
    let prog = path::compile("@a").unwrap();
    assert_eq!(texts(&run_within(&prog, b"<e a='1'/>").unwrap()), vec!["1"]);
}

#[test]
fn well_formed_documents() {
    assert!(validate(BOOKS));
    assert!(validate(b"<a/>"));
    assert!(validate(b"<?xml version='1.0'?><!-- c --><a>t<b/></a>\n"));
    assert!(!validate(b""));
    assert!(!validate(b"text"));
    assert!(!validate(b"<a>"));
    assert!(!validate(b"<a></b>"));
    assert!(!validate(b"</a>"));
    assert!(!validate(b"<a/><b/>"));
    assert!(!validate(b"<a></a><b></b>"));
    assert!(!validate(b"<a"));
}

#[test]
fn text_of_items() {
    assert_eq!(item_text(&Item::Scalar(b"<x>".to_vec())), b"<x>");
    assert_eq!(item_text(&Item::Text(b"t".to_vec())), b"t");
    assert_eq!(item_text(&Item::Element(b"<a>x<b>y</b></a>".to_vec())), b"xy");
    assert_eq!(item_text(&Item::ElementRef { start: 0, end: 9 }), b"");
    assert_eq!(extract_element_text(b"<a/>"), b"");
    assert_eq!(extract_element_text(b"no element"), b"");
    assert_eq!(extract_element_text(b"<a>x</a><b>y</b>"), b"x");
}

#[test]
fn malformed_tail_ends_the_scan() {
    assert_eq!(run_path(b"<a><b>1</b><c></a>", "a.b"), vec!["1"]);
    assert_eq!(run_path(b"<a><b>1</b></c><b>2</b></a>", "a.b"), vec!["1"]);
    assert_eq!(run_path(b"<a><b>1</b></c><b>2</b></a>", "a.b.#"), Vec::<String>::new());
}

const SHELF: &[u8] = br#"<s><b><t>one</t><p>10</p></b><b><t>two</t><p>20</p></b><b><t>three</t><p>30</p></b><b><t>four</t><p>n/a</p></b></s>"#;

fn titles(filter: &str) -> Vec<String> {
    run_path(SHELF, &format!("s.b.#({})#.t", filter))
}

#[test]
fn unequal_is_the_opposite_of_equal() {
    assert_eq!(titles("p==20"), ["two"]);
    assert_eq!(titles("p!=20"), ["one", "three", "four"]);
    assert_eq!(titles("t==\"one\""), ["one"]);
    assert_eq!(titles("t!=\"one\""), ["two", "three", "four"]);
}

#[test]
fn glob_mismatch_is_the_opposite_of_match() {
    assert_eq!(titles("t%\"t*\""), ["two", "three"]);
    assert_eq!(titles("t!%\"t*\""), ["one", "four"]);
    assert_eq!(titles("p%20"), Vec::<String>::new());
    assert_eq!(titles("p!%20"), Vec::<String>::new());
}

#[test]
fn numbers_are_below_the_same_or_above() {
    assert_eq!(titles("p<20"), ["one"]);
    assert_eq!(titles("p>20"), ["three"]);
    assert_eq!(titles("p<=20"), ["one", "two"]);
    assert_eq!(titles("p>=20"), ["two", "three"]);
    assert_eq!(titles("p<\"20\""), ["one"]);
    assert_eq!(titles("p<true"), Vec::<String>::new());
}

#[test]
fn matches_inside_matches_are_visited_behind_them() {
    let xml = b"<a><b>1<b>2</b></b><c><b>3</b></c></a>";
    assert_eq!(run_path(xml, "a.**.b"), ["12", "2", "3"]);
    let items = run_all(b"<a><b><b>x</b></b></a>", "a.**.b").unwrap();
    assert_eq!(items.len(), 2);
    assert!(matches!(&items[0], Item::Element(bytes) if bytes == b"<b><b>x</b></b>"));
    assert!(matches!(&items[1], Item::Element(bytes) if bytes == b"<b>x</b>"));
    let xml = b"<a><b><c>1</c><b><c>2</c><b/></b><c>3</c></b></a>";
    assert_eq!(run_path(xml, "a.**.b.c"), ["1", "3", "2"]);
    assert_eq!(run_path(xml, "a.**.b|@count"), ["3"]);
}

#[test]
fn a_second_match_is_ambiguous_whatever_comes_behind() {
    let xml = b"<a><b><c>1</c></b><b><c>2</c></b></a>";
    assert!(matches!(run_path_err(xml, "a.b.c.0"), EngineError::AmbiguousMatch { name } if name == "b"));
    assert!(matches!(run_path_err(xml, "a.b.c.#(#text==\"1\")"), EngineError::AmbiguousMatch { name } if name == "b"));
    let store = b"<store><book><title>A</title></book><book><title>B</title></book><book/></store>";
    assert!(matches!(run_path_err(store, "store.book.title.0"), EngineError::AmbiguousMatch { name } if name == "book"));
    assert!(matches!(run_path_err(xml, "a.b.c"), EngineError::AmbiguousMatch { name } if name == "b"));
    assert_eq!(run_path(xml, "a.#.b.0.c"), ["1"]);
}

#[test]
fn indices_and_projections_enter_their_matches() {
    let xml = b"<a><b><c>1</c></b><b><c>2</c><c>3</c></b><b/></a>";
    assert_eq!(run_path(xml, "a.b.1.c"), ["2", "3"]);
    assert_eq!(run_path(xml, "a.b.2.c"), Vec::<String>::new());
    assert_eq!(run_path(xml, "a.b.#.c"), ["1", "2", "3"]);
    assert_eq!(run_path(xml, "a.b.#.c.0"), ["1", "2"]);
}

#[test]
fn an_index_counts_in_each_parent() {
    let xml = b"<r><a><b>1</b><b>2</b></a><a><b>3</b></a></r>";
    let items = run_all(xml, "r.a.#.b.0").unwrap();
    assert_eq!(items.len(), 2);
    assert!(matches!(&items[0], Item::Element(bytes) if bytes == b"<b>1</b>"));
    assert!(matches!(&items[1], Item::Element(bytes) if bytes == b"<b>3</b>"));
    assert_eq!(run_path(xml, "r.a.#.b.1"), ["2"]);
}

#[test]
fn a_first_match_is_looked_for_in_each_parent() {
    let xml = b"<r><a><b k=\"1\">1</b><b k=\"1\">2</b></a><a><b k=\"2\">3</b><b k=\"1\">4</b></a></r>";
    assert_eq!(run_path(xml, "r.a.#.b.#(@k==\"1\")"), ["1", "4"]);
    assert_eq!(run_path(xml, "r.a.#.b.#(#text!=\"1\")"), ["2", "3"]);
}

#[test]
fn the_first_element_that_passes_is_the_only_one() {
    let xml = b"<r><b k=\"1\"></b><b k=\"1\"><t>x</t></b></r>";
    assert_eq!(run_all(xml, "r.b.#(@k==1).t").unwrap().len(), 0);
    assert_eq!(run_path(xml, "r.b.#(@k==1)#.t"), ["x"]);
    let xml = b"<r><b k=\"1\"/><b k=\"1\"><t>x</t></b></r>";
    assert_eq!(run_all(xml, "r.b.#(@k==1).t").unwrap().len(), 0);
}

#[test]
fn nothing_but_white_space_stands_outside_the_root() {
    assert!(!validate(b"<a/>junk"));
    assert!(!validate(b"junk<a/>"));
    assert!(!validate(b"<a></a>&#32;"));
    assert!(!validate(b"<a/><![CDATA[]]>"));
    assert!(validate(b" \t\r\n<a>text<![CDATA[x]]></a>\n"));
    assert!(validate(b"<?xml version=\"1.0\"?>\n<!-- c -->\n<a/>\n<!-- d -->"));
}

#[test]
fn ambiguous_names_are_told_as_written() {
    let xml = b"<r><a.b><c>1</c></a.b><a.b><c>2</c></a.b></r>";
    assert!(matches!(run_path_err(xml, "r.a\\.b.c"), EngineError::AmbiguousMatch { name } if name == "a\\.b"));
}

#[test]
fn or_equal_holds_with_no_number_that_is_none() {
    let shelf = b"<s><b><p>nan</p></b><b><p>2</p></b></s>";
    assert_eq!(run_path(shelf, "s.b.#(p<=nan)#.p"), Vec::<String>::new());
    assert_eq!(run_path(shelf, "s.b.#(p==nan)#.p"), Vec::<String>::new());
    assert_eq!(run_path(shelf, "s.b.#(p<=2)#.p"), ["2"]);
    assert_eq!(run_path(shelf, "s.b.#(p>=2)#.p"), ["2"]);
    assert_eq!(run_path(shelf, "s.b.#(p>=false)#.p"), Vec::<String>::new());
}

#[test]
fn descendants_of_descendants_are_selected_once() {
    let xml = b"<a><b><c>1</c><b><c>2<c>3</c></c></b></b><c>4</c></a>";
    assert_eq!(run_path(xml, "a.**.b.**.c"), ["1", "23", "3"]);
    assert_eq!(run_path(xml, "a.**.b.c"), ["1", "23"]);
    assert_eq!(run_path(xml, "a.**.c"), ["1", "23", "3", "4"]);
}

#[test]
fn an_element_that_is_reached_in_several_ways_is_selected_once() {
    let xml = b"<a><b><d><b><d><c id='7'>x</c></d></b></d></b></a>";
    assert_eq!(run_path(xml, "a.**.b.d.**.c"), ["x"]);
    assert_eq!(run_path(xml, "a.**.b.**.d.**.c"), ["x"]);
    assert_eq!(run_path(xml, "a.**.b.d.**.c.@id"), ["7"]);
    assert_eq!(run_path(xml, "a.**.b.d.**.c.#text"), ["x"]);
    assert_eq!(run_path(xml, "a.**.b.d.**.c|@count"), ["1"]);
    assert_eq!(run_path(b"<a><b><d><b><d><c/></d></b></d></b></a>", "a.**.b.d.**.c"), [""]);
}

#[test]
fn equal_elements_at_different_places_are_all_selected() {
    let xml = b"<a><b><c>x</c><b><c>x</c></b></b><b><c>x</c></b></a>";
    assert_eq!(run_path(xml, "a.**.b.**.c"), ["x", "x", "x"]);
    assert_eq!(run_path(xml, "a.**.b.c"), ["x", "x", "x"]);
}

#[test]
fn an_element_inside_several_tested_elements_is_selected_once() {
    let xml = b"<a><b><d k='u'><n>y</n><b><d k='u'><n>y</n><c>x</c></d></b></d></b></a>";
    assert_eq!(run_path(xml, "a.**.b.d.#(@k==\"u\")#.**.c"), ["x"]);
    assert_eq!(run_path(xml, "a.**.b.d.#(n==\"y\")#.**.c"), ["x"]);
    assert_eq!(run_path(xml, "a.**.b.d.#(n==\"y\").**.c"), ["x"]);
    assert_eq!(run_path(xml, "a.**.b.d.#(n==\"z\")#.**.c"), Vec::<String>::new());
}

#[test]
fn end_tags_carry_the_names_of_their_start_tags() {
    assert!(validate(b"<a><b><c/></b><b></b></a>"));
    assert!(!validate(b"<a><b></a></b>"));
    assert!(!validate(b"<a><b></c></a>"));
    assert!(!validate(b"<a><b></b></b></a>"));
}
