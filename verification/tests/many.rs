use pygxml::engine::{run, run_with_readings, run_within, EngineError};
use pygxml::item::{item_text, Item};
use pygxml::many::{
    run_many, run_many_with_readings, run_many_within, run_many_within_with_readings,
};
use pygxml::number::{Number, Readings};
use pygxml::path::{compile, Program};

const STORE: &[u8] = br#"<store>
  <book id="b1"><title>A</title><price>30</price></book>
  <book id="b2"><title>B</title><price>20</price></book>
  <book id="b3"><title>C</title><price>45</price></book>
  <empty/>
</store>"#;

fn texts(items: &[Item]) -> Vec<String> {
    items.iter().map(|it| String::from_utf8(item_text(it)).unwrap()).collect()
}

fn programs(paths: &[&str]) -> Vec<Program> {
    paths.iter().map(|p| compile(p).unwrap()).collect()
}

fn many(xml: &[u8], paths: &[&str]) -> Vec<Vec<String>> {
    let programs = programs(paths);
    let refs: Vec<&Program> = programs.iter().collect();
    run_many(&refs, xml, false).unwrap().iter().map(|items| texts(items)).collect()
}

fn prices() -> Readings {
    let mut known = Readings::new();
    for text in ["30", "20", "45", "25"] {
        let bits = text.parse::<f64>().unwrap().to_bits();
        known.add_number(text.to_string(), Number::from_bits(bits));
    }
    known
}

#[test]
fn one_pass_gives_each_path_its_own_result() {
    let found = many(
        STORE,
        &["store.book.0.title", "store.book.1.@id", "store.book.#", "store.book.#.title", "store.none"],
    );
    assert_eq!(
        found,
        [vec!["A"], vec!["b2"], vec!["3"], vec!["A", "B", "C"], vec![]]
    );
}

#[test]
fn together_as_alone() {
    let paths = [
        "store.book",
        "store.book.1",
        "store.book.2.price",
        "store.book.#",
        "store.book.#.@id",
        "store.**.price",
        "store.empty",
        "store.b*",
        "store.book|@count",
        "store.book.7",
        "@id",
        "#text",
        "store.book.0.#text",
        "store.book.#.price.#text",
        "store.empty.#text",
        "store.**.book.title",
        "store.book.#(title==\"B\").title",
        "store.book.#(title!=\"B\")#.title",
        "store.book.#(none!=5)#.title",
        "store.book.#(title==\"C\").title.0",
        "store.book.#(title==\"C\").title.#",
        "store.book.#(@id!=\"b1\")#.@id",
        "store.book.#(@id!=\"b1\")",
    ];
    let found = many(STORE, &paths);
    for (k, path) in paths.iter().enumerate() {
        let alone = run(&compile(path).unwrap(), STORE).unwrap();
        assert_eq!(found[k], texts(&alone), "{}", path);
    }
}

#[test]
fn elements_are_captured_whole() {
    let programs = programs(&["store.book.1"]);
    let refs: Vec<&Program> = programs.iter().collect();
    let lists = run_many(&refs, STORE, false).unwrap();
    match &lists[0][0] {
        Item::Element(bytes) => {
            assert_eq!(bytes, br#"<book id="b2"><title>B</title><price>20</price></book>"#)
        }
        _ => panic!("an element was selected"),
    }
}

#[test]
fn elements_of_a_document_that_stays_are_given_by_their_place() {
    let programs = programs(&["store.book.1", "store.empty", "store.book.1.@id"]);
    let refs: Vec<&Program> = programs.iter().collect();
    let lists = run_many(&refs, STORE, true).unwrap();
    match lists[0][0] {
        Item::ElementRef { start, end } => assert_eq!(
            &STORE[start as usize..end as usize],
            br#"<book id="b2"><title>B</title><price>20</price></book>"#
        ),
        _ => panic!("a place was expected"),
    }
    assert!(matches!(&lists[1][0], Item::Element(bytes) if bytes == b"<empty/>"));
    assert!(matches!(&lists[2][0], Item::Scalar(bytes) if bytes == b"b2"));
}

#[test]
fn texts_are_enough_for_modifiers() {
    let found = many(STORE, &["store.book.#.title|@reverse", "store.book|@count", "store.book.#.price|@sort"]);
    assert_eq!(found, [vec!["C", "B", "A"], vec!["3"], vec!["20", "30", "45"]]);
}

#[test]
fn captured_text_is_a_text_item() {
    let programs = programs(&["store.book.#.title|@reverse"]);
    let refs: Vec<&Program> = programs.iter().collect();
    let lists = run_many(&refs, STORE, false).unwrap();
    assert!(matches!(&lists[0][0], Item::Text(bytes) if bytes == b"C"));
}

#[test]
fn one_ambiguous_path_fails_all() {
    let programs = programs(&["store.book.#", "store.book.title"]);
    let refs: Vec<&Program> = programs.iter().collect();
    match run_many(&refs, STORE, false) {
        Err(EngineError::AmbiguousMatch { name }) => assert_eq!(name, "book"),
        _ => panic!("book occurs several times"),
    }
}

#[test]
fn single_matches_raise_no_ambiguity() {
    let xml = b"<a><b><c>1</c></b><d>2</d></a>";
    assert_eq!(many(xml, &["a.b.c", "a.d"]), [vec!["1"], vec!["2"]]);
}

#[test]
fn filters_select_in_one_pass() {
    let programs = programs(&[
        "store.book.#(price>25)#.title",
        "store.book.#(@id==\"b2\").title",
        "store.book.#(price>25)",
    ]);
    let refs: Vec<&Program> = programs.iter().collect();
    let lists = run_many_with_readings(&refs, STORE, false, &prices()).unwrap();
    assert_eq!(texts(&lists[0]), ["A", "C"]);
    assert_eq!(texts(&lists[1]), ["B"]);
    let alone = run_with_readings(&programs[2], STORE, &prices()).unwrap();
    assert_eq!(texts(&lists[2]), texts(&alone));
    assert_eq!(texts(&lists[2]), ["A30"]);
}

#[test]
fn filters_ask_for_all_numbers_at_once() {
    let programs = programs(&["store.book.#(price>25)#.title"]);
    let refs: Vec<&Program> = programs.iter().collect();
    match run_many(&refs, STORE, false) {
        Err(EngineError::NumbersNeeded { texts }) => {
            assert_eq!(texts, ["30", "25", "20", "25", "45", "25"])
        }
        _ => panic!("no number is known"),
    }
}

#[test]
fn more_numbers_change_no_result() {
    let program = compile("store.book.#(price>25)#.title").unwrap();
    let mut known = prices();
    let before = texts(&run_with_readings(&program, STORE, &known).unwrap());
    known.add_number("99".to_string(), Number::from_bits(99f64.to_bits()));
    assert_eq!(texts(&run_with_readings(&program, STORE, &known).unwrap()), before);
}

#[test]
fn inside_a_fragment_paths_start_at_its_children() {
    let fragment = br#"<book id="b1"><title>A</title><price>30</price><note/></book>"#;
    let paths = ["@id", "title", "price", "note", "none"];
    let programs = programs(&paths);
    let refs: Vec<&Program> = programs.iter().collect();
    let lists = run_many_within(&refs, fragment).unwrap();
    for (k, program) in programs.iter().enumerate() {
        assert_eq!(texts(&lists[k]), texts(&run_within(program, fragment).unwrap()), "{}", paths[k]);
    }
    assert_eq!(texts(&lists[0]), ["b1"]);
    assert_eq!(texts(&lists[1]), ["A"]);
}

#[test]
fn inside_an_empty_fragment_there_are_attributes_only() {
    let programs = programs(&["@id", "title"]);
    let refs: Vec<&Program> = programs.iter().collect();
    let lists = run_many_within(&refs, b"<book id=\"b9\"/>").unwrap();
    assert_eq!(texts(&lists[0]), ["b9"]);
    assert_eq!(texts(&lists[1]), Vec::<String>::new());
}

#[test]
fn filters_inside_a_fragment() {
    let programs = programs(&["book.#(price<25).title"]);
    let refs: Vec<&Program> = programs.iter().collect();
    let lists = run_many_within_with_readings(&refs, STORE, &prices()).unwrap();
    assert_eq!(texts(&lists[0]), ["B"]);
}

#[test]
fn no_programs_give_no_lists() {
    assert_eq!(run_many(&[], STORE, false).unwrap().len(), 0);
    assert_eq!(run_many_within(&[], STORE).unwrap().len(), 0);
}

#[test]
fn descendants_of_two_programs_are_kept_apart() {
    let xml = b"<a><b><c>1</c></b><x><b><c>2</c><d>3</d></b></x></a>";
    assert_eq!(many(xml, &["a.**.c", "a.**.b.d", "a.x.b.d"]), [vec!["1", "2"], vec!["3"], vec!["3"]]);
}

#[test]
fn text_is_selected_in_one_pass() {
    assert_eq!(many(b"<a>x<b>y</b></a>", &["a.#text", "a.b.#text"]), [vec!["xy"], vec!["y"]]);
    assert_eq!(many(b"<a/>", &["#text", "a.#text"]), [vec![""], vec![""]]);
    let programs = programs(&["#text", "b.#text"]);
    let refs: Vec<&Program> = programs.iter().collect();
    let lists = run_many_within(&refs, b"<a>x<b>y</b></a>").unwrap();
    assert_eq!(texts(&lists[0]), ["xy"]);
    assert_eq!(texts(&lists[1]), ["y"]);
    let lists = run_many_within(&refs, b"<a/>").unwrap();
    assert_eq!(texts(&lists[0]), [""]);
    assert_eq!(texts(&lists[1]), Vec::<String>::new());
}

#[test]
fn the_tested_child_can_be_selected() {
    let xml = b"<r><b><t>x</t></b><b><t>y</t><t/></b></r>";
    let programs = programs(&["r.b.#(t==\"x\").t", "r.b.#(t==\"y\")#.t", "r.b.#(t==\"y\")#.t.1"]);
    let refs: Vec<&Program> = programs.iter().collect();
    let lists = run_many(&refs, xml, false).unwrap();
    assert_eq!(lists[0].len(), 1);
    assert!(matches!(&lists[0][0], Item::Element(bytes) if bytes == b"<t>x</t>"));
    assert_eq!(texts(&lists[1]), ["y", ""]);
    assert_eq!(texts(&lists[2]), [""]);
    let found = many(xml, &["r.b.#(t!=\"z\")#.t|@reverse", "r.b.#(t!=\"z\")#.t|@count"]);
    assert_eq!(found, [vec!["", "y", "x"], vec!["3"]]);
}

#[test]
fn a_missing_child_passes_no_test() {
    let xml = b"<r><b><t>x</t></b></r>";
    assert_eq!(
        many(xml, &["r.b.#(price!=5).t", "r.b.#(price!=5)#.t", "r.b.#(price==\"\").t"]),
        [Vec::<String>::new(), vec![], vec![]]
    );
}

#[test]
fn empty_elements_can_be_ambiguous() {
    let xml = b"<a id=\"1\"/><a id=\"2\"/>";
    let programs = programs(&["a.@id"]);
    let refs: Vec<&Program> = programs.iter().collect();
    match run_many(&refs, xml, false) {
        Err(EngineError::AmbiguousMatch { name }) => assert_eq!(name, "a"),
        _ => panic!("there are two"),
    }
    for xml in [&b"<r><a><b>1</b></a><a/></r>"[..], &b"<r><a/><a><b>1</b></a></r>"[..]] {
        let program = compile("r.a.b").unwrap();
        assert!(matches!(run(&program, xml), Err(EngineError::AmbiguousMatch { .. })));
        assert!(matches!(run_many(&[&program], xml, false), Err(EngineError::AmbiguousMatch { .. })));
    }
}

#[test]
fn nested_matches_come_in_the_same_order() {
    let xml = b"<a><b>1<b>2<c>3</c></b><c>4</c></b><b/></a>";
    let paths = ["a.**.b", "a.**.b.c", "a.**.c", "a.b.#", "a.**.b.**.c"];
    let found = many(xml, &paths);
    for (k, path) in paths.iter().enumerate() {
        assert_eq!(found[k], texts(&run(&compile(path).unwrap(), xml).unwrap()), "{}", path);
    }
    assert_eq!(found[0], ["1234", "23", ""]);
    assert_eq!(found[1], ["4", "3"]);
}

#[test]
fn places_stand_for_the_elements() {
    let programs = programs(&["store.book", "store.book.1", "store.**.title", "store.empty", "store.book.#"]);
    let refs: Vec<&Program> = programs.iter().collect();
    let with = run_many(&refs, STORE, true).unwrap();
    let without = run_many(&refs, STORE, false).unwrap();
    assert!(matches!(&with[0][0], Item::ElementRef { .. }));
    assert!(with[2].iter().all(|item| matches!(item, Item::ElementRef { .. })));
    for (a, b) in with.iter().zip(&without) {
        assert_eq!(a.len(), b.len());
        for (x, y) in a.iter().zip(b) {
            assert!(!matches!(y, Item::ElementRef { .. }));
            match (x, y) {
                (Item::ElementRef { start, end }, Item::Element(bytes)) => {
                    assert_eq!(&STORE[*start as usize..*end as usize], bytes.as_slice())
                }
                _ => assert_eq!(item_text(x), item_text(y)),
            }
        }
    }
}

#[test]
fn a_pass_fails_only_where_a_path_fails_alone() {
    for xml in [STORE, &b"<store><book id=\"x\"/></store>"[..], &b"<store/><store/>"[..]] {
        for path in ["store.book.title", "store.book.@id", "store.book.0.title", "store.**.title", "store.#.book"] {
            let program = compile(path).unwrap();
            let other = compile("none").unwrap();
            let alone = run(&program, xml);
            let both = run_many(&[&other, &program], xml, false);
            match (alone, both) {
                (Ok(items), Ok(lists)) => assert_eq!(texts(&items), texts(&lists[1]), "{}", path),
                (Err(_), Err(_)) => {}
                _ => panic!("{}", path),
            }
        }
    }
}

#[test]
fn texts_are_captured_at_any_depth() {
    let xml = b"<a><b>1<b>2</b></b></a>";
    let programs = programs(&["a.**.b|@reverse", "a.**.b|@count", "a.**.b.b|@sort"]);
    let refs: Vec<&Program> = programs.iter().collect();
    let lists = run_many(&refs, xml, true).unwrap();
    assert!(matches!(&lists[0][0], Item::Text(bytes) if bytes == b"2"));
    assert_eq!(texts(&lists[0]), ["2", "12"]);
    assert_eq!(texts(&lists[1]), ["2"]);
    assert_eq!(texts(&lists[2]), ["2"]);
}

#[test]
fn an_element_that_is_reached_in_several_ways_is_selected_once_together() {
    let xml = b"<a><b><d><n>y</n><b><d><n>y</n><c id='7'>x</c></d></b></d></b></a>";
    let paths = [
        "a.**.b.d.**.c",
        "a.**.b.**.c",
        "a.**.b.d.**.c.@id",
        "a.**.b.d.**.c.#text",
        "a.**.b.d.**.c|@count",
        "a.**.b.d.#(n==\"y\")#.**.c",
        "a.**.b.d.**.b.d.#",
    ];
    let found = many(xml, &paths);
    for (path, items) in paths.iter().zip(&found).take(6) {
        assert_eq!(items.len(), 1, "{}", path);
    }
    assert_eq!(found[0], ["x"]);
    assert_eq!(found[2], ["7"]);
    assert_eq!(found[4], ["1"]);
    for (path, items) in paths.iter().zip(&found) {
        assert_eq!(*items, texts(&run(&compile(path).unwrap(), xml).unwrap()), "{}", path);
    }
    let programs = programs(&paths[..2]);
    let refs: Vec<&Program> = programs.iter().collect();
    let start = xml.windows(3).position(|w| w == b"<c ").unwrap() as u32;
    for items in run_many(&refs, xml, true).unwrap() {
        assert_eq!(items.len(), 1);
        assert!(matches!(&items[0], Item::ElementRef { start: s, .. } if *s == start));
    }
}
