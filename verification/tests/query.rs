use pygxml::engine::EngineError;
use pygxml::item::{item_text, Item};
use pygxml::number::{Number, Readings};
use pygxml::path::{compile, ParseError, Program};
use pygxml::query::{get, get_in, get_many, get_many_in, PathCache, QueryError, PATH_CACHE_CAP};
use pygxml::result::{to_str, Held};

const XML: &[u8] = br#"<store>
  <book id="b1"><title>XML in a Nutshell</title><price>30</price></book>
  <book id="b2"><title>The Cathedral and the Bazaar</title><price>20</price></book>
  <book id="b3"><title>Programming Rust</title><price>45</price></book>
</store>"#;

fn texts(items: &[Item]) -> Vec<String> {
    items.iter().map(|it| String::from_utf8(item_text(it)).unwrap()).collect()
}

fn found(path: &str) -> Vec<String> {
    let mut cache = PathCache::new();
    let mut known = Readings::new();
    loop {
        match get(XML, path, &mut cache, &known) {
            Ok(items) => return texts(&items),
            Err(QueryError::Engine(EngineError::NumbersNeeded { texts })) => {
                for text in texts {
                    let bits = text.parse::<f64>().unwrap().to_bits();
                    known.add_number(text, Number::from_bits(bits));
                }
            }
            Err(_) => panic!("{} selects something", path),
        }
    }
}

#[test]
fn single_queries() {
    assert_eq!(found("store.book").len(), 3);
    assert_eq!(found("store.book.0.title"), ["XML in a Nutshell"]);
    assert_eq!(found("store.book.1.@id"), ["b2"]);
    assert_eq!(found("store.book.#"), ["3"]);
    assert_eq!(found("store.book.#.title").len(), 3);
    assert_eq!(found("store.book.#(price>=30).title"), ["XML in a Nutshell"]);
    assert_eq!(
        found("store.book.#(price>=30)#.title"),
        ["XML in a Nutshell", "Programming Rust"]
    );
    assert_eq!(found("store.book.#(@id==\"b2\").title"), ["The Cathedral and the Bazaar"]);
    assert_eq!(found("store.book.#.title|@count"), ["3"]);
    assert_eq!(found(""), Vec::<String>::new());
}

#[test]
fn errors_of_queries() {
    let mut cache = PathCache::new();
    let known = Readings::new();
    match get(XML, "store.book.title", &mut cache, &known) {
        Err(QueryError::Engine(EngineError::AmbiguousMatch { name })) => assert_eq!(name, "book"),
        _ => panic!("book occurs several times"),
    }
    match get(XML, "store.@id.x", &mut cache, &known) {
        Err(QueryError::Path(error)) => {
            assert!(matches!(error.kind, ParseError::AttributeNotTerminal));
            assert_eq!(error.path, "store.@id.x");
        }
        _ => panic!("an attribute has nothing behind it"),
    }
}

#[test]
fn queries_into_results() {
    let mut cache = PathCache::new();
    let known = Readings::new();
    let books = get(XML, "store.book.0", &mut cache, &known).unwrap();
    let bytes = match &books[0] {
        Item::Element(bytes) => bytes.clone(),
        _ => panic!("a book is an element"),
    };
    let book = [Held::Fragment(&bytes)];
    let inside = |path: &str| texts(&get_in(&book, path, &mut PathCache::new(), &known).unwrap());
    assert_eq!(inside("title"), ["XML in a Nutshell"]);
    assert_eq!(inside("@id"), ["b1"]);
    assert_eq!(inside("price"), ["30"]);
    assert_eq!(inside(""), Vec::<String>::new());
    assert_eq!(to_str(&book).unwrap(), String::from_utf8(bytes.clone()).unwrap());
}

#[test]
fn held_documents_answer_as_documents() {
    let known = Readings::new();
    for path in ["store.book.0.title", "store.book", "store.book.#", "none", ""] {
        let held = get_in(&[Held::Document(XML)], path, &mut PathCache::new(), &known).unwrap();
        let direct = get(XML, path, &mut PathCache::new(), &known).unwrap();
        assert_eq!(texts(&held), texts(&direct), "{}", path);
    }
}

#[test]
fn nothing_is_inside_scalars_and_empty_results() {
    let mut cache = PathCache::new();
    let known = Readings::new();
    assert_eq!(get_in(&[Held::Scalar(XML)], "store.book", &mut cache, &known).unwrap().len(), 0);
    assert_eq!(get_in(&[], "store.book", &mut cache, &known).unwrap().len(), 0);
    assert!(matches!(get_in(&[], "a..|", &mut cache, &known), Err(QueryError::Path(_))));
}

#[test]
fn several_entries_have_to_be_picked_from() {
    let mut cache = PathCache::new();
    let known = Readings::new();
    let two = [Held::Fragment(b"<a/>"), Held::Fragment(b"<b/>")];
    assert!(matches!(get_in(&two, "x", &mut cache, &known), Err(QueryError::Several)));
    assert!(matches!(get_many_in(&two, &[], &known), Err(QueryError::Several)));
}

#[test]
fn many_paths_leave_empty_ones_out() {
    let known = Readings::new();
    let title = compile("store.book.0.title").unwrap();
    let price = compile("store.book.0.price").unwrap();
    let programs: [Option<&Program>; 4] = [Some(&title), None, Some(&price), None];
    let lists = get_many(XML, &programs, false, &known).unwrap();
    let shown: Vec<Vec<String>> = lists.iter().map(|items| texts(items)).collect();
    assert_eq!(shown, [vec!["XML in a Nutshell"], vec![], vec!["30"], vec![]]);
}

#[test]
fn many_paths_into_a_result() {
    let known = Readings::new();
    let id = compile("@id").unwrap();
    let x = compile("x").unwrap();
    let programs: [Option<&Program>; 3] = [Some(&id), None, Some(&x)];
    let shown = |items: &[Held]| -> Vec<Vec<String>> {
        get_many_in(items, &programs, &known).unwrap().iter().map(|l| texts(l)).collect()
    };
    assert_eq!(shown(&[Held::Fragment(b"<a id=\"7\"><x>1</x></a>")]), [vec!["7"], vec![], vec!["1"]]);
    assert_eq!(shown(&[Held::Document(b"<x>2</x>")]), [vec![], vec![], vec!["2"]]);
    assert_eq!(shown(&[Held::Scalar(b"<x>2</x>")]), vec![Vec::<String>::new(); 3]);
    assert_eq!(shown(&[]), vec![Vec::<String>::new(); 3]);
}

#[test]
fn ambiguity_among_many_paths() {
    let known = Readings::new();
    let title = compile("book.title").unwrap();
    let programs: [Option<&Program>; 1] = [Some(&title)];
    match get_many_in(&[Held::Fragment(XML)], &programs, &known) {
        Err(QueryError::Engine(EngineError::AmbiguousMatch { name })) => assert_eq!(name, "book"),
        _ => panic!("book occurs several times"),
    }
}

#[test]
fn the_cache_keeps_programs() {
    let mut cache = PathCache::new();
    let first = cache.compile_path("store.book").unwrap();
    let again = cache.compile_path("store.book").unwrap();
    assert!(std::sync::Arc::ptr_eq(&first, &again));
    assert!(cache.compile_path("|").is_err());
}

#[test]
fn the_cache_starts_over_when_it_is_full() {
    let mut cache = PathCache::new();
    let first = cache.compile_path("p").unwrap();
    for k in 1..PATH_CACHE_CAP {
        cache.compile_path(&format!("p{}", k)).unwrap();
    }
    assert!(std::sync::Arc::ptr_eq(&first, &cache.compile_path("p").unwrap()));
    cache.compile_path("one_more").unwrap();
    assert!(!std::sync::Arc::ptr_eq(&first, &cache.compile_path("p").unwrap()));
}
