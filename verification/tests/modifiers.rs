use pygxml::engine::EngineError;
use pygxml::item::{item_text, Item};
use pygxml::modifiers::apply_modifiers;
use pygxml::number::{Number, Readings};
use pygxml::path::Modifier;

fn scalars(texts: &[&str]) -> Vec<Item> {
    texts.iter().map(|t| Item::Scalar(t.as_bytes().to_vec())).collect()
}

fn texts(items: &[Item]) -> Vec<String> {
    items.iter().map(|it| String::from_utf8(item_text(it)).unwrap()).collect()
}

fn knowing(numerals: &[&str]) -> Readings {
    let mut known = Readings::new();
    for text in numerals {
        let bits = text.parse::<f64>().unwrap().to_bits();
        known.add_number(text.to_string(), Number::from_bits(bits));
    }
    known
}

fn apply(modifiers: &[Modifier], input: &[&str], known: &Readings) -> Vec<String> {
    let mut items = scalars(input);
    apply_modifiers(modifiers, &mut items, known).unwrap();
    texts(&items)
}

fn plain(modifiers: &[Modifier], input: &[&str]) -> Vec<String> {
    apply(modifiers, input, &Readings::new())
}

#[test]
fn reverse_and_back() {
    assert_eq!(plain(&[Modifier::Reverse], &["a", "b", "c"]), ["c", "b", "a"]);
    assert_eq!(plain(&[Modifier::Reverse, Modifier::Reverse], &["a", "b", "c"]), ["a", "b", "c"]);
}

#[test]
fn first_of_the_reverse_is_the_last() {
    let input = ["a", "b", "c"];
    assert_eq!(plain(&[Modifier::First], &input), ["a"]);
    assert_eq!(plain(&[Modifier::Last], &input), ["c"]);
    assert_eq!(plain(&[Modifier::Reverse, Modifier::First], &input), ["c"]);
    assert_eq!(plain(&[Modifier::First], &[]), Vec::<String>::new());
    assert_eq!(plain(&[Modifier::Last], &[]), Vec::<String>::new());
}

#[test]
fn count_counts() {
    assert_eq!(plain(&[Modifier::Count], &["a", "a", "b"]), ["3"]);
    assert_eq!(plain(&[Modifier::Count], &[]), ["0"]);
    assert_eq!(plain(&[Modifier::Unique, Modifier::Count], &["a", "a", "b"]), ["2"]);
}

#[test]
fn sort_is_by_bytes() {
    assert_eq!(plain(&[Modifier::Sort], &["b", "B", "a", "10", "9", ""]), ["", "10", "9", "B", "a", "b"]);
    assert_eq!(plain(&[Modifier::Sort], &["é", "z"]), ["z", "é"]);
}

#[test]
fn sort_keeps_equal_texts_in_order() {
    let mut items = vec![
        Item::Element(b"<x n=\"1\">a</x>".to_vec()),
        Item::Scalar(b"0".to_vec()),
        Item::Element(b"<x n=\"2\">a</x>".to_vec()),
    ];
    apply_modifiers(&[Modifier::Sort], &mut items, &Readings::new()).unwrap();
    assert!(matches!(&items[0], Item::Scalar(b) if b == b"0"));
    assert!(matches!(&items[1], Item::Element(b) if b == b"<x n=\"1\">a</x>"));
    assert!(matches!(&items[2], Item::Element(b) if b == b"<x n=\"2\">a</x>"));
}

#[test]
fn numeric_sort_puts_text_last() {
    let known = knowing(&["10", "9", "-1", "2.5"]);
    assert_eq!(
        apply(&[Modifier::SortNumeric], &["x", "10", "9", "a", " -1 ", "2.5"], &known),
        [" -1 ", "2.5", "9", "10", "a", "x"]
    );
}

#[test]
fn numeric_sort_keeps_not_a_number_before_text() {
    let known = knowing(&["nan", "NaN", "5", "5.0"]);
    assert_eq!(
        apply(&[Modifier::SortNumeric], &["x", "nan", "a", "NaN"], &known),
        ["nan", "NaN", "a", "x"]
    );
    assert_eq!(
        apply(&[Modifier::SortNumeric], &["nan", "5.0", "NaN", "5"], &known),
        ["nan", "5.0", "NaN", "5"]
    );
}

#[test]
fn numeric_sort_asks_for_numbers() {
    let mut items = scalars(&["10", "x", "9"]);
    match apply_modifiers(&[Modifier::SortNumeric], &mut items, &knowing(&["9"])) {
        Err(EngineError::NumbersNeeded { texts }) => assert_eq!(texts, ["10"]),
        _ => panic!("a number is not known"),
    }
}

#[test]
fn unique_keeps_the_first_of_each_text() {
    assert_eq!(plain(&[Modifier::Unique], &["b", "a", "b", "c", "a"]), ["b", "a", "c"]);
    assert_eq!(
        plain(&[Modifier::Unique, Modifier::Unique], &["b", "a", "b", "c", "a"]),
        ["b", "a", "c"]
    );
}

#[test]
fn flatten_and_tostr_change_nothing() {
    assert_eq!(plain(&[Modifier::Flatten, Modifier::Tostr], &["b", "a"]), ["b", "a"]);
}

#[test]
fn modifiers_apply_from_left_to_right() {
    let input = ["b", "c", "a"];
    assert_eq!(plain(&[Modifier::Sort, Modifier::First], &input), ["a"]);
    assert_eq!(plain(&[Modifier::First, Modifier::Sort], &input), ["b"]);
}

#[test]
fn aggregates_ask_for_their_total() {
    for modifier in [Modifier::Sum, Modifier::Avg, Modifier::Min, Modifier::Max] {
        let mut items = scalars(&["10", "x", " 20 "]);
        match apply_modifiers(&[modifier], &mut items, &Readings::new()) {
            Err(EngineError::TotalNeeded { modifier: asked, texts }) => {
                assert!(asked == modifier);
                assert_eq!(texts, ["10", "20"]);
            }
            _ => panic!("the total is not known"),
        }
    }
}

#[test]
fn aggregates_give_the_known_total() {
    let mut known = Readings::new();
    known.add_total(Modifier::Sum, vec!["10".to_string(), "20".to_string()], "30".to_string());
    assert_eq!(apply(&[Modifier::Sum], &["10", "x", "20"], &known), ["30"]);
    assert_eq!(apply(&[Modifier::Sum, Modifier::Count], &["10", "x", "20"], &known), ["1"]);
}

#[test]
fn sorting_twice_is_sorting_once() {
    let input = ["b", "a", "c", "a"];
    assert_eq!(plain(&[Modifier::Sort, Modifier::Sort], &input), plain(&[Modifier::Sort], &input));
}

#[test]
fn elements_and_scalars_of_the_same_text_are_treated_alike() {
    for modifier in [Modifier::Sort, Modifier::Unique, Modifier::Reverse, Modifier::First] {
        let mut elements: Vec<Item> = ["b", "a", "b"]
            .iter()
            .map(|t| Item::Element(format!("<x>{}</x>", t).into_bytes()))
            .collect();
        apply_modifiers(&[modifier], &mut elements, &Readings::new()).unwrap();
        assert_eq!(texts(&elements), plain(&[modifier], &["b", "a", "b"]));
    }
}
