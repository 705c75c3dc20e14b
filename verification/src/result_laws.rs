//! What holds of results and of queries into them.

use vstd::prelude::*;
use vstd::utf8::{
    decode_utf8, encode_utf8, encode_utf8_decode_utf8, encode_utf8_valid_utf8, valid_utf8,
};

use crate::grammar::compiled;
use crate::number::{all_digits, digits_value, int_value, is_numeral, sign_end, ReadingsV};
use crate::query::{got, got_in, QueryErrorV};
use crate::result::{
    ahead, bool_reading, children, children_of, dict_shown, float_reading, fragments_named,
    has_child, index_at, int_reading, joined, kind_of, label_of, length_of, lenient, list_shown,
    listed, lossy_text, mode_of, names_once, places, str_reading, strings_of, BoolReadingV, HeldV,
    IntReadingV, Mode, ScalarKind, SpanV,
};
use crate::semantics::{element_text, ItemV};
use crate::text::{text_or_empty, trimmed};
use crate::text_laws::{
    all_white, bare, law_numerals_are_read_back, law_trimming_takes_off_white_space, numeral,
};
use crate::xml::{DocV, EventV};

verus! {

/// A document that a result holds answers a path as the document itself does.
pub proof fn law_held_document_answers_as_document(
    xml: Seq<u8>,
    path: Seq<char>,
    known: ReadingsV,
)
    ensures
        got_in(seq![HeldV::Document(xml)], path, known) == got(xml, path, known),
{
}

/// There is nothing inside a scalar, whatever path is looked for.
pub proof fn law_nothing_inside_scalar(bytes: Seq<u8>, path: Seq<char>, known: ReadingsV)
    ensures
        path.len() == 0 || compiled(path) is Ok ==> got_in(
            seq![HeldV::Scalar(bytes)],
            path,
            known,
        ) == Ok::<Seq<ItemV>, QueryErrorV>(Seq::empty()),
{
}

proof fn lemma_has_child(d: DocV, i: int, entered: bool)
    ensures
        has_child(d.events, i, entered) == (children(d, i, entered).len() > 0),
    decreases d.events.len() - i,
{
    if 0 <= i < d.events.len() {
        match d.events[i].event {
            EventV::Start(_) => {
                if !entered {
                    lemma_has_child(d, i + 1, true);
                }
            },
            EventV::Empty(_) => {},
            EventV::End(_) => {},
            _ => lemma_has_child(d, i + 1, entered),
        }
    }
}

/// An element is a dictionary exactly where it has keys: there is no empty
/// dictionary.
pub proof fn law_dictionaries_have_keys(bytes: Seq<u8>)
    ensures
        has_child(lenient(bytes).events, 0, false) == (names_once(children_of(bytes)).len() > 0),
{
    let spans = children_of(bytes);
    lemma_has_child(lenient(bytes), 0, false);
    if spans.len() > 0 {
        law_keys_are_the_names_once(spans);
        assert(spans[0].name == spans[0].name);
        assert(names_once(spans).contains(spans[0].name));
    }
}

/// The keys of a dictionary are the names of its children, each once.
pub proof fn law_keys_are_the_names_once(spans: Seq<SpanV>)
    ensures
        names_once(spans).no_duplicates(),
        forall|k: int| 0 <= k < spans.len() ==> names_once(spans).contains(#[trigger] spans[k].name),
        forall|name: Seq<u8>| #[trigger]
            names_once(spans).contains(name) ==> exists|k: int|
                0 <= k < spans.len() && #[trigger] spans[k].name == name,
    decreases spans.len(),
{
    if spans.len() > 0 {
        let head = spans.drop_last();
        let last = spans.last();
        law_keys_are_the_names_once(head);
        let before = names_once(head);
        let all = names_once(spans);
        assert forall|name: Seq<u8>| before.contains(name) implies #[trigger] all.contains(name) by {
            let at = choose|j: int| 0 <= j < before.len() && before[j] == name;
            assert(all[at] == name);
        }
        assert(all.contains(last.name)) by {
            if !before.contains(last.name) {
                assert(all[before.len() as int] == last.name);
            }
        }
        assert forall|k: int| 0 <= k < spans.len() implies all.contains(
            #[trigger] spans[k].name,
        ) by {
            if k < head.len() {
                assert(head[k].name == spans[k].name);
                assert(before.contains(head[k].name));
            }
        }
        assert forall|name: Seq<u8>| #[trigger] all.contains(name) implies exists|k: int|
            0 <= k < spans.len() && #[trigger] spans[k].name == name by {
            let at = choose|j: int| 0 <= j < all.len() && all[j] == name;
            if at < before.len() {
                assert(before[at] == name);
                assert(before.contains(name));
                let k = choose|k: int| 0 <= k < head.len() && #[trigger] head[k].name == name;
                assert(spans[k].name == name);
            } else {
                assert(spans[spans.len() - 1].name == name);
            }
        }
    }
}

/// A key has a value exactly where it is one of the keys.
pub proof fn law_keys_have_values(bytes: Seq<u8>, spans: Seq<SpanV>, name: Seq<u8>)
    ensures
        names_once(spans).contains(name) == (fragments_named(bytes, spans, name).len() > 0),
    decreases spans.len(),
{
    if spans.len() > 0 {
        let head = spans.drop_last();
        let before = names_once(head);
        let all = names_once(spans);
        law_keys_have_values(bytes, head, name);
        if before.contains(name) {
            let at = choose|j: int| 0 <= j < before.len() && before[j] == name;
            assert(all[at] == name);
        }
        if spans.last().name == name && !before.contains(name) {
            assert(all[before.len() as int] == name);
        }
        if all.contains(name) {
            let at = choose|j: int| 0 <= j < all.len() && all[j] == name;
            if at < before.len() {
                assert(before[at] == name);
            }
        }
    }
}

/// How many values keys have together.
pub open spec fn values_of(bytes: Seq<u8>, spans: Seq<SpanV>, names: Seq<Seq<u8>>) -> nat
    decreases names.len(),
{
    if names.len() == 0 {
        0
    } else {
        values_of(bytes, spans, names.drop_last()) + fragments_named(
            bytes,
            spans,
            names.last(),
        ).len()
    }
}

proof fn lemma_values_without(bytes: Seq<u8>, spans: Seq<SpanV>, names: Seq<Seq<u8>>)
    requires
        spans.len() > 0,
        !names.contains(spans.last().name),
    ensures
        values_of(bytes, spans, names) == values_of(bytes, spans.drop_last(), names),
    decreases names.len(),
{
    if names.len() > 0 {
        let head = names.drop_last();
        assert(names[names.len() - 1] == names.last());
        assert(names.last() != spans.last().name);
        assert(!head.contains(spans.last().name)) by {
            if head.contains(spans.last().name) {
                let j = choose|j: int| 0 <= j < head.len() && head[j] == spans.last().name;
                assert(names[j] == spans.last().name);
            }
        }
        lemma_values_without(bytes, spans, head);
    }
}

proof fn lemma_values_with(bytes: Seq<u8>, spans: Seq<SpanV>, names: Seq<Seq<u8>>)
    requires
        spans.len() > 0,
        names.no_duplicates(),
        names.contains(spans.last().name),
    ensures
        values_of(bytes, spans, names) == values_of(bytes, spans.drop_last(), names) + 1,
    decreases names.len(),
{
    let head = names.drop_last();
    if names.last() == spans.last().name {
        assert(!head.contains(spans.last().name)) by {
            if head.contains(spans.last().name) {
                let j = choose|j: int| 0 <= j < head.len() && head[j] == spans.last().name;
                assert(names[j] == names[names.len() - 1]);
            }
        }
        lemma_values_without(bytes, spans, head);
    } else {
        let j = choose|j: int| 0 <= j < names.len() && names[j] == spans.last().name;
        assert(head[j] == spans.last().name);
        lemma_values_with(bytes, spans, head);
    }
}

/// Every child stands under one key: over all keys of a dictionary there are as
/// many values as children.
pub proof fn law_values_are_all_children(bytes: Seq<u8>, spans: Seq<SpanV>)
    ensures
        values_of(bytes, spans, names_once(spans)) == spans.len(),
    decreases spans.len(),
{
    if spans.len() > 0 {
        let head = spans.drop_last();
        let before = names_once(head);
        let all = names_once(spans);
        law_values_are_all_children(bytes, head);
        law_keys_are_the_names_once(head);
        law_keys_are_the_names_once(spans);
        if before.contains(spans.last().name) {
            lemma_values_with(bytes, spans, all);
        } else {
            assert(all.drop_last() =~= before);
            lemma_values_without(bytes, spans, before);
            law_keys_have_values(bytes, head, spans.last().name);
        }
    }
}

/// A slice over everything takes every place, in order.
pub proof fn law_full_slice_takes_all(i: nat, n: nat)
    requires
        i <= n,
    ensures
        places(i as int, n as int, 1, n) == Seq::new((n - i) as nat, |k: int| i + k),
    decreases n - i,
{
    if i < n {
        law_full_slice_takes_all(i + 1, n);
        assert(seq![i as int] + places(i as int + 1, n as int, 1, n) =~= Seq::new(
            (n - i) as nat,
            |k: int| i + k,
        ));
    } else {
        assert(places(i as int, n as int, 1, n) =~= Seq::new((n - i) as nat, |k: int| i + k));
    }
}

/// A slice backwards over everything takes every place, in reverse order.
pub proof fn law_backward_slice_takes_all(i: int, n: nat)
    requires
        -1 <= i < n,
    ensures
        places(i, -1, -1, n) == Seq::new((i + 1) as nat, |k: int| i - k),
    decreases i + 1,
{
    if i >= 0 {
        law_backward_slice_takes_all(i - 1, n);
        assert(seq![i] + places(i - 1, -1, -1, n) =~= Seq::new((i + 1) as nat, |k: int| i - k));
    } else {
        assert(places(i, -1, -1, n) =~= Seq::new((i + 1) as nat, |k: int| i - k));
    }
}

/// An integer in decimal, with a minus sign where it is negative.
pub open spec fn written(n: int) -> Seq<char> {
    if n < 0 {
        seq!['-'] + numeral((-n) as nat)
    } else {
        numeral(n as nat)
    }
}

proof fn lemma_written(n: int)
    ensures
        int_value(written(n)) == Some(n),
        written(n).len() > 0,
        bare(written(n)),
{
    let s = written(n);
    if n < 0 {
        let digits = numeral((-n) as nat);
        law_numerals_are_read_back((-n) as nat);
        assert(s[0] == '-');
        assert(s.skip(1) =~= digits);
        assert('0' <= digits[digits.len() - 1] <= '9');
        assert(s.last() == digits.last());
    } else {
        law_numerals_are_read_back(n as nat);
        assert('0' <= s[0] <= '9');
        assert('0' <= s[s.len() - 1] <= '9');
        assert(s.skip(0) =~= s);
    }
}

/// An integer that is written is read back, its sign included, with white space
/// around it or without.
pub proof fn law_integers_are_read_back(n: i64, before: Seq<char>, behind: Seq<char>)
    requires
        all_white(before),
        all_white(behind),
    ensures
        int_reading(encode_utf8(before + written(n as int) + behind)) == IntReadingV::Value(n),
        kind_of(written(n as int)) == ScalarKind::Int(n),
{
    let s = before + written(n as int) + behind;
    lemma_written(n as int);
    law_trimming_takes_off_white_space(before, written(n as int), behind);
    encode_utf8_valid_utf8(s);
    encode_utf8_decode_utf8(s);
}

/// A plus sign and zeros in front do not change an integer.
pub proof fn law_signed_digits_are_integers(digits: Seq<char>)
    requires
        digits.len() > 0,
        all_digits(digits),
    ensures
        int_value(digits) == Some(digits_value(digits) as int),
        int_value(seq!['+'] + digits) == Some(digits_value(digits) as int),
        int_value(seq!['-'] + digits) == Some(-digits_value(digits)),
{
    assert('0' <= digits[0] <= '9');
    assert(digits.skip(0) =~= digits);
    assert((seq!['+'] + digits).skip(1) =~= digits);
    assert((seq!['-'] + digits).skip(1) =~= digits);
    assert((seq!['+'] + digits)[0] == '+');
    assert((seq!['-'] + digits)[0] == '-');
}

/// A text is an integer only where it is digits behind a sign or none.
pub proof fn law_integers_are_signed_digits(s: Seq<char>)
    ensures
        int_value(s) is Some ==> exists|sign: Seq<char>, digits: Seq<char>|
            (sign.len() == 0 || sign == seq!['+'] || sign == seq!['-']) && digits.len() > 0
                && all_digits(digits) && s == #[trigger] (sign + digits),
{
    if int_value(s) is Some {
        let at = sign_end(s, 0);
        let sign = s.take(at);
        let digits = s.skip(at);
        if at > 0 {
            assert(sign =~= seq![s[0]]);
        }
        assert(s =~= sign + digits);
    }
}

/// What kind of scalar a text is and what it reads as agree: an integer of 64
/// bits reads as itself, any other number as what is left of it without its
/// fraction, and what is no number as zero.
pub proof fn law_readings_follow_the_kind(text: Seq<u8>)
    ensures
        ({
            let s = trimmed(text_or_empty(text));
            match kind_of(s) {
                ScalarKind::Int(n) => {
                    &&& int_value(s) == Some(n as int)
                    &&& int_reading(text) == IntReadingV::Value(n)
                },
                ScalarKind::Float => {
                    &&& is_numeral(s)
                    &&& int_value(s) matches Some(n) ==> n < i64::MIN || n > i64::MAX
                    &&& int_reading(text) == IntReadingV::Truncated(s)
                    &&& float_reading(text) == Some(s)
                },
                ScalarKind::Str => {
                    &&& !is_numeral(s)
                    &&& int_value(s) matches Some(n) ==> n < i64::MIN || n > i64::MAX
                    &&& int_reading(text) == IntReadingV::Value(0)
                    &&& float_reading(text) is None
                },
            }
        }),
{
}

/// A text reads as a floating-point number where it is a numeral, white space
/// around it aside, and then as the number of that numeral.
pub proof fn law_numerals_read_as_numbers(s: Seq<char>, before: Seq<char>, behind: Seq<char>)
    requires
        all_white(before),
        all_white(behind),
        bare(s),
    ensures
        float_reading(encode_utf8(before + s + behind)) == if is_numeral(s) {
            Some(s)
        } else {
            None
        },
{
    let all = before + s + behind;
    law_trimming_takes_off_white_space(before, s, behind);
    encode_utf8_valid_utf8(all);
    encode_utf8_decode_utf8(all);
}

/// Whether a text spells `true`.
pub open spec fn spells_true(s: Seq<char>) -> bool {
    seq![
        "1"@,
        "true"@,
        "\"t\""@,
        "\"1\""@,
        "\"T\""@,
        "\"true\""@,
        "\"TRUE\""@,
        "\"True\""@,
    ].contains(s)
}

/// Whether a text spells `false`.
pub open spec fn spells_false(s: Seq<char>) -> bool {
    seq![
        "0"@,
        "false"@,
        "\"f\""@,
        "\"0\""@,
        "\"F\""@,
        "\"false\""@,
        "\"FALSE\""@,
        "\"False\""@,
    ].contains(s)
}

proof fn lemma_spellings(s: Seq<char>)
    ensures
        spells_true(s) <==> (s == "1"@ || s == "true"@ || s == "\"t\""@ || s == "\"1\""@ || s
            == "\"T\""@ || s == "\"true\""@ || s == "\"TRUE\""@ || s == "\"True\""@),
        spells_false(s) <==> (s == "0"@ || s == "false"@ || s == "\"f\""@ || s == "\"0\""@ || s
            == "\"F\""@ || s == "\"false\""@ || s == "\"FALSE\""@ || s == "\"False\""@),
        !(spells_true(s) && spells_false(s)),
{
    let yes = seq![
        "1"@,
        "true"@,
        "\"t\""@,
        "\"1\""@,
        "\"T\""@,
        "\"true\""@,
        "\"TRUE\""@,
        "\"True\""@,
    ];
    let no = seq![
        "0"@,
        "false"@,
        "\"f\""@,
        "\"0\""@,
        "\"F\""@,
        "\"false\""@,
        "\"FALSE\""@,
        "\"False\""@,
    ];
    if s == "1"@ { assert(yes[0] == s); }
    if s == "true"@ { assert(yes[1] == s); }
    if s == "\"t\""@ { assert(yes[2] == s); }
    if s == "\"1\""@ { assert(yes[3] == s); }
    if s == "\"T\""@ { assert(yes[4] == s); }
    if s == "\"true\""@ { assert(yes[5] == s); }
    if s == "\"TRUE\""@ { assert(yes[6] == s); }
    if s == "\"True\""@ { assert(yes[7] == s); }
    if s == "0"@ { assert(no[0] == s); }
    if s == "false"@ { assert(no[1] == s); }
    if s == "\"f\""@ { assert(no[2] == s); }
    if s == "\"0\""@ { assert(no[3] == s); }
    if s == "\"F\""@ { assert(no[4] == s); }
    if s == "\"false\""@ { assert(no[5] == s); }
    if s == "\"FALSE\""@ { assert(no[6] == s); }
    if s == "\"False\""@ { assert(no[7] == s); }
    lemma_literal_chars();
}

proof fn lemma_literal_chars()
    ensures
        "1"@[0] == '1' && "1"@.len() == 1,
        "0"@[0] == '0' && "0"@.len() == 1,
        "true"@[0] == 't' && "true"@.len() == 4,
        "false"@[0] == 'f' && "false"@.len() == 5,
        "\"t\""@[1] == 't' && "\"t\""@.len() == 3 && "\"t\""@[0] == '\"',
        "\"1\""@[1] == '1' && "\"1\""@.len() == 3 && "\"1\""@[0] == '\"',
        "\"T\""@[1] == 'T' && "\"T\""@.len() == 3 && "\"T\""@[0] == '\"',
        "\"f\""@[1] == 'f' && "\"f\""@.len() == 3 && "\"f\""@[0] == '\"',
        "\"0\""@[1] == '0' && "\"0\""@.len() == 3 && "\"0\""@[0] == '\"',
        "\"F\""@[1] == 'F' && "\"F\""@.len() == 3 && "\"F\""@[0] == '\"',
        "\"true\""@[1] == 't' && "\"true\""@.len() == 6 && "\"true\""@[0] == '\"',
        "\"TRUE\""@[1] == 'T' && "\"TRUE\""@.len() == 6 && "\"TRUE\""@[0] == '\"',
        "\"True\""@[1] == 'T' && "\"True\""@.len() == 6 && "\"True\""@[0] == '\"',
        "\"false\""@[1] == 'f' && "\"false\""@.len() == 7 && "\"false\""@[0] == '\"',
        "\"FALSE\""@[1] == 'F' && "\"FALSE\""@.len() == 7 && "\"FALSE\""@[0] == '\"',
        "\"False\""@[1] == 'F' && "\"False\""@.len() == 7 && "\"False\""@[0] == '\"',
{
    reveal_strlit("1");
    reveal_strlit("0");
    reveal_strlit("true");
    reveal_strlit("false");
    reveal_strlit("\"t\"");
    reveal_strlit("\"1\"");
    reveal_strlit("\"T\"");
    reveal_strlit("\"f\"");
    reveal_strlit("\"0\"");
    reveal_strlit("\"F\"");
    reveal_strlit("\"true\"");
    reveal_strlit("\"TRUE\"");
    reveal_strlit("\"True\"");
    reveal_strlit("\"false\"");
    reveal_strlit("\"FALSE\"");
    reveal_strlit("\"False\"");
}

/// Nothing is false, and a dictionary and a list are true. A scalar is what it
/// spells, and any other scalar is true where it is a number that is not zero
/// once its fraction is cut off.
pub proof fn law_truth_of_results(items: Seq<HeldV>)
    ensures
        items.len() == 0 ==> bool_reading(items) == BoolReadingV::Value(false),
        items.len() > 1 ==> bool_reading(items) == BoolReadingV::Value(true),
        items.len() == 1 && items[0].is_dict() ==> bool_reading(items) == BoolReadingV::Value(true),
        items.len() == 1 && !items[0].is_dict() ==> {
            let s = text_or_empty(items[0].text());
            if spells_true(s) {
                bool_reading(items) == BoolReadingV::Value(true)
            } else if spells_false(s) {
                bool_reading(items) == BoolReadingV::Value(false)
            } else {
                match int_value(trimmed(s)) {
                    Some(n) if i64::MIN <= n <= i64::MAX => bool_reading(items)
                        == BoolReadingV::Value(n != 0),
                    _ => bool_reading(items) == if is_numeral(trimmed(s)) {
                        BoolReadingV::Truncated(trimmed(s))
                    } else {
                        BoolReadingV::Value(false)
                    },
                }
            }
        },
{
    if items.len() == 1 {
        lemma_spellings(text_or_empty(items[0].text()));
    }
}

/// What a result is as a value depends on how many things it holds, and on
/// whether one thing has elements inside.
pub proof fn law_modes_of_results(items: Seq<HeldV>)
    ensures
        mode_of(items) == Mode::Empty <==> items.len() == 0,
        mode_of(items) == Mode::Multi <==> items.len() > 1,
        mode_of(items) == Mode::DictElement <==> items.len() == 1 && !(items[0] is Scalar)
            && children_of(items[0].bytes()).len() > 0,
        mode_of(items) == Mode::ScalarLike <==> items.len() == 1 && (items[0] is Scalar
            || children_of(items[0].bytes()).len() == 0),
        label_of(Mode::Empty) == "empty"@,
        label_of(Mode::ScalarLike) == "scalar"@,
        label_of(Mode::DictElement) == "dict"@,
        label_of(Mode::Multi) == "multi"@,
{
    if items.len() == 1 {
        lemma_has_child(lenient(items[0].bytes()), 0, false);
    }
}

/// The text of a scalar is the scalar, and that of an element its text content.
pub proof fn law_texts_of_held_things(bytes: Seq<u8>)
    ensures
        HeldV::Scalar(bytes).text() == bytes,
        HeldV::Fragment(bytes).text() == element_text(bytes),
        HeldV::Document(bytes).text() == element_text(bytes),
        HeldV::Scalar(bytes).bytes() == bytes,
        HeldV::Fragment(bytes).bytes() == bytes,
        HeldV::Document(bytes).bytes() == bytes,
{
}

/// Texts are joined from left to right with the separator between each two.
pub proof fn law_joining_puts_separators_between(
    a: Seq<Seq<char>>,
    b: Seq<Seq<char>>,
    text: Seq<char>,
    separator: Seq<char>,
)
    ensures
        joined(Seq::<Seq<char>>::empty(), separator) == Seq::<char>::empty(),
        joined(seq![text], separator) == text,
        a.len() > 0 && b.len() > 0 ==> joined(a + b, separator) == joined(a, separator) + separator
            + joined(b, separator),
    decreases b.len(),
{
    if a.len() > 0 && b.len() > 0 {
        let all = a + b;
        assert(all.last() == b.last());
        if b.len() == 1 {
            assert(all.drop_last() =~= a);
            assert(b[0] == b.last());
        } else {
            law_joining_puts_separators_between(a, b.drop_last(), text, separator);
            assert(all.drop_last() =~= a + b.drop_last());
            assert(joined(all, separator) =~= joined(a, separator) + separator + joined(
                b,
                separator,
            ));
        }
    }
}

/// A scalar reads as its text without the white space around it, nothing as the
/// empty string, and dictionaries and lists as the XML of their entries, one per
/// line.
pub proof fn law_results_as_strings(items: Seq<HeldV>)
    ensures
        items.len() == 0 ==> str_reading(items) == Some(Seq::<char>::empty()),
        items.len() == 1 && !items[0].is_dict() ==> str_reading(items) == if valid_utf8(
            items[0].text(),
        ) {
            Some(trimmed(decode_utf8(items[0].text())))
        } else {
            None
        },
        items.len() > 1 || items.len() == 1 && items[0].is_dict() ==> str_reading(items) == Some(
            joined(
                Seq::new(items.len(), |i: int| lossy_text(items[i].bytes())),
                seq!['\n'],
            ),
        ),
{
}

/// The texts of a list are those of its entries, as they are; with one entry that
/// is not valid UTF-8 there are none.
pub proof fn law_texts_of_lists(items: Seq<HeldV>)
    ensures
        match strings_of(items) {
            Some(texts) => {
                &&& texts.len() == items.len()
                &&& forall|i: int|
                    0 <= i < items.len() ==> valid_utf8((#[trigger] items[i]).text()) && texts[i]
                        == decode_utf8(items[i].text())
            },
            None => exists|i: int| 0 <= i < items.len() && !valid_utf8((#[trigger] items[i]).text()),
        },
{
}

/// An index counts from the beginning, and a negative one from the end, where
/// `-1` is the last.
pub proof fn law_indices_count_from_either_end(k: nat, n: nat)
    ensures
        index_at(k as int, n) == if k < n {
            Some(k as int)
        } else {
            None
        },
        index_at(-1 - k, n) == if k < n {
            Some(n - 1 - k)
        } else {
            None
        },
{
}

/// Whether a slice that starts at `i` takes a place: it is reached in strides,
/// before the stop, and is a place of the list.
pub open spec fn sliced(i: int, stop: int, step: int, n: nat, place: int) -> bool {
    &&& 0 <= place < n
    &&& if step > 0 {
        i <= place < stop
    } else {
        step < 0 && stop < place <= i
    }
    &&& exists|t: nat| place == i + #[trigger] strides(t, step)
}

/// How far a number of strides leads.
pub open spec fn strides(t: nat, step: int) -> int {
    t * step
}

proof fn lemma_strides(i: int, step: int, place: int)
    requires
        step != 0,
    ensures
        (exists|t: nat| place == i + #[trigger] strides(t, step)) <==> place == i || (exists|t: nat|
            place == i + step + #[trigger] strides(t, step)),
{
    if exists|t: nat| place == i + #[trigger] strides(t, step) {
        let t = choose|t: nat| place == i + #[trigger] strides(t, step);
        if t == 0 {
            assert(strides(0, step) == 0) by (nonlinear_arith);
        } else {
            let u = (t - 1) as nat;
            assert(strides(t, step) == step + strides(u, step)) by (nonlinear_arith)
                requires
                    u == t - 1,
            ;
            assert(place == i + step + strides(u, step));
        }
    }
    if place == i {
        assert(strides(0, step) == 0) by (nonlinear_arith);
        assert(place == i + strides(0, step));
    }
    if exists|t: nat| place == i + step + #[trigger] strides(t, step) {
        let t = choose|t: nat| place == i + step + #[trigger] strides(t, step);
        assert(strides(t + 1, step) == step + strides(t, step)) by (nonlinear_arith);
        assert(place == i + strides(t + 1, step));
    }
}

proof fn lemma_strides_sign(t: nat, step: int)
    ensures
        step > 0 ==> strides(t, step) >= 0,
        step < 0 ==> strides(t, step) <= 0,
{
    assert(step > 0 ==> t * step >= 0) by (nonlinear_arith);
    assert(step < 0 ==> t * step <= 0) by (nonlinear_arith);
}

/// A slice takes exactly the places of the list that it reaches in strides
/// before the stop, in the direction in which it goes.
pub proof fn law_slices_take_what_they_reach(i: int, stop: int, step: int, n: nat)
    ensures
        forall|place: int| #[trigger]
            places(i, stop, step, n).contains(place) <==> sliced(i, stop, step, n, place),
        forall|a: int, b: int|
            0 <= a < b < places(i, stop, step, n).len() ==> if step > 0 {
                (#[trigger] places(i, stop, step, n)[a]) < (#[trigger] places(i, stop, step, n)[b])
            } else {
                places(i, stop, step, n)[a] > places(i, stop, step, n)[b]
            },
    decreases ahead(i, stop, step),
{
    let all = places(i, stop, step, n);
    if (step > 0 && i < stop) || (step < 0 && i > stop) {
        law_slices_take_what_they_reach(i + step, stop, step, n);
        let rest = places(i + step, stop, step, n);
        let taken = 0 <= i < n;
        assert(all =~= if taken {
            seq![i] + rest
        } else {
            rest
        });
        assert forall|b: int| 0 <= b < rest.len() implies if step > 0 {
            #[trigger] rest[b] > i
        } else {
            rest[b] < i
        } by {
            assert(rest.contains(rest[b]));
            assert(sliced(i + step, stop, step, n, rest[b]));
        }
        assert forall|place: int| #[trigger] all.contains(place) <==> sliced(
            i,
            stop,
            step,
            n,
            place,
        ) by {
            lemma_strides(i, step, place);
            if all.contains(place) {
                let k = choose|k: int| 0 <= k < all.len() && all[k] == place;
                if taken && k == 0 {
                } else {
                    let m = if taken {
                        k - 1
                    } else {
                        k
                    };
                    assert(rest[m] == place);
                    assert(rest.contains(place));
                }
            }
            if sliced(i, stop, step, n, place) {
                if place == i {
                    assert(all[0] == i);
                } else {
                    let t = choose|t: nat| place == i + step + #[trigger] strides(t, step);
                    lemma_strides_sign(t, step);
                    assert(sliced(i + step, stop, step, n, place));
                    assert(rest.contains(place));
                    let m = choose|m: int| 0 <= m < rest.len() && rest[m] == place;
                    if taken {
                        assert(all[m + 1] == place);
                    } else {
                        assert(all[m] == place);
                    }
                }
            }
        }
    } else {
        assert forall|place: int| #[trigger] all.contains(place) <==> sliced(
            i,
            stop,
            step,
            n,
            place,
        ) by {}
    }
}

/// A string is as long as it has characters, a dictionary as it has keys, and a
/// list as it has entries; nothing has no length but zero.
pub proof fn law_lengths_of_results(items: Seq<HeldV>)
    ensures
        items.len() == 0 ==> length_of(items) == Some(0nat),
        items.len() > 1 ==> length_of(items) == Some(items.len()),
        items.len() == 1 && items[0].is_dict() ==> length_of(items) == Some(
            names_once(children_of(items[0].bytes())).len(),
        ),
        items.len() == 1 && !items[0].is_dict() ==> length_of(items) == if valid_utf8(
            items[0].text(),
        ) {
            Some(decode_utf8(items[0].text()).len())
        } else {
            None
        },
{
}

/// Whether a child is the first with its name.
pub open spec fn first_of_name(spans: Seq<SpanV>, k: int) -> bool {
    &&& 0 <= k < spans.len()
    &&& forall|j: int| 0 <= j < k ==> (#[trigger] spans[j]).name != spans[k].name
}

/// The keys of a dictionary come in the order in which their first children come:
/// `ks` tells which these are.
pub proof fn law_keys_come_in_order(spans: Seq<SpanV>) -> (ks: Seq<int>)
    ensures
        names_once(spans).len() == ks.len(),
        forall|j: int|
            0 <= j < ks.len() ==> first_of_name(spans, #[trigger] ks[j]) && names_once(spans)[j]
                == spans[ks[j]].name,
        forall|j: int, m: int| 0 <= j < m < ks.len() ==> #[trigger] ks[j] < #[trigger] ks[m],
        forall|k: int| #[trigger] first_of_name(spans, k) ==> ks.contains(k),
    decreases spans.len(),
{
    if spans.len() == 0 {
        Seq::empty()
    } else {
        let head = spans.drop_last();
        let last = spans.len() - 1;
        let before = names_once(head);
        let name = spans.last().name;
        let ks = law_keys_come_in_order(head);
        law_keys_are_the_names_once(head);
        assert forall|j: int| 0 <= j < ks.len() implies first_of_name(spans, #[trigger] ks[j])
            && before[j] == spans[ks[j]].name by {
            assert(first_of_name(head, ks[j]));
            assert forall|m: int| 0 <= m < ks[j] implies (#[trigger] spans[m]).name
                != spans[ks[j]].name by {
                assert(head[m].name != head[ks[j]].name);
            }
        }
        assert forall|k: int| first_of_name(spans, k) && k < last implies first_of_name(head, k) by {
            assert forall|m: int| 0 <= m < k implies (#[trigger] head[m]).name
                != head[k].name by {
                assert(spans[m].name != spans[k].name);
            }
        }
        if before.contains(name) {
            let m = choose|m: int| 0 <= m < head.len() && #[trigger] head[m].name == name;
            assert(spans[m].name == name);
            assert(!first_of_name(spans, last));
            assert forall|k: int| #[trigger] first_of_name(spans, k) implies ks.contains(k) by {
                assert(first_of_name(head, k));
            }
            ks
        } else {
            let all = ks.push(last);
            assert(first_of_name(spans, last)) by {
                assert forall|m: int| 0 <= m < last implies (#[trigger] spans[m]).name != name by {
                    assert(head[m] == spans[m]);
                    assert(before.contains(head[m].name));
                }
            }
            assert forall|j: int, m: int| 0 <= j < m < all.len() implies #[trigger] all[j]
                < #[trigger] all[m] by {
                assert(first_of_name(head, ks[j]));
            }
            assert forall|k: int| #[trigger] first_of_name(spans, k) implies all.contains(k) by {
                if k < last {
                    assert(first_of_name(head, k));
                    let j = choose|j: int| 0 <= j < ks.len() && ks[j] == k;
                    assert(all[j] == k);
                } else {
                    assert(all[ks.len() as int] == k);
                }
            }
            all
        }
    }
}

/// The values of a key are the bytes of the children with that name, one after
/// the other, and of no others.
pub proof fn law_values_are_the_children_of_the_name(
    bytes: Seq<u8>,
    a: Seq<SpanV>,
    b: Seq<SpanV>,
    span: SpanV,
    name: Seq<u8>,
)
    ensures
        fragments_named(bytes, a + b, name) == fragments_named(bytes, a, name) + fragments_named(
            bytes,
            b,
            name,
        ),
        fragments_named(bytes, seq![span], name) == if span.name == name {
            seq![bytes.subrange(span.start as int, span.end as int)]
        } else {
            Seq::<Seq<u8>>::empty()
        },
    decreases b.len(),
{
    let one = seq![span];
    assert(one.drop_last() =~= Seq::empty());
    assert(fragments_named(bytes, one.drop_last(), name) =~= Seq::empty());
    let part = bytes.subrange(span.start as int, span.end as int);
    assert(Seq::<Seq<u8>>::empty().push(part) =~= seq![part]);
    if b.len() == 0 {
        assert(a + b =~= a);
        assert(fragments_named(bytes, a, name) + fragments_named(bytes, b, name)
            =~= fragments_named(bytes, a, name));
    } else {
        law_values_are_the_children_of_the_name(bytes, a, b.drop_last(), span, name);
        assert((a + b).drop_last() =~= a + b.drop_last());
        assert((a + b).last() == b.last());
        assert(fragments_named(bytes, a + b, name) =~= fragments_named(bytes, a, name)
            + fragments_named(bytes, b, name));
    }
}

/// A list is shown in brackets with commas between its entries; of three or more
/// the first two are shown, and that there are more.
pub proof fn law_lists_are_shown_in_brackets(a: Seq<char>, b: Seq<char>, more: Seq<Seq<char>>)
    requires
        more.len() > 0,
    ensures
        listed(Seq::<Seq<char>>::empty()) == "["@ + "]"@,
        listed(seq![a]) == "["@ + a + "]"@,
        listed(seq![a, b]) == "["@ + a + ", "@ + b + "]"@,
        listed(seq![a, b] + more) == "["@ + a + ", "@ + b + ", ...]"@,
        dict_shown(more) == "<Result type=dict, keys="@ + listed(more) + ">"@,
        list_shown(more) == "<Result type=list, value="@ + listed(more) + ">"@,
{
    let none = Seq::<Seq<char>>::empty();
    let two = seq![a, b];
    law_joining_puts_separators_between(seq![a], seq![b], a, ", "@);
    law_joining_puts_separators_between(none, none, a, ", "@);
    law_joining_puts_separators_between(none, none, b, ", "@);
    assert(seq![a] + seq![b] =~= two);
    assert((two + more).take(2) =~= two);
    assert("["@ + Seq::<char>::empty() + "]"@ =~= "["@ + "]"@);
    assert("["@ + (a + ", "@ + b) + "]"@ =~= "["@ + a + ", "@ + b + "]"@);
    assert("["@ + (a + ", "@ + b) + ", ...]"@ =~= "["@ + a + ", "@ + b + ", ...]"@);
}

} // verus!
