//! What holds of tags: how names, attributes and runs of text are read.

use vstd::prelude::*;
use vstd::utf8::{decode_utf8, encode_utf8, valid_utf8};

use crate::xml::{
    attr_value, attributes_of, decoded_value, empty_element, find_attr, first_colon, local_name,
    resolved, text_content, TagV,
};

verus! {

/// A prefix is taken off a qualified name with the first colon: behind it
/// stands the local name. A name without a colon is its own local name.
pub proof fn law_local_name_is_behind_the_prefix(prefix: Seq<u8>, rest: Seq<u8>)
    requires
        !prefix.contains(58),
    ensures
        local_name(prefix + seq![58u8] + rest) == rest,
        local_name(prefix) == prefix,
{
    let name = prefix + seq![58u8] + rest;
    let n = prefix.len() as int;
    assert forall|j: int| 0 <= j < n implies name[j] != 58 by {
        assert(name[j] == prefix[j]);
        assert(prefix.contains(prefix[j]));
    }
    assert(first_colon(name, n));
    assert forall|i: int| first_colon(name, i) implies i == n by {}
    assert(name.skip(n + 1) =~= rest);
    assert forall|i: int| !first_colon(prefix, i) by {
        if first_colon(prefix, i) {
            assert(prefix.contains(prefix[i]));
        }
    }
}

/// A reference in the value of an attribute is resolved where the value can be
/// read; a value that cannot be read stays as it is.
pub proof fn law_values_are_resolved(value: Seq<u8>)
    ensures
        match resolved(decode_utf8(value)) {
            Some(text) if valid_utf8(value) => decoded_value(value) == encode_utf8(text),
            _ => decoded_value(value) == value,
        },
{
}

/// A run of text counts with its references resolved; one that cannot be read
/// counts for nothing.
pub proof fn law_text_is_resolved(raw: Seq<u8>)
    ensures
        match resolved(decode_utf8(raw)) {
            Some(text) if valid_utf8(raw) => text_content(raw) == encode_utf8(text),
            _ => text_content(raw) == Seq::<u8>::empty(),
        },
{
}

/// Of the attributes with a local name the first that can be read has its value
/// found, whatever attributes stand before it and behind it.
pub proof fn law_first_attribute_of_a_name_is_found(
    attrs: Seq<Option<(Seq<u8>, Seq<u8>)>>,
    name: Seq<char>,
    k: int,
)
    requires
        0 <= k < attrs.len(),
        attrs[k] matches Some((key, _)) && local_name(key) == encode_utf8(name),
        forall|j: int|
            0 <= j < k ==> (#[trigger] attrs[j] matches Some((key, _)) ==> local_name(key)
                != encode_utf8(name)),
    ensures
        attrs[k] matches Some((_, value)) && find_attr(attrs, name) == Some(decoded_value(value)),
    decreases k,
{
    if k > 0 {
        let rest = attrs.skip(1);
        assert(rest[k - 1] == attrs[k]);
        assert(attrs[0] matches Some((key, _)) ==> local_name(key) != encode_utf8(name));
        assert forall|j: int| 0 <= j < k - 1 implies (#[trigger] rest[j] matches Some((key, _))
            ==> local_name(key) != encode_utf8(name)) by {
            assert(rest[j] == attrs[j + 1]);
        }
        law_first_attribute_of_a_name_is_found(rest, name, k - 1);
    }
}

/// No value is found exactly where no attribute that can be read has the local
/// name.
pub proof fn law_no_attribute_of_a_name(attrs: Seq<Option<(Seq<u8>, Seq<u8>)>>, name: Seq<char>)
    ensures
        find_attr(attrs, name) is None <==> forall|j: int|
            0 <= j < attrs.len() ==> (#[trigger] attrs[j] matches Some((key, _)) ==> local_name(
                key,
            ) != encode_utf8(name)),
    decreases attrs.len(),
{
    if attrs.len() > 0 {
        let rest = attrs.skip(1);
        law_no_attribute_of_a_name(rest, name);
        if find_attr(attrs, name) is None {
            assert(attrs[0] matches Some((key, _)) ==> local_name(key) != encode_utf8(name));
            assert forall|j: int| 0 <= j < attrs.len() implies (
            #[trigger] attrs[j] matches Some((key, _)) ==> local_name(key) != encode_utf8(name)) by {
                if j > 0 {
                    assert(attrs[j] == rest[j - 1]);
                }
            }
        }
        if forall|j: int|
            0 <= j < attrs.len() ==> (#[trigger] attrs[j] matches Some((key, _)) ==> local_name(
                key,
            ) != encode_utf8(name)) {
            assert(attrs[0] matches Some((key, _)) ==> local_name(key) != encode_utf8(name));
            assert forall|j: int| 0 <= j < rest.len() implies (
            #[trigger] rest[j] matches Some((key, _)) ==> local_name(key) != encode_utf8(name)) by {
                assert(rest[j] == attrs[j + 1]);
            }
        }
    }
}

/// The attributes of a tag are those that the parser tells of its content. An
/// attribute that is written once is found, with its references resolved.
pub proof fn law_attributes_of_a_tag_are_found(tag: TagV, name: Seq<char>, k: int)
    requires
        ({
            let attrs = attributes_of(tag.content, tag.name_len);
            &&& 0 <= k < attrs.len()
            &&& attrs[k] matches Some((key, _)) && local_name(key) == encode_utf8(name)
            &&& forall|j: int|
                0 <= j < k ==> (#[trigger] attrs[j] matches Some((key, _)) ==> local_name(key)
                    != encode_utf8(name))
        }),
    ensures
        attributes_of(tag.content, tag.name_len)[k] matches Some((_, value)) && attr_value(
            tag,
            name,
        ) == Some(decoded_value(value)),
{
    law_first_attribute_of_a_name_is_found(
        attributes_of(tag.content, tag.name_len),
        name,
        k,
    );
}

/// An empty element is written with the content of its tag between `<` and
/// `/>`.
pub proof fn law_empty_element_is_written_with_its_content(tag: TagV)
    ensures
        ({
            let bytes = empty_element(tag);
            let n = tag.content.len() as int;
            &&& bytes.len() == n + 3
            &&& bytes[0] == 60
            &&& bytes.subrange(1, n + 1) == tag.content
            &&& bytes[n + 1] == 47
            &&& bytes[n + 2] == 62
        }),
{
    assert(empty_element(tag).subrange(1, tag.content.len() as int + 1) =~= tag.content);
}

} // verus!
