//! The names of applied schemas and of their properties.
//!
//! A multiple-apply schema is a template: its names hold a placeholder where
//! the instance name goes.

use crate::interner::{
    first_position, lemma_position_of_entry, lemma_with_entry, with_entry, TokenId, TokenInterner,
};
use crate::text::{
    chars_of, find_char, index_of, lemma_index_of, lemma_index_of_unique, push_text, same_text,
    string_of, text,
};
use vstd::prelude::*;

verus! {

/// What stands for the instance name in the names of a multiple-apply schema:
/// applying `SlotAPI:left` turns `slot:__INSTANCE_NAME__:index` into
/// `slot:left:index`. It is a whole namespace segment, and the first such
/// segment is replaced.
pub const INSTANCE_NAME_PLACEHOLDER: &'static str = "__INSTANCE_NAME__";

/// The placeholder.
pub open spec fn placeholder() -> Seq<char> {
    INSTANCE_NAME_PLACEHOLDER@
}

/// The schema that an applied name names: what comes before its first `:`.
pub open spec fn schema_part(name: Seq<char>) -> Seq<char> {
    name.take(index_of(name, 0, ':'))
}

/// The instance of an applied name: what follows its first `:`, unless that
/// is nothing.
pub open spec fn instance_part(name: Seq<char>) -> Option<Seq<char>> {
    let at = index_of(name, 0, ':');
    if at + 1 < name.len() {
        Some(name.skip(at + 1))
    } else {
        None
    }
}

/// The view of an optional text.
pub open spec fn text_option(value: Option<String>) -> Option<Seq<char>> {
    match value {
        Some(value) => Some(value@),
        None => None,
    }
}

/// Splits an applied name into its schema and its instance.
pub fn split_instance(name: &str) -> (parts: (String, Option<String>))
    ensures
        parts.0@ == schema_part(name@),
        text_option(parts.1) == instance_part(name@),
{
    let chars = chars_of(name);
    let at = find_char(&chars, 0, ':');
    proof {
        lemma_index_of(name@, 0, ':');
    }
    let schema = string_of(&chars, 0, at);
    assert(schema@ =~= schema_part(name@));
    if at < chars.len() && at + 1 < chars.len() {
        let instance = string_of(&chars, at + 1, chars.len());
        assert(instance@ =~= name@.skip(at + 1));
        (schema, Some(instance))
    } else {
        (schema, None)
    }
}

/// Where the first segment of `name`, from `from` on, that is the placeholder
/// begins; -1 when there is none.
pub open spec fn placeholder_from(name: Seq<char>, from: int) -> int
    decreases name.len() - from,
{
    let end = index_of(name, from, ':');
    if from < 0 || from > name.len() || end < from {
        -1
    } else if name.subrange(from, end) == placeholder() {
        from
    } else if end >= name.len() {
        -1
    } else {
        placeholder_from(name, end + 1)
    }
}

/// `name` with `instance` in place of its placeholder; `name` itself when it
/// has none.
pub open spec fn filled_in(name: Seq<char>, instance: Seq<char>) -> Seq<char> {
    let at = placeholder_from(name, 0);
    if at < 0 {
        name
    } else {
        name.take(at) + instance + name.skip(at + placeholder().len())
    }
}

proof fn lemma_placeholder_from(name: Seq<char>, from: int)
    ensures
        placeholder_from(name, from) >= 0 ==> {
            &&& from <= placeholder_from(name, from)
            &&& placeholder_from(name, from) + placeholder().len() <= name.len()
        },
    decreases name.len() - from,
{
    if 0 <= from <= name.len() {
        lemma_index_of(name, from, ':');
        let end = index_of(name, from, ':');
        if name.subrange(from, end) == placeholder() {
            assert(name.subrange(from, end).len() == end - from);
        } else if end < name.len() {
            lemma_placeholder_from(name, end + 1);
        }
    }
}

/// `name` with `instance` in place of its placeholder.
pub fn fill_in(name: &str, instance: &str) -> (out: String)
    ensures
        out@ == filled_in(name@, instance@),
{
    let chars = chars_of(name);
    let mut from: usize = 0;
    loop
        invariant
            chars@ == name@,
            from <= chars@.len(),
            placeholder_from(name@, 0) == placeholder_from(name@, from as int),
        decreases chars@.len() - from,
    {
        assert(chars@.len() == chars.len());
        let end = find_char(&chars, from, ':');
        proof {
            lemma_index_of(name@, from as int, ':');
            lemma_placeholder_from(name@, from as int);
        }
        let segment = string_of(&chars, from, end);
        assert(segment@ =~= name@.subrange(from as int, end as int));
        if same_text(segment.as_str(), INSTANCE_NAME_PLACEHOLDER) {
            let mut out = string_of(&chars, 0, from);
            push_text(&mut out, instance);
            push_text(&mut out, string_of(&chars, end, chars.len()).as_str());
            assert(end == from + placeholder().len());
            assert(out@ =~= filled_in(name@, instance@));
            return out;
        }
        if end >= chars.len() {
            return text(name);
        }
        from = end + 1;
    }
}

/// The name that a token stands for once an instance is filled in.
pub open spec fn instance_text(
    tokens: Seq<Seq<char>>,
    name: TokenId,
    instance: Option<TokenId>,
) -> Seq<char> {
    match instance {
        Some(instance) => filled_in(tokens[name.index as int], tokens[instance.index as int]),
        None => tokens[name.index as int],
    }
}

/// The token of a name that has been interned.
pub open spec fn token_of(tokens: Seq<Seq<char>>, name: Seq<char>) -> TokenId {
    TokenId { index: first_position(tokens, name) as usize }
}

/// Whether the ids name tokens.
pub open spec fn instance_known(
    tokens: Seq<Seq<char>>,
    name: TokenId,
    instance: Option<TokenId>,
) -> bool {
    &&& name.index < tokens.len()
    &&& instance matches Some(instance) ==> instance.index < tokens.len()
}

/// The token of `name` with `instance` filled in, interned where it is new.
pub fn instantiate(name: TokenId, instance: Option<TokenId>, tokens: &mut TokenInterner) -> (out:
    TokenId)
    requires
        instance_known(old(tokens)@, name, instance),
    ensures
        final(tokens)@ == with_entry(old(tokens)@, instance_text(old(tokens)@, name, instance)),
        out == token_of(old(tokens)@, instance_text(old(tokens)@, name, instance)),
        final(tokens).has(out),
        crate::interner::extends(final(tokens)@, old(tokens)@),
{
    match instance {
        None => {
            let len = tokens.len();
            proof {
                lemma_position_of_entry(tokens@, name.index as int);
                lemma_with_entry(tokens@, tokens@[name.index as int]);
            }
            name
        },
        Some(instance) => {
            let out = fill_in(tokens.resolve(name), tokens.resolve(instance));
            tokens.intern(out.as_str())
        },
    }
}

/// The token of `name` with `instance` filled in, which has been interned.
pub fn instance_token(name: TokenId, instance: Option<TokenId>, tokens: &TokenInterner) -> (out:
    TokenId)
    requires
        instance_known(tokens@, name, instance),
        tokens@.contains(instance_text(tokens@, name, instance)),
    ensures
        out == token_of(tokens@, instance_text(tokens@, name, instance)),
        tokens.has(out),
{
    match instance {
        None => {
            let len = tokens.len();
            proof {
                lemma_position_of_entry(tokens@, name.index as int);
            }
            name
        },
        Some(instance) => {
            let out = fill_in(tokens.resolve(name), tokens.resolve(instance));
            tokens.lookup(out.as_str()).unwrap()
        },
    }
}


// ── Laws ────────────────────────────────────────────────────────────────

/// What comes before the first colon of an applied schema's name is the schema,
/// and what comes after it the instance; without a colon there is none.
pub proof fn law_names_part_at_the_first_colon(schema: Seq<char>, instance: Seq<char>)
    requires
        !schema.contains(':'),
    ensures
        schema_part(schema) == schema,
        instance_part(schema) is None,
        schema_part(schema.push(':') + instance) == schema,
        instance.len() > 0 ==> instance_part(schema.push(':') + instance) == Some(instance),
        instance.len() == 0 ==> instance_part(schema.push(':') + instance) is None,
{
    let name = schema.push(':') + instance;
    assert forall|i: int| 0 <= i < schema.len() implies schema[i] != ':' by {
        assert(schema.contains(schema[i]));
    }
    lemma_index_of_unique(schema, 0, ':', schema.len() as int);
    assert(schema.take(schema.len() as int) =~= schema);
    assert forall|i: int| 0 <= i < schema.len() implies name[i] != ':' by {
        assert(name[i] == schema[i]);
    }
    lemma_index_of_unique(name, 0, ':', schema.len() as int);
    assert(name.take(schema.len() as int) =~= schema);
    assert(name.skip(schema.len() as int + 1) =~= instance);
}

proof fn lemma_placeholder_shifts(before: Seq<char>, name: Seq<char>, from: int)
    requires
        0 <= from <= name.len(),
    ensures
        placeholder_from(before + name, before.len() + from) == (if placeholder_from(name, from)
            < 0 {
            -1
        } else {
            before.len() + placeholder_from(name, from)
        }),
        placeholder_from(name, from) < 0 || placeholder_from(name, from) >= from,
    decreases name.len() - from,
{
    let t = before + name;
    let n = before.len() as int;
    let end = index_of(name, from, ':');
    lemma_index_of(name, from, ':');
    assert forall|i: int| n + from <= i < n + end implies t[i] != ':' by {
        assert(t[i] == name[i - n]);
    }
    lemma_index_of_unique(t, n + from, ':', n + end);
    assert(t.subrange(n + from, n + end) =~= name.subrange(from, end));
    if end < name.len() {
        lemma_placeholder_shifts(before, name, end + 1);
    }
}

/// The first namespace segment that is the placeholder gives way to the
/// instance name; any other stays.
pub proof fn law_the_first_placeholder_is_filled_in(
    segment: Seq<char>,
    rest: Seq<char>,
    instance: Seq<char>,
)
    requires
        !segment.contains(':'),
    ensures
        segment == INSTANCE_NAME_PLACEHOLDER@ ==> filled_in(segment, instance) == instance,
        segment == INSTANCE_NAME_PLACEHOLDER@ ==> filled_in(segment.push(':') + rest, instance)
            == instance.push(':') + rest,
        segment != INSTANCE_NAME_PLACEHOLDER@ ==> filled_in(segment, instance) == segment,
        segment != INSTANCE_NAME_PLACEHOLDER@ ==> filled_in(segment.push(':') + rest, instance)
            == segment.push(':') + filled_in(rest, instance),
{
    let name = segment.push(':') + rest;
    let n = segment.len() as int;
    assert forall|i: int| 0 <= i < n implies segment[i] != ':' by {
        assert(segment.contains(segment[i]));
    }
    lemma_index_of_unique(segment, 0, ':', n);
    assert(segment.subrange(0, n) =~= segment);
    assert forall|i: int| 0 <= i < n implies name[i] != ':' by {
        assert(name[i] == segment[i]);
    }
    lemma_index_of_unique(name, 0, ':', n);
    assert(name.subrange(0, n) =~= segment);
    if segment == placeholder() {
        assert(segment.take(0) + instance + segment.skip(n) =~= instance);
        assert(name.take(0) + instance + name.skip(n) =~= instance.push(':') + rest);
    } else {
        lemma_placeholder_shifts(segment.push(':'), rest, 0);
        let at = placeholder_from(rest, 0);
        if at >= 0 {
            lemma_placeholder_inside(rest, 0);
            assert(name.take(n + 1 + at) =~= segment.push(':') + rest.take(at));
            assert(name.skip(n + 1 + at + placeholder().len()) =~= rest.skip(
                at + placeholder().len(),
            ));
            assert(filled_in(name, instance) =~= segment.push(':') + filled_in(rest, instance));
        }
    }
}

proof fn lemma_placeholder_inside(name: Seq<char>, from: int)
    requires
        0 <= from <= name.len(),
    ensures
        placeholder_from(name, from) >= 0 ==> placeholder_from(name, from) + placeholder().len()
            <= name.len(),
    decreases name.len() - from,
{
    let end = index_of(name, from, ':');
    lemma_index_of(name, from, ':');
    if end < name.len() {
        lemma_placeholder_inside(name, end + 1);
    }
}

} // verus!
