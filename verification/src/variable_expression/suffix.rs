//! What follows an expression is ignored.
//!
//! A rule that matches before the end of the bytes matches alike when more
//! bytes follow.

use crate::text::{lossy_text, utf8};
use crate::variable_expression::expression_value;
use crate::variable_expression::grammar::{
    continues_identifier, digits_end, digits_value, identifier_bytes_end, identifier_end, is_byte,
    is_digit, is_escape, is_keyword, is_word, lemma_spaces_end, run_end, said_body, said_expression,
    said_function, said_integer, said_item, said_items, said_list, said_more_items, said_parts,
    said_quoted, said_scalar, said_variable, spaces_end, starts_identifier, unescaped, Said,
    CLOSE_BRACKET, CLOSE_PAREN, COMMA, DOLLAR, DOUBLE_QUOTE, MINUS, OPEN_BRACE, SINGLE_QUOTE,
    SPACE,
};
use crate::variable_expression::{NodeView, PartView, VariableView};
use vstd::prelude::*;

verus! {

proof fn lemma_spaces(s: Seq<u8>, t: Seq<u8>, at: int)
    requires
        0 <= at,
        spaces_end(s, at) < s.len(),
    ensures
        at <= spaces_end(s, at),
        spaces_end(s + t, at) == spaces_end(s, at),
    decreases s.len() - at,
{
    if is_byte(s, at, SPACE) {
        assert((s + t)[at] == s[at]);
        lemma_spaces(s, t, at + 1);
    } else {
        assert((s + t)[at] == s[at]);
    }
}

proof fn lemma_identifier_bytes(s: Seq<u8>, t: Seq<u8>, at: int)
    requires
        0 <= at,
        identifier_bytes_end(s, at) < s.len(),
    ensures
        at <= identifier_bytes_end(s, at),
        !continues_identifier(s[identifier_bytes_end(s, at)]),
        identifier_bytes_end(s + t, at) == identifier_bytes_end(s, at),
    decreases s.len() - at,
{
    assert(at < s.len() ==> (s + t)[at] == s[at]);
    if at < s.len() && continues_identifier(s[at]) {
        lemma_identifier_bytes(s, t, at + 1);
    }
}

proof fn lemma_digits(s: Seq<u8>, t: Seq<u8>, at: int)
    requires
        0 <= at,
        digits_end(s, at) < s.len(),
    ensures
        at <= digits_end(s, at),
        digits_end(s + t, at) == digits_end(s, at),
    decreases s.len() - at,
{
    assert(at < s.len() ==> (s + t)[at] == s[at]);
    if at < s.len() && is_digit(s[at]) {
        lemma_digits(s, t, at + 1);
    }
}

proof fn lemma_digits_value(s: Seq<u8>, t: Seq<u8>, from: int, to: int)
    requires
        0 <= from,
        to <= s.len(),
    ensures
        digits_value(s + t, from, to) == digits_value(s, from, to),
    decreases to - from,
{
    if from < to {
        assert((s + t)[to - 1] == s[to - 1]);
        lemma_digits_value(s, t, from, to - 1);
    }
}

proof fn lemma_run(s: Seq<u8>, t: Seq<u8>, at: int, quote: u8)
    requires
        0 <= at,
        quote == DOUBLE_QUOTE || quote == SINGLE_QUOTE,
        run_end(s, at, quote) < s.len(),
    ensures
        run_end(s + t, at, quote) == run_end(s, at, quote),
    decreases s.len() - at,
{
    let long = s + t;
    assert(at < s.len());
    assert(long[at] == s[at]);
    if at + 1 < s.len() {
        assert(long[at + 1] == s[at + 1]);
        if is_escape(s, at, quote) {
            lemma_run(s, t, at + 2, quote);
        } else if s[at] == quote || (is_byte(s, at, DOLLAR) && is_byte(
            s,
            at + 1,
            OPEN_BRACE,
        )) {
        } else {
            lemma_run(s, t, at + 1, quote);
        }
    } else {
        assert(run_end(s, at + 1, quote) == at + 1);
        assert(s[at] == quote);
    }
}

proof fn lemma_variable(s: Seq<u8>, t: Seq<u8>, at: int)
    requires
        0 <= at,
        said_variable(s, at) is Hit,
    ensures
        said_variable(s + t, at) == said_variable(s, at),
{
    let long = s + t;
    let end = identifier_end(s, at + 2);
    assert(long[at] == s[at] && long[at + 1] == s[at + 1]);
    assert(end < s.len());
    assert(long[at + 2] == s[at + 2]);
    lemma_identifier_bytes(s, t, at + 3);
    assert(long[end] == s[end]);
    assert(long.subrange(at + 2, end) =~= s.subrange(at + 2, end));
}

proof fn lemma_parts(s: Seq<u8>, t: Seq<u8>, at: int, quote: u8, done: Seq<PartView>)
    requires
        0 <= at,
        quote == DOUBLE_QUOTE || quote == SINGLE_QUOTE,
        said_parts(s, at, quote, done) matches Said::Hit(_, end) && end < s.len(),
    ensures
        said_parts(s + t, at, quote, done) == said_parts(s, at, quote, done),
    decreases s.len() - at,
{
    let long = s + t;
    match said_variable(s, at) {
        Said::Fail(_, _) => {},
        Said::Hit(name, end) => {
            lemma_variable(s, t, at);
            lemma_parts(s, t, end, quote, done.push(PartView::Variable(name)));
        },
        Said::Miss => {
            let end = run_end(s, at, quote);
            if end == at {
                assert(at < s.len());
                assert(long[at] == s[at]);
                assert(s[at] == quote) by {
                    if is_escape(s, at, quote) {
                        lemma_run_grows(s, at + 2, quote);
                    } else if s[at] != quote {
                        lemma_run_grows(s, at + 1, quote);
                    }
                }
                lemma_run(s, t, at, quote);
            } else {
                lemma_run_grows(s, at, quote);
                let run = lossy_text(
                    unescaped(s.subrange(at, end), 0),
                );
                let more = done.push(PartView::Text(run));
                if end >= s.len() {
                    assert(said_variable(s, end) is Miss);
                    assert(run_end(s, end, quote) == end);
                    assert(said_parts(s, end, quote, more) == Said::Hit(more, end));
                }
                lemma_run(s, t, at, quote);
                assert(long[at] == s[at] && long[at + 1] == s[at + 1]);
                assert(said_variable(long, at) is Miss);
                assert(long.subrange(at, end) =~= s.subrange(at, end));
                lemma_parts(s, t, end, quote, more);
            }
        },
    }
}

proof fn lemma_run_grows(s: Seq<u8>, at: int, quote: u8)
    ensures
        at <= run_end(s, at, quote),
    decreases s.len() - at,
{
    if 0 <= at < s.len() {
        if is_escape(s, at, quote) {
            lemma_run_grows(s, at + 2, quote);
        } else {
            lemma_run_grows(s, at + 1, quote);
        }
    }
}

proof fn lemma_quoted(s: Seq<u8>, t: Seq<u8>, at: int, quote: u8)
    requires
        0 <= at,
        quote == DOUBLE_QUOTE || quote == SINGLE_QUOTE,
        said_quoted(s, at, quote) is Hit,
    ensures
        said_quoted(s + t, at, quote) == said_quoted(s, at, quote),
{
    let long = s + t;
    assert(long[at] == s[at]);
    match said_parts(s, at + 1, quote, seq![]) {
        Said::Hit(parts, end) => {
            lemma_parts(s, t, at + 1, quote, seq![]);
            assert(long[end] == s[end]);
        },
        _ => {},
    }
}

proof fn lemma_integer(s: Seq<u8>, t: Seq<u8>, at: int)
    requires
        0 <= at,
        said_integer(s, at) matches Said::Hit(_, end) && end < s.len(),
    ensures
        said_integer(s + t, at) == said_integer(s, at),
{
    let long = s + t;
    let negative = is_byte(s, at, MINUS);
    let digits = if negative {
        at + 1
    } else {
        at
    };
    lemma_digits(s, t, digits);
    assert(long[at] == s[at]);
    lemma_digits_value(s, t, digits, digits_end(s, digits));
}

// ── Keywords ────────────────────────────────────────────────────────────

/// Whether a word is made of ASCII letters.
spec fn lettered(word: Seq<char>) -> bool {
    &&& word.len() > 0
    &&& forall|i: int|
        0 <= i < word.len() ==> (0x41 <= (#[trigger] word[i]) as int <= 0x5a || 0x61
            <= word[i] as int <= 0x7a)
}

proof fn lemma_literals()
    ensures
        lettered("True"@) && lettered("true"@) && lettered("False"@) && lettered("false"@),
        lettered("None"@) && lettered("none"@),
        "True"@.len() == 4 && "true"@.len() == 4 && "None"@.len() == 4 && "none"@.len() == 4,
        "False"@.len() == 5 && "false"@.len() == 5,
{
    reveal_strlit("True");
    reveal_strlit("true");
    reveal_strlit("False");
    reveal_strlit("false");
    reveal_strlit("None");
    reveal_strlit("none");
}

/// A keyword starts with a letter.
proof fn lemma_keyword_starts(s: Seq<u8>, at: int, word: Seq<char>)
    requires
        0 <= at,
        lettered(word),
    ensures
        is_keyword(s, at, word) ==> at < s.len() && starts_identifier(s[at]),
{
    if is_keyword(s, at, word) {
        assert(s[at + 0] as int == word[0] as int);
    }
}

/// A keyword before a byte that ends it is one whatever follows.
proof fn lemma_keyword(s: Seq<u8>, t: Seq<u8>, at: int, word: Seq<char>, end: int)
    requires
        0 <= at <= end < s.len(),
        lettered(word),
        !continues_identifier(s[end]),
    ensures
        is_keyword(s + t, at, word) == is_keyword(s, at, word),
{
    let long = s + t;
    if is_word(long, at, word) && at + word.len() > end {
        assert(long[at + (end - at)] as int == word[end - at] as int);
        assert(long[end] == s[end]);
    }
    if is_word(s, at, word) && at + word.len() > end {
        assert(s[at + (end - at)] as int == word[end - at] as int);
    }
    if at + word.len() <= end {
        assert(long[at + word.len()] == s[at + word.len()]);
        if is_word(long, at, word) {
            assert forall|i: int| 0 <= i < word.len() implies s[at + i] as int
                == #[trigger] word[i] as int by {
                assert(long[at + i] == s[at + i]);
            }
        }
        if is_word(s, at, word) {
            assert forall|i: int| 0 <= i < word.len() implies long[at + i] as int
                == #[trigger] word[i] as int by {
                assert(long[at + i] == s[at + i]);
            }
        }
    }
}

proof fn lemma_keywords(s: Seq<u8>, t: Seq<u8>, at: int, end: int)
    requires
        0 <= at <= end < s.len(),
        !continues_identifier(s[end]),
    ensures
        is_keyword(s + t, at, "True"@) == is_keyword(s, at, "True"@),
        is_keyword(s + t, at, "true"@) == is_keyword(s, at, "true"@),
        is_keyword(s + t, at, "False"@) == is_keyword(s, at, "False"@),
        is_keyword(s + t, at, "false"@) == is_keyword(s, at, "false"@),
        is_keyword(s + t, at, "None"@) == is_keyword(s, at, "None"@),
        is_keyword(s + t, at, "none"@) == is_keyword(s, at, "none"@),
{
    lemma_literals();
    lemma_keyword(s, t, at, "True"@, end);
    lemma_keyword(s, t, at, "true"@, end);
    lemma_keyword(s, t, at, "False"@, end);
    lemma_keyword(s, t, at, "false"@, end);
    lemma_keyword(s, t, at, "None"@, end);
    lemma_keyword(s, t, at, "none"@, end);
}

proof fn lemma_no_keyword(s: Seq<u8>, at: int)
    requires
        0 <= at,
        at >= s.len() || !starts_identifier(s[at]),
    ensures
        !is_keyword(s, at, "True"@) && !is_keyword(s, at, "true"@),
        !is_keyword(s, at, "False"@) && !is_keyword(s, at, "false"@),
        !is_keyword(s, at, "None"@) && !is_keyword(s, at, "none"@),
        said_function(s, at) is Miss,
{
    lemma_literals();
    lemma_keyword_starts(s, at, "True"@);
    lemma_keyword_starts(s, at, "true"@);
    lemma_keyword_starts(s, at, "False"@);
    lemma_keyword_starts(s, at, "false"@);
    lemma_keyword_starts(s, at, "None"@);
    lemma_keyword_starts(s, at, "none"@);
}

// ── Nested rules ────────────────────────────────────────────────────────

/// Whether a bracket closes what comes before `at`, spaces aside.
spec fn closes(s: Seq<u8>, at: int) -> bool {
    is_byte(s, spaces_end(s, at), CLOSE_PAREN) || is_byte(s, spaces_end(s, at), CLOSE_BRACKET)
}

/// Nothing starts before a closing bracket.
proof fn lemma_nothing_starts(s: Seq<u8>, at: int, bodies: bool)
    requires
        0 <= at,
        closes(s, at),
    ensures
        said_item(s, at, bodies) is Miss,
{
    assert(at < s.len()) by {
        if at >= s.len() {
            assert(spaces_end(s, at) == at);
        }
    }
    lemma_no_keyword(s, at);
    assert(!is_digit(s[at]));
    assert(said_integer(s, at) is Miss);
    assert(said_scalar(s, at) is Miss);
}

proof fn lemma_item(s: Seq<u8>, t: Seq<u8>, at: int, bodies: bool)
    requires
        0 <= at,
        said_item(s, at, bodies) matches Said::Hit(_, end) && end < s.len(),
    ensures
        said_item(s + t, at, bodies) == said_item(s, at, bodies),
    decreases s.len() - at, 4nat,
{
    if bodies {
        lemma_body(s, t, at);
    } else {
        lemma_scalar(s, t, at);
    }
}

proof fn lemma_body(s: Seq<u8>, t: Seq<u8>, at: int)
    requires
        0 <= at,
        said_body(s, at) matches Said::Hit(_, end) && end < s.len(),
    ensures
        said_body(s + t, at) == said_body(s, at),
    decreases s.len() - at, 3nat,
{
    match said_scalar(s, at) {
        Said::Miss => {
            lemma_list(s, t, at);
            assert((s + t)[at] == s[at]);
            lemma_no_keyword(s + t, at);
            assert(said_integer(s + t, at) is Miss);
            assert(said_scalar(s + t, at) is Miss);
        },
        _ => {
            lemma_scalar(s, t, at);
        },
    }
}

proof fn lemma_scalar(s: Seq<u8>, t: Seq<u8>, at: int)
    requires
        0 <= at,
        said_scalar(s, at) matches Said::Hit(_, end) && end < s.len(),
    ensures
        said_scalar(s + t, at) == said_scalar(s, at),
    decreases s.len() - at, 2nat,
{
    let long = s + t;
    if at >= s.len() {
        lemma_no_keyword(s, at);
        assert(said_integer(s, at) is Miss);
        assert(said_scalar(s, at) is Miss);
    }
    assert(long[at] == s[at]);
    if starts_identifier(s[at]) {
        assert(said_variable(s, at) is Miss && said_variable(long, at) is Miss);
        assert(said_integer(s, at) is Miss && said_integer(long, at) is Miss);
        let named = is_keyword(s, at, "True"@) || is_keyword(s, at, "true"@) || is_keyword(
            s,
            at,
            "False"@,
        ) || is_keyword(s, at, "false"@) || is_keyword(s, at, "None"@) || is_keyword(
            s,
            at,
            "none"@,
        );
        if named {
            lemma_literals();
            let end = said_scalar(s, at)->Hit_1;
            assert(!continues_identifier(s[end]));
            lemma_keywords(s, t, at, end);
        } else {
            assert(said_scalar(s, at) == said_function(s, at));
            lemma_function(s, t, at);
            let end = identifier_end(s, at);
            lemma_identifier_bytes(s, t, at + 1);
            lemma_keywords(s, t, at, end);
        }
    } else {
        lemma_no_keyword(s, at);
        lemma_no_keyword(long, at);
        if s[at] == DOLLAR {
            assert(said_integer(s, at) is Miss);
            assert(said_variable(s, at) is Hit);
            lemma_variable(s, t, at);
        } else if s[at] == DOUBLE_QUOTE {
            assert(said_integer(s, at) is Miss);
            assert(said_quoted(s, at, DOUBLE_QUOTE) is Hit);
            lemma_quoted(s, t, at, DOUBLE_QUOTE);
        } else if s[at] == SINGLE_QUOTE {
            assert(said_integer(s, at) is Miss);
            assert(said_quoted(s, at, SINGLE_QUOTE) is Hit);
            lemma_quoted(s, t, at, SINGLE_QUOTE);
        } else {
            assert(said_integer(s, at) is Hit);
            lemma_integer(s, t, at);
        }
    }
}

proof fn lemma_function(s: Seq<u8>, t: Seq<u8>, at: int)
    requires
        0 <= at,
        said_function(s, at) matches Said::Hit(_, end) && end < s.len(),
    ensures
        said_function(s + t, at) == said_function(s, at),
        identifier_bytes_end(s, at + 1) < s.len(),
    decreases s.len() - at, 1nat,
{
    let long = s + t;
    let end = identifier_end(s, at);
    let open = spaces_end(s, end);
    let start = spaces_end(s, open + 1);
    assert(at < s.len() && starts_identifier(s[at]));
    assert(open < s.len());
    lemma_identifier_inside(s, at + 1);
    lemma_spaces(s, t, end);
    lemma_identifier_bytes(s, t, at + 1);
    assert(long[at] == s[at]);
    assert(long[open] == s[open]);
    assert(long.subrange(at, end) =~= s.subrange(at, end));
    match said_items(s, start, true) {
        Said::Hit(args, after) => {
            let close = spaces_end(s, after);
            assert(closes(s, after));
            lemma_items_inside(s, start, true);
            lemma_spaces(s, t, after);
            lemma_spaces(s, t, open + 1);
            lemma_items(s, t, start, true);
            assert(long[close] == s[close]);
            lemma_spaces(s, t, close + 1);
        },
        _ => {},
    }
}

proof fn lemma_list(s: Seq<u8>, t: Seq<u8>, at: int)
    requires
        0 <= at,
        said_list(s, at) matches Said::Hit(_, end) && end < s.len(),
    ensures
        said_list(s + t, at) == said_list(s, at),
    decreases s.len() - at, 1nat,
{
    let long = s + t;
    assert(long[at] == s[at]);
    match said_items(s, at + 1, false) {
        Said::Hit(items, after) => {
            lemma_items_inside(s, at + 1, false);
            assert(closes(s, after));
            lemma_spaces(s, t, after);
            lemma_items(s, t, at + 1, false);
            let close = if items.len() == 0 {
                spaces_end(s, after)
            } else {
                after
            };
            assert(long[close] == s[close]);
        },
        _ => {},
    }
}

proof fn lemma_items(s: Seq<u8>, t: Seq<u8>, at: int, bodies: bool)
    requires
        0 <= at,
        said_items(s, at, bodies) matches Said::Hit(_, after) && closes(s, after),
    ensures
        said_items(s + t, at, bodies) == said_items(s, at, bodies),
    decreases s.len() - at, 5nat,
{
    let long = s + t;
    match said_item(s, at, bodies) {
        Said::Fail(_, _) => {},
        Said::Miss => {
            lemma_spaces(s, t, at);
            let close = spaces_end(s, at);
            assert(long[close] == s[close]);
            lemma_nothing_starts(long, at, bodies);
        },
        Said::Hit(first, end) => {
            lemma_ends_early(s, end, bodies, seq![first]);
            lemma_item(s, t, at, bodies);
            lemma_more_items(s, t, end, bodies, seq![first]);
        },
    }
}

/// What is closed does not end where the bytes do.
proof fn lemma_ends_early(s: Seq<u8>, at: int, bodies: bool, done: Seq<NodeView>)
    requires
        0 <= at <= s.len(),
        said_more_items(s, at, bodies, done) matches Said::Hit(_, after) && closes(s, after),
    ensures
        at < s.len(),
{
    if at >= s.len() {
        assert(spaces_end(s, at) == at);
    }
}

proof fn lemma_more_items(s: Seq<u8>, t: Seq<u8>, at: int, bodies: bool, done: Seq<NodeView>)
    requires
        0 <= at <= s.len(),
        said_more_items(s, at, bodies, done) matches Said::Hit(_, after) && closes(s, after),
    ensures
        said_more_items(s + t, at, bodies, done) == said_more_items(s, at, bodies, done),
    decreases s.len() - at, 0nat,
{
    let long = s + t;
    let comma = spaces_end(s, at);
    lemma_spaces_end(s, at);
    lemma_ends_early(s, at, bodies, done);
    if !is_byte(s, comma, COMMA) {
        lemma_spaces(s, t, at);
        assert(long[comma] == s[comma]);
    } else {
        let start = spaces_end(s, comma + 1);
        lemma_spaces_end(s, comma + 1);
        match said_item(s, start, bodies) {
            Said::Hit(next, end) => {
                lemma_ends_early(s, end, bodies, done.push(next));
                lemma_spaces(s, t, at);
                assert(long[comma] == s[comma]);
                lemma_spaces(s, t, comma + 1);
                lemma_item(s, t, start, bodies);
                lemma_more_items(s, t, end, bodies, done.push(next));
            },
            _ => {},
        }
    }
}

proof fn lemma_identifier_inside(s: Seq<u8>, at: int)
    requires
        0 <= at <= s.len(),
    ensures
        at <= identifier_bytes_end(s, at) <= s.len(),
    decreases s.len() - at,
{
    if at < s.len() && continues_identifier(s[at]) {
        lemma_identifier_inside(s, at + 1);
    }
}

proof fn lemma_items_inside(s: Seq<u8>, at: int, bodies: bool)
    requires
        0 <= at,
    ensures
        said_items(s, at, bodies) matches Said::Hit(_, after) ==> at <= after,
{
    match said_item(s, at, bodies) {
        Said::Hit(first, end) => {
            if at < end <= s.len() {
                lemma_more_inside(s, end, bodies, seq![first]);
            }
        },
        _ => {},
    }
}

proof fn lemma_more_inside(s: Seq<u8>, at: int, bodies: bool, done: Seq<NodeView>)
    requires
        0 <= at,
    ensures
        said_more_items(s, at, bodies, done) matches Said::Hit(_, after) ==> at <= after,
    decreases s.len() - at,
{
    let comma = spaces_end(s, at);
    let start = spaces_end(s, comma + 1);
    match said_item(s, start, bodies) {
        Said::Hit(next, end) => {
            if start < end <= s.len() && at < start {
                lemma_more_inside(s, end, bodies, done.push(next));
            }
        },
        _ => {},
    }
}

// ── Laws ────────────────────────────────────────────────────────────────

/// The bytes of two texts in a row are those of the first and of the second.
proof fn lemma_utf8_joined(a: Seq<char>, b: Seq<char>)
    ensures
        utf8(a + b) == utf8(a) + utf8(b),
    decreases a.len(),
{
    if a.len() == 0 {
        assert(a + b =~= b);
        assert(utf8(a) =~= seq![]);
        assert(utf8(a) + utf8(b) =~= utf8(b));
    } else {
        lemma_utf8_joined(a.drop_first(), b);
        assert((a + b).drop_first() =~= a.drop_first() + b);
        let head = vstd::utf8::encode_scalar(a[0] as u32);
        assert((a + b)[0] == a[0]);
        assert(utf8(a) =~= head + utf8(a.drop_first()));
        assert(utf8(a + b) =~= head + utf8((a + b).drop_first()));
        assert(utf8(a + b) =~= utf8(a) + utf8(b));
    }
}

/// Text after the closing backtick is ignored: an expression that is valid is
/// valid with anything after it, is the same expression, and evaluates alike
/// whatever the variables are.
pub proof fn law_text_after_the_backtick_is_ignored(source: Seq<char>, more: Seq<char>)
    requires
        said_expression(utf8(source)) is Ok,
    ensures
        said_expression(utf8(source + more)) == said_expression(utf8(source)),
        forall|variables: Map<Seq<char>, VariableView>| #[trigger]
            expression_value(source + more, variables) == expression_value(source, variables),
{
    lemma_utf8_joined(source, more);
    let s = utf8(source);
    let t = utf8(more);
    lemma_body(s, t, 1);
    assert((s + t)[0] == s[0]);
    match said_body(s, 1) {
        Said::Hit(node, end) => {
            assert((s + t)[end] == s[end]);
        },
        _ => {},
    }
}

} // verus!
