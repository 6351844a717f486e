//! What expressions read as.

use crate::variable_expression::grammar::{
    arity_fault, continues_identifier, digits_end, digits_value, hex_end, hex_number,
    identifier_bytes_end, is_byte, is_digit, is_keyword, octal_end, octal_number, said_body,
    said_expression, said_integer, said_item, said_more_items, said_quoted, said_scalar,
    said_variable, spaces_end, text_at, unescaped, Function, Said, BACKTICK, COMMA, DOUBLE_QUOTE,
    SINGLE_QUOTE,
};
use crate::variable_expression::NodeView;
use vstd::prelude::*;

verus! {

proof fn lemma_identifier_run(s: Seq<u8>, at: int, end: int)
    requires
        0 <= at <= end < s.len(),
        forall|i: int| at <= i < end ==> continues_identifier(#[trigger] s[i]),
        !continues_identifier(s[end]),
    ensures
        identifier_bytes_end(s, at) == end,
    decreases end - at,
{
    if at < end {
        lemma_identifier_run(s, at + 1, end);
    }
}

/// A dollar sign and a name in braces, between backticks, reads as the variable
/// of that name: letters, digits and underscores, no digit first.
pub proof fn law_a_variable_reads_as_its_name(s: Seq<u8>, name: Seq<char>)
    requires
        name.len() > 0,
        s.len() == name.len() + 5,
        s[0] == 0x60,
        s[1] == 0x24,
        s[2] == 0x7b,
        s[s.len() - 2] == 0x7d,
        s[s.len() - 1] == 0x60,
        forall|i: int|
            0 <= i < name.len() ==> s[i + 3] as int == #[trigger] name[i] as int && ('a' <= name[i]
                <= 'z' || 'A' <= name[i] <= 'Z' || name[i] == '_' || (i > 0 && '0' <= name[i]
                <= '9')),
    ensures
        said_expression(s) == Ok::<NodeView, Seq<char>>(NodeView::Variable(name)),
{
    let end = s.len() - 2;
    assert(s[3] as int == name[0] as int) by {
        assert(s[0int + 3] as int == name[0] as int);
    }
    assert forall|i: int| 4 <= i < end implies continues_identifier(#[trigger] s[i]) by {
        assert(s[(i - 3) + 3] as int == name[i - 3] as int);
    }
    lemma_identifier_run(s, 4, end);
    let read = text_at(s, 3, end);
    assert(read =~= name) by {
        assert forall|i: int| 0 <= i < name.len() implies read[i] == name[i] by {
            assert(s[i + 3] as int == name[i] as int);
        }
    }
    assert(said_variable(s, 1) == Said::<Seq<char>>::Hit(name, end + 1));
}

proof fn lemma_digit_run(s: Seq<u8>, at: int, end: int)
    requires
        0 <= at <= end < s.len(),
        forall|i: int| at <= i < end ==> is_digit(#[trigger] s[i]),
        !is_digit(s[end]),
    ensures
        digits_end(s, at) == end,
    decreases end - at,
{
    if at < end {
        lemma_digit_run(s, at + 1, end);
    }
}

proof fn lemma_same_digits(s: Seq<u8>, t: Seq<u8>, from: int, to: int)
    requires
        0 <= from <= to <= s.len(),
        to <= t.len(),
        forall|i: int| from <= i < to ==> s[i] == t[i],
    ensures
        digits_value(s, from, to) == digits_value(t, from, to),
    decreases to - from,
{
    if from < to {
        lemma_same_digits(s, t, from, to - 1);
    }
}

proof fn lemma_digits_positive(s: Seq<u8>, from: int, to: int)
    requires
        0 <= from,
        to <= s.len(),
        forall|i: int| from <= i < to ==> is_digit(#[trigger] s[i]),
    ensures
        digits_value(s, from, to) >= 0,
    decreases to - from,
{
    if from < to {
        lemma_digits_positive(s, from, to - 1);
    }
}

/// A digit between backticks reads as its number; a digit behind a number, as
/// ten times the number and the digit more; and behind a negative number, less.
pub proof fn law_digits_read_as_a_number(digits: Seq<u8>, c: u8, n: i64)
    requires
        0x30 <= c <= 0x39,
        forall|i: int| 0 <= i < digits.len() ==> 0x30 <= #[trigger] digits[i] <= 0x39,
    ensures
        said_expression(seq![0x60u8, c, 0x60u8]) == Ok::<NodeView, Seq<char>>(
            NodeView::Int((c - 0x30) as i64),
        ),
        digits.len() > 0 && said_expression(seq![0x60u8] + digits + seq![0x60u8]) == Ok::<
            NodeView,
            Seq<char>,
        >(NodeView::Int(n)) && n * 10 + (c - 0x30) <= i64::MAX ==> said_expression(
            seq![0x60u8] + digits.push(c) + seq![0x60u8],
        ) == Ok::<NodeView, Seq<char>>(NodeView::Int((n * 10 + (c - 0x30)) as i64)),
        digits.len() > 0 && said_expression(seq![0x60u8] + digits + seq![0x60u8]) == Ok::<
            NodeView,
            Seq<char>,
        >(NodeView::Int(n)) ==> said_expression(
            seq![0x60u8, 0x2du8] + digits + seq![0x60u8],
        ) == Ok::<NodeView, Seq<char>>(NodeView::Int((0 - n) as i64)),
{
    let one = seq![0x60u8, c, 0x60u8];
    lemma_digit_run(one, 1, 2);
    assert(digits_value(one, 1, 1) == 0);
    assert(digits_value(one, 1, 2) == c - 0x30);
    lemma_number(one, 1);
    if digits.len() > 0 {
        let s = seq![0x60u8] + digits + seq![0x60u8];
        let t = seq![0x60u8] + digits.push(c) + seq![0x60u8];
        let u = seq![0x60u8, 0x2du8] + digits + seq![0x60u8];
        let k = digits.len() as int;
        assert forall|i: int| 1 <= i < 1 + k implies is_digit(#[trigger] s[i]) by {
            assert(s[i] == digits[i - 1]);
        }
        assert forall|i: int| 1 <= i < 2 + k implies is_digit(#[trigger] t[i]) by {
            if i < 1 + k {
                assert(t[i] == digits[i - 1]);
            }
        }
        assert forall|i: int| 2 <= i < 2 + k implies is_digit(#[trigger] u[i]) by {
            assert(u[i] == digits[i - 2]);
        }
        lemma_digit_run(s, 1, 1 + k);
        lemma_digit_run(t, 1, 2 + k);
        lemma_digit_run(u, 2, 2 + k);
        assert forall|i: int| 1 <= i < 1 + k implies s[i] == t[i] by {
            assert(s[i] == digits[i - 1] && t[i] == digits[i - 1]);
        }
        lemma_same_digits(s, t, 1, 1 + k);
        lemma_shifted_digits(s, u, 1 + k);
        lemma_digits_positive(s, 1, 1 + k);
        assert(t[1 + k] == c);
        assert(digits_value(t, 1, 2 + k) == digits_value(t, 1, 1 + k) * 10 + (c - 0x30));
        lemma_number(s, k);
        if digits_value(t, 1, 2 + k) <= i64::MAX {
            lemma_number(t, k + 1);
        }
        lemma_no_name(u);
    }
}

proof fn lemma_shifted_digits(s: Seq<u8>, u: Seq<u8>, to: int)
    requires
        1 <= to <= s.len(),
        to + 1 <= u.len(),
        forall|i: int| 1 <= i < to ==> #[trigger] s[i] == u[i + 1],
    ensures
        digits_value(s, 1, to) == digits_value(u, 2, to + 1),
    decreases to,
{
    if to > 1 {
        lemma_shifted_digits(s, u, to - 1);
        assert(s[to - 1] == u[to - 1 + 1]);
    }
}

proof fn lemma_no_name(s: Seq<u8>)
    requires
        s.len() > 2,
        s[0] == BACKTICK,
        is_digit(s[1]) || s[1] == 0x2d,
    ensures
        said_variable(s, 1) is Miss,
        said_quoted(s, 1, DOUBLE_QUOTE) is Miss,
        said_quoted(s, 1, SINGLE_QUOTE) is Miss,
        said_integer(s, 1) matches Said::Hit(n, end) ==> said_body(s, 1) == Said::Hit(
            NodeView::Int(n),
            end,
        ),
        said_integer(s, 1) matches Said::Fail(message, at) ==> said_body(s, 1) is Fail,
{
}

/// What a run of digits between backticks reads as.
proof fn lemma_number(s: Seq<u8>, count: int)
    requires
        count > 0,
        s.len() == count + 2,
        s[0] == BACKTICK,
        s[count + 1] == BACKTICK,
        digits_end(s, 1) == count + 1,
        is_digit(s[1]),
    ensures
        digits_value(s, 1, count + 1) <= i64::MAX ==> said_expression(s) == Ok::<
            NodeView,
            Seq<char>,
        >(NodeView::Int(digits_value(s, 1, count + 1) as i64)),
        digits_value(s, 1, count + 1) > i64::MAX ==> said_expression(s) is Err,
{
    lemma_no_name(s);
}

/// `true` and `false` read as the truth values and `none` as nothing, with or
/// without a capital.
pub proof fn law_keywords_read_as_what_they_name(s: Seq<u8>)
    requires
        s.len() > 2,
        s[0] == 0x60,
    ensures
        s == seq![0x60u8, 0x74, 0x72, 0x75, 0x65, 0x60] || s == seq![
            0x60u8,
            0x54,
            0x72,
            0x75,
            0x65,
            0x60,
        ] ==> said_expression(s) == Ok::<NodeView, Seq<char>>(NodeView::Bool(true)),
        s == seq![0x60u8, 0x66, 0x61, 0x6c, 0x73, 0x65, 0x60] || s == seq![
            0x60u8,
            0x46,
            0x61,
            0x6c,
            0x73,
            0x65,
            0x60,
        ] ==> said_expression(s) == Ok::<NodeView, Seq<char>>(NodeView::Bool(false)),
        s == seq![0x60u8, 0x6e, 0x6f, 0x6e, 0x65, 0x60] || s == seq![
            0x60u8,
            0x4e,
            0x6f,
            0x6e,
            0x65,
            0x60,
        ] ==> said_expression(s) == Ok::<NodeView, Seq<char>>(NodeView::Nothing),
{
    reveal_strlit("True");
    reveal_strlit("true");
    reveal_strlit("False");
    reveal_strlit("false");
    reveal_strlit("None");
    reveal_strlit("none");
    assert("True"@[0] == 'T' && "true"@[0] == 't');
    assert("False"@[0] == 'F' && "false"@[0] == 'f');
    assert("None"@[0] == 'N' && "None"@[1] == 'o' && "None"@[2] == 'n' && "None"@[3] == 'e');
    assert("none"@[0] == 'n' && "none"@[1] == 'o' && "none"@[2] == 'n' && "none"@[3] == 'e');
    if s == seq![0x60u8, 0x6e, 0x6f, 0x6e, 0x65, 0x60] {
        assert(s[1] == 0x6e && s[5] == 0x60);
        assert(is_keyword(s, 1, "none"@));
        assert(s[1int + 0] as int != "True"@[0] as int && s[1int + 0] as int != "true"@[0] as int);
        assert(s[1int + 0] as int != "False"@[0] as int && s[1int + 0] as int != "false"@[0] as int);
        assert(said_integer(s, 1) is Miss);
        assert(said_scalar(s, 1) == Said::Hit(NodeView::Nothing, 5));
    }
    if s == seq![0x60u8, 0x4e, 0x6f, 0x6e, 0x65, 0x60] {
        assert(s[1] == 0x4e && s[5] == 0x60);
        assert(is_keyword(s, 1, "None"@));
        assert(s[1int + 0] as int != "True"@[0] as int && s[1int + 0] as int != "true"@[0] as int);
        assert(s[1int + 0] as int != "False"@[0] as int && s[1int + 0] as int != "false"@[0] as int);
        assert(said_integer(s, 1) is Miss);
        assert(said_scalar(s, 1) == Said::Hit(NodeView::Nothing, 5));
    }
}

// ── Escapes ─────────────────────────────────────────────────────────────

/// A run without backslashes stands for itself.
pub proof fn law_plain_runs_stand_for_themselves(s: Seq<u8>, at: int)
    requires
        0 <= at <= s.len(),
        forall|i: int| at <= i < s.len() ==> #[trigger] s[i] != 0x5c,
    ensures
        unescaped(s, at) == s.skip(at),
    decreases s.len() - at,
{
    if at < s.len() {
        law_plain_runs_stand_for_themselves(s, at + 1);
        assert(s.skip(at) =~= seq![s[at]] + s.skip(at + 1));
    } else {
        assert(s.skip(at) =~= seq![]);
    }
}

/// A backslash before a letter stands for the control character that the letter
/// names, before `x` and two hexadecimal digits for the byte that they write,
/// before three octal digits for that byte, and before anything else for what
/// follows it.
pub proof fn law_escapes_stand_for_bytes(s: Seq<u8>, at: int)
    requires
        0 <= at,
        at + 4 <= s.len(),
        s[at] == 0x5c,
    ensures
        ({
            let e = s[at + 1];
            let rest = unescaped(s, at + 2);
            &&& e == 0x61 ==> unescaped(s, at) == seq![0x07u8] + rest
            &&& e == 0x62 ==> unescaped(s, at) == seq![0x08u8] + rest
            &&& e == 0x66 ==> unescaped(s, at) == seq![0x0cu8] + rest
            &&& e == 0x6e ==> unescaped(s, at) == seq![0x0au8] + rest
            &&& e == 0x72 ==> unescaped(s, at) == seq![0x0du8] + rest
            &&& e == 0x74 ==> unescaped(s, at) == seq![0x09u8] + rest
            &&& e == 0x76 ==> unescaped(s, at) == seq![0x0bu8] + rest
            &&& e == 0x5c || e == 0x22 || e == 0x27 || e == 0x24 || e == 0x60 ==> unescaped(s, at)
                == seq![e] + rest
            &&& e == 0x78 && 0x30 <= s[at + 2] <= 0x39 && 0x30 <= s[at + 3] <= 0x39 ==> unescaped(
                s,
                at,
            ) == seq![((s[at + 2] - 0x30) * 16 + (s[at + 3] - 0x30)) as u8] + unescaped(s, at + 4)
            &&& e == 0x78 && 0x61 <= s[at + 2] <= 0x66 && 0x41 <= s[at + 3] <= 0x46 ==> unescaped(
                s,
                at,
            ) == seq![((s[at + 2] - 0x61 + 10) * 16 + (s[at + 3] - 0x41 + 10)) as u8] + unescaped(
                s,
                at + 4,
            )
            &&& 0x30 <= e <= 0x33 && 0x30 <= s[at + 2] <= 0x37 && 0x30 <= s[at + 3] <= 0x37
                ==> unescaped(s, at) == seq![
                ((e - 0x30) * 64 + (s[at + 2] - 0x30) * 8 + (s[at + 3] - 0x30)) as u8,
            ] + unescaped(s, at + 4)
        }),
{
    reveal_with_fuel(hex_end, 3);
    reveal_with_fuel(octal_end, 4);
    reveal_with_fuel(hex_number, 3);
    reveal_with_fuel(octal_number, 4);
}

// ── Lists and calls ─────────────────────────────────────────────────────

/// Where an item follows a comma, with spaces on either side of it, reading
/// items goes on behind it, and keeps it.
pub proof fn law_an_item_after_a_comma_is_read(
    s: Seq<u8>,
    at: int,
    bodies: bool,
    done: Seq<NodeView>,
    comma: int,
    start: int,
    next: NodeView,
    end: int,
)
    requires
        0 <= at <= comma < start < end <= s.len(),
        forall|i: int| at <= i < comma ==> #[trigger] s[i] == 0x20,
        s[comma] == 0x2c,
        forall|i: int| comma < i < start ==> #[trigger] s[i] == 0x20,
        s[start] != 0x20,
        said_item(s, start, bodies) == Said::Hit(next, end),
    ensures
        said_more_items(s, at, bodies, done) == said_more_items(s, end, bodies, done.push(next)),
        said_more_items(s, at, bodies, done) matches Said::Hit(items, after) ==> done.push(
            next,
        ).is_prefix_of(items),
{
    lemma_spaces(s, at, comma);
    lemma_spaces(s, comma + 1, start);
    lemma_items_kept(s, end, bodies, done.push(next));
}

proof fn lemma_spaces(s: Seq<u8>, at: int, end: int)
    requires
        0 <= at <= end < s.len(),
        forall|i: int| at <= i < end ==> #[trigger] s[i] == 0x20,
        s[end] != 0x20,
    ensures
        spaces_end(s, at) == end,
    decreases end - at,
{
    if at < end {
        lemma_spaces(s, at + 1, end);
    }
}

proof fn lemma_items_kept(s: Seq<u8>, at: int, bodies: bool, done: Seq<NodeView>)
    ensures
        said_more_items(s, at, bodies, done) matches Said::Hit(items, after) ==> done.is_prefix_of(
            items,
        ),
    decreases s.len() - at,
{
    let comma = spaces_end(s, at);
    let start = spaces_end(s, comma + 1);
    if is_byte(s, comma, COMMA) && at < start <= s.len() {
        match said_item(s, start, bodies) {
            Said::Hit(next, end) => if start < end <= s.len() {
                lemma_items_kept(s, end, bodies, done.push(next));
                match said_more_items(s, end, bodies, done.push(next)) {
                    Said::Hit(items, after) => {
                        assert forall|i: int| 0 <= i < done.len() implies done[i] == items[i] by {
                            assert(done.push(next)[i] == items[i]);
                        }
                        assert(done =~= items.take(done.len() as int));
                    },
                    _ => {},
                }
            },
            _ => {},
        }
    }
}

/// How many arguments each function takes: `if` two or three, `not` and `len`
/// one, `and` and `or` two or more, `defined` one or more, the others two.
pub proof fn law_functions_take_their_arguments(name: Seq<char>, count: nat)
    ensures
        takes(name, Function::If, count) <==> count == 2 || count == 3,
        takes(name, Function::Not, count) <==> count == 1,
        takes(name, Function::Len, count) <==> count == 1,
        takes(name, Function::And, count) <==> count >= 2,
        takes(name, Function::Or, count) <==> count >= 2,
        takes(name, Function::Defined, count) <==> count >= 1,
        takes(name, Function::Eq, count) <==> count == 2,
        takes(name, Function::Neq, count) <==> count == 2,
        takes(name, Function::Lt, count) <==> count == 2,
        takes(name, Function::Leq, count) <==> count == 2,
        takes(name, Function::Gt, count) <==> count == 2,
        takes(name, Function::Geq, count) <==> count == 2,
        takes(name, Function::Contains, count) <==> count == 2,
        takes(name, Function::MatchesRegex, count) <==> count == 2,
        takes(name, Function::At, count) <==> count == 2,
{
}

/// Whether a number of arguments is no fault of a call.
pub open spec fn takes(name: Seq<char>, function: Function, count: nat) -> bool {
    arity_fault(name, function, count) is None
}

} // verus!
