//! The grammar of variable expressions, and its recursive-descent parser.
//!
//! A rule reads bytes from some index on. It misses and consumes nothing, hits
//! and consumes a non-empty run, or, once it has committed itself, fails with a
//! message and the index at which it failed.

use crate::text::{
    bytes_of, chars_of, decimal, decimal_text, lossy_text, push_text, same_text, text,
    text_of_bytes, utf8,
};
use crate::variable_expression::{nodes_of, parts_of, Node, NodeView, Part, PartView};
use vstd::prelude::*;

verus! {

/// What a rule makes of the bytes from some index on.
pub enum Said<T> {
    Miss,
    Hit(T, int),
    Fail(Seq<char>, int),
}

/// The outcome of running a rule.
pub enum Parsed<T> {
    Miss,
    Hit(T, usize),
    Fail(String, usize),
}

impl Parsed<Node> {
    pub open spec fn node(&self) -> Said<NodeView> {
        match self {
            Parsed::Miss => Said::Miss,
            Parsed::Hit(node, end) => Said::Hit(node.view(), *end as int),
            Parsed::Fail(message, at) => Said::Fail(message@, *at as int),
        }
    }
}

impl Parsed<Vec<Node>> {
    pub open spec fn nodes(&self) -> Said<Seq<NodeView>> {
        match self {
            Parsed::Miss => Said::Miss,
            Parsed::Hit(list, end) => Said::Hit(nodes_of(list@), *end as int),
            Parsed::Fail(message, at) => Said::Fail(message@, *at as int),
        }
    }
}

impl Parsed<Vec<Part>> {
    pub open spec fn parts(&self) -> Said<Seq<PartView>> {
        match self {
            Parsed::Miss => Said::Miss,
            Parsed::Hit(list, end) => Said::Hit(parts_of(list@), *end as int),
            Parsed::Fail(message, at) => Said::Fail(message@, *at as int),
        }
    }
}

impl Parsed<String> {
    pub open spec fn name(&self) -> Said<Seq<char>> {
        match self {
            Parsed::Miss => Said::Miss,
            Parsed::Hit(name, end) => Said::Hit(name@, *end as int),
            Parsed::Fail(message, at) => Said::Fail(message@, *at as int),
        }
    }
}

impl Parsed<i64> {
    pub open spec fn number(&self) -> Said<i64> {
        match self {
            Parsed::Miss => Said::Miss,
            Parsed::Hit(n, end) => Said::Hit(*n, *end as int),
            Parsed::Fail(message, at) => Said::Fail(message@, *at as int),
        }
    }
}

// ── Bytes ───────────────────────────────────────────────────────────────

pub const SPACE: u8 = 0x20;

pub const DOUBLE_QUOTE: u8 = 0x22;

pub const DOLLAR: u8 = 0x24;

pub const SINGLE_QUOTE: u8 = 0x27;

pub const OPEN_PAREN: u8 = 0x28;

pub const CLOSE_PAREN: u8 = 0x29;

pub const COMMA: u8 = 0x2c;

pub const MINUS: u8 = 0x2d;

pub const OPEN_BRACKET: u8 = 0x5b;

pub const BACKSLASH: u8 = 0x5c;

pub const CLOSE_BRACKET: u8 = 0x5d;

pub const BACKTICK: u8 = 0x60;

pub const OPEN_BRACE: u8 = 0x7b;

pub const CLOSE_BRACE: u8 = 0x7d;

/// Whether the byte at `at` is `c`.
pub open spec fn is_byte(s: Seq<u8>, at: int, c: u8) -> bool {
    0 <= at < s.len() && s[at] == c
}

fn at_byte(s: &Vec<u8>, at: usize, c: u8) -> (is: bool)
    ensures
        is == is_byte(s@, at as int, c),
{
    at < s.len() && s[at] == c
}

/// Whether the bytes from `at` on start with an ASCII word.
pub open spec fn is_word(s: Seq<u8>, at: int, word: Seq<char>) -> bool {
    &&& at + word.len() <= s.len()
    &&& forall|i: int| 0 <= i < word.len() ==> s[at + i] as int == #[trigger] word[i] as int
}

fn at_word(s: &Vec<u8>, at: usize, word: &str) -> (is: bool)
    requires
        at <= s.len(),
    ensures
        is == is_word(s@, at as int, word@),
{
    let chars = chars_of(word);
    if s.len() - at < chars.len() {
        return false;
    }
    let mut i: usize = 0;
    while i < chars.len()
        invariant
            chars@ == word@,
            i <= chars.len(),
            at + chars.len() <= s.len(),
            forall|j: int| 0 <= j < i ==> s@[at + j] as int == #[trigger] word@[j] as int,
        decreases chars.len() - i,
    {
        if s[at + i] as char != chars[i] {
            assert(word@[i as int] as int != s@[at + i] as int);
            return false;
        }
        i = i + 1;
    }
    true
}

/// Whether a byte can start an identifier.
pub open spec fn starts_identifier(c: u8) -> bool {
    0x41 <= c <= 0x5a || 0x61 <= c <= 0x7a || c == 0x5f
}

/// Whether a byte is a decimal digit.
pub open spec fn is_digit(c: u8) -> bool {
    0x30 <= c <= 0x39
}

/// Whether a byte can stand in an identifier.
pub open spec fn continues_identifier(c: u8) -> bool {
    starts_identifier(c) || is_digit(c)
}

fn is_identifier_start(c: u8) -> (is: bool)
    ensures
        is == starts_identifier(c),
{
    0x41 <= c && c <= 0x5a || 0x61 <= c && c <= 0x7a || c == 0x5f
}

fn is_decimal_digit(c: u8) -> (is: bool)
    ensures
        is == is_digit(c),
{
    0x30 <= c && c <= 0x39
}

fn is_identifier_byte(c: u8) -> (is: bool)
    ensures
        is == continues_identifier(c),
{
    is_identifier_start(c) || is_decimal_digit(c)
}

/// The end of the run of spaces at `at`.
pub open spec fn spaces_end(s: Seq<u8>, at: int) -> int
    decreases s.len() - at,
{
    if is_byte(s, at, SPACE) {
        spaces_end(s, at + 1)
    } else {
        at
    }
}

pub proof fn lemma_spaces_end(s: Seq<u8>, at: int)
    requires
        0 <= at <= s.len(),
    ensures
        at <= spaces_end(s, at) <= s.len(),
    decreases s.len() - at,
{
    if is_byte(s, at, SPACE) {
        lemma_spaces_end(s, at + 1);
    }
}

fn spaces(s: &Vec<u8>, from: usize) -> (end: usize)
    requires
        from <= s.len(),
    ensures
        end == spaces_end(s@, from as int),
        from <= end <= s.len(),
{
    let mut at: usize = from;
    while at_byte(s, at, SPACE)
        invariant
            from <= at <= s.len(),
            spaces_end(s@, from as int) == spaces_end(s@, at as int),
        decreases s.len() - at,
    {
        at = at + 1;
    }
    at
}

/// The end of the run of identifier bytes at `at`.
pub open spec fn identifier_bytes_end(s: Seq<u8>, at: int) -> int
    decreases s.len() - at,
{
    if 0 <= at < s.len() && continues_identifier(s[at]) {
        identifier_bytes_end(s, at + 1)
    } else {
        at
    }
}

/// The end of the C identifier at `at`, or `at` where there is none.
pub open spec fn identifier_end(s: Seq<u8>, at: int) -> int {
    if 0 <= at < s.len() && starts_identifier(s[at]) {
        identifier_bytes_end(s, at + 1)
    } else {
        at
    }
}

proof fn lemma_identifier_bytes_end(s: Seq<u8>, at: int)
    requires
        0 <= at <= s.len(),
    ensures
        at <= identifier_bytes_end(s, at) <= s.len(),
    decreases s.len() - at,
{
    if at < s.len() && continues_identifier(s[at]) {
        lemma_identifier_bytes_end(s, at + 1);
    }
}

fn identifier(s: &Vec<u8>, from: usize) -> (end: usize)
    requires
        from <= s.len(),
    ensures
        end == identifier_end(s@, from as int),
        from <= end <= s.len(),
{
    if from >= s.len() || !is_identifier_start(s[from]) {
        return from;
    }
    let mut at: usize = from + 1;
    while at < s.len() && is_identifier_byte(s[at])
        invariant
            from < at <= s.len(),
            identifier_bytes_end(s@, from + 1) == identifier_bytes_end(s@, at as int),
        decreases s.len() - at,
    {
        at = at + 1;
    }
    at
}

/// Whether `word` stands at `at` and no identifier byte follows it.
pub open spec fn is_keyword(s: Seq<u8>, at: int, word: Seq<char>) -> bool {
    &&& is_word(s, at, word)
    &&& !(at + word.len() < s.len() && continues_identifier(s[at + word.len()]))
}

fn keyword(s: &Vec<u8>, at: usize, word: &str, len: usize) -> (is: bool)
    requires
        at <= s.len(),
        len == word@.len(),
    ensures
        is == is_keyword(s@, at as int, word@),
        is ==> at + len <= s.len(),
{
    if !at_word(s, at, word) {
        return false;
    }
    !(at + len < s.len() && is_identifier_byte(s[at + len]))
}

// ── Escapes ─────────────────────────────────────────────────────────────

/// Whether a byte is a hexadecimal digit.
pub open spec fn is_hex(c: u8) -> bool {
    is_digit(c) || 0x41 <= c <= 0x46 || 0x61 <= c <= 0x66
}

/// The value of a hexadecimal digit.
pub open spec fn hex_digit(c: u8) -> int {
    if is_digit(c) {
        c - 0x30
    } else if 0x61 <= c <= 0x66 {
        c - 0x61 + 10
    } else {
        c - 0x41 + 10
    }
}

/// The value of the hexadecimal digits `s[at..end]`.
pub open spec fn hex_number(s: Seq<u8>, at: int, end: int) -> int
    decreases end - at,
{
    if end <= at {
        0
    } else {
        hex_number(s, at, end - 1) * 16 + hex_digit(s[end - 1])
    }
}

/// The end of the run of at most `most` hexadecimal digits at `at`.
pub open spec fn hex_end(s: Seq<u8>, at: int, most: nat) -> int
    decreases most,
{
    if most > 0 && 0 <= at < s.len() && is_hex(s[at]) {
        hex_end(s, at + 1, (most - 1) as nat)
    } else {
        at
    }
}

/// Whether a byte is an octal digit.
pub open spec fn is_octal(c: u8) -> bool {
    0x30 <= c <= 0x37
}

/// The value of the octal digits `s[at..end]`.
pub open spec fn octal_number(s: Seq<u8>, at: int, end: int) -> int
    decreases end - at,
{
    if end <= at {
        0
    } else {
        octal_number(s, at, end - 1) * 8 + (s[end - 1] - 0x30)
    }
}

/// The end of the run of at most `most` octal digits at `at`.
pub open spec fn octal_end(s: Seq<u8>, at: int, most: nat) -> int
    decreases most,
{
    if most > 0 && 0 <= at < s.len() && is_octal(s[at]) {
        octal_end(s, at + 1, (most - 1) as nat)
    } else {
        at
    }
}

/// The byte that one escape letter stands for.
pub open spec fn escaped_byte(e: u8) -> u8 {
    if e == 0x61 {
        0x07
    } else if e == 0x62 {
        0x08
    } else if e == 0x66 {
        0x0c
    } else if e == 0x6e {
        0x0a
    } else if e == 0x72 {
        0x0d
    } else if e == 0x74 {
        0x09
    } else if e == 0x76 {
        0x0b
    } else {
        e
    }
}

/// Replaces the C escapes of `s` from `at` on: the letters `a b f n r t v`,
/// `x` with up to two hexadecimal digits, and up to three octal digits; any
/// other escaped byte stands for itself, and so does a backslash at the end.
pub open spec fn unescaped(s: Seq<u8>, at: int) -> Seq<u8>
    decreases s.len() - at,
{
    if at < 0 || at >= s.len() {
        seq![]
    } else if s[at] != BACKSLASH || at + 1 == s.len() {
        seq![s[at]] + unescaped(s, at + 1)
    } else {
        let e = s[at + 1];
        if e == 0x78 {
            let end = hex_end(s, at + 2, 2);
            seq![hex_number(s, at + 2, end) as u8] + (if at + 2 <= end <= s.len() {
                unescaped(s, end)
            } else {
                seq![]
            })
        } else if is_octal(e) {
            let end = octal_end(s, at + 1, 3);
            seq![(octal_number(s, at + 1, end) % 256) as u8] + (if at + 2 <= end <= s.len() {
                unescaped(s, end)
            } else {
                seq![]
            })
        } else {
            seq![escaped_byte(e)] + unescaped(s, at + 2)
        }
    }
}

fn hex_value(c: u8) -> (value: u8)
    requires
        is_hex(c),
    ensures
        value == hex_digit(c),
        value < 16,
{
    if is_decimal_digit(c) {
        c - 0x30
    } else if 0x61 <= c && c <= 0x66 {
        c - 0x61 + 10
    } else {
        c - 0x41 + 10
    }
}

fn is_hex_digit(c: u8) -> (is: bool)
    ensures
        is == is_hex(c),
{
    is_decimal_digit(c) || 0x41 <= c && c <= 0x46 || 0x61 <= c && c <= 0x66
}

/// Replaces the C escapes of `text` and drops the backslash of any other
/// escaped character.
fn unescape(s: &Vec<u8>) -> (out: Vec<u8>)
    ensures
        out@ == unescaped(s@, 0),
{
    let mut out: Vec<u8> = Vec::new();
    let mut i: usize = 0;
    assert(out@ + unescaped(s@, 0) =~= unescaped(s@, 0));
    while i < s.len()
        invariant
            i <= s.len(),
            out@ + unescaped(s@, i as int) == unescaped(s@, 0),
        decreases s.len() - i,
    {
        let c = s[i];
        let ghost before = out@;
        let ghost at = i as int;
        i = i + 1;
        if c != BACKSLASH || i == s.len() {
            out.push(c);
            assert(out@ + unescaped(s@, i as int) =~= before + unescaped(s@, at));
        } else {
            let e = s[i];
            i = i + 1;
            if e == 0x78 {
                let mut n: u8 = 0;
                let mut digits: u8 = 0;
                while digits < 2 && i < s.len() && is_hex_digit(s[i])
                    invariant
                        at + 2 <= i <= s.len(),
                        digits <= 2,
                        i == at + 2 + digits,
                        n == hex_number(s@, at + 2, i as int),
                        digits == 0 ==> n == 0,
                        digits == 1 ==> n < 16,
                        hex_end(s@, at + 2, 2) == hex_end(s@, i as int, (2 - digits) as nat),
                    decreases 2 - digits,
                {
                    let value = hex_value(s[i]);
                    assert(n < 16 && value < 16);
                    n = n * 16 + value;
                    i = i + 1;
                    digits = digits + 1;
                }
                out.push(n);
                assert(out@ + unescaped(s@, i as int) =~= before + unescaped(s@, at));
            } else if 0x30 <= e && e <= 0x37 {
                let mut n: u16 = (e - 0x30) as u16;
                let mut digits: u8 = 1;
                proof {
                    reveal_with_fuel(octal_number, 2);
                    reveal_with_fuel(octal_end, 2);
                }
                while digits < 3 && i < s.len() && 0x30 <= s[i] && s[i] <= 0x37
                    invariant
                        at + 2 <= i <= s.len(),
                        1 <= digits <= 3,
                        i == at + 1 + digits,
                        n == octal_number(s@, at + 1, i as int),
                        digits == 1 ==> n < 8,
                        digits == 2 ==> n < 64,
                        digits == 3 ==> n < 512,
                        octal_end(s@, at + 1, 3) == octal_end(s@, i as int, (3 - digits) as nat),
                    decreases 3 - digits,
                {
                    n = n * 8 + (s[i] - 0x30) as u16;
                    i = i + 1;
                    digits = digits + 1;
                }
                let byte: u8 = (n % 256) as u8;
                out.push(byte);
                assert(out@ + unescaped(s@, i as int) =~= before + unescaped(s@, at));
            } else {
                let byte: u8 = if e == 0x61 {
                    0x07
                } else if e == 0x62 {
                    0x08
                } else if e == 0x66 {
                    0x0c
                } else if e == 0x6e {
                    0x0a
                } else if e == 0x72 {
                    0x0d
                } else if e == 0x74 {
                    0x09
                } else if e == 0x76 {
                    0x0b
                } else {
                    e
                };
                out.push(byte);
                assert(out@ + unescaped(s@, i as int) =~= before + unescaped(s@, at));
            }
        }
    }
    assert(out@ + unescaped(s@, i as int) =~= out@);
    out
}

// ── Scalars ─────────────────────────────────────────────────────────────

/// The text of the bytes `s[from..to]`, each taken as a character: names and
/// numbers are ASCII.
pub open spec fn text_at(s: Seq<u8>, from: int, to: int) -> Seq<char> {
    s.subrange(from, to).map_values(|c: u8| c as char)
}

/// The text of the bytes `s[from..to]`, each taken as a character.
fn ascii_between(s: &Vec<u8>, from: usize, to: usize) -> (out: String)
    requires
        from <= to <= s.len(),
    ensures
        out@ == text_at(s@, from as int, to as int),
{
    let mut out = String::new();
    let mut i: usize = from;
    assert(out@ =~= text_at(s@, from as int, i as int));
    while i < to
        invariant
            from <= i <= to <= s.len(),
            out@ == text_at(s@, from as int, i as int),
        decreases to - i,
    {
        out.push(s[i] as char);
        assert(out@ =~= text_at(s@, from as int, i + 1));
        i = i + 1;
    }
    out
}

/// `${NAME}`: once `${` matches, the name and `}` must follow.
pub open spec fn said_variable(s: Seq<u8>, at: int) -> Said<Seq<char>> {
    if !(is_byte(s, at, DOLLAR) && is_byte(s, at + 1, OPEN_BRACE)) {
        Said::Miss
    } else {
        let end = identifier_end(s, at + 2);
        if end == at + 2 {
            Said::Fail("Variables must be a C identifier"@, end)
        } else if !is_byte(s, end, CLOSE_BRACE) {
            Said::Fail("Missing ending '}'"@, end)
        } else {
            Said::Hit(text_at(s, at + 2, end), end + 1)
        }
    }
}

fn variable(s: &Vec<u8>, at: usize) -> (out: Parsed<String>)
    requires
        at <= s.len(),
    ensures
        out.name() == said_variable(s@, at as int),
        out matches Parsed::Hit(_, end) ==> at < end <= s.len(),
{
    if !(at_byte(s, at, DOLLAR) && at_byte(s, at + 1, OPEN_BRACE)) {
        return Parsed::Miss;
    }
    let end = identifier(s, at + 2);
    if end == at + 2 {
        return Parsed::Fail(text("Variables must be a C identifier"), end);
    }
    if !at_byte(s, end, CLOSE_BRACE) {
        return Parsed::Fail(text("Missing ending '}'"), end);
    }
    Parsed::Hit(ascii_between(s, at + 2, end), end + 1)
}

/// Whether a backslash before this byte escapes it inside `quote`s.
pub open spec fn is_escapable(c: u8, quote: u8) -> bool {
    c == BACKTICK || c == DOLLAR || c == BACKSLASH || c == quote
}

/// Whether an escape stands at `at`.
pub open spec fn is_escape(s: Seq<u8>, at: int, quote: u8) -> bool {
    is_byte(s, at, BACKSLASH) && at + 1 < s.len() && is_escapable(s[at + 1], quote)
}

/// The end of the run of text at `at`: up to the quote, a substitution or the
/// end of the input.
pub open spec fn run_end(s: Seq<u8>, at: int, quote: u8) -> int
    decreases s.len() - at,
{
    if at < 0 || at >= s.len() {
        at
    } else if is_escape(s, at, quote) {
        run_end(s, at + 2, quote)
    } else if s[at] == quote || (is_byte(s, at, DOLLAR) && is_byte(s, at + 1, OPEN_BRACE)) {
        at
    } else {
        run_end(s, at + 1, quote)
    }
}

fn text_run(s: &Vec<u8>, from: usize, quote: u8) -> (end: usize)
    requires
        from <= s.len(),
    ensures
        end == run_end(s@, from as int, quote),
        from <= end <= s.len(),
{
    let mut at: usize = from;
    while at < s.len()
        invariant_except_break
            run_end(s@, from as int, quote) == run_end(s@, at as int, quote),
        invariant
            from <= at <= s.len(),
        ensures
            at == run_end(s@, from as int, quote),
        decreases s.len() - at,
    {
        let c = s[at];
        if c == BACKSLASH && at + 1 < s.len() && (s[at + 1] == BACKTICK || s[at + 1] == DOLLAR
            || s[at + 1] == BACKSLASH || s[at + 1] == quote) {
            at = at + 2;
        } else if c == quote || (c == DOLLAR && at_byte(s, at + 1, OPEN_BRACE)) {
            break ;
        } else {
            at = at + 1;
        }
    }
    at
}

/// The parts of a quoted string from `at` on, after the parts in `done`.
pub open spec fn said_parts(
    s: Seq<u8>,
    at: int,
    quote: u8,
    done: Seq<PartView>,
) -> Said<Seq<PartView>>
    decreases s.len() - at,
{
    match said_variable(s, at) {
        Said::Fail(message, index) => Said::Fail(message, index),
        Said::Hit(name, end) => if at < end <= s.len() {
            said_parts(s, end, quote, done.push(PartView::Variable(name)))
        } else {
            Said::Miss
        },
        Said::Miss => {
            let end = run_end(s, at, quote);
            if end == at {
                Said::Hit(done, at)
            } else if at < end <= s.len() {
                let run = lossy_text(unescaped(s.subrange(at, end), 0));
                said_parts(s, end, quote, done.push(PartView::Text(run)))
            } else {
                Said::Miss
            }
        },
    }
}

/// A string in `quote`s: runs of text, with `\` escaping a backtick, `$`, `\`
/// or the quote, and `${NAME}` substitutions. Once the opening quote matches,
/// the closing one must follow.
pub open spec fn said_quoted(s: Seq<u8>, at: int, quote: u8) -> Said<Seq<PartView>> {
    if !is_byte(s, at, quote) {
        Said::Miss
    } else {
        match said_parts(s, at + 1, quote, seq![]) {
            Said::Hit(parts, end) => if is_byte(s, end, quote) {
                Said::Hit(parts, end + 1)
            } else if quote == DOUBLE_QUOTE {
                Said::Fail("Missing ending '\"'"@, end)
            } else {
                Said::Fail("Missing ending \"'\""@, end)
            },
            other => other,
        }
    }
}

/// The bytes `s[from..to]`.
fn bytes_between(s: &Vec<u8>, from: usize, to: usize) -> (out: Vec<u8>)
    requires
        from <= to <= s.len(),
    ensures
        out@ == s@.subrange(from as int, to as int),
{
    let mut out: Vec<u8> = Vec::new();
    let mut i: usize = from;
    while i < to
        invariant
            from <= i <= to <= s.len(),
            out@ == s@.subrange(from as int, i as int),
        decreases to - i,
    {
        out.push(s[i]);
        i = i + 1;
        assert(out@ =~= s@.subrange(from as int, i as int));
    }
    out
}

fn quoted(s: &Vec<u8>, at: usize, quote: u8) -> (out: Parsed<Vec<Part>>)
    requires
        at <= s.len(),
    ensures
        out.parts() == said_quoted(s@, at as int, quote),
        out matches Parsed::Hit(_, end) ==> at < end <= s.len(),
{
    if !at_byte(s, at, quote) {
        return Parsed::Miss;
    }
    let mut pos: usize = at + 1;
    let mut parts: Vec<Part> = Vec::new();
    assert(parts_of(parts@) =~= seq![]);
    loop
        invariant
            is_byte(s@, at as int, quote),
            at < pos <= s.len(),
            said_parts(s@, at + 1, quote, seq![]) == said_parts(
                s@,
                pos as int,
                quote,
                parts_of(parts@),
            ),
        ensures
            said_parts(s@, at + 1, quote, seq![]) == Said::Hit(parts_of(parts@), pos as int),
        decreases s.len() - pos,
    {
        let ghost done = parts_of(parts@);
        match variable(s, pos) {
            Parsed::Fail(message, index) => {
                return Parsed::Fail(message, index);
            },
            Parsed::Hit(name, end) => {
                parts.push(Part::Variable(name));
                assert(parts_of(parts@) =~= done.push(PartView::Variable(name@)));
                pos = end;
            },
            Parsed::Miss => {
                let end = text_run(s, pos, quote);
                if end == pos {
                    break ;
                }
                let raw = bytes_between(s, pos, end);
                let run = unescape(&raw);
                let piece = text_of_bytes(run.as_slice());
                parts.push(Part::Text(piece));
                assert(parts_of(parts@) =~= done.push(PartView::Text(piece@)));
                pos = end;
            },
        }
    }
    if !at_byte(s, pos, quote) {
        if quote == DOUBLE_QUOTE {
            return Parsed::Fail(text("Missing ending '\"'"), pos);
        }
        return Parsed::Fail(text("Missing ending \"'\""), pos);
    }
    Parsed::Hit(parts, pos + 1)
}

/// The value of the decimal digits `s[from..to]`.
pub open spec fn digits_value(s: Seq<u8>, from: int, to: int) -> int
    decreases to - from,
{
    if to <= from {
        0
    } else {
        digits_value(s, from, to - 1) * 10 + (s[to - 1] - 0x30)
    }
}

/// The end of the run of decimal digits at `at`.
pub open spec fn digits_end(s: Seq<u8>, at: int) -> int
    decreases s.len() - at,
{
    if 0 <= at < s.len() && is_digit(s[at]) {
        digits_end(s, at + 1)
    } else {
        at
    }
}

/// The largest magnitude of a 64-bit integer with that sign.
pub open spec fn magnitude_limit(negative: bool) -> int {
    if negative {
        0x8000_0000_0000_0000
    } else {
        0x7fff_ffff_ffff_ffff
    }
}

/// `-?[0-9]+`, as a 64-bit integer.
pub open spec fn said_integer(s: Seq<u8>, at: int) -> Said<i64> {
    let negative = is_byte(s, at, MINUS);
    let digits = if negative {
        at + 1
    } else {
        at
    };
    let end = digits_end(s, digits);
    if end == digits {
        Said::Miss
    } else {
        let magnitude = digits_value(s, digits, end);
        if magnitude > magnitude_limit(negative) {
            Said::Fail("Integer "@ + text_at(s, at, end) + " out of range."@, at)
        } else if negative {
            Said::Hit((0 - magnitude) as i64, end)
        } else {
            Said::Hit(magnitude as i64, end)
        }
    }
}

fn integer(s: &Vec<u8>, at: usize) -> (out: Parsed<i64>)
    requires
        at <= s.len(),
    ensures
        out.number() == said_integer(s@, at as int),
        out matches Parsed::Hit(_, end) ==> at < end <= s.len(),
{
    let negative = at_byte(s, at, MINUS);
    let digits: usize = if negative {
        at + 1
    } else {
        at
    };
    let mut end: usize = digits;
    let mut value: u64 = 0;
    let mut large = false;
    let ghost limit = 0x8000_0000_0000_0000int;
    while end < s.len() && is_decimal_digit(s[end])
        invariant
            digits <= end <= s.len(),
            limit == 0x8000_0000_0000_0000int,
            digits_end(s@, digits as int) == digits_end(s@, end as int),
            !large ==> value == digits_value(s@, digits as int, end as int) && value <= limit,
            large ==> digits_value(s@, digits as int, end as int) > limit,
        decreases s.len() - end,
    {
        let digit: u8 = s[end] - 0x30;
        if !large {
            let wide: u128 = value as u128 * 10 + digit as u128;
            if wide > 0x8000_0000_0000_0000 {
                large = true;
            } else {
                value = wide as u64;
            }
        }
        end = end + 1;
    }
    if end == digits {
        return Parsed::Miss;
    }
    if large || (!negative && value > 0x7fff_ffff_ffff_ffff) {
        let mut message = text("Integer ");
        let literal = ascii_between(s, at, end);
        push_text(&mut message, literal.as_str());
        push_text(&mut message, " out of range.");
        return Parsed::Fail(message, at);
    }
    if negative {
        if value == 0x8000_0000_0000_0000 {
            return Parsed::Hit(i64::MIN, end);
        }
        return Parsed::Hit(0 - value as i64, end);
    }
    Parsed::Hit(value as i64, end)
}

// ── Nested rules ────────────────────────────────────────────────────────

/// A scalar or a list.
pub open spec fn said_body(s: Seq<u8>, at: int) -> Said<NodeView>
    decreases s.len() - at, 3nat,
{
    match said_scalar(s, at) {
        Said::Miss => said_list(s, at),
        other => other,
    }
}

/// A variable, a quoted string, an integer, a keyword or a function call,
/// whichever matches first.
pub open spec fn said_scalar(s: Seq<u8>, at: int) -> Said<NodeView>
    decreases s.len() - at, 2nat,
{
    match said_variable(s, at) {
        Said::Fail(message, index) => Said::Fail(message, index),
        Said::Hit(name, end) => Said::Hit(NodeView::Variable(name), end),
        Said::Miss => match said_quoted(s, at, DOUBLE_QUOTE) {
            Said::Fail(message, index) => Said::Fail(message, index),
            Said::Hit(parts, end) => Said::Hit(NodeView::Text(parts), end),
            Said::Miss => match said_quoted(s, at, SINGLE_QUOTE) {
                Said::Fail(message, index) => Said::Fail(message, index),
                Said::Hit(parts, end) => Said::Hit(NodeView::Text(parts), end),
                Said::Miss => match said_integer(s, at) {
                    Said::Fail(message, index) => Said::Fail(message, index),
                    Said::Hit(n, end) => Said::Hit(NodeView::Int(n), end),
                    Said::Miss => if is_keyword(s, at, "True"@) || is_keyword(s, at, "true"@) {
                        Said::Hit(NodeView::Bool(true), at + 4)
                    } else if is_keyword(s, at, "False"@) || is_keyword(s, at, "false"@) {
                        Said::Hit(NodeView::Bool(false), at + 5)
                    } else if is_keyword(s, at, "None"@) || is_keyword(s, at, "none"@) {
                        Said::Hit(NodeView::Nothing, at + 4)
                    } else {
                        said_function(s, at)
                    },
                },
            },
        },
    }
}

/// `name(` arguments `)`, spaces allowed around `(`, `,` and `)`. Once `name(`
/// matches, the closing `)` must follow.
pub open spec fn said_function(s: Seq<u8>, at: int) -> Said<NodeView>
    decreases s.len() - at, 1nat,
{
    let end = identifier_end(s, at);
    let open = spaces_end(s, end);
    let start = spaces_end(s, open + 1);
    if end == at || !is_byte(s, open, OPEN_PAREN) || !(at < start <= s.len()) {
        Said::Miss
    } else {
        match said_items(s, start, true) {
            Said::Fail(message, index) => Said::Fail(message, index),
            Said::Miss => Said::Miss,
            Said::Hit(args, after) => {
                let close = spaces_end(s, after);
                if !is_byte(s, close, CLOSE_PAREN) {
                    Said::Fail("Missing ending ')'"@, close)
                } else {
                    Said::Hit(
                        NodeView::Call(text_at(s, at, end), args),
                        spaces_end(s, close + 1),
                    )
                }
            },
        }
    }
}

/// `[` scalars `]`. Once `[` matches, the closing `]` must follow.
pub open spec fn said_list(s: Seq<u8>, at: int) -> Said<NodeView>
    decreases s.len() - at, 1nat,
{
    if !is_byte(s, at, OPEN_BRACKET) {
        Said::Miss
    } else {
        match said_items(s, at + 1, false) {
            Said::Fail(message, index) => Said::Fail(message, index),
            Said::Miss => Said::Miss,
            Said::Hit(items, after) => {
                let close = if items.len() == 0 {
                    spaces_end(s, after)
                } else {
                    after
                };
                if !is_byte(s, close, CLOSE_BRACKET) {
                    Said::Fail("Missing ending ']'"@, close)
                } else {
                    Said::Hit(NodeView::List(items), close + 1)
                }
            },
        }
    }
}

/// One item: a body or a scalar.
pub open spec fn said_item(s: Seq<u8>, at: int, bodies: bool) -> Said<NodeView>
    decreases s.len() - at, 4nat,
{
    if bodies {
        said_body(s, at)
    } else {
        said_scalar(s, at)
    }
}

/// `item (' '* ',' ' '* item)*`, or nothing.
pub open spec fn said_items(s: Seq<u8>, at: int, bodies: bool) -> Said<Seq<NodeView>>
    decreases s.len() - at, 5nat,
{
    match said_item(s, at, bodies) {
        Said::Fail(message, index) => Said::Fail(message, index),
        Said::Miss => Said::Hit(seq![], at),
        Said::Hit(first, end) => if at < end <= s.len() {
            said_more_items(s, end, bodies, seq![first])
        } else {
            Said::Miss
        },
    }
}

/// The items after those in `done`.
pub open spec fn said_more_items(
    s: Seq<u8>,
    at: int,
    bodies: bool,
    done: Seq<NodeView>,
) -> Said<Seq<NodeView>>
    decreases s.len() - at, 0nat,
{
    let comma = spaces_end(s, at);
    let start = spaces_end(s, comma + 1);
    if !is_byte(s, comma, COMMA) || !(at < start <= s.len()) {
        Said::Hit(done, at)
    } else {
        match said_item(s, start, bodies) {
            Said::Fail(message, index) => Said::Fail(message, index),
            Said::Miss => Said::Hit(done, at),
            Said::Hit(next, end) => if start < end <= s.len() {
                said_more_items(s, end, bodies, done.push(next))
            } else {
                Said::Miss
            },
        }
    }
}

fn body(s: &Vec<u8>, at: usize) -> (out: Parsed<Node>)
    requires
        at <= s.len(),
    ensures
        out.node() == said_body(s@, at as int),
        out matches Parsed::Hit(_, end) ==> at < end <= s.len(),
    decreases s.len() - at, 3nat,
{
    match scalar(s, at) {
        Parsed::Miss => list(s, at),
        other => other,
    }
}

fn scalar(s: &Vec<u8>, at: usize) -> (out: Parsed<Node>)
    requires
        at <= s.len(),
    ensures
        out.node() == said_scalar(s@, at as int),
        out matches Parsed::Hit(_, end) ==> at < end <= s.len(),
    decreases s.len() - at, 2nat,
{
    match variable(s, at) {
        Parsed::Fail(message, index) => {
            return Parsed::Fail(message, index);
        },
        Parsed::Hit(name, end) => {
            return Parsed::Hit(Node::Variable(name), end);
        },
        Parsed::Miss => {},
    }
    match quoted(s, at, DOUBLE_QUOTE) {
        Parsed::Fail(message, index) => {
            return Parsed::Fail(message, index);
        },
        Parsed::Hit(parts, end) => {
            return Parsed::Hit(Node::Text(parts), end);
        },
        Parsed::Miss => {},
    }
    match quoted(s, at, SINGLE_QUOTE) {
        Parsed::Fail(message, index) => {
            return Parsed::Fail(message, index);
        },
        Parsed::Hit(parts, end) => {
            return Parsed::Hit(Node::Text(parts), end);
        },
        Parsed::Miss => {},
    }
    match integer(s, at) {
        Parsed::Fail(message, index) => {
            return Parsed::Fail(message, index);
        },
        Parsed::Hit(n, end) => {
            return Parsed::Hit(Node::Int(n), end);
        },
        Parsed::Miss => {},
    }
    proof {
        reveal_strlit("True");
        reveal_strlit("true");
        reveal_strlit("False");
        reveal_strlit("false");
        reveal_strlit("None");
        reveal_strlit("none");
    }
    if keyword(s, at, "True", 4) || keyword(s, at, "true", 4) {
        return Parsed::Hit(Node::Bool(true), at + 4);
    }
    if keyword(s, at, "False", 5) || keyword(s, at, "false", 5) {
        return Parsed::Hit(Node::Bool(false), at + 5);
    }
    if keyword(s, at, "None", 4) || keyword(s, at, "none", 4) {
        return Parsed::Hit(Node::Nothing, at + 4);
    }
    function(s, at)
}

fn function(s: &Vec<u8>, at: usize) -> (out: Parsed<Node>)
    requires
        at <= s.len(),
    ensures
        out.node() == said_function(s@, at as int),
        out matches Parsed::Hit(_, end) ==> at < end <= s.len(),
    decreases s.len() - at, 1nat,
{
    let end = identifier(s, at);
    if end == at {
        return Parsed::Miss;
    }
    let open = spaces(s, end);
    if !at_byte(s, open, OPEN_PAREN) {
        return Parsed::Miss;
    }
    let start = spaces(s, open + 1);
    match items(s, start, true) {
        Parsed::Fail(message, index) => Parsed::Fail(message, index),
        Parsed::Miss => Parsed::Miss,
        Parsed::Hit(args, after) => {
            let close = spaces(s, after);
            if !at_byte(s, close, CLOSE_PAREN) {
                return Parsed::Fail(text("Missing ending ')'"), close);
            }
            let name = ascii_between(s, at, end);
            let rest = spaces(s, close + 1);
            Parsed::Hit(Node::Call(name, args), rest)
        },
    }
}

fn list(s: &Vec<u8>, at: usize) -> (out: Parsed<Node>)
    requires
        at <= s.len(),
    ensures
        out.node() == said_list(s@, at as int),
        out matches Parsed::Hit(_, end) ==> at < end <= s.len(),
    decreases s.len() - at, 1nat,
{
    if !at_byte(s, at, OPEN_BRACKET) {
        return Parsed::Miss;
    }
    match items(s, at + 1, false) {
        Parsed::Fail(message, index) => Parsed::Fail(message, index),
        Parsed::Miss => Parsed::Miss,
        Parsed::Hit(elements, after) => {
            proof {
                lemma_nodes_len(elements@);
            }
            let close: usize = if elements.len() == 0 {
                spaces(s, after)
            } else {
                after
            };
            if !at_byte(s, close, CLOSE_BRACKET) {
                return Parsed::Fail(text("Missing ending ']'"), close);
            }
            Parsed::Hit(Node::List(elements), close + 1)
        },
    }
}

fn item(s: &Vec<u8>, at: usize, bodies: bool) -> (out: Parsed<Node>)
    requires
        at <= s.len(),
    ensures
        out.node() == said_item(s@, at as int, bodies),
        out matches Parsed::Hit(_, end) ==> at < end <= s.len(),
    decreases s.len() - at, 4nat,
{
    if bodies {
        body(s, at)
    } else {
        scalar(s, at)
    }
}

fn items(s: &Vec<u8>, at: usize, bodies: bool) -> (out: Parsed<Vec<Node>>)
    requires
        at <= s.len(),
    ensures
        out.nodes() == said_items(s@, at as int, bodies),
        out matches Parsed::Hit(_, end) ==> at <= end <= s.len(),
        out !is Miss,
    decreases s.len() - at, 5nat,
{
    let mut done: Vec<Node> = Vec::new();
    let mut pos: usize = at;
    match item(s, at, bodies) {
        Parsed::Fail(message, index) => {
            return Parsed::Fail(message, index);
        },
        Parsed::Miss => {
            assert(nodes_of(done@) =~= seq![]);
            return Parsed::Hit(done, at);
        },
        Parsed::Hit(first, end) => {
            done.push(first);
            proof {
                lemma_nodes_push(seq![], first);
                assert(done@ =~= Seq::<Node>::empty().push(first));
                assert(nodes_of(done@) =~= seq![first.view()]);
            }
            pos = end;
        },
    }
    loop
        invariant_except_break
            said_items(s@, at as int, bodies) == said_more_items(
                s@,
                pos as int,
                bodies,
                nodes_of(done@),
            ),
        invariant
            at < pos <= s.len(),
        ensures
            said_items(s@, at as int, bodies) == Said::Hit(nodes_of(done@), pos as int),
        decreases s.len() - pos,
    {
        let comma = spaces(s, pos);
        if !at_byte(s, comma, COMMA) {
            break ;
        }
        let start = spaces(s, comma + 1);
        match item(s, start, bodies) {
            Parsed::Fail(message, index) => {
                return Parsed::Fail(message, index);
            },
            Parsed::Miss => {
                break ;
            },
            Parsed::Hit(next, end) => {
                proof {
                    lemma_nodes_push(done@, next);
                }
                done.push(next);
                pos = end;
            },
        }
    }
    Parsed::Hit(done, pos)
}

pub proof fn lemma_nodes_push(nodes: Seq<Node>, node: Node)
    ensures
        nodes_of(nodes.push(node)) == nodes_of(nodes).push(node.view()),
{
    assert(nodes.push(node).drop_last() =~= nodes);
}

pub proof fn lemma_nodes_len(nodes: Seq<Node>)
    ensures
        nodes_of(nodes).len() == nodes.len(),
        forall|i: int|
            0 <= i < nodes.len() ==> #[trigger] nodes_of(nodes)[i] == nodes[i].view(),
    decreases nodes.len(),
{
    if nodes.len() > 0 {
        let rest = nodes.drop_last();
        lemma_nodes_len(rest);
        assert forall|i: int| 0 <= i < nodes.len() implies #[trigger] nodes_of(nodes)[i]
            == nodes[i].view() by {
            if i < rest.len() {
                assert(nodes_of(rest)[i] == rest[i].view());
            }
        }
    }
}

// ── Functions ───────────────────────────────────────────────────────────

/// A function of the language.
#[derive(Clone, Copy, Debug, PartialEq, Eq, Structural)]
pub enum Function {
    If,
    Eq,
    Neq,
    Lt,
    Leq,
    Gt,
    Geq,
    Contains,
    MatchesRegex,
    At,
    Not,
    Len,
    And,
    Or,
    Defined,
}

/// The function of that name.
pub open spec fn function_named(name: Seq<char>) -> Option<Function> {
    if name == "if"@ {
        Some(Function::If)
    } else if name == "eq"@ {
        Some(Function::Eq)
    } else if name == "neq"@ {
        Some(Function::Neq)
    } else if name == "lt"@ {
        Some(Function::Lt)
    } else if name == "leq"@ {
        Some(Function::Leq)
    } else if name == "gt"@ {
        Some(Function::Gt)
    } else if name == "geq"@ {
        Some(Function::Geq)
    } else if name == "contains"@ {
        Some(Function::Contains)
    } else if name == "matches_regex"@ {
        Some(Function::MatchesRegex)
    } else if name == "at"@ {
        Some(Function::At)
    } else if name == "not"@ {
        Some(Function::Not)
    } else if name == "len"@ {
        Some(Function::Len)
    } else if name == "and"@ {
        Some(Function::And)
    } else if name == "or"@ {
        Some(Function::Or)
    } else if name == "defined"@ {
        Some(Function::Defined)
    } else {
        None
    }
}

/// The function of that name.
pub fn find_function(name: &str) -> (function: Option<Function>)
    ensures
        function == function_named(name@),
{
    if same_text(name, "if") {
        Some(Function::If)
    } else if same_text(name, "eq") {
        Some(Function::Eq)
    } else if same_text(name, "neq") {
        Some(Function::Neq)
    } else if same_text(name, "lt") {
        Some(Function::Lt)
    } else if same_text(name, "leq") {
        Some(Function::Leq)
    } else if same_text(name, "gt") {
        Some(Function::Gt)
    } else if same_text(name, "geq") {
        Some(Function::Geq)
    } else if same_text(name, "contains") {
        Some(Function::Contains)
    } else if same_text(name, "matches_regex") {
        Some(Function::MatchesRegex)
    } else if same_text(name, "at") {
        Some(Function::At)
    } else if same_text(name, "not") {
        Some(Function::Not)
    } else if same_text(name, "len") {
        Some(Function::Len)
    } else if same_text(name, "and") {
        Some(Function::And)
    } else if same_text(name, "or") {
        Some(Function::Or)
    } else if same_text(name, "defined") {
        Some(Function::Defined)
    } else {
        None
    }
}

/// The fewest arguments of a function that takes any number from there on.
pub open spec fn minimum_arguments(function: Function) -> Option<nat> {
    match function {
        Function::And | Function::Or => Some(2),
        Function::Defined => Some(1),
        _ => None,
    }
}

/// Whether a function of fixed arity takes `count` arguments.
pub open spec fn takes_arguments(function: Function, count: nat) -> bool {
    match function {
        Function::If => count == 2 || count == 3,
        Function::Not | Function::Len => count == 1,
        Function::And | Function::Or | Function::Defined => true,
        _ => count == 2,
    }
}

/// What is wrong with calling a function with `count` arguments.
pub open spec fn arity_fault(name: Seq<char>, function: Function, count: nat) -> Option<Seq<char>> {
    match minimum_arguments(function) {
        Some(least) => if count < least {
            Some("Function '"@ + name + "' requires at least "@ + decimal(least) + " arguments."@)
        } else {
            None
        },
        None => if takes_arguments(function, count) {
            None
        } else {
            Some("Function '"@ + name + "' does not take "@ + decimal(count) + " arguments."@)
        },
    }
}

/// The fault of a tree, if it has one: an unknown function, a wrong number of
/// arguments, or else the fault of its last faulty item or argument.
pub open spec fn fault(node: NodeView) -> Option<Seq<char>>
    decreases node,
{
    match node {
        NodeView::List(items) => last_fault(items),
        NodeView::Call(name, args) => match function_named(name) {
            None => Some("Unknown function "@ + name),
            Some(function) => match arity_fault(name, function, args.len()) {
                Some(message) => Some(message),
                None => last_fault(args),
            },
        },
        _ => None,
    }
}

/// The fault of the last faulty node.
pub open spec fn last_fault(nodes: Seq<NodeView>) -> Option<Seq<char>>
    decreases nodes,
{
    if nodes.len() == 0 {
        None
    } else {
        match fault(nodes.last()) {
            Some(message) => Some(message),
            None => last_fault(nodes.drop_last()),
        }
    }
}

/// The view of an optional message.
pub open spec fn message_of(message: Option<String>) -> Option<Seq<char>> {
    match message {
        Some(text) => Some(text@),
        None => None,
    }
}

fn check_arity(name: &str, function: Function, count: usize) -> (found: Option<String>)
    ensures
        message_of(found) == arity_fault(name@, function, count as nat),
{
    let least: usize = match function {
        Function::And | Function::Or => 2,
        Function::Defined => 1,
        _ => 0,
    };
    if least > 0 {
        if count < least {
            let mut message = text("Function '");
            push_text(&mut message, name);
            push_text(&mut message, "' requires at least ");
            let number = decimal_text(least as u64);
            push_text(&mut message, number.as_str());
            push_text(&mut message, " arguments.");
            return Some(message);
        }
        return None;
    }
    let fits = match function {
        Function::If => count == 2 || count == 3,
        Function::Not | Function::Len => count == 1,
        _ => count == 2,
    };
    if fits {
        return None;
    }
    let mut message = text("Function '");
    push_text(&mut message, name);
    push_text(&mut message, "' does not take ");
    let number = decimal_text(count as u64);
    push_text(&mut message, number.as_str());
    push_text(&mut message, " arguments.");
    Some(message)
}

/// Checks each call's function name and arity.
fn find_fault(node: &Node) -> (found: Option<String>)
    ensures
        message_of(found) == fault(node.view()),
    decreases node,
{
    match node {
        Node::List(items) => find_last_fault(items),
        Node::Call(name, args) => {
            proof {
                lemma_nodes_len(args@);
            }
            match find_function(name.as_str()) {
                None => {
                    let mut message = text("Unknown function ");
                    push_text(&mut message, name.as_str());
                    Some(message)
                },
                Some(function) => match check_arity(name.as_str(), function, args.len()) {
                    Some(message) => Some(message),
                    None => find_last_fault(args),
                },
            }
        },
        _ => None,
    }
}

fn find_last_fault(nodes: &Vec<Node>) -> (found: Option<String>)
    ensures
        message_of(found) == last_fault(nodes_of(nodes@)),
    decreases nodes,
{
    let mut i: usize = nodes.len();
    assert(nodes@.take(i as int) =~= nodes@);
    while i > 0
        invariant
            i <= nodes.len(),
            last_fault(nodes_of(nodes@)) == last_fault(nodes_of(nodes@.take(i as int))),
        decreases i,
    {
        i = i - 1;
        proof {
            let upto = nodes@.take(i + 1);
            assert(upto.drop_last() =~= nodes@.take(i as int));
            assert(nodes_of(upto).drop_last() =~= nodes_of(nodes@.take(i as int)));
        }
        let found = find_fault(&nodes[i]);
        if found.is_some() {
            return found;
        }
    }
    assert(nodes_of(nodes@.take(0)) =~= seq![]);
    None
}

// ── Expressions ─────────────────────────────────────────────────────────

/// An error message with the index at which it was found.
pub open spec fn located(message: Seq<char>, at: int) -> Seq<char> {
    message + " at character "@ + decimal(at as nat)
}

/// A body between backticks; anything after the closing backtick is ignored.
/// The tree of the body, or the one error that was found.
pub open spec fn said_expression(s: Seq<u8>) -> Result<NodeView, Seq<char>> {
    if !is_byte(s, 0, BACKTICK) {
        Err(located("Expressions must begin with '`'"@, 0))
    } else {
        match said_body(s, 1) {
            Said::Fail(message, at) => Err(located(message, at)),
            Said::Miss => Err(located("Unexpected expression"@, 1)),
            Said::Hit(node, end) => if !is_byte(s, end, BACKTICK) {
                Err(located("Missing ending '`'"@, end))
            } else {
                match fault(node) {
                    Some(message) => Err(message),
                    None => Ok(node),
                }
            },
        }
    }
}

fn locate(message: &str, at: usize) -> (out: String)
    ensures
        out@ == located(message@, at as int),
{
    let mut out = text(message);
    push_text(&mut out, " at character ");
    let number = decimal_text(at as u64);
    push_text(&mut out, number.as_str());
    out
}

/// Parses an expression, including its backticks.
pub fn parse_expression(source: &str) -> (out: Result<Node, String>)
    ensures
        match out {
            Ok(node) => said_expression(utf8(source@)) == Ok::<NodeView, Seq<char>>(node.view()),
            Err(message) => said_expression(utf8(source@)) == Err::<NodeView, Seq<char>>(message@),
        },
{
    let s = bytes_of(source);
    if !at_byte(&s, 0, BACKTICK) {
        return Err(locate("Expressions must begin with '`'", 0));
    }
    match body(&s, 1) {
        Parsed::Fail(message, at) => Err(locate(message.as_str(), at)),
        Parsed::Miss => Err(locate("Unexpected expression", 1)),
        Parsed::Hit(node, end) => {
            if !at_byte(&s, end, BACKTICK) {
                return Err(locate("Missing ending '`'", end));
            }
            match find_fault(&node) {
                Some(message) => Err(message),
                None => Ok(node),
            }
        },
    }
}

} // verus!
