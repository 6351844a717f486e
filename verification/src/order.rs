//! Three-way comparison and the order of text.

use vstd::prelude::*;

verus! {

/// The outcome of comparing two values.
#[derive(Clone, Copy, Debug, PartialEq, Eq, Structural)]
pub enum Order {
    Less,
    Equal,
    Greater,
}

impl Order {
    /// The outcome with the two sides exchanged.
    pub open spec fn spec_reverse(self) -> Order {
        match self {
            Order::Less => Order::Greater,
            Order::Equal => Order::Equal,
            Order::Greater => Order::Less,
        }
    }

    /// This outcome, or `next` where this one is `Equal`.
    pub open spec fn spec_or(self, next: Order) -> Order {
        if self == Order::Equal {
            next
        } else {
            self
        }
    }

    /// The outcome with the two sides exchanged.
    pub fn reverse(self) -> (out: Order)
        ensures
            out == self.spec_reverse(),
    {
        match self {
            Order::Less => Order::Greater,
            Order::Equal => Order::Equal,
            Order::Greater => Order::Less,
        }
    }

    /// This outcome, or `next` where this one is `Equal`.
    pub fn or(self, next: Order) -> (out: Order)
        ensures
            out == self.spec_or(next),
    {
        match self {
            Order::Equal => next,
            _ => self,
        }
    }
}

/// The order of two integers.
pub open spec fn order_int(a: int, b: int) -> Order {
    if a < b {
        Order::Less
    } else if a == b {
        Order::Equal
    } else {
        Order::Greater
    }
}

/// The order of two machine words.
pub fn compare_usize(a: usize, b: usize) -> (out: Order)
    ensures
        out == order_int(a as int, b as int),
{
    if a < b {
        Order::Less
    } else if a == b {
        Order::Equal
    } else {
        Order::Greater
    }
}

/// The order of two 64-bit words.
pub fn compare_u64(a: u64, b: u64) -> (out: Order)
    ensures
        out == order_int(a as int, b as int),
{
    if a < b {
        Order::Less
    } else if a == b {
        Order::Equal
    } else {
        Order::Greater
    }
}

/// The order of two booleans: false first.
pub open spec fn order_bool(a: bool, b: bool) -> Order {
    if a == b {
        Order::Equal
    } else if b {
        Order::Less
    } else {
        Order::Greater
    }
}

/// The order of two booleans: false first.
pub fn compare_bools(a: bool, b: bool) -> (order: Order)
    ensures
        order == order_bool(a, b),
{
    if a == b {
        Order::Equal
    } else if b {
        Order::Less
    } else {
        Order::Greater
    }
}

/// The order of two texts: character by character, a proper prefix first.
pub open spec fn order_text(a: Seq<char>, b: Seq<char>) -> Order
    decreases a.len(),
{
    if a.len() == 0 {
        if b.len() == 0 {
            Order::Equal
        } else {
            Order::Less
        }
    } else if b.len() == 0 {
        Order::Greater
    } else {
        order_int(a[0] as int, b[0] as int).spec_or(order_text(a.drop_first(), b.drop_first()))
    }
}

/// The order of two lists of texts: entry by entry, a proper prefix first.
pub open spec fn order_texts(a: Seq<Seq<char>>, b: Seq<Seq<char>>) -> Order
    decreases a.len(),
{
    if a.len() == 0 {
        if b.len() == 0 {
            Order::Equal
        } else {
            Order::Less
        }
    } else if b.len() == 0 {
        Order::Greater
    } else {
        order_text(a[0], b[0]).spec_or(order_texts(a.drop_first(), b.drop_first()))
    }
}

/// Comparing texts is antisymmetric, and only equal texts compare equal.
pub proof fn lemma_order_text(a: Seq<char>, b: Seq<char>)
    ensures
        order_text(b, a) == order_text(a, b).spec_reverse(),
        order_text(a, b) == Order::Equal <==> a == b,
    decreases a.len(),
{
    if a.len() > 0 && b.len() > 0 {
        lemma_order_text(a.drop_first(), b.drop_first());
        if a[0] == b[0] && a.drop_first() == b.drop_first() {
            assert(a =~= seq![a[0]] + a.drop_first());
            assert(b =~= seq![b[0]] + b.drop_first());
        }
    } else if a.len() == 0 && b.len() == 0 {
        assert(a =~= b);
    }
}

/// Two texts order by the first place at which they differ: by the characters
/// there, and a text that ends there comes first.
pub proof fn law_texts_order_by_their_first_difference(a: Seq<char>, b: Seq<char>, k: int)
    requires
        0 <= k <= a.len(),
        k <= b.len(),
        forall|i: int| 0 <= i < k ==> a[i] == b[i],
    ensures
        k == a.len() && k == b.len() ==> order_text(a, b) == Order::Equal,
        k == a.len() && k < b.len() ==> order_text(a, b) == Order::Less,
        k < a.len() && k == b.len() ==> order_text(a, b) == Order::Greater,
        k < a.len() && k < b.len() && a[k] < b[k] ==> order_text(a, b) == Order::Less,
        k < a.len() && k < b.len() && a[k] > b[k] ==> order_text(a, b) == Order::Greater,
    decreases k,
{
    if k > 0 {
        let x = a.drop_first();
        let y = b.drop_first();
        assert forall|i: int| 0 <= i < k - 1 implies x[i] == y[i] by {
            assert(a[i + 1] == b[i + 1]);
        }
        law_texts_order_by_their_first_difference(x, y, k - 1);
        assert(a[0] == b[0]);
    }
}

/// Comparing texts is transitive.
pub proof fn lemma_order_text_transitive(a: Seq<char>, b: Seq<char>, c: Seq<char>)
    requires
        order_text(a, b) != Order::Greater,
        order_text(b, c) != Order::Greater,
    ensures
        order_text(a, c) != Order::Greater,
        order_text(a, c) == Order::Equal ==> order_text(a, b) == Order::Equal,
    decreases a.len(),
{
    if a.len() > 0 && b.len() > 0 && c.len() > 0 {
        if a[0] == b[0] && b[0] == c[0] {
            lemma_order_text_transitive(a.drop_first(), b.drop_first(), c.drop_first());
        }
    }
}

/// Comparing lists of texts is antisymmetric, and only equal lists compare
/// equal.
pub proof fn lemma_order_texts(a: Seq<Seq<char>>, b: Seq<Seq<char>>)
    ensures
        order_texts(b, a) == order_texts(a, b).spec_reverse(),
        order_texts(a, b) == Order::Equal <==> a == b,
    decreases a.len(),
{
    if a.len() > 0 && b.len() > 0 {
        lemma_order_text(a[0], b[0]);
        lemma_order_texts(a.drop_first(), b.drop_first());
        if a[0] == b[0] && a.drop_first() == b.drop_first() {
            assert(a =~= seq![a[0]] + a.drop_first());
            assert(b =~= seq![b[0]] + b.drop_first());
        }
    } else if a.len() == 0 && b.len() == 0 {
        assert(a =~= b);
    }
}

/// Comparing lists of texts is transitive.
pub proof fn lemma_order_texts_transitive(
    a: Seq<Seq<char>>,
    b: Seq<Seq<char>>,
    c: Seq<Seq<char>>,
)
    requires
        order_texts(a, b) != Order::Greater,
        order_texts(b, c) != Order::Greater,
    ensures
        order_texts(a, c) != Order::Greater,
        order_texts(a, c) == Order::Equal ==> order_texts(a, b) == Order::Equal,
    decreases a.len(),
{
    if a.len() > 0 && b.len() > 0 && c.len() > 0 {
        lemma_order_text_transitive(a[0], b[0], c[0]);
        lemma_order_text(a[0], b[0]);
        lemma_order_text(b[0], c[0]);
        lemma_order_text(a[0], c[0]);
        if a[0] == b[0] && b[0] == c[0] {
            lemma_order_texts_transitive(a.drop_first(), b.drop_first(), c.drop_first());
        }
    }
}

/// Compares two texts.
pub fn compare_text(a: &str, b: &str) -> (out: Order)
    ensures
        out == order_text(a@, b@),
{
    let left = crate::text::chars_of(a);
    let right = crate::text::chars_of(b);
    let mut i: usize = 0;
    assert(a@.skip(0) =~= a@);
    assert(b@.skip(0) =~= b@);
    while i < left.len() && i < right.len()
        invariant
            left@ == a@,
            right@ == b@,
            i <= left.len(),
            i <= right.len(),
            order_text(a@, b@) == order_text(a@.skip(i as int), b@.skip(i as int)),
        decreases left.len() - i,
    {
        assert(a@.skip(i as int).drop_first() =~= a@.skip(i + 1));
        assert(b@.skip(i as int).drop_first() =~= b@.skip(i + 1));
        if left[i] < right[i] {
            return Order::Less;
        }
        if left[i] > right[i] {
            return Order::Greater;
        }
        i = i + 1;
    }
    compare_usize(left.len(), right.len())
}

/// Whether a character is a decimal digit.
pub open spec fn is_digit(c: char) -> bool {
    '0' <= c <= '9'
}

/// The code of a character, of an ASCII capital that of the small letter.
pub open spec fn small_letter(c: char) -> int {
    if 'A' <= c <= 'Z' {
        c as int + 32
    } else {
        c as int
    }
}

/// Where the run of digits that begins at `from` ends.
pub open spec fn digits_end(s: Seq<char>, from: int) -> int
    decreases s.len() - from,
{
    if 0 <= from < s.len() && is_digit(s[from]) {
        digits_end(s, from + 1)
    } else {
        from
    }
}

/// Where the zeros that begin at `from` end, at the latest at `end`.
pub open spec fn zeros_end(s: Seq<char>, from: int, end: int) -> int
    decreases end - from,
{
    if 0 <= from < end <= s.len() && s[from] == '0' {
        zeros_end(s, from + 1, end)
    } else {
        from
    }
}

/// The order of two runs of digits: that of the numbers they write.
pub open spec fn order_runs(a: Seq<char>, b: Seq<char>) -> Order {
    let a = a.skip(zeros_end(a, 0, a.len() as int));
    let b = b.skip(zeros_end(b, 0, b.len() as int));
    order_int(a.len() as int, b.len() as int).spec_or(order_text(a, b))
}

/// The dictionary order of two texts from `i` and `j` on, without regard to
/// case.
pub open spec fn order_letters(a: Seq<char>, i: int, b: Seq<char>, j: int) -> Order
    decreases a.len() - i,
{
    if i < 0 || j < 0 || i >= a.len() {
        if j >= b.len() {
            Order::Equal
        } else {
            Order::Less
        }
    } else if j >= b.len() {
        Order::Greater
    } else if is_digit(a[i]) && is_digit(b[j]) {
        let e = digits_end(a, i);
        let f = digits_end(b, j);
        if e <= i || e > a.len() {
            Order::Equal
        } else {
            order_runs(a.subrange(i, e), b.subrange(j, f)).spec_or(order_letters(a, e, b, f))
        }
    } else {
        order_int(small_letter(a[i]), small_letter(b[j])).spec_or(
            order_letters(a, i + 1, b, j + 1),
        )
    }
}

/// The dictionary order of two texts: letters without regard to case, runs of
/// digits by the number they write, and texts alike but for that by their
/// characters.
pub open spec fn order_dictionary(a: Seq<char>, b: Seq<char>) -> Order {
    order_letters(a, 0, b, 0).spec_or(order_text(a, b))
}

proof fn lemma_digits_end(s: Seq<char>, from: int)
    requires
        0 <= from <= s.len(),
    ensures
        from <= digits_end(s, from) <= s.len(),
    decreases s.len() - from,
{
    if from < s.len() && is_digit(s[from]) {
        lemma_digits_end(s, from + 1);
    }
}

fn find_digits_end(s: &Vec<char>, from: usize) -> (end: usize)
    requires
        from <= s@.len(),
    ensures
        end == digits_end(s@, from as int),
        from <= end <= s@.len(),
{
    let mut end: usize = from;
    while end < s.len() && '0' <= s[end] && s[end] <= '9'
        invariant
            from <= end <= s@.len(),
            digits_end(s@, from as int) == digits_end(s@, end as int),
        decreases s@.len() - end,
    {
        end = end + 1;
    }
    end
}

/// A run of digits without its leading zeros.
fn without_zeros(s: &Vec<char>, from: usize, end: usize) -> (out: String)
    requires
        from <= end <= s@.len(),
    ensures
        ({
            let run = s@.subrange(from as int, end as int);
            out@ == run.skip(zeros_end(run, 0, run.len() as int))
        }),
{
    let ghost run = s@.subrange(from as int, end as int);
    let mut at: usize = from;
    while at < end && s[at] == '0'
        invariant
            from <= at <= end <= s@.len(),
            run == s@.subrange(from as int, end as int),
            zeros_end(run, 0, run.len() as int) == zeros_end(run, at - from, run.len() as int),
        decreases end - at,
    {
        assert(run[at - from] == s@[at as int]);
        at = at + 1;
    }
    proof {
        if at < end {
            assert(run[at - from] == s@[at as int]);
        }
    }
    let out = crate::text::string_of(s, at, end);
    assert(out@ =~= run.skip(zeros_end(run, 0, run.len() as int)));
    out
}

fn small_code(c: char) -> (code: u64)
    ensures
        code == small_letter(c),
{
    if 'A' <= c && c <= 'Z' {
        (c as u32 + 32) as u64
    } else {
        c as u32 as u64
    }
}

/// Compares two texts in dictionary order.
pub fn compare_dictionary(a: &str, b: &str) -> (out: Order)
    ensures
        out == order_dictionary(a@, b@),
{
    let x = crate::text::chars_of(a);
    let y = crate::text::chars_of(b);
    let mut i: usize = 0;
    let mut j: usize = 0;
    while i < x.len() && j < y.len()
        invariant
            x@ == a@,
            y@ == b@,
            i <= x@.len(),
            j <= y@.len(),
            order_letters(a@, 0, b@, 0) == order_letters(a@, i as int, b@, j as int),
        decreases x@.len() - i,
    {
        let c = x[i];
        let d = y[j];
        if '0' <= c && c <= '9' && '0' <= d && d <= '9' {
            proof {
                lemma_digits_end(a@, i + 1);
            }
            let e = find_digits_end(&x, i);
            let f = find_digits_end(&y, j);
            let p = without_zeros(&x, i, e);
            let q = without_zeros(&y, j, f);
            let p_len = crate::text::chars_of(p.as_str()).len();
            let q_len = crate::text::chars_of(q.as_str()).len();
            let order = compare_usize(p_len, q_len).or(compare_text(p.as_str(), q.as_str()));
            match order {
                Order::Equal => {},
                _ => {
                    return order;
                },
            }
            i = e;
            j = f;
        } else {
            let order = compare_u64(small_code(c), small_code(d));
            match order {
                Order::Equal => {},
                _ => {
                    return order;
                },
            }
            i = i + 1;
            j = j + 1;
        }
    }
    if i < x.len() {
        Order::Greater
    } else if j < y.len() {
        Order::Less
    } else {
        compare_text(a, b)
    }
}

} // verus!
