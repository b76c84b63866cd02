//! Taking a line apart.

use crate::text;
use vstd::prelude::*;

verus! {

/// Whether a character is white space.
pub open spec fn is_white(c: char) -> bool {
    let n = c as u32;
    ||| 0x9 <= n <= 0xD
    ||| n == 0x20
    ||| n == 0x85
    ||| n == 0xA0
    ||| n == 0x1680
    ||| 0x2000 <= n <= 0x200A
    ||| n == 0x2028
    ||| n == 0x2029
    ||| n == 0x202F
    ||| n == 0x205F
    ||| n == 0x3000
}

/// Whether a character is white space.
pub fn white(c: char) -> (r: bool)
    ensures
        r == is_white(c),
{
    let n: u32 = c as u32;
    (0x9 <= n && n <= 0xD) || n == 0x20 || n == 0x85 || n == 0xA0 || n == 0x1680 || (0x2000 <= n && n
        <= 0x200A) || n == 0x2028 || n == 0x2029 || n == 0x202F || n == 0x205F || n == 0x3000
}

/// A kind of character that is taken off the ends of a text.
#[derive(Clone, Copy)]
pub enum Fringe {
    /// White space.
    White,
    /// Double quotes.
    Quotes,
}

impl Fringe {
    /// Whether a character is of the kind.
    pub open spec fn has(self, c: char) -> bool {
        match self {
            Fringe::White => is_white(c),
            Fringe::Quotes => c == '"',
        }
    }

    /// Whether a character is of the kind.
    fn takes(self, c: char) -> (r: bool)
        ensures
            r == self.has(c),
    {
        match self {
            Fringe::White => white(c),
            Fringe::Quotes => c == '"',
        }
    }
}

/// How many characters of a kind a text starts with.
pub open spec fn leading(s: Seq<char>, f: Fringe) -> nat
    decreases s.len(),
{
    if s.len() > 0 && f.has(s[0]) {
        1 + leading(s.skip(1), f)
    } else {
        0
    }
}

/// How many characters of a kind a text ends with.
pub open spec fn trailing(s: Seq<char>, f: Fringe) -> nat
    decreases s.len(),
{
    if s.len() > 0 && f.has(s.last()) {
        1 + trailing(s.drop_last(), f)
    } else {
        0
    }
}

/// A text without the characters of a kind at its ends.
pub open spec fn stripped(s: Seq<char>, f: Fringe) -> Seq<char> {
    let rest = s.skip(leading(s, f) as int);
    rest.take(rest.len() - trailing(rest, f))
}

proof fn lemma_leading(s: Seq<char>, f: Fringe, k: nat)
    requires
        k <= s.len(),
        forall|i: int| 0 <= i < k ==> f.has(#[trigger] s[i]),
        k < s.len() ==> !f.has(s[k as int]),
    ensures
        leading(s, f) == k,
    decreases s.len(),
{
    if k > 0 {
        let t = s.skip(1);
        assert(f.has(s[0]));
        assert forall|i: int| 0 <= i < k - 1 implies f.has(#[trigger] t[i]) by {
            assert(t[i] == s[i + 1]);
        }
        lemma_leading(t, f, (k - 1) as nat);
    }
}

proof fn lemma_trailing(s: Seq<char>, f: Fringe, k: nat)
    requires
        k <= s.len(),
        forall|i: int| s.len() - k <= i < s.len() ==> f.has(#[trigger] s[i]),
        k < s.len() ==> !f.has(s[s.len() - k - 1]),
    ensures
        trailing(s, f) == k,
    decreases s.len(),
{
    if k > 0 {
        let t = s.drop_last();
        assert(f.has(s[s.len() - 1]));
        assert forall|i: int| t.len() - (k - 1) <= i < t.len() implies f.has(#[trigger] t[i]) by {
            assert(t[i] == s[i]);
        }
        lemma_trailing(t, f, (k - 1) as nat);
    }
}

/// A text without the characters of a kind at its ends.
pub fn strip<'a>(s: &'a str, f: Fringe) -> (r: &'a str)
    ensures
        r@ == stripped(s@, f),
{
    let n: usize = s.unicode_len();
    let mut from: usize = 0;
    while from < n && f.takes(s.get_char(from))
        invariant
            n == s@.len(),
            from <= n,
            forall|i: int| 0 <= i < from ==> f.has(#[trigger] s@[i]),
        ensures
            n == s@.len(),
            from <= n,
            forall|i: int| 0 <= i < from ==> f.has(#[trigger] s@[i]),
            from < n ==> !f.has(s@[from as int]),
        decreases n - from,
    {
        from = from + 1;
    }
    let mut to: usize = n;
    while to > from && f.takes(s.get_char(to - 1))
        invariant
            n == s@.len(),
            from <= to <= n,
            forall|i: int| to <= i < n ==> f.has(#[trigger] s@[i]),
        ensures
            n == s@.len(),
            from <= to <= n,
            forall|i: int| to <= i < n ==> f.has(#[trigger] s@[i]),
            to > from ==> !f.has(s@[to - 1]),
        decreases to,
    {
        to = to - 1;
    }
    let r: &str = s.substring_char(from, to);
    proof {
        lemma_leading(s@, f, from as nat);
        let rest = s@.skip(from as int);
        assert forall|i: int| rest.len() - (n - to) <= i < rest.len() implies f.has(
            #[trigger] rest[i],
        ) by {
            assert(rest[i] == s@[i + from]);
        }
        lemma_trailing(rest, f, (n - to) as nat);
        assert(r@ =~= stripped(s@, f));
    }
    r
}

/// Where the first white space of a text is; its length if there is none.
pub open spec fn first_white(s: Seq<char>) -> nat
    decreases s.len(),
{
    if s.len() == 0 || is_white(s[0]) {
        0
    } else {
        1 + first_white(s.skip(1))
    }
}

/// A text up to its first white space.
pub open spec fn head(s: Seq<char>) -> Seq<char> {
    s.take(first_white(s) as int)
}

/// A text from after its first white space on, with no white space at its ends.
pub open spec fn tail(s: Seq<char>) -> Seq<char> {
    if first_white(s) < s.len() {
        stripped(s.skip(first_white(s) as int + 1), Fringe::White)
    } else {
        stripped(seq![], Fringe::White)
    }
}

proof fn lemma_first_white(s: Seq<char>, k: nat)
    requires
        k <= s.len(),
        forall|i: int| 0 <= i < k ==> !is_white(#[trigger] s[i]),
        k < s.len() ==> is_white(s[k as int]),
    ensures
        first_white(s) == k,
    decreases s.len(),
{
    if k > 0 {
        let t = s.skip(1);
        assert(!is_white(s[0]));
        assert forall|i: int| 0 <= i < k - 1 implies !is_white(#[trigger] t[i]) by {
            assert(t[i] == s[i + 1]);
        }
        lemma_first_white(t, (k - 1) as nat);
    }
}

/// The head and the tail of a text.
pub fn halves<'a>(s: &'a str) -> (r: (&'a str, &'a str))
    ensures
        r.0@ == head(s@),
        r.1@ == tail(s@),
{
    let n: usize = s.unicode_len();
    let mut at: usize = 0;
    while at < n && !white(s.get_char(at))
        invariant
            n == s@.len(),
            at <= n,
            forall|i: int| 0 <= i < at ==> !is_white(#[trigger] s@[i]),
        ensures
            n == s@.len(),
            at <= n,
            forall|i: int| 0 <= i < at ==> !is_white(#[trigger] s@[i]),
            at < n ==> is_white(s@[at as int]),
        decreases n - at,
    {
        at = at + 1;
    }
    proof {
        lemma_first_white(s@, at as nat);
    }
    let first: &str = s.substring_char(0, at);
    assert(first@ =~= head(s@));
    let from: usize = if at < n {
        at + 1
    } else {
        n
    };
    let rest: &str = s.substring_char(from, n);
    assert(at < n ==> rest@ =~= s@.skip(at + 1));
    assert(at == n ==> rest@ =~= seq![]);
    (first, strip(rest, Fringe::White))
}

/// Whether a character is a decimal digit.
pub open spec fn is_digit(c: char) -> bool {
    '0' <= c <= '9'
}

/// The number that decimal digits stand for.
pub open spec fn digits_value(s: Seq<char>) -> nat
    decreases s.len(),
{
    if s.len() == 0 {
        0
    } else {
        10 * digits_value(s.drop_last()) + (s.last() as u32 - '0' as u32) as nat
    }
}

/// The digits of a number, a leading plus sign left out.
pub open spec fn unsigned_digits(s: Seq<char>) -> Seq<char> {
    if s.len() > 0 && s[0] == '+' {
        s.skip(1)
    } else {
        s
    }
}

/// The number that a text stands for: decimal digits, at least one, with or
/// without a plus sign before them.
pub open spec fn number(s: Seq<char>) -> Option<nat> {
    let d = unsigned_digits(s);
    if d.len() > 0 && (forall|i: int| 0 <= i < d.len() ==> is_digit(#[trigger] d[i]))
        && digits_value(d) <= usize::MAX {
        Some(digits_value(d))
    } else {
        None
    }
}

/// Leaving digits out makes a number no larger.
proof fn lemma_digits_grow(s: Seq<char>, k: nat)
    requires
        k <= s.len(),
    ensures
        digits_value(s.take(k as int)) <= digits_value(s),
    decreases s.len(),
{
    if k < s.len() {
        lemma_digits_grow(s.drop_last(), k);
        assert(s.drop_last().take(k as int) =~= s.take(k as int));
    } else {
        assert(s.take(k as int) =~= s);
    }
}

/// The number that a text stands for.
pub fn parse_number(s: &str) -> (r: Option<usize>)
    ensures
        match r {
            Some(n) => number(s@) == Some(n as nat),
            None => number(s@) is None,
        },
{
    let n: usize = s.unicode_len();
    let from: usize = if n > 0 && s.get_char(0) == '+' {
        1
    } else {
        0
    };
    let ghost d = unsigned_digits(s@);
    assert(d =~= s@.skip(from as int));
    if from == n {
        return None;
    }
    let mut value: usize = 0;
    let mut i: usize = from;
    assert(d.take(0) =~= seq![]);
    while i < n
        invariant
            n == s@.len(),
            from <= i <= n,
            from <= 1,
            d == s@.skip(from as int),
            d == unsigned_digits(s@),
            value == digits_value(d.take(i - from)),
            forall|k: int| 0 <= k < i - from ==> is_digit(#[trigger] d[k]),
        decreases n - i,
    {
        let c: char = s.get_char(i);
        let ghost k = i - from;
        assert(d[k] == c);
        if !('0' <= c && c <= '9') {
            return None;
        }
        proof {
            assert(d.take(k + 1).drop_last() =~= d.take(k));
            lemma_digits_grow(d, (k + 1) as nat);
        }
        let v: usize = (c as u32 - '0' as u32) as usize;
        value = match value.checked_mul(10) {
            None => {
                return None;
            },
            Some(t) => match t.checked_add(v) {
                None => {
                    return None;
                },
                Some(u) => u,
            },
        };
        i = i + 1;
    }
    assert(d.take(n - from) =~= d);
    Some(value)
}

/// Nothing more is taken off the ends of a text a second time.
pub proof fn law_stripped_once(s: Seq<char>, f: Fringe)
    ensures
        stripped(stripped(s, f), f) == stripped(s, f),
{
    let rest = s.skip(leading(s, f) as int);
    let t = stripped(s, f);
    lemma_leading_end(s, f);
    lemma_trailing_end(rest, f);
    if t.len() > 0 {
        assert(t[0] == rest[0]);
        assert(t.last() == rest[rest.len() - trailing(rest, f) - 1]);
        lemma_leading(t, f, 0);
        assert(t.skip(0) =~= t);
        lemma_trailing(t, f, 0);
        assert(t.take(t.len() as int) =~= t);
    } else {
        assert(stripped(t, f) =~= t);
    }
}

proof fn lemma_leading_end(s: Seq<char>, f: Fringe)
    ensures
        leading(s, f) <= s.len(),
        leading(s, f) < s.len() ==> !f.has(s[leading(s, f) as int]),
    decreases s.len(),
{
    if s.len() > 0 && f.has(s[0]) {
        lemma_leading_end(s.skip(1), f);
    }
}

proof fn lemma_trailing_end(s: Seq<char>, f: Fringe)
    ensures
        trailing(s, f) <= s.len(),
        trailing(s, f) < s.len() ==> !f.has(s[s.len() - trailing(s, f) - 1]),
    decreases s.len(),
{
    if s.len() > 0 && f.has(s.last()) {
        lemma_trailing_end(s.drop_last(), f);
    }
}

/// A number written in decimal digits is read back as itself.
pub proof fn law_decimal_is_read_back(n: nat)
    requires
        n <= usize::MAX,
    ensures
        number(text::decimal(n)) == Some(n),
{
    lemma_decimal(n);
    let d = text::decimal(n);
    assert(is_digit(d[0]));
    assert(unsigned_digits(d) == d);
}

proof fn lemma_decimal(n: nat)
    ensures
        text::decimal(n).len() > 0,
        forall|i: int| 0 <= i < text::decimal(n).len() ==> is_digit(#[trigger] text::decimal(n)[i]),
        digits_value(text::decimal(n)) == n,
    decreases n,
{
    reveal_strlit("0123456789");
    let d = text::decimal(n);
    if n >= 10 {
        lemma_decimal(n / 10);
        assert(d.drop_last() =~= text::decimal(n / 10));
        assert forall|i: int| 0 <= i < d.len() implies is_digit(#[trigger] d[i]) by {
            if i < d.len() - 1 {
                assert(d[i] == text::decimal(n / 10)[i]);
            }
        }
    } else {
        assert(d.drop_last() =~= Seq::<char>::empty());
        assert(digits_value(d.drop_last()) == 0);
    }
}

/// What is taken off a text is at its ends and of the kind, and what is left
/// neither begins nor ends with the kind.
pub proof fn law_stripped_middle(s: Seq<char>, f: Fringe) -> (r: (Seq<char>, Seq<char>))
    ensures
        s == r.0 + stripped(s, f) + r.1,
        forall|i: int| 0 <= i < r.0.len() ==> f.has(#[trigger] r.0[i]),
        forall|i: int| 0 <= i < r.1.len() ==> f.has(#[trigger] r.1[i]),
        stripped(s, f).len() > 0 ==> !f.has(stripped(s, f)[0]) && !f.has(stripped(s, f).last()),
{
    let a = leading(s, f) as int;
    let rest = s.skip(a);
    let b = trailing(rest, f) as int;
    lemma_leading_end(s, f);
    lemma_trailing_end(rest, f);
    lemma_leading_all(s, f);
    lemma_trailing_all(rest, f);
    let t = stripped(s, f);
    let before = s.take(a);
    let behind = rest.skip(rest.len() - b);
    if t.len() > 0 {
        assert(t[0] == rest[0]);
        assert(t.last() == rest[rest.len() - b - 1]);
    }
    assert forall|i: int| 0 <= i < behind.len() implies f.has(#[trigger] behind[i]) by {
        assert(behind[i] == rest[rest.len() - b + i]);
    }
    assert(s =~= before + t + behind);
    (before, behind)
}

proof fn lemma_leading_all(s: Seq<char>, f: Fringe)
    ensures
        forall|i: int| 0 <= i < leading(s, f) ==> f.has(#[trigger] s[i]),
    decreases s.len(),
{
    if s.len() > 0 && f.has(s[0]) {
        let t = s.skip(1);
        lemma_leading_all(t, f);
        lemma_leading_end(s, f);
        assert forall|i: int| 0 <= i < leading(s, f) implies f.has(#[trigger] s[i]) by {
            if i > 0 {
                assert(s[i] == t[i - 1]);
            }
        }
    }
}

proof fn lemma_trailing_all(s: Seq<char>, f: Fringe)
    ensures
        forall|i: int| s.len() - trailing(s, f) <= i < s.len() ==> f.has(#[trigger] s[i]),
    decreases s.len(),
{
    if s.len() > 0 && f.has(s.last()) {
        let t = s.drop_last();
        lemma_trailing_all(t, f);
        lemma_trailing_end(s, f);
        assert forall|i: int| s.len() - trailing(s, f) <= i < s.len() implies f.has(
            #[trigger] s[i],
        ) by {
            if i < s.len() - 1 {
                assert(s[i] == t[i]);
            }
        }
    }
}

/// A text is its first word, white space and the rest: the first word has no
/// white space in it, and the rest none at its ends.
pub proof fn law_head_and_tail(s: Seq<char>)
    ensures
        head(s).len() <= s.len(),
        s.take(head(s).len() as int) == head(s),
        forall|i: int| 0 <= i < head(s).len() ==> !is_white(#[trigger] head(s)[i]),
        head(s).len() < s.len() ==> is_white(s[head(s).len() as int]) && tail(s) == stripped(
            s.skip(head(s).len() as int + 1),
            Fringe::White,
        ),
        head(s).len() == s.len() ==> tail(s).len() == 0,
{
    lemma_first_white_end(s);
    lemma_leading_end(seq![], Fringe::White);
}

proof fn lemma_first_white_end(s: Seq<char>)
    ensures
        first_white(s) <= s.len(),
        first_white(s) < s.len() ==> is_white(s[first_white(s) as int]),
        forall|i: int| 0 <= i < first_white(s) ==> !is_white(#[trigger] s[i]),
    decreases s.len(),
{
    if s.len() > 0 && !is_white(s[0]) {
        let t = s.skip(1);
        lemma_first_white_end(t);
        assert forall|i: int| 0 <= i < first_white(s) implies !is_white(#[trigger] s[i]) by {
            if i > 0 {
                assert(s[i] == t[i - 1]);
            }
        }
    }
}

} // verus!
