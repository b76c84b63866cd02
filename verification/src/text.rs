//! Text and the order of byte strings.

pub mod digits;

use vstd::prelude::*;
use vstd::utf8::*;

verus! {

/// Whether `a` comes before `b` in the order of byte strings.
pub open spec fn bytes_before(a: Seq<u8>, b: Seq<u8>) -> bool
    decreases a.len(),
{
    if b.len() == 0 {
        false
    } else if a.len() == 0 {
        true
    } else if a[0] != b[0] {
        a[0] < b[0]
    } else {
        bytes_before(a.drop_first(), b.drop_first())
    }
}

/// Whether text comes before other text: the order of the UTF-8 bytes.
pub open spec fn before(a: Seq<char>, b: Seq<char>) -> bool {
    bytes_before(encode_utf8(a), encode_utf8(b))
}

/// No byte string comes before itself.
pub proof fn lemma_bytes_irreflexive(a: Seq<u8>)
    ensures
        !bytes_before(a, a),
    decreases a.len(),
{
    if a.len() > 0 {
        lemma_bytes_irreflexive(a.drop_first());
    }
}

/// The order of byte strings is transitive.
pub proof fn lemma_bytes_transitive(a: Seq<u8>, b: Seq<u8>, c: Seq<u8>)
    requires
        bytes_before(a, b),
        bytes_before(b, c),
    ensures
        bytes_before(a, c),
    decreases a.len(),
{
    if a.len() > 0 && a[0] == b[0] && b[0] == c[0] {
        lemma_bytes_transitive(a.drop_first(), b.drop_first(), c.drop_first());
    }
}

/// Of two different byte strings one comes first.
pub proof fn lemma_bytes_total(a: Seq<u8>, b: Seq<u8>)
    ensures
        bytes_before(a, b) || bytes_before(b, a) || a == b,
    decreases a.len(),
{
    if a.len() > 0 && b.len() > 0 && a[0] == b[0] {
        lemma_bytes_total(a.drop_first(), b.drop_first());
        if a.drop_first() == b.drop_first() {
            assert(a =~= seq![a[0]] + a.drop_first());
            assert(b =~= seq![b[0]] + b.drop_first());
        }
    } else if a.len() == 0 && b.len() == 0 {
        assert(a =~= b);
    }
}

/// The order of text is total.
pub proof fn lemma_total(a: Seq<char>, b: Seq<char>)
    ensures
        before(a, b) || before(b, a) || a == b,
{
    lemma_bytes_total(encode_utf8(a), encode_utf8(b));
    encode_utf8_decode_utf8(a);
    encode_utf8_decode_utf8(b);
}

/// The order of text is strict.
pub proof fn lemma_strict(a: Seq<char>, b: Seq<char>)
    requires
        before(a, b),
    ensures
        a != b,
        !before(b, a),
{
    lemma_bytes_irreflexive(encode_utf8(a));
    if before(b, a) {
        lemma_bytes_transitive(encode_utf8(a), encode_utf8(b), encode_utf8(a));
    }
}

/// The order of text is transitive.
pub proof fn lemma_transitive(a: Seq<char>, b: Seq<char>, c: Seq<char>)
    requires
        before(a, b),
        before(b, c),
    ensures
        before(a, c),
{
    lemma_bytes_transitive(encode_utf8(a), encode_utf8(b), encode_utf8(c));
}

/// Whether the text `a` comes before `b`.
pub fn str_before(a: &str, b: &str) -> (r: bool)
    ensures
        r == before(a@, b@),
{
    let x: &[u8] = a.as_bytes();
    let y: &[u8] = b.as_bytes();
    let mut i: usize = 0;
    assert(x@.skip(0) =~= x@);
    assert(y@.skip(0) =~= y@);
    while i < x.len() && i < y.len()
        invariant
            i <= x.len(),
            i <= y.len(),
            x@ == encode_utf8(a@),
            y@ == encode_utf8(b@),
            before(a@, b@) == bytes_before(x@.skip(i as int), y@.skip(i as int)),
        decreases x.len() - i,
    {
        assert(x@.skip(i as int).drop_first() =~= x@.skip(i + 1));
        assert(y@.skip(i as int).drop_first() =~= y@.skip(i + 1));
        if x[i] != y[i] {
            return x[i] < y[i];
        }
        i = i + 1;
    }
    i < y.len()
}

/// A hexadecimal digit.
pub open spec fn hex_digit(d: nat) -> char {
    "0123456789abcdef"@[d as int]
}

/// Two hexadecimal digits for each byte.
pub open spec fn hex_of(bytes: Seq<u8>) -> Seq<char>
    decreases bytes.len(),
{
    if bytes.len() == 0 {
        Seq::empty()
    } else {
        hex_of(bytes.drop_last()).push(hex_digit(bytes.last() as nat / 16)).push(
            hex_digit(bytes.last() as nat % 16),
        )
    }
}

/// Bytes as hexadecimal digits.
pub fn hex(bytes: &[u8]) -> (s: String)
    ensures
        s@ == hex_of(bytes@),
{
    let digits: &str = "0123456789abcdef";
    proof {
        reveal_strlit("0123456789abcdef");
    }
    let mut s: String = String::new();
    let mut i: usize = 0;
    assert(bytes@.take(0) =~= Seq::empty());
    while i < bytes.len()
        invariant
            i <= bytes@.len(),
            digits@ == "0123456789abcdef"@,
            digits@.len() == 16,
            s@ == hex_of(bytes@.take(i as int)),
        decreases bytes@.len() - i,
    {
        let high: usize = (bytes[i] / 16) as usize;
        let low: usize = (bytes[i] % 16) as usize;
        let ghost before = s@;
        s.append(digits.substring_char(high, high + 1));
        s.append(digits.substring_char(low, low + 1));
        assert(s@ =~= before.push(hex_digit(high as nat)).push(hex_digit(low as nat)));
        assert(bytes@.take(i + 1).drop_last() =~= bytes@.take(i as int));
        i = i + 1;
    }
    assert(bytes@.take(i as int) =~= bytes@);
    s
}

/// A decimal digit.
pub open spec fn digit(d: nat) -> char {
    "0123456789"@[d as int]
}

/// A number in decimal digits.
pub open spec fn decimal(n: nat) -> Seq<char>
    decreases n,
{
    if n < 10 {
        seq![digit(n)]
    } else {
        decimal(n / 10).push(digit(n % 10))
    }
}

/// A number in decimal digits.
pub fn decimal_of(n: u64) -> (s: String)
    ensures
        s@ == decimal(n as nat),
    decreases n,
{
    let digits: &str = "0123456789";
    proof {
        reveal_strlit("0123456789");
    }
    let last: usize = (n % 10) as usize;
    if n < 10 {
        let mut s: String = String::new();
        s.append(digits.substring_char(last, last + 1));
        assert(s@ =~= decimal(n as nat));
        s
    } else {
        let mut s: String = decimal_of(n / 10);
        let ghost before = s@;
        s.append(digits.substring_char(last, last + 1));
        assert(s@ =~= before.push(digit((n % 10) as nat)));
        s
    }
}

/// The text of bytes, with replacement characters for what is malformed.
pub uninterp spec fn lossy_text(bytes: Seq<u8>) -> Seq<char>;

/// Reads bytes as text whatever they are: `String::from_utf8_lossy`. The text
/// is a function of the bytes alone. Bytes that are valid UTF-8 are read as they
/// are; which characters stand for malformed ones is left unsaid.
#[verifier::external_body]
pub(crate) fn lossy(bytes: &[u8]) -> (s: String)
    ensures
        s@ == lossy_text(bytes@),
        valid_utf8(bytes@) ==> s@ == decode_utf8(bytes@),
{
    String::from_utf8_lossy(bytes).into_owned()
}

/// Whether two texts are the same.
pub fn same(a: &str, b: &str) -> (r: bool)
    ensures
        r == (a@ == b@),
{
    a.to_owned() == b.to_owned()
}

/// A text with a number behind it.
pub fn numbered(mut s: String, n: u64) -> (r: String)
    ensures
        r@ == s@ + decimal(n as nat),
{
    let digits: String = decimal_of(n);
    s.append(digits.as_str());
    s
}

/// A text with more text behind it.
pub fn continued(mut s: String, more: &str) -> (r: String)
    ensures
        r@ == s@ + more@,
{
    s.append(more);
    s
}

/// A text, a number, a text.
pub fn around(a: &str, n: u64, b: &str) -> (r: String)
    ensures
        r@ == a@ + decimal(n as nat) + b@,
{
    continued(numbered(a.to_owned(), n), b)
}

/// A text of two parts.
pub fn joined(a: &str, b: &str) -> (s: String)
    ensures
        s@ == a@ + b@,
{
    let mut s: String = a.to_owned();
    s.append(b);
    s
}

/// A text of three parts.
pub fn wrapped(a: &str, b: &str, c: &str) -> (s: String)
    ensures
        s@ == a@ + b@ + c@,
{
    let mut s: String = a.to_owned();
    s.append(b);
    s.append(c);
    s
}

/// Different numbers have different digits.
pub proof fn law_decimal_is_unique(a: nat, b: nat)
    requires
        decimal(a) == decimal(b),
    ensures
        a == b,
    decreases a,
{
    reveal_strlit("0123456789");
    lemma_decimal_len(a);
    lemma_decimal_len(b);
    if a < 10 {
        if b >= 10 {
            lemma_decimal_len(b / 10);
            assert(decimal(b).len() >= 2);
        } else {
            assert(decimal(a)[0] == digit(a));
            assert(decimal(b)[0] == digit(b));
        }
    } else if b < 10 {
        lemma_decimal_len(a / 10);
        assert(decimal(a).len() >= 2);
    } else {
        assert(decimal(a).last() == digit(a % 10));
        assert(decimal(b).last() == digit(b % 10));
        assert(a % 10 == b % 10);
        assert(decimal(a).drop_last() =~= decimal(a / 10));
        assert(decimal(b).drop_last() =~= decimal(b / 10));
        law_decimal_is_unique(a / 10, b / 10);
    }
}

proof fn lemma_decimal_len(n: nat)
    ensures
        decimal(n).len() >= 1,
    decreases n,
{
    if n >= 10 {
        lemma_decimal_len(n / 10);
    }
}

/// Every byte takes two hexadecimal digits.
pub proof fn law_hex_length(bytes: Seq<u8>)
    ensures
        hex_of(bytes).len() == 2 * bytes.len(),
    decreases bytes.len(),
{
    if bytes.len() > 0 {
        law_hex_length(bytes.drop_last());
    }
}

} // verus!
