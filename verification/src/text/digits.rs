//! What digits stand for, and what the order of texts is.

use crate::text;
use vstd::prelude::*;
use vstd::utf8::*;

verus! {

/// What a hexadecimal digit in lower case stands for.
pub open spec fn nibble(c: char) -> int {
    if '0' <= c <= '9' {
        c as int - '0' as int
    } else {
        c as int - 'a' as int + 10
    }
}

proof fn lemma_hex_digit(d: nat)
    requires
        d < 16,
    ensures
        nibble(text::hex_digit(d)) == d,
        '0' <= text::hex_digit(d) <= '9' || 'a' <= text::hex_digit(d) <= 'f',
{
    reveal_strlit("0123456789abcdef");
}

/// Bytes are read back from their hexadecimal digits: the two digits at `2i` and
/// `2i + 1` stand for byte `i`, the higher half first.
pub proof fn law_hex_is_read_back(bytes: Seq<u8>, i: int)
    requires
        0 <= i < bytes.len(),
    ensures
        text::hex_of(bytes).len() == 2 * bytes.len(),
        16 * nibble(text::hex_of(bytes)[2 * i]) + nibble(text::hex_of(bytes)[2 * i + 1]) == bytes[i],
        nibble(text::hex_of(bytes)[2 * i + 1]) < 16,
    decreases bytes.len(),
{
    let rest = bytes.drop_last();
    let last = bytes.last();
    text::law_hex_length(bytes);
    text::law_hex_length(rest);
    lemma_hex_digit(last as nat / 16);
    lemma_hex_digit(last as nat % 16);
    if i < rest.len() {
        law_hex_is_read_back(rest, i);
        assert(rest[i] == bytes[i]);
    } else {
        assert(last == bytes[i]);
    }
}

/// What decimal digits stand for.
pub open spec fn number_of(s: Seq<char>) -> int
    decreases s.len(),
{
    if s.len() == 0 {
        0
    } else {
        10 * number_of(s.drop_last()) + (s.last() as int - '0' as int)
    }
}

/// A number is read back from its decimal digits, of which it has no more than
/// it needs.
pub proof fn law_decimal_digits(n: nat)
    ensures
        number_of(text::decimal(n)) == n,
        text::decimal(n).len() > 0,
        forall|i: int|
            0 <= i < text::decimal(n).len() ==> '0' <= #[trigger] text::decimal(n)[i] <= '9',
        n > 0 ==> text::decimal(n)[0] != '0',
    decreases n,
{
    reveal_strlit("0123456789");
    reveal_with_fuel(number_of, 2);
    let s = text::decimal(n);
    if n >= 10 {
        law_decimal_digits(n / 10);
        assert(s.drop_last() =~= text::decimal(n / 10));
        assert(s[0] == text::decimal(n / 10)[0]);
    } else {
        assert(s.drop_last() =~= Seq::empty());
    }
}

/// One byte string comes before another where it is a true beginning of it, or
/// has the smaller byte at the first place where they differ.
pub proof fn law_bytes_before(a: Seq<u8>, b: Seq<u8>, k: int)
    requires
        0 <= k <= a.len(),
        k <= b.len(),
        forall|i: int| 0 <= i < k ==> #[trigger] a[i] == b[i],
        k < a.len() && k < b.len() ==> a[k] != b[k],
    ensures
        text::bytes_before(a, b) <==> k < b.len() && (k == a.len() || a[k] < b[k]),
    decreases k,
{
    if k > 0 {
        let x = a.drop_first();
        let y = b.drop_first();
        assert(a[0] == b[0]);
        assert forall|i: int| 0 <= i < k - 1 implies #[trigger] x[i] == y[i] by {
            assert(a[i + 1] == b[i + 1]);
        }
        law_bytes_before(x, y, k - 1);
    }
}

/// The order of texts is that of their bytes.
pub proof fn law_before(a: Seq<char>, b: Seq<char>, k: int)
    requires
        0 <= k <= encode_utf8(a).len(),
        k <= encode_utf8(b).len(),
        forall|i: int| 0 <= i < k ==> #[trigger] encode_utf8(a)[i] == encode_utf8(b)[i],
        k < encode_utf8(a).len() && k < encode_utf8(b).len() ==> encode_utf8(a)[k] != encode_utf8(
            b,
        )[k],
    ensures
        text::before(a, b) <==> k < encode_utf8(b).len() && (k == encode_utf8(a).len()
            || encode_utf8(a)[k] < encode_utf8(b)[k]),
{
    law_bytes_before(encode_utf8(a), encode_utf8(b), k);
}

} // verus!
