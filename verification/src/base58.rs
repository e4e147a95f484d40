//! Base58: bytes as a number to base 58, with a `1` for every zero byte at the front.

use crate::bytes::{be_value, pow256};
use crate::text::repeated;
use vstd::prelude::*;
use vstd::utf8::{encode_utf8, is_ascii_chars_encode_utf8};

verus! {

/// The digit of a number below 58: figures and letters but for `0`, `I`, `O` and `l`.
pub open spec fn base58_digit(d: nat) -> char {
    if d < 9 {
        (49 + d) as char
    } else if d < 17 {
        (56 + d) as char
    } else if d < 22 {
        (57 + d) as char
    } else if d < 33 {
        (58 + d) as char
    } else if d < 44 {
        (64 + d) as char
    } else {
        (65 + d) as char
    }
}

/// A number to base 58, without leading zeros; nothing for zero.
pub open spec fn base58_number(n: nat) -> Seq<char>
    decreases n,
{
    if n == 0 {
        Seq::empty()
    } else {
        base58_number(n / 58).push(base58_digit(n % 58))
    }
}

/// The number of zero bytes at the front.
pub open spec fn zeros_in_front(bytes: Seq<u8>) -> nat
    decreases bytes.len(),
{
    if bytes.len() == 0 || bytes[0] != 0 {
        0
    } else {
        1 + zeros_in_front(bytes.skip(1))
    }
}

/// The base58 text of some bytes.
pub open spec fn base58(bytes: Seq<u8>) -> Seq<char> {
    repeated('1', zeros_in_front(bytes)) + base58_number(be_value(bytes))
}

/// Whether a character is a digit to base 58.
pub open spec fn is_base58_char(c: char) -> bool {
    exists|d: nat| d < 58 && #[trigger] base58_digit(d) == c
}

/// Whether a text is one to base 58.
pub open spec fn is_base58(text: Seq<char>) -> bool {
    forall|i: int| 0 <= i < text.len() ==> is_base58_char(#[trigger] text[i])
}

/// What a digit stands for.
spec fn digit_value(c: char) -> nat {
    choose|d: nat| d < 58 && #[trigger] base58_digit(d) == c
}

/// What a text stands for as a number.
spec fn text_value(text: Seq<char>) -> nat
    decreases text.len(),
{
    if text.len() == 0 {
        0
    } else {
        58 * text_value(text.drop_last()) + digit_value(text.last())
    }
}

proof fn lemma_digit_value(d: nat)
    requires
        d < 58,
    ensures
        digit_value(base58_digit(d)) == d,
{
    let c = base58_digit(d);
    let e = choose|e: nat| e < 58 && #[trigger] base58_digit(e) == c;
    assert(e < 58 && base58_digit(e) == base58_digit(d));
}

proof fn lemma_number_value(n: nat)
    ensures
        text_value(base58_number(n)) == n,
    decreases n,
{
    if n > 0 {
        lemma_number_value(n / 58);
        lemma_digit_value(n % 58);
        assert(base58_number(n).drop_last() =~= base58_number(n / 58));
    }
}

proof fn lemma_ones_in_front(count: nat, text: Seq<char>)
    ensures
        text_value(repeated('1', count) + text) == text_value(text),
    decreases count + text.len(),
{
    let all = repeated('1', count) + text;
    if text.len() > 0 {
        lemma_ones_in_front(count, text.drop_last());
        assert(all.drop_last() =~= repeated('1', count) + text.drop_last());
    } else if count > 0 {
        lemma_ones_in_front((count - 1) as nat, text);
        assert(all.drop_last() =~= repeated('1', (count - 1) as nat) + text);
        lemma_digit_value(0);
        assert(base58_digit(0) == '1');
    } else {
        assert(all =~= text);
    }
}

/// The last byte is the lowest.
proof fn lemma_be_last(bytes: Seq<u8>)
    requires
        bytes.len() > 0,
    ensures
        be_value(bytes) == bytes.last() + 256 * be_value(bytes.drop_last()),
{
    assert(bytes.reverse().skip(1) =~= bytes.drop_last().reverse());
    assert(bytes.reverse()[0] == bytes.last());
}

proof fn lemma_be_injective(a: Seq<u8>, b: Seq<u8>)
    requires
        a.len() == b.len(),
        be_value(a) == be_value(b),
    ensures
        a == b,
    decreases a.len(),
{
    if a.len() > 0 {
        lemma_be_last(a);
        lemma_be_last(b);
        lemma_be_injective(a.drop_last(), b.drop_last());
        assert(a =~= a.drop_last().push(a.last()));
        assert(b =~= b.drop_last().push(b.last()));
    } else {
        assert(a =~= b);
    }
}

/// A zero byte at the front changes nothing.
proof fn lemma_be_zero_in_front(bytes: Seq<u8>)
    requires
        bytes.len() > 0,
        bytes[0] == 0,
    ensures
        be_value(bytes) == be_value(bytes.skip(1)),
    decreases bytes.len(),
{
    lemma_be_last(bytes);
    if bytes.len() > 1 {
        lemma_be_zero_in_front(bytes.drop_last());
        lemma_be_last(bytes.skip(1));
        assert(bytes.skip(1).drop_last() =~= bytes.drop_last().skip(1));
    } else {
        assert(bytes.drop_last() =~= Seq::empty());
        assert(bytes.skip(1) =~= Seq::empty());
    }
}

proof fn lemma_be_bound(bytes: Seq<u8>)
    ensures
        zeros_in_front(bytes) <= bytes.len(),
        be_value(bytes) < pow256((bytes.len() - zeros_in_front(bytes)) as nat),
    decreases bytes.len(),
{
    if bytes.len() > 0 && bytes[0] == 0 {
        lemma_be_zero_in_front(bytes);
        lemma_be_bound(bytes.skip(1));
    } else {
        lemma_be_below(bytes);
    }
}

proof fn lemma_be_below(bytes: Seq<u8>)
    ensures
        be_value(bytes) < pow256(bytes.len()),
    decreases bytes.len(),
{
    if bytes.len() > 0 {
        lemma_be_last(bytes);
        lemma_be_below(bytes.drop_last());
    }
}

/// 58 to the power of `count`.
spec fn pow58(count: nat) -> nat
    decreases count,
{
    if count == 0 {
        1
    } else {
        58 * pow58((count - 1) as nat)
    }
}

proof fn lemma_number_len(n: nat, count: nat)
    requires
        n < pow58(count),
    ensures
        base58_number(n).len() <= count,
    decreases count,
{
    if n > 0 {
        lemma_number_len(n / 58, (count - 1) as nat);
    }
}

/// Eleven digits have room for eight bytes.
proof fn lemma_room(eights: nat)
    ensures
        pow256(8 * eights) <= pow58(11 * eights),
    decreases eights,
{
    if eights > 0 {
        let fewer = (eights - 1) as nat;
        lemma_room(fewer);
        reveal_with_fuel(pow256, 9);
        reveal_with_fuel(pow58, 12);
        let (p, q) = (pow256(8 * fewer), pow58(11 * fewer));
        assert(8 * eights == 8 * fewer + 8 && 11 * eights == 11 * fewer + 11);
        assert(pow256(8 * eights) == 18_446_744_073_709_551_616 * p);
        assert(pow58(11 * eights) == 24_986_644_000_165_537_792 * q);
    }
}

/// As long as bytes are left, each byte less takes away at least one digit.
proof fn lemma_less_room(count: nat)
    requires
        count <= 32,
    ensures
        pow256((32 - count) as nat) <= pow58((44 - count) as nat),
    decreases count,
{
    if count == 0 {
        lemma_room(4);
    } else {
        lemma_less_room((count - 1) as nat);
        let (p, q) = (pow256((32 - count) as nat), pow58((44 - count) as nat));
        assert(pow256((33 - count) as nat) == 256 * p);
        assert(pow58((45 - count) as nat) == 58 * q);
    }
}

proof fn lemma_number_is_base58(n: nat)
    ensures
        is_base58(base58_number(n)),
    decreases n,
{
    if n > 0 {
        lemma_number_is_base58(n / 58);
        assert(is_base58_char(base58_digit(n % 58)));
    }
}

/// No two byte sequences of the same length have the same base58 text.
pub proof fn law_base58_tells_bytes(a: Seq<u8>, b: Seq<u8>)
    requires
        a.len() == b.len(),
        base58(a) == base58(b),
    ensures
        a == b,
{
    lemma_number_value(be_value(a));
    lemma_number_value(be_value(b));
    lemma_ones_in_front(zeros_in_front(a), base58_number(be_value(a)));
    lemma_ones_in_front(zeros_in_front(b), base58_number(be_value(b)));
    lemma_be_injective(a, b);
}

/// The base58 text of 32 bytes has at most 44 characters, but is not empty, and takes a
/// byte for each.
pub proof fn law_base58_of_an_address(bytes: Seq<u8>)
    requires
        bytes.len() == 32,
    ensures
        0 < base58(bytes).len() <= 44,
        is_base58(base58(bytes)),
        encode_utf8(base58(bytes)).len() == base58(bytes).len(),
{
    let n = be_value(bytes);
    let zeros = zeros_in_front(bytes);
    let text = base58(bytes);
    lemma_be_bound(bytes);
    lemma_less_room(zeros);
    lemma_number_len(n, (44 - zeros) as nat);
    lemma_number_is_base58(n);
    assert(is_base58_char('1')) by {
        assert(base58_digit(0) == '1');
    }
    if zeros == 0 {
        lemma_be_positive(bytes);
    }
    assert forall|i: int| 0 <= i < text.len() implies is_base58_char(#[trigger] text[i]) by {
        if i >= zeros {
            assert(text[i] == base58_number(n)[i - zeros]);
        }
    }
    assert forall|i: int| 0 <= i < text.len() implies '\0' <= #[trigger] text[i] <= '\u{7f}' by {
        assert(is_base58_char(text[i]));
    }
    is_ascii_chars_encode_utf8(text);
}

/// Bytes that do not begin with zero are no zero.
proof fn lemma_be_positive(bytes: Seq<u8>)
    requires
        bytes.len() > 0,
        bytes[0] != 0,
    ensures
        be_value(bytes) > 0,
    decreases bytes.len(),
{
    lemma_be_last(bytes);
    if bytes.len() > 1 {
        lemma_be_positive(bytes.drop_last());
    }
}

/// The digits are figures and letters in their usual order.
pub proof fn law_base58_digits(d: nat)
    requires
        d < 58,
    ensures
        base58_digit(d) == "123456789ABCDEFGHJKLMNPQRSTUVWXYZabcdefghijkmnopqrstuvwxyz"@[d as int],
{
    reveal_strlit("123456789ABCDEFGHJKLMNPQRSTUVWXYZabcdefghijkmnopqrstuvwxyz");
}

} // verus!
