//! The 64-symbol alphabet and its inverse lookup.

use vstd::prelude::*;

verus! {

/// The byte that stands for the 6-bit value `i`:
/// `A`-`Z` for 0-25, `a`-`z` for 26-51, `0`-`9` for 52-61, `_` for 62 and `-` for 63.
pub open spec fn symbol(i: int) -> u8
    recommends
        0 <= i < 64,
{
    if i < 26 {
        (65 + i) as u8
    } else if i < 52 {
        (97 + (i - 26)) as u8
    } else if i < 62 {
        (48 + (i - 52)) as u8
    } else if i == 62 {
        95u8
    } else {
        45u8
    }
}

/// The 6-bit value of byte `b`, or `None` when `b` is not in the alphabet.
pub open spec fn symbol_value(b: u8) -> Option<int> {
    if 65 <= b <= 90 {
        Some(b - 65)
    } else if 97 <= b <= 122 {
        Some(b - 97 + 26)
    } else if 48 <= b <= 57 {
        Some(b - 48 + 52)
    } else if b == 95 {
        Some(62)
    } else if b == 45 {
        Some(63)
    } else {
        None
    }
}

/// The lookup is the exact inverse of the alphabet: a byte maps to `i`
/// exactly when it is the `i`-th symbol, and every other byte maps to nothing.
pub proof fn lemma_alphabet_bijection(b: u8)
    ensures
        forall|i: int| 0 <= i < 64 ==> (symbol_value(b) == Some(i) <==> symbol(i) == b),
        symbol_value(b) is None <==> (forall|i: int| 0 <= i < 64 ==> symbol(i) != b),
        symbol_value(b) matches Some(i) ==> 0 <= i < 64,
{
    if symbol_value(b) is None {
        assert forall|i: int| 0 <= i < 64 implies symbol(i) != b by {}
    } else {
        let i = symbol_value(b)->0;
        assert(symbol(i) == b);
    }
}

/// Every value below 64 has a symbol, and looking that symbol up gives the value back.
pub proof fn lemma_symbol_round_trip(i: int)
    requires
        0 <= i < 64,
    ensures
        symbol_value(symbol(i)) == Some(i),
{
}

/// The symbol for the 6-bit value `i`.
pub fn safe_character(i: u8) -> (r: u8)
    requires
        i < 64,
    ensures
        r == symbol(i as int),
{
    if i < 26 {
        65 + i
    } else if i < 52 {
        97 + (i - 26)
    } else if i < 62 {
        48 + (i - 52)
    } else if i == 62 {
        95u8
    } else {
        45u8
    }
}

/// The 6-bit value of byte `b`, or `None` when `b` is not one of the 64 symbols.
pub fn safe_index(b: u8) -> (r: Option<u8>)
    ensures
        r matches Some(v) ==> symbol_value(b) == Some(v as int) && v < 64 && symbol(v as int) == b,
        r is None <==> symbol_value(b) is None,
        r is None ==> forall|i: int| 0 <= i < 64 ==> symbol(i) != b,
{
    proof {
        lemma_alphabet_bijection(b);
    }
    if 65 <= b && b <= 90 {
        Some(b - 65)
    } else if 97 <= b && b <= 122 {
        Some(b - 97 + 26)
    } else if 48 <= b && b <= 57 {
        Some(b - 48 + 52)
    } else if b == 95u8 {
        Some(62)
    } else if b == 45u8 {
        Some(63)
    } else {
        None
    }
}

} // verus!
