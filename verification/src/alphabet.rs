//! The 32-symbol alphabet: the letters `A` to `Z`, then the digits `2` to `7`.

use vstd::prelude::*;

verus! {

/// The alphabet, in symbol order.
pub open spec fn alphabet() -> Seq<char> {
    seq![
        'A', 'B', 'C', 'D', 'E', 'F', 'G', 'H', 'I', 'J', 'K', 'L', 'M', 'N', 'O', 'P',
        'Q', 'R', 'S', 'T', 'U', 'V', 'W', 'X', 'Y', 'Z', '2', '3', '4', '5', '6', '7',
    ]
}

/// The character that stands for symbol `s`.
pub open spec fn symbol_char(s: u8) -> char
    recommends
        s < 32,
{
    alphabet()[s as int]
}

/// The symbol that `c` stands for, if `c` is a character of the alphabet.
pub open spec fn symbol_of(c: char) -> Option<u8> {
    if 'A' <= c <= 'Z' {
        Some((c as int - 'A' as int) as u8)
    } else if '2' <= c <= '7' {
        Some((c as int - '2' as int + 26) as u8)
    } else {
        None
    }
}

/// Whether every character of `code` belongs to the alphabet.
pub open spec fn all_symbols(code: Seq<char>) -> bool {
    forall|i: int| 0 <= i < code.len() ==> (#[trigger] symbol_of(code[i])) is Some
}

/// `symbol_of` is the inverse of the table: it gives `s` for a character
/// exactly when that character stands at place `s` of the alphabet.
pub proof fn lemma_symbol_of_alphabet(c: char, s: u8)
    ensures
        alphabet().len() == 32,
        symbol_of(c) == Some(s) <==> (s < 32 && alphabet()[s as int] == c),
        symbol_of(c) is Some <==> alphabet().contains(c),
{
    let a = alphabet();
    assert forall|i: int| 0 <= i < 32 implies (#[trigger] a[i]) as int == (if i < 26 {
        'A' as int + i
    } else {
        '2' as int + i - 26
    }) by {}
    if symbol_of(c) is Some {
        let t = symbol_of(c)->0;
        assert(a[t as int] == c);
    }
    if a.contains(c) {
        let i = choose|i: int| 0 <= i < a.len() && a[i] == c;
        assert(a[i] == c);
    }
}

/// A sequence is made of symbols exactly when each of its characters stands
/// in the alphabet.
pub proof fn lemma_all_symbols_alphabet(code: Seq<char>)
    ensures
        all_symbols(code) <==> forall|i: int|
            0 <= i < code.len() ==> alphabet().contains(#[trigger] code[i]),
{
    assert forall|i: int| 0 <= i < code.len() implies (symbol_of(code[i]) is Some
        <==> alphabet().contains(code[i])) by {
        lemma_symbol_of_alphabet(code[i], 0);
    }
    if all_symbols(code) {
        assert forall|i: int| 0 <= i < code.len() implies alphabet().contains(
            #[trigger] code[i],
        ) by {
            assert(symbol_of(code[i]) is Some);
        }
    }
}

/// The character of the alphabet that stands for symbol `s`.
pub fn symbol_to_char(s: u8) -> (c: char)
    requires
        s < 32,
    ensures
        c == symbol_char(s),
        symbol_of(c) == Some(s),
{
    let c = if s < 26 {
        (65u8 + s) as char
    } else {
        (50u8 + (s - 26)) as char
    };
    proof {
        lemma_symbol_of_alphabet(c, s);
    }
    c
}

/// The symbol that `c` stands for, or `None` where `c` is not in the alphabet.
pub fn char_to_symbol(c: char) -> (r: Option<u8>)
    ensures
        r == symbol_of(c),
        r is Some ==> r->0 < 32,
{
    let v: u32 = c as u32;
    if 65 <= v && v <= 90 {
        Some((v - 65) as u8)
    } else if 50 <= v && v <= 55 {
        Some((v - 50 + 26) as u8)
    } else {
        None
    }
}

} // verus!
