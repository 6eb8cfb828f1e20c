//! Lowercase hexadecimal encoding of byte sequences, as characters and as
//! ASCII bytes, with the lemmas that relate the two.

use vstd::prelude::*;

verus! {

/// The lowercase hexadecimal digit for one value below 16.
pub open spec fn hex_digit(n: u8) -> char
    recommends
        n < 16,
{
    if n == 0 {
        '0'
    } else if n == 1 {
        '1'
    } else if n == 2 {
        '2'
    } else if n == 3 {
        '3'
    } else if n == 4 {
        '4'
    } else if n == 5 {
        '5'
    } else if n == 6 {
        '6'
    } else if n == 7 {
        '7'
    } else if n == 8 {
        '8'
    } else if n == 9 {
        '9'
    } else if n == 10 {
        'a'
    } else if n == 11 {
        'b'
    } else if n == 12 {
        'c'
    } else if n == 13 {
        'd'
    } else if n == 14 {
        'e'
    } else {
        'f'
    }
}

/// The ASCII byte of the lowercase hexadecimal digit for one value below 16.
pub open spec fn hex_digit_byte(n: u8) -> u8
    recommends
        n < 16,
{
    if n < 10 {
        (48 + n) as u8
    } else {
        (87 + n) as u8
    }
}

/// The two hexadecimal digits of one byte.
pub open spec fn hex_of_byte(b: u8) -> Seq<char> {
    seq![hex_digit(b / 16), hex_digit(b % 16)]
}

/// Lowercase hexadecimal encoding of a byte sequence, as characters.
pub open spec fn hex_chars(s: Seq<u8>) -> Seq<char>
    decreases s.len(),
{
    if s.len() == 0 {
        Seq::empty()
    } else {
        hex_of_byte(s[0]) + hex_chars(s.drop_first())
    }
}

/// The digit byte is the digit character, read as ASCII.
proof fn lemma_hex_digit_byte_is_char(n: u8)
    requires
        n < 16,
    ensures
        hex_digit_byte(n) == hex_digit(n) as u8,
        32 <= hex_digit_byte(n) < 128,
        hex_digit_byte(n) != 45,
{
}

/// Every character of a hexadecimal encoding is a lowercase digit,
/// in particular ASCII and neither a hyphen, a space nor an uppercase letter.
pub proof fn lemma_hex_chars_class(s: Seq<u8>)
    ensures
        hex_chars(s).len() == 2 * s.len(),
        forall|i: int|
            #![trigger hex_chars(s)[i]]
            0 <= i < hex_chars(s).len() ==> (('0' <= hex_chars(s)[i] && hex_chars(s)[i] <= '9')
                || ('a' <= hex_chars(s)[i] && hex_chars(s)[i] <= 'f')),
    decreases s.len(),
{
    if s.len() > 0 {
        lemma_hex_chars_class(s.drop_first());
    }
}

/// Hexadecimal encoding distributes over concatenation.
proof fn lemma_hex_chars_concat(a: Seq<u8>, b: Seq<u8>)
    ensures
        hex_chars(a + b) == hex_chars(a) + hex_chars(b),
    decreases a.len(),
{
    if a.len() == 0 {
        assert(a + b =~= b);
        assert(hex_chars(a) + hex_chars(b) =~= hex_chars(b));
    } else {
        lemma_hex_chars_concat(a.drop_first(), b);
        assert((a + b).drop_first() =~= a.drop_first() + b);
        assert(hex_of_byte(a[0]) + (hex_chars(a.drop_first()) + hex_chars(b)) =~= (hex_of_byte(
            a[0],
        ) + hex_chars(a.drop_first())) + hex_chars(b));
    }
}

/// Growing the encoded prefix by one byte appends that byte's two digits.
proof fn lemma_hex_chars_take_succ(s: Seq<u8>, i: int)
    requires
        0 <= i < s.len(),
    ensures
        hex_chars(s.take(i + 1)) == hex_chars(s.take(i)) + hex_of_byte(s[i]),
{
    assert(s.take(i + 1) =~= s.take(i) + seq![s[i]]);
    lemma_hex_chars_concat(s.take(i), seq![s[i]]);
    assert(seq![s[i]].drop_first() =~= Seq::<u8>::empty());
    assert(hex_chars(seq![s[i]].drop_first()) =~= Seq::<char>::empty());
    assert(hex_chars(seq![s[i]]) =~= hex_of_byte(s[i]));
}

/// Appends the lowercase hexadecimal digit for `n` to `out`.
pub fn push_hex_digit(out: &mut String, n: u8)
    requires
        n < 16,
    ensures
        final(out)@ == old(out)@ + seq![hex_digit(n)],
{
    let digit: &str = if n == 0 {
        "0"
    } else if n == 1 {
        "1"
    } else if n == 2 {
        "2"
    } else if n == 3 {
        "3"
    } else if n == 4 {
        "4"
    } else if n == 5 {
        "5"
    } else if n == 6 {
        "6"
    } else if n == 7 {
        "7"
    } else if n == 8 {
        "8"
    } else if n == 9 {
        "9"
    } else if n == 10 {
        "a"
    } else if n == 11 {
        "b"
    } else if n == 12 {
        "c"
    } else if n == 13 {
        "d"
    } else if n == 14 {
        "e"
    } else {
        "f"
    };
    proof {
        reveal_strlit("0");
        reveal_strlit("1");
        reveal_strlit("2");
        reveal_strlit("3");
        reveal_strlit("4");
        reveal_strlit("5");
        reveal_strlit("6");
        reveal_strlit("7");
        reveal_strlit("8");
        reveal_strlit("9");
        reveal_strlit("a");
        reveal_strlit("b");
        reveal_strlit("c");
        reveal_strlit("d");
        reveal_strlit("e");
        reveal_strlit("f");
        assert(digit@ =~= seq![hex_digit(n)]);
    }
    out.append(digit);
}

/// The lowercase hexadecimal encoding of `bytes`, as a string.
pub fn hex_string(bytes: &Vec<u8>) -> (r: String)
    ensures
        r@ == hex_chars(bytes@),
{
    let mut out = String::new();
    let mut i: usize = 0;
    proof {
        assert(bytes@.take(0int) =~= Seq::<u8>::empty());
    }
    while i < bytes.len()
        invariant
            i <= bytes@.len(),
            out@ == hex_chars(bytes@.take(i as int)),
        decreases bytes@.len() - i,
    {
        let b = bytes[i];
        push_hex_digit(&mut out, b / 16);
        push_hex_digit(&mut out, b % 16);
        proof {
            lemma_hex_chars_take_succ(bytes@, i as int);
            assert(hex_chars(bytes@.take(i as int)) + seq![hex_digit(b / 16)] + seq![
                hex_digit(b % 16),
            ] =~= hex_chars(bytes@.take(i as int)) + hex_of_byte(b));
        }
        i = i + 1;
    }
    proof {
        assert(bytes@.take(bytes@.len() as int) =~= bytes@);
    }
    out
}

/// The lowercase hexadecimal encoding of `bytes`, as ASCII bytes.
pub fn hex_ascii_bytes(bytes: &Vec<u8>) -> (r: Vec<u8>)
    ensures
        r@ == hex_chars(bytes@).map_values(|c: char| c as u8),
{
    let mut out: Vec<u8> = Vec::new();
    let mut i: usize = 0;
    while i < bytes.len()
        invariant
            i <= bytes@.len(),
            out@ == hex_chars(bytes@.take(i as int)).map_values(|c: char| c as u8),
        decreases bytes@.len() - i,
    {
        let b = bytes[i];
        let hi = b / 16;
        let lo = b % 16;
        out.push(if hi < 10 {
            48 + hi
        } else {
            87 + hi
        });
        out.push(if lo < 10 {
            48 + lo
        } else {
            87 + lo
        });
        proof {
            lemma_hex_chars_take_succ(bytes@, i as int);
            lemma_hex_digit_byte_is_char(hi);
            lemma_hex_digit_byte_is_char(lo);
            assert(out@ =~= hex_chars(bytes@.take(i + 1)).map_values(|c: char| c as u8));
        }
        i = i + 1;
    }
    proof {
        assert(bytes@.take(bytes@.len() as int) =~= bytes@);
    }
    out
}

} // verus!
