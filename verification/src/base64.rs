//! Base64 (RFC 4648, standard alphabet, with `=` padding).
use vstd::prelude::*;
use crate::text::push_char;

verus! {

/// The character for a 6-bit value: `A`-`Z`, `a`-`z`, `0`-`9`, `+`, `/`.
pub open spec fn b64_digit(v: int) -> char {
    if v < 26 {
        (65 + v) as char
    } else if v < 52 {
        (97 + v - 26) as char
    } else if v < 62 {
        (48 + v - 52) as char
    } else if v == 62 {
        '+'
    } else {
        '/'
    }
}

/// A character of the Base64 alphabet, or the padding `=`.
pub open spec fn is_b64_char(c: char) -> bool {
    ||| 'A' <= c <= 'Z'
    ||| 'a' <= c <= 'z'
    ||| '0' <= c <= '9'
    ||| c == '+'
    ||| c == '/'
    ||| c == '='
}

/// The four characters for a group of one to three bytes: the 24 bits of
/// the group (zero-filled) cut into four 6-bit values, and `=` in place of
/// each character that only covers filling.
pub open spec fn b64_group(d: Seq<u8>) -> Seq<char> {
    let a = d[0] as int;
    let b = if d.len() > 1 {
        d[1] as int
    } else {
        0
    };
    let c = if d.len() > 2 {
        d[2] as int
    } else {
        0
    };
    seq![
        b64_digit(a / 4),
        b64_digit((a % 4) * 16 + b / 16),
        if d.len() > 1 {
            b64_digit((b % 16) * 4 + c / 64)
        } else {
            '='
        },
        if d.len() > 2 {
            b64_digit(c % 64)
        } else {
            '='
        },
    ]
}

/// The Base64 text of `d`: its groups of three bytes in order, the last
/// group possibly shorter.
pub open spec fn base64(d: Seq<u8>) -> Seq<char>
    decreases d.len(),
{
    if d.len() == 0 {
        seq![]
    } else if d.len() <= 3 {
        b64_group(d)
    } else {
        b64_group(d.take(3)) + base64(d.skip(3))
    }
}

fn digit(v: u8) -> (r: char)
    requires
        v < 64,
    ensures
        r == b64_digit(v as int),
        is_b64_char(r),
{
    if v < 26 {
        ((65 + v) as u8) as char
    } else if v < 52 {
        ((97 + v - 26) as u8) as char
    } else if v < 62 {
        ((48 + v - 52) as u8) as char
    } else if v == 62 {
        '+'
    } else {
        '/'
    }
}

/// The Base64 text of `data`.
pub fn b64(data: &[u8]) -> (r: String)
    ensures
        r@ == base64(data@),
{
    let mut out = String::new();
    let n = data.len();
    let mut i: usize = 0;
    assert(data@.skip(0) == data@);
    while i < n
        invariant
            i <= n == data@.len(),
            base64(data@) == out@ + base64(data@.skip(i as int)),
        decreases n - i,
    {
        let rest = n - i;
        let a = data[i];
        let b = if rest > 1 {
            data[i + 1]
        } else {
            0
        };
        let c = if rest > 2 {
            data[i + 2]
        } else {
            0
        };
        let ghost tail = data@.skip(i as int);
        let ghost group = if rest <= 3 {
            tail
        } else {
            tail.take(3)
        };
        let ghost before = out@;
        push_char(&mut out, digit(a / 4));
        push_char(&mut out, digit((a % 4) * 16 + b / 16));
        if rest > 1 {
            push_char(&mut out, digit((b % 16) * 4 + c / 64));
        } else {
            push_char(&mut out, '=');
        }
        if rest > 2 {
            push_char(&mut out, digit(c % 64));
        } else {
            push_char(&mut out, '=');
        }
        assert(out@ == before + b64_group(group));
        if rest > 3 {
            assert(tail.skip(3) == data@.skip(i + 3));
            i = i + 3;
        } else {
            assert(data@.skip(n as int) == Seq::<u8>::empty());
            i = n;
        }
    }
    assert(data@.skip(n as int) == Seq::<u8>::empty());
    out
}

/// Base64 text is four characters for every started group of three bytes.
pub proof fn law_base64_length(d: Seq<u8>)
    ensures
        base64(d).len() == 4 * ((d.len() + 2) / 3),
    decreases d.len(),
{
    if d.len() > 3 {
        law_base64_length(d.skip(3));
    }
}

/// Base64 text is made of the alphabet and the padding `=` alone.
pub proof fn law_base64_alphabet(d: Seq<u8>)
    ensures
        forall|i: int| 0 <= i < base64(d).len() ==> is_b64_char(#[trigger] base64(d)[i]),
    decreases d.len(),
{
    assert forall|v: int| 0 <= v < 64 implies is_b64_char(#[trigger] b64_digit(v)) by {
    }
    if d.len() > 3 {
        law_base64_alphabet(d.skip(3));
        let g = b64_group(d.take(3));
        let rest = base64(d.skip(3));
        assert forall|i: int| 0 <= i < base64(d).len() implies is_b64_char(
            #[trigger] base64(d)[i],
        ) by {
            if i < 4 {
                assert(base64(d)[i] == g[i]);
            } else {
                assert(base64(d)[i] == rest[i - 4]);
            }
        }
    } else if d.len() > 0 {
        let a = d[0] as int;
        assert(0 <= a / 4 < 64);
    }
}

/// Encoding bytes whose count is a multiple of three, followed by more
/// bytes, gives the two encodings one after the other.
pub proof fn law_base64_concat(d1: Seq<u8>, d2: Seq<u8>)
    requires
        d1.len() % 3 == 0,
    ensures
        base64(d1 + d2) == base64(d1) + base64(d2),
    decreases d1.len(),
{
    if d1.len() == 0 {
        assert(d1 + d2 == d2);
    } else if d2.len() == 0 {
        assert(d1 + d2 == d1);
    } else {
        law_base64_concat(d1.skip(3), d2);
        assert((d1 + d2).take(3) == d1.take(3));
        assert((d1 + d2).skip(3) == d1.skip(3) + d2);
        if d1.len() == 3 {
            assert(d1.skip(3) == Seq::<u8>::empty());
            assert(d1.take(3) == d1);
            assert(d1.skip(3) + d2 == d2);
        }
    }
}


/// The 6-bit value of a character of the Base64 alphabet.
pub open spec fn digit_value(c: char) -> int {
    if 'A' <= c <= 'Z' {
        c as int - 65
    } else if 'a' <= c <= 'z' {
        c as int - 97 + 26
    } else if '0' <= c <= '9' {
        c as int - 48 + 52
    } else if c == '+' {
        62
    } else {
        63
    }
}

/// The bytes of a group of four Base64 characters, one or two fewer when
/// it ends in `=` padding.
pub open spec fn decode_group(g: Seq<char>) -> Seq<u8> {
    let v0 = digit_value(g[0]);
    let v1 = digit_value(g[1]);
    let v2 = digit_value(g[2]);
    let v3 = digit_value(g[3]);
    let a = (v0 * 4 + v1 / 16) as u8;
    let b = ((v1 % 16) * 16 + v2 / 4) as u8;
    let c = ((v2 % 4) * 64 + v3) as u8;
    if g[2] == '=' {
        seq![a]
    } else if g[3] == '=' {
        seq![a, b]
    } else {
        seq![a, b, c]
    }
}

/// Decoding Base64 text group by group.
pub open spec fn unbase64(s: Seq<char>) -> Seq<u8>
    decreases s.len(),
{
    if s.len() < 4 {
        seq![]
    } else {
        decode_group(s.take(4)) + unbase64(s.skip(4))
    }
}

proof fn lemma_digit(v: int)
    requires
        0 <= v < 64,
    ensures
        digit_value(b64_digit(v)) == v,
        b64_digit(v) != '=',
{
}

proof fn lemma_group_bytes(a: int, b: int, c: int)
    requires
        0 <= a < 256,
        0 <= b < 256,
        0 <= c < 256,
    ensures
        ({
            let v0 = a / 4;
            let v1 = (a % 4) * 16 + b / 16;
            let v2 = (b % 16) * 4 + c / 64;
            let v3 = c % 64;
            &&& 0 <= v0 < 64
            &&& 0 <= v1 < 64
            &&& 0 <= v2 < 64
            &&& 0 <= v3 < 64
            &&& v0 * 4 + v1 / 16 == a
            &&& (v1 % 16) * 16 + v2 / 4 == b
            &&& (v2 % 4) * 64 + v3 == c
        }),
{
}

proof fn lemma_decode_group(d: Seq<u8>)
    requires
        1 <= d.len() <= 3,
    ensures
        decode_group(b64_group(d)) == d,
{
    let a = d[0] as int;
    let b = if d.len() > 1 {
        d[1] as int
    } else {
        0
    };
    let c = if d.len() > 2 {
        d[2] as int
    } else {
        0
    };
    lemma_group_bytes(a, b, c);
    let v0 = a / 4;
    let v1 = (a % 4) * 16 + b / 16;
    let v2 = (b % 16) * 4 + c / 64;
    let v3 = c % 64;
    lemma_digit(v0);
    lemma_digit(v1);
    lemma_digit(v2);
    lemma_digit(v3);
    let g = b64_group(d);
    assert(digit_value(g[0]) == v0);
    assert(digit_value(g[1]) == v1);
    if d.len() > 1 {
        assert(digit_value(g[2]) == v2);
    }
    if d.len() > 2 {
        assert(digit_value(g[3]) == v3);
    }
    assert(decode_group(g) =~= d);
}

/// Decoding the Base64 text of any bytes gives those bytes back.
pub proof fn law_base64_round_trip(d: Seq<u8>)
    ensures
        unbase64(base64(d)) == d,
    decreases d.len(),
{
    if d.len() == 0 {
        assert(unbase64(base64(d)) =~= d);
    } else if d.len() <= 3 {
        lemma_decode_group(d);
        let g = b64_group(d);
        assert(g.take(4) == g);
        assert(unbase64(g.skip(4)) == Seq::<u8>::empty());
        assert(unbase64(g) =~= d);
    } else {
        law_base64_round_trip(d.skip(3));
        lemma_decode_group(d.take(3));
        let g = b64_group(d.take(3));
        let s = g + base64(d.skip(3));
        assert(s.take(4) == g);
        assert(s.skip(4) == base64(d.skip(3)));
        assert(d.take(3) + d.skip(3) =~= d);
    }
}

/// Different bytes never share a Base64 text.
pub proof fn law_base64_injective(d1: Seq<u8>, d2: Seq<u8>)
    requires
        base64(d1) == base64(d2),
    ensures
        d1 == d2,
{
    law_base64_round_trip(d1);
    law_base64_round_trip(d2);
}

/// Padding `=` only ever stands among the last two characters.
pub proof fn law_base64_padding_at_end(d: Seq<u8>)
    ensures
        forall|i: int| 0 <= i < base64(d).len() - 2 ==> #[trigger] base64(d)[i] != '=',
    decreases d.len(),
{
    if d.len() > 0 {
        let a = d[0] as int;
        let b = if d.len() > 1 {
            d[1] as int
        } else {
            0
        };
        let c = if d.len() > 2 {
            d[2] as int
        } else {
            0
        };
        lemma_group_bytes(a, b, c);
        lemma_digit(a / 4);
        lemma_digit((a % 4) * 16 + b / 16);
        lemma_digit((b % 16) * 4 + c / 64);
        lemma_digit(c % 64);
        if d.len() > 3 {
            law_base64_padding_at_end(d.skip(3));
            law_base64_length(d.skip(3));
            let g = b64_group(d.take(3));
            let rest = base64(d.skip(3));
            assert(d.take(3)[0] == d[0] && d.take(3)[1] == d[1] && d.take(3)[2] == d[2]);
            assert forall|i: int| 0 <= i < base64(d).len() - 2 implies #[trigger] base64(d)[i]
                != '=' by {
                if i < 4 {
                    assert(base64(d)[i] == g[i]);
                } else {
                    assert(base64(d)[i] == rest[i - 4]);
                }
            }
        }
    }
}
} // verus!
