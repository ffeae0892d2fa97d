//! Base64 encoding (RFC 4648), used for the `Sec-WebSocket-Accept` value of
//! the WebSocket handshake.

use vstd::prelude::*;

use crate::text::push_char;

verus! {

/// The character of the standard alphabet for a six-bit value:
/// `A`-`Z`, `a`-`z`, `0`-`9`, `+`, `/`.
pub open spec fn b64_char(v: int) -> char {
    if v < 26 {
        (65 + v) as char
    } else if v < 52 {
        (97 + (v - 26)) as char
    } else if v < 62 {
        (48 + (v - 52)) as char
    } else if v == 62 {
        '+'
    } else {
        '/'
    }
}

/// The four characters for one group of one to three bytes; missing bytes
/// count as zero and their characters are replaced by `=`.
pub open spec fn encode_group(g: Seq<u8>) -> Seq<char> {
    let b0 = g[0] as int;
    let b1 = if g.len() > 1 {
        g[1] as int
    } else {
        0
    };
    let b2 = if g.len() > 2 {
        g[2] as int
    } else {
        0
    };
    seq![
        b64_char(b0 / 4),
        b64_char((b0 % 4) * 16 + b1 / 16),
        if g.len() > 1 {
            b64_char((b1 % 16) * 4 + b2 / 64)
        } else {
            '='
        },
        if g.len() > 2 {
            b64_char(b2 % 64)
        } else {
            '='
        },
    ]
}

/// The Base64 encoding of `input`: the groups of three bytes, in order,
/// the last group possibly shorter.
pub open spec fn spec_encode(input: Seq<u8>) -> Seq<char>
    decreases input.len(),
{
    if input.len() == 0 {
        Seq::empty()
    } else if input.len() <= 3 {
        encode_group(input)
    } else {
        encode_group(input.take(3)) + spec_encode(input.skip(3))
    }
}

fn symbol(v: u32) -> (c: char)
    requires
        v < 64,
    ensures
        c == b64_char(v as int),
{
    if v < 26 {
        (65 + v as u8) as char
    } else if v < 52 {
        (97 + (v - 26) as u8) as char
    } else if v < 62 {
        (48 + (v - 52) as u8) as char
    } else if v == 62 {
        '+'
    } else {
        '/'
    }
}

proof fn lemma_sextets(b0: u32, b1: u32, b2: u32)
    requires
        b0 < 256,
        b1 < 256,
        b2 < 256,
    ensures
        ({
            let triple = (b0 << 16) | (b1 << 8) | b2;
            &&& (triple >> 18) & 0x3F == b0 / 4
            &&& (triple >> 12) & 0x3F == (b0 % 4) * 16 + b1 / 16
            &&& (triple >> 6) & 0x3F == (b1 % 16) * 4 + b2 / 64
            &&& triple & 0x3F == b2 % 64
        }),
{
    assert(b0 < 256 && b1 < 256 && b2 < 256 ==> {
        let triple = (b0 << 16) | (b1 << 8) | b2;
        &&& (triple >> 18) & 0x3F == b0 / 4
        &&& (triple >> 12) & 0x3F == (b0 % 4) * 16 + b1 / 16
        &&& (triple >> 6) & 0x3F == (b1 % 16) * 4 + b2 / 64
        &&& triple & 0x3F == b2 % 64
    }) by (bit_vector);
}

/// Encode a byte slice into a Base64 string.
pub fn encode(input: &[u8]) -> (result: String)
    ensures
        result@ == spec_encode(input@),
{
    let mut result = String::new();
    let n = input.len();
    let mut i: usize = 0;
    proof {
        assert(input@.skip(0) =~= input@);
        assert(result@ + spec_encode(input@) =~= spec_encode(input@));
    }
    while i < n
        invariant
            n == input@.len(),
            i <= n,
            spec_encode(input@) == result@ + spec_encode(input@.skip(i as int)),
        decreases n - i,
    {
        let rest = n - i;
        let b0 = input[i] as u32;
        let b1 = if rest > 1 {
            input[i + 1] as u32
        } else {
            0
        };
        let b2 = if rest > 2 {
            input[i + 2] as u32
        } else {
            0
        };
        let triple = (b0 << 16) | (b1 << 8) | b2;
        proof {
            lemma_sextets(b0, b1, b2);
        }
        let ghost before = result@;
        let ghost tail = input@.skip(i as int);
        let ghost group = if rest > 3 {
            tail.take(3)
        } else {
            tail
        };
        push_char(&mut result, symbol((triple >> 18) & 0x3F));
        push_char(&mut result, symbol((triple >> 12) & 0x3F));
        if rest > 1 {
            push_char(&mut result, symbol((triple >> 6) & 0x3F));
        } else {
            push_char(&mut result, '=');
        }
        if rest > 2 {
            push_char(&mut result, symbol(triple & 0x3F));
        } else {
            push_char(&mut result, '=');
        }
        proof {
            assert(result@ =~= before + encode_group(group));
            if rest > 3 {
                assert(tail.skip(3) =~= input@.skip(i + 3));
            } else {
                assert(input@.skip(n as int) =~= Seq::<u8>::empty());
            }
        }
        if rest > 3 {
            i = i + 3;
        } else {
            i = n;
        }
        proof {
            assert(result@ + spec_encode(input@.skip(i as int)) =~= before + spec_encode(tail));
        }
    }
    proof {
        assert(input@.skip(n as int) =~= Seq::<u8>::empty());
        assert(result@ + Seq::<char>::empty() =~= result@);
    }
    result
}

} // verus!

verus! {

/// Whether `c` belongs to the standard Base64 alphabet.
pub open spec fn is_b64_symbol(c: char) -> bool {
    ('A' <= c && c <= 'Z') || ('a' <= c && c <= 'z') || ('0' <= c && c <= '9') || c == '+'
        || c == '/'
}

proof fn lemma_b64_char_symbol(v: int)
    requires
        0 <= v < 64,
    ensures
        is_b64_symbol(b64_char(v)),
{
}

/// Every four characters stand for three bytes: the encoding of `n` bytes
/// is `4 * ceil(n / 3)` characters long.
pub proof fn lemma_encode_len(input: Seq<u8>)
    ensures
        spec_encode(input).len() == 4 * ((input.len() + 2) / 3),
    decreases input.len(),
{
    if input.len() > 3 {
        lemma_encode_len(input.skip(3));
    }
}

/// Encoding works group by group: when the first part is a whole number of
/// three-byte groups, the encoding of the whole is the encoding of the first
/// part followed by the encoding of the rest.
pub proof fn lemma_encode_concat(a: Seq<u8>, b: Seq<u8>)
    requires
        a.len() % 3 == 0,
    ensures
        spec_encode(a + b) == spec_encode(a) + spec_encode(b),
    decreases a.len(),
{
    if a.len() == 0 {
        assert(a + b =~= b);
        assert(Seq::<char>::empty() + spec_encode(b) =~= spec_encode(b));
    } else {
        lemma_encode_concat(a.skip(3), b);
        assert((a + b).take(3) =~= a.take(3));
        assert((a + b).skip(3) =~= a.skip(3) + b);
        if a.len() == 3 {
            assert(a.take(3) =~= a);
            assert(a.skip(3) =~= Seq::<u8>::empty());
            assert(spec_encode(a.skip(3)) =~= Seq::<char>::empty());
            assert(spec_encode(a) + Seq::<char>::empty() =~= spec_encode(a));
            if b.len() == 0 {
                assert(a + b =~= a);
                assert(spec_encode(a) + spec_encode(b) =~= spec_encode(a));
            }
        }
        assert(encode_group(a.take(3)) + spec_encode(a.skip(3)) + spec_encode(b)
            =~= encode_group(a.take(3)) + (spec_encode(a.skip(3)) + spec_encode(b)));
    }
}

/// The encoding uses only the alphabet, except for `=` padding at the very
/// end: none when the length is a multiple of three, otherwise one `=` per
/// missing byte of the last group.
pub proof fn lemma_encode_alphabet(input: Seq<u8>)
    ensures
        ({
            let out = spec_encode(input);
            let pad = if input.len() % 3 == 0 {
                0int
            } else {
                3 - input.len() % 3
            };
            &&& forall|i: int| 0 <= i < out.len() - pad ==> is_b64_symbol(#[trigger] out[i])
            &&& forall|i: int| out.len() - pad <= i < out.len() ==> #[trigger] out[i] == '='
        }),
    decreases input.len(),
{
    let out = spec_encode(input);
    if input.len() > 3 {
        lemma_encode_alphabet(input.skip(3));
        lemma_encode_len(input.skip(3));
        let g = encode_group(input.take(3));
        let b0 = input[0] as int;
        let b1 = input[1] as int;
        let b2 = input[2] as int;
        lemma_b64_char_symbol(b0 / 4);
        lemma_b64_char_symbol((b0 % 4) * 16 + b1 / 16);
        lemma_b64_char_symbol((b1 % 16) * 4 + b2 / 64);
        lemma_b64_char_symbol(b2 % 64);
        assert forall|i: int| 0 <= i < 4 implies is_b64_symbol(#[trigger] g[i]) by {}
        assert forall|i: int| 4 <= i < out.len() implies out[i] == spec_encode(input.skip(3))[i
            - 4] by {}
    } else if input.len() > 0 {
        let b0 = input[0] as int;
        let b1 = if input.len() > 1 {
            input[1] as int
        } else {
            0
        };
        let b2 = if input.len() > 2 {
            input[2] as int
        } else {
            0
        };
        lemma_b64_char_symbol(b0 / 4);
        lemma_b64_char_symbol((b0 % 4) * 16 + b1 / 16);
        lemma_b64_char_symbol((b1 % 16) * 4 + b2 / 64);
        lemma_b64_char_symbol(b2 % 64);
    }
}

/// The six-bit value of an alphabet character.
pub open spec fn b64_value(c: char) -> int {
    let v = c as int;
    if 65 <= v && v <= 90 {
        v - 65
    } else if 97 <= v && v <= 122 {
        v - 71
    } else if 48 <= v && v <= 57 {
        v + 4
    } else if c == '+' {
        62
    } else {
        63
    }
}

/// The one to three bytes that four characters stand for; `=` marks the
/// missing ones.
pub open spec fn decode_group(g: Seq<char>) -> Seq<u8> {
    let s0 = b64_value(g[0]);
    let s1 = b64_value(g[1]);
    let s2 = if g[2] == '=' {
        0
    } else {
        b64_value(g[2])
    };
    let s3 = if g[3] == '=' {
        0
    } else {
        b64_value(g[3])
    };
    let b0 = (s0 * 4 + s1 / 16) as u8;
    let b1 = ((s1 % 16) * 16 + s2 / 4) as u8;
    let b2 = ((s2 % 4) * 64 + s3) as u8;
    if g[2] == '=' {
        seq![b0]
    } else if g[3] == '=' {
        seq![b0, b1]
    } else {
        seq![b0, b1, b2]
    }
}

/// Base64 decoding, four characters at a time.
pub open spec fn spec_decode(s: Seq<char>) -> Seq<u8>
    decreases s.len(),
{
    if s.len() < 4 {
        Seq::empty()
    } else {
        decode_group(s.take(4)) + spec_decode(s.skip(4))
    }
}

proof fn lemma_char_value(v: int)
    requires
        0 <= v < 64,
    ensures
        b64_value(b64_char(v)) == v,
        b64_char(v) != '=',
{
}

proof fn lemma_group_roundtrip(g: Seq<u8>)
    requires
        1 <= g.len() <= 3,
    ensures
        decode_group(encode_group(g)) == g,
{
    let b0 = g[0] as int;
    let b1 = if g.len() > 1 {
        g[1] as int
    } else {
        0
    };
    let b2 = if g.len() > 2 {
        g[2] as int
    } else {
        0
    };
    let s0 = b0 / 4;
    let s1 = (b0 % 4) * 16 + b1 / 16;
    let s2 = (b1 % 16) * 4 + b2 / 64;
    let s3 = b2 % 64;
    lemma_char_value(s0);
    lemma_char_value(s1);
    lemma_char_value(s2);
    lemma_char_value(s3);
    assert(s0 * 4 + s1 / 16 == b0);
    assert((s1 % 16) * 16 + s2 / 4 == b1);
    assert((s2 % 4) * 64 + s3 == b2);
    assert(decode_group(encode_group(g)) =~= g);
}

/// Base64 loses nothing: decoding the encoding of any bytes gives them back.
pub proof fn lemma_decode_encode(input: Seq<u8>)
    ensures
        spec_decode(spec_encode(input)) == input,
    decreases input.len(),
{
    if input.len() == 0 {
    } else if input.len() <= 3 {
        lemma_group_roundtrip(input);
        let e = encode_group(input);
        assert(e.take(4) =~= e);
        assert(e.skip(4) =~= Seq::<char>::empty());
        assert(spec_decode(e.skip(4)) == Seq::<u8>::empty());
        assert(spec_decode(e) == decode_group(e.take(4)) + spec_decode(e.skip(4)));
        assert(decode_group(e) + Seq::<u8>::empty() =~= input);
    } else {
        lemma_decode_encode(input.skip(3));
        lemma_group_roundtrip(input.take(3));
        let e = spec_encode(input);
        let g = encode_group(input.take(3));
        assert(e.take(4) =~= g);
        assert(e.skip(4) =~= spec_encode(input.skip(3)));
        assert(spec_decode(e) == decode_group(e.take(4)) + spec_decode(e.skip(4)));
        assert(input.take(3) + input.skip(3) =~= input);
    }
}

/// Distinct inputs never share an encoding.
pub proof fn lemma_encode_injective(a: Seq<u8>, b: Seq<u8>)
    requires
        spec_encode(a) == spec_encode(b),
    ensures
        a == b,
{
    lemma_decode_encode(a);
    lemma_decode_encode(b);
}

} // verus!
