//! Lossy UTF-8 decoding, as `String::from_utf8_lossy` does it: well-formed
//! sequences become their characters, ill-formed bytes become U+FFFD.
use vstd::prelude::*;
use vstd::utf8::*;

verus! {

/// The replacement character U+FFFD.
pub open spec fn replacement() -> char {
    '\u{FFFD}'
}

/// Calls `char::from_u32`, which returns the character with that code when the
/// value is a Unicode scalar value, and `None` otherwise.
#[verifier::external_body]
fn char_from_u32(v: u32) -> (r: Option<char>)
    ensures
        r is Some <==> is_scalar(v),
        r matches Some(c) ==> c as u32 == v,
{
    char::from_u32(v)
}

/// Whether a byte is a UTF-8 continuation byte.
pub open spec fn is_cont(c: u8) -> bool {
    0x80 <= c <= 0xBF
}

/// Whether `b1` may follow the lead byte `b0` in a well-formed sequence
/// (Unicode's table of well-formed byte sequences).
pub open spec fn second_ok(b0: u8, b1: u8) -> bool {
    if b0 == 0xE0 {
        0xA0 <= b1 <= 0xBF
    } else if b0 == 0xED {
        0x80 <= b1 <= 0x9F
    } else if b0 == 0xF0 {
        0x90 <= b1 <= 0xBF
    } else if b0 == 0xF4 {
        0x80 <= b1 <= 0x8F
    } else {
        is_cont(b1)
    }
}

/// Where the bytes do not start a well-formed sequence, the length of the part
/// that one U+FFFD replaces: the lead byte with the continuation bytes that still
/// fit a well-formed sequence, or the lone byte when it is no lead byte.
pub open spec fn ill_formed_len(b: Seq<u8>) -> int {
    let b0 = b[0];
    if 0xC2 <= b0 <= 0xF4 && b.len() >= 2 && second_ok(b0, b[1]) {
        if b0 >= 0xE0 && b.len() >= 3 && is_cont(b[2]) {
            3
        } else {
            2
        }
    } else {
        1
    }
}

/// Whether the bytes start with a well-formed sequence, by Unicode's table of
/// well-formed byte sequences (the table `String::from_utf8_lossy` checks).
pub open spec fn table_well_formed(b: Seq<u8>) -> bool {
    let b0 = b[0];
    &&& b.len() >= 1
    &&& {
        ||| b0 <= 0x7F
        ||| (0xC2 <= b0 <= 0xDF && b.len() >= 2 && is_cont(b[1]))
        ||| (0xE0 <= b0 <= 0xEF && b.len() >= 3 && second_ok(b0, b[1]) && is_cont(b[2]))
        ||| (0xF0 <= b0 <= 0xF4 && b.len() >= 4 && second_ok(b0, b[1]) && is_cont(b[2])
            && is_cont(b[3]))
    }
}

/// A sequence is well-formed by the table exactly when it decodes to a scalar
/// without an overlong form or a surrogate: both say the same of every byte sequence.
pub proof fn law_well_formed_table(b: Seq<u8>)
    requires
        b.len() >= 1,
    ensures
        valid_first_scalar(b) <==> table_well_formed(b),
{
    let b0 = b[0];
    if is_leading_byte_width_2(b0) && b.len() >= 2 && is_continuation_byte(b[1]) {
        let b1 = b[1];
        assert(0xC0 <= b0 <= 0xDF && 0x80 <= b1 <= 0xBF ==> ((((b0 & 0x1F) as u32) << 6 | ((b1
            & 0x3F) as u32)) >= 0x80 <==> b0 >= 0xC2)) by (bit_vector);
        assert(((((b0 & 0x1F) as u32) << 6 | ((b1 & 0x3F) as u32)) <= 0x7FF)) by (bit_vector);
    } else if is_leading_byte_width_3(b0) && b.len() >= 3 && is_continuation_byte(b[1])
        && is_continuation_byte(b[2]) {
        let b1 = b[1];
        let b2 = b[2];
        assert(0xE0 <= b0 <= 0xEF && 0x80 <= b1 <= 0xBF && 0x80 <= b2 <= 0xBF ==> ({
            let v = ((b0 & 0x0F) as u32) << 12 | (((b1 & 0x3F) as u32) << 6) | ((b2 & 0x3F) as u32);
            (0x800 <= v && !(0xD800 <= v && v <= 0xDFFF)) <==> (if b0 == 0xE0 {
                0xA0 <= b1 <= 0xBF
            } else if b0 == 0xED {
                0x80 <= b1 <= 0x9F
            } else {
                0x80 <= b1 <= 0xBF
            })
        })) by (bit_vector);
    } else if is_leading_byte_width_4(b0) && b.len() >= 4 && is_continuation_byte(b[1])
        && is_continuation_byte(b[2]) && is_continuation_byte(b[3]) {
        let b1 = b[1];
        let b2 = b[2];
        let b3 = b[3];
        assert(0xF0 <= b0 <= 0xF7 && 0x80 <= b1 <= 0xBF && 0x80 <= b2 <= 0xBF && 0x80 <= b3 <= 0xBF
            ==> ({
            let v = ((b0 & 0x07) as u32) << 18 | (((b1 & 0x3F) as u32) << 12) | (((b2 & 0x3F)
                as u32) << 6) | ((b3 & 0x3F) as u32);
            (0x10000 <= v && v <= 0x10ffff && !(0xD800 <= v && v <= 0xDFFF)) <==> (b0 <= 0xF4 && (
            if b0 == 0xF0 {
                0x90 <= b1 <= 0xBF
            } else if b0 == 0xF4 {
                0x80 <= b1 <= 0x8F
            } else {
                0x80 <= b1 <= 0xBF
            }))
        })) by (bit_vector);
    }
}

/// The text that lossy decoding makes of a byte sequence: a well-formed UTF-8
/// sequence becomes its character; otherwise the longest start of one that the
/// bytes hold (at least one byte) becomes one U+FFFD, as `String::from_utf8_lossy` does.
pub open spec fn lossy_chars(b: Seq<u8>) -> Seq<char>
    decreases b.len(),
{
    if b.len() == 0 {
        seq![]
    } else if valid_first_scalar(b) && 1 <= length_of_first_scalar(b) <= b.len() {
        seq![decode_first_scalar(b) as char] + lossy_chars(b.skip(length_of_first_scalar(b)))
    } else {
        seq![replacement()] + lossy_chars(b.skip(ill_formed_len(b)))
    }
}

fn ill_formed_len_exec(b: &[u8], i: usize) -> (n: usize)
    requires
        i < b@.len(),
    ensures
        n == ill_formed_len(b@.skip(i as int)),
        1 <= n <= b@.len() - i,
{
    let ghost s = b@.skip(i as int);
    let b0 = b[i];
    let rem = b.len() - i;
    assert(s[0] == b0);
    if 0xC2 <= b0 && b0 <= 0xF4 && rem >= 2 {
        let b1 = b[i + 1];
        assert(s[1] == b1);
        let ok = if b0 == 0xE0 {
            0xA0 <= b1 && b1 <= 0xBF
        } else if b0 == 0xED {
            0x80 <= b1 && b1 <= 0x9F
        } else if b0 == 0xF0 {
            0x90 <= b1 && b1 <= 0xBF
        } else if b0 == 0xF4 {
            0x80 <= b1 && b1 <= 0x8F
        } else {
            0x80 <= b1 && b1 <= 0xBF
        };
        if ok {
            if b0 >= 0xE0 && rem >= 3 && 0x80 <= b[i + 2] && b[i + 2] <= 0xBF {
                assert(s[2] == b@[i + 2]);
                return 3;
            } else {
                if rem >= 3 {
                    assert(s[2] == b@[i + 2]);
                }
                return 2;
            }
        }
    }
    1
}

/// The well-formed scalar that starts at position `i`, with its length, if any.
fn scalar_at(b: &[u8], i: usize) -> (r: Option<(u32, usize)>)
    requires
        i < b@.len(),
    ensures
        match r {
            Some((v, n)) => {
                &&& valid_first_scalar(b@.skip(i as int))
                &&& v == decode_first_scalar(b@.skip(i as int))
                &&& n == length_of_first_scalar(b@.skip(i as int))
                &&& 1 <= n <= b@.len() - i
            },
            None => !valid_first_scalar(b@.skip(i as int)),
        },
{
    let ghost s = b@.skip(i as int);
    let rem = b.len() - i;
    let b0 = b[i];
    assert(s[0] == b0);
    if b0 <= 0x7f {
        let v = (b0 & 0x7F) as u32;
        assert(valid_leading_and_continuation_bytes_first_codepoint(s));
        Some((v, 1))
    } else if 0xc0 <= b0 && b0 <= 0xdf {
        if rem >= 2 && 0x80 <= b[i + 1] && b[i + 1] <= 0xbf {
            let b1 = b[i + 1];
            assert(s[1] == b1);
            let v = (((b0 & 0x1F) as u32) << 6) | ((b1 & 0x3F) as u32);
            if 0x80 <= v && !(0xD800 <= v && v <= 0xDFFF) {
                Some((v, 2))
            } else {
                None
            }
        } else {
            None
        }
    } else if 0xe0 <= b0 && b0 <= 0xef {
        if rem >= 3 && 0x80 <= b[i + 1] && b[i + 1] <= 0xbf && 0x80 <= b[i + 2] && b[i + 2]
            <= 0xbf {
            let b1 = b[i + 1];
            let b2 = b[i + 2];
            assert(s[1] == b1 && s[2] == b2);
            let v = (((b0 & 0x0F) as u32) << 12) | (((b1 & 0x3F) as u32) << 6) | ((b2
                & 0x3F) as u32);
            if 0x800 <= v && !(0xD800 <= v && v <= 0xDFFF) {
                Some((v, 3))
            } else {
                None
            }
        } else {
            None
        }
    } else if 0xf0 <= b0 && b0 <= 0xf7 {
        if rem >= 4 && 0x80 <= b[i + 1] && b[i + 1] <= 0xbf && 0x80 <= b[i + 2] && b[i + 2]
            <= 0xbf && 0x80 <= b[i + 3] && b[i + 3] <= 0xbf {
            let b1 = b[i + 1];
            let b2 = b[i + 2];
            let b3 = b[i + 3];
            assert(s[1] == b1 && s[2] == b2 && s[3] == b3);
            let v = (((b0 & 0x07) as u32) << 18) | (((b1 & 0x3F) as u32) << 12) | (((b2
                & 0x3F) as u32) << 6) | ((b3 & 0x3F) as u32);
            if 0x10000 <= v && v <= 0x10ffff && !(0xD800 <= v && v <= 0xDFFF) {
                Some((v, 4))
            } else {
                None
            }
        } else {
            None
        }
    } else {
        None
    }
}

proof fn lemma_valid_scalar_is_scalar(s: Seq<u8>)
    requires
        valid_first_scalar(s),
    ensures
        is_scalar(decode_first_scalar(s)),
        1 <= length_of_first_scalar(s) <= s.len(),
{
    let b0 = s[0];
    if is_leading_byte_width_1(b0) {
        assert(b0 & 0x7f <= 0x7f) by (bit_vector);
    } else if is_leading_byte_width_2(b0) {
        let b1 = s[1];
        assert(((b0 & 0x1F) as u32) << 6 | ((b1 & 0x3F) as u32) <= 0x7FF) by (bit_vector);
    } else if is_leading_byte_width_3(b0) {
        let b1 = s[1];
        let b2 = s[2];
        assert(((b0 & 0x0F) as u32) << 12 | (((b1 & 0x3F) as u32) << 6) | ((b2 & 0x3F) as u32)
            <= 0xFFFF) by (bit_vector);
    }
}

/// Decodes bytes as `String::from_utf8_lossy` would, into characters.
pub fn decode_lossy(b: &[u8]) -> (r: Vec<char>)
    ensures
        r@ == lossy_chars(b@),
{
    let mut acc: Vec<char> = Vec::new();
    let mut i: usize = 0;
    proof {
        assert(b@.skip(0) =~= b@);
    }
    while i < b.len()
        invariant
            i <= b@.len(),
            acc@ + lossy_chars(b@.skip(i as int)) == lossy_chars(b@),
        decreases b@.len() - i,
    {
        let ghost s = b@.skip(i as int);
        match scalar_at(b, i) {
            Some((v, n)) => {
                proof {
                    lemma_valid_scalar_is_scalar(s);
                }
                let c = match char_from_u32(v) {
                    Some(c) => c,
                    None => {
                        proof {
                            assert(false);
                        }
                        ' '
                    },
                };
                proof {
                    vstd::utf8::char_u32_cast(c, v);
                    assert(s.skip(n as int) =~= b@.skip(i + n));
                }
                acc.push(c);
                proof {
                    assert(acc@ + lossy_chars(b@.skip(i + n)) =~= lossy_chars(b@));
                }
                i = i + n;
            },
            None => {
                let n = ill_formed_len_exec(b, i);
                proof {
                    assert(s.skip(n as int) =~= b@.skip(i + n));
                }
                acc.push('\u{FFFD}');
                proof {
                    assert(acc@ + lossy_chars(b@.skip(i + n)) =~= lossy_chars(b@));
                }
                i = i + n;
            },
        }
    }
    proof {
        assert(b@.skip(i as int) =~= Seq::<u8>::empty());
        assert(acc@ =~= lossy_chars(b@));
    }
    acc
}

/// Lossy decoding of ASCII bytes gives the same characters.
pub proof fn lemma_lossy_ascii(b: Seq<u8>)
    requires
        forall|i: int| 0 <= i < b.len() ==> #[trigger] b[i] <= 0x7f,
    ensures
        lossy_chars(b) == b.map_values(|x: u8| x as char),
    decreases b.len(),
{
    if b.len() > 0 {
        assert(valid_leading_and_continuation_bytes_first_codepoint(b));
        let b0 = b[0];
        assert(b0 & 0x7f == b0) by (bit_vector)
            requires
                b0 <= 0x7f,
        ;
        let rest = b.skip(1);
        assert forall|i: int| 0 <= i < rest.len() implies #[trigger] rest[i] <= 0x7f by {
            assert(rest[i] == b[i + 1]);
        }
        lemma_lossy_ascii(rest);
        assert(lossy_chars(b) =~= b.map_values(|x: u8| x as char));
    } else {
        assert(lossy_chars(b) =~= b.map_values(|x: u8| x as char));
    }
}

/// Whether every byte is ASCII.
pub open spec fn is_ascii_bytes(t: Seq<u8>) -> bool {
    forall|i: int| 0 <= i < t.len() ==> #[trigger] t[i] <= 0x7f
}

/// Lossy decoding gives the text of an ASCII string exactly when the bytes are
/// that string: a replacement character is not ASCII, and neither is a character
/// encoded in more than one byte.
pub proof fn lemma_lossy_eq_ascii(b: Seq<u8>, t: Seq<u8>)
    requires
        is_ascii_bytes(t),
    ensures
        lossy_chars(b) == t.map_values(|x: u8| x as char) <==> b == t,
    decreases b.len(),
{
    let tc = t.map_values(|x: u8| x as char);
    if b == t {
        lemma_lossy_ascii(b);
    } else if lossy_chars(b) == tc {
        if b.len() == 0 {
            assert(tc.len() == 0);
            assert(b =~= t);
        } else {
            assert(lossy_chars(b).len() > 0);
            assert(tc.len() == t.len());
            let c = lossy_chars(b)[0];
            assert(c == tc[0]);
            assert(t.len() > 0);
            assert(t[0] <= 0x7f);
            if valid_first_scalar(b) && 1 <= length_of_first_scalar(b) <= b.len() {
                let n = length_of_first_scalar(b);
                let v = decode_first_scalar(b);
                assert(c == v as char);
                lemma_valid_scalar_is_scalar(b);
                vstd::utf8::char_u32_cast(c, v);
                assert(v == t[0] as u32);
                assert(n == 1);
                let b0 = b[0];
                assert(b0 & 0x7f == b0) by (bit_vector)
                    requires
                        b0 <= 0x7f,
                ;
                assert(b[0] == t[0]);
                let rest = lossy_chars(b.skip(1));
                assert(lossy_chars(b) == seq![c] + rest);
                let t1 = t.skip(1);
                assert(t1.map_values(|x: u8| x as char) =~= tc.drop_first());
                assert(rest =~= tc.drop_first());
                assert(is_ascii_bytes(t1)) by {
                    assert forall|i: int| 0 <= i < t1.len() implies #[trigger] t1[i] <= 0x7f by {
                        assert(t1[i] == t[i + 1]);
                    }
                }
                lemma_lossy_eq_ascii(b.skip(1), t1);
                assert(b =~= seq![b[0]] + b.skip(1));
                assert(t =~= seq![t[0]] + t1);
            } else {
                assert(c == replacement());
                assert((t[0] as char) as u32 == t[0] as u32);
                assert(false);
            }
        }
    }
}

} // verus!
