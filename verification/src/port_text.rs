//! The port number as the controller sends it to the node: decimal text, read
//! back by decoding the bytes lossily, trimming white space and parsing a `u16`.
use vstd::prelude::*;
use crate::decimal::{
    all_digits, decimal, digits_value, is_digit, lemma_decimal, lemma_digits_value_prefix,
    lemma_digits_value_push, push_decimal,
};
use crate::lossy::{decode_lossy, lemma_lossy_ascii, lossy_chars};

verus! {

/// Whether `char::is_whitespace` holds: the Unicode `White_Space` property, which
/// these code points have.
pub open spec fn is_white_space(c: char) -> bool {
    let v = c as u32;
    ||| 9 <= v <= 13
    ||| v == 32
    ||| v == 0x85
    ||| v == 0xA0
    ||| v == 0x1680
    ||| 0x2000 <= v <= 0x200A
    ||| v == 0x2028
    ||| v == 0x2029
    ||| v == 0x202F
    ||| v == 0x205F
    ||| v == 0x3000
}

/// `str::trim_start`: the text without its leading white space.
pub open spec fn trim_start(s: Seq<char>) -> Seq<char>
    decreases s.len(),
{
    if s.len() > 0 && is_white_space(s[0]) {
        trim_start(s.drop_first())
    } else {
        s
    }
}

/// `str::trim_end`: the text without its trailing white space.
pub open spec fn trim_end(s: Seq<char>) -> Seq<char>
    decreases s.len(),
{
    if s.len() > 0 && is_white_space(s.last()) {
        trim_end(s.drop_last())
    } else {
        s
    }
}

/// `str::trim`: the text without leading or trailing white space.
pub open spec fn trim(s: Seq<char>) -> Seq<char> {
    trim_end(trim_start(s))
}

/// The bytes of ASCII characters.
pub open spec fn ascii_bytes(s: Seq<char>) -> Seq<u8> {
    s.map_values(|c: char| c as u8)
}

/// Whether every character is an ASCII digit.
pub open spec fn all_digit_chars(s: Seq<char>) -> bool {
    forall|i: int| 0 <= i < s.len() ==> '0' <= #[trigger] s[i] <= '9'
}

/// `u16::from_str`: an optional `+`, then one or more ASCII digits whose value
/// fits in 16 bits. Leading zeros are allowed.
pub open spec fn parse_u16_spec(s: Seq<char>) -> Option<u16> {
    let d = if s.len() >= 1 && s[0] == '+' {
        s.drop_first()
    } else {
        s
    };
    if d.len() >= 1 && all_digit_chars(d) && digits_value(ascii_bytes(d)) <= 65535 {
        Some(digits_value(ascii_bytes(d)) as u16)
    } else {
        None
    }
}

/// What the node makes of the bytes it reads as the target port: lossy UTF-8
/// decoding, `trim`, then `parse::<u16>`.
pub open spec fn port_from_text(b: Seq<u8>) -> Option<u16> {
    parse_u16_spec(trim(lossy_chars(b)))
}

/// The text the controller sends for a port: its decimal numeral.
pub open spec fn port_text(p: u16) -> Seq<u8> {
    decimal(p as nat)
}

fn is_white_space_exec(c: char) -> (r: bool)
    ensures
        r == is_white_space(c),
{
    let v = c as u32;
    (9 <= v && v <= 13) || v == 32 || v == 0x85 || v == 0xA0 || v == 0x1680 || (0x2000 <= v && v
        <= 0x200A) || v == 0x2028 || v == 0x2029 || v == 0x202F || v == 0x205F || v == 0x3000
}

proof fn lemma_trim_start(s: Seq<char>, i: int)
    requires
        0 <= i <= s.len(),
        forall|j: int| 0 <= j < i ==> is_white_space(#[trigger] s[j]),
        i == s.len() || !is_white_space(s[i]),
    ensures
        trim_start(s) == s.skip(i),
    decreases i,
{
    if i > 0 {
        let t = s.drop_first();
        assert forall|j: int| 0 <= j < i - 1 implies is_white_space(#[trigger] t[j]) by {
            assert(t[j] == s[j + 1]);
        }
        if i < s.len() {
            assert(t[i - 1] == s[i]);
        }
        lemma_trim_start(t, i - 1);
        assert(t.skip(i - 1) =~= s.skip(i));
    } else {
        assert(s.skip(0) =~= s);
    }
}

proof fn lemma_trim_end(s: Seq<char>, k: int)
    requires
        0 <= k <= s.len(),
        forall|j: int| k <= j < s.len() ==> is_white_space(#[trigger] s[j]),
        k == 0 || !is_white_space(s[k - 1]),
    ensures
        trim_end(s) == s.take(k),
    decreases s.len() - k,
{
    if k < s.len() {
        let t = s.drop_last();
        assert forall|j: int| k <= j < t.len() implies is_white_space(#[trigger] t[j]) by {
            assert(t[j] == s[j]);
        }
        if k > 0 {
            assert(t[k - 1] == s[k - 1]);
        }
        assert(is_white_space(s[s.len() - 1]));
        lemma_trim_end(t, k);
        assert(t.take(k) =~= s.take(k));
    } else {
        assert(s.take(k) =~= s);
    }
}

/// The bounds of the trimmed text: `trim(s)` is `s[i..j]`.
fn trim_bounds(s: &Vec<char>) -> (r: (usize, usize))
    ensures
        r.0 <= r.1 <= s@.len(),
        trim(s@) == s@.subrange(r.0 as int, r.1 as int),
{
    let mut i: usize = 0;
    while i < s.len() && is_white_space_exec(s[i])
        invariant
            i <= s@.len(),
            forall|j: int| 0 <= j < i ==> is_white_space(#[trigger] s@[j]),
        decreases s@.len() - i,
    {
        i = i + 1;
    }
    proof {
        lemma_trim_start(s@, i as int);
    }
    let mut k: usize = s.len();
    while k > i && is_white_space_exec(s[k - 1])
        invariant
            i <= k <= s@.len(),
            forall|j: int| k <= j < s@.len() ==> is_white_space(#[trigger] s@[j]),
        decreases k,
    {
        k = k - 1;
    }
    proof {
        let t = s@.skip(i as int);
        assert forall|j: int| k - i <= j < t.len() implies is_white_space(#[trigger] t[j]) by {
            assert(t[j] == s@[i + j]);
        }
        if k > i {
            assert(t[k - i - 1] == s@[k - 1]);
        }
        lemma_trim_end(t, k - i);
        assert(t.take(k - i) =~= s@.subrange(i as int, k as int));
    }
    (i, k)
}

/// Parses `s[from..to]` as `u16::from_str` does.
fn parse_u16_chars(s: &Vec<char>, from: usize, to: usize) -> (r: Option<u16>)
    requires
        from <= to <= s@.len(),
    ensures
        r == parse_u16_spec(s@.subrange(from as int, to as int)),
{
    let ghost t = s@.subrange(from as int, to as int);
    let mut start = from;
    if from < to && s[from] == '+' {
        start = from + 1;
    }
    let ghost d = s@.subrange(start as int, to as int);
    proof {
        if from < to && s@[from as int] == '+' {
            assert(t.drop_first() =~= d);
        } else {
            assert(t =~= d);
        }
    }
    if start == to {
        return None;
    }
    proof {
        assert(parse_u16_spec(t) == (if all_digit_chars(d) && digits_value(ascii_bytes(d))
            <= 65535 {
            Some(digits_value(ascii_bytes(d)) as u16)
        } else {
            None
        }));
        assert(d.take(0) =~= Seq::<char>::empty());
        assert(ascii_bytes(d.take(0)) =~= Seq::<u8>::empty());
    }
    let mut value: u32 = 0;
    let mut i = start;
    while i < to
        invariant
            start <= i <= to <= s@.len(),
            d == s@.subrange(start as int, to as int),
            d.len() >= 1,
            parse_u16_spec(s@.subrange(from as int, to as int)) == (if all_digit_chars(d)
                && digits_value(ascii_bytes(d)) <= 65535 {
                Some(digits_value(ascii_bytes(d)) as u16)
            } else {
                None
            }),
            all_digit_chars(d.take(i - start)),
            value == digits_value(ascii_bytes(d.take(i - start))),
            value <= 65535,
        decreases to - i,
    {
        let c = s[i];
        if !('0' <= c && c <= '9') {
            proof {
                assert(d[i - start] == c);
            }
            return None;
        }
        let digit = (c as u32) - 48;
        proof {
            assert(d.take(i - start + 1) =~= d.take(i - start).push(c));
            assert(ascii_bytes(d.take(i - start + 1)) =~= ascii_bytes(d.take(i - start)).push(
                c as u8,
            ));
            lemma_digits_value_push(ascii_bytes(d.take(i - start)), c as u8);
            assert(((c as u8) - 48) as nat == digit);
        }
        value = value * 10 + digit;
        i = i + 1;
        if value > 65535 {
            proof {
                if all_digit_chars(d) {
                    let bd = ascii_bytes(d);
                    assert(all_digits(bd)) by {
                        assert forall|j: int| 0 <= j < bd.len() implies is_digit(#[trigger] bd[j]) by {
                            assert('0' <= d[j] <= '9');
                        }
                    }
                    assert(ascii_bytes(d.take(i - start)) =~= bd.take(i - start));
                    lemma_digits_value_prefix(bd, i - start);
                }
            }
            return None;
        }
    }
    proof {
        assert(d.take(i - start) =~= d);
    }
    Some(value as u16)
}

/// The port the node reads out of the bytes it received.
pub fn parse_port_text(b: &[u8]) -> (r: Option<u16>)
    ensures
        r == port_from_text(b@),
{
    let cs = decode_lossy(b);
    let (i, j) = trim_bounds(&cs);
    parse_u16_chars(&cs, i, j)
}

/// The text the controller sends for a port.
pub fn format_port_text(p: u16) -> (r: Vec<u8>)
    ensures
        r@ == port_text(p),
{
    let mut v: Vec<u8> = Vec::new();
    push_decimal(&mut v, p as u32);
    proof {
        assert(v@ =~= port_text(p));
    }
    v
}

/// Reading back the text of a port gives the port: the node connects to the
/// port the controller sent.
pub proof fn law_port_text_roundtrip(p: u16)
    ensures
        port_from_text(port_text(p)) == Some(p),
{
    let b = port_text(p);
    lemma_decimal(p as nat);
    assert forall|i: int| 0 <= i < b.len() implies #[trigger] b[i] <= 0x7f by {
        assert(is_digit(b[i]));
    }
    lemma_lossy_ascii(b);
    let cs = b.map_values(|x: u8| x as char);
    assert forall|j: int| 0 <= j < cs.len() implies !is_white_space(#[trigger] cs[j]) by {
        assert(is_digit(b[j]));
    }
    lemma_trim_start(cs, 0);
    assert(cs.skip(0) =~= cs);
    lemma_trim_end(cs, cs.len() as int);
    assert(cs.take(cs.len() as int) =~= cs);
    assert(trim(cs) == cs);
    assert(ascii_bytes(cs) =~= b);
    assert(cs[0] != '+') by {
        assert(is_digit(b[0]));
    }
    assert(all_digit_chars(cs)) by {
        assert forall|j: int| 0 <= j < cs.len() implies '0' <= #[trigger] cs[j] <= '9' by {
            assert(is_digit(b[j]));
        }
    }
}

} // verus!
