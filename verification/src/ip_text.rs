//! IP addresses as text, the way the controller sends the target address to the
//! node: written as `IpAddr`'s `Display` writes them, read back as `IpAddr`'s
//! `FromStr` reads them.
//!
//! The node decodes the bytes lossily before parsing. The grammar uses ASCII
//! characters only, and lossy decoding keeps ASCII bytes and turns every other
//! byte into non-ASCII text, so the text parses exactly when the bytes do; the
//! parser here reads the bytes.
use vstd::prelude::*;
use crate::decimal::{decimal, digits_value, is_digit, push_decimal};
use crate::wire::IpAddress;

verus! {

// ---------------------------------------------------------------------------
// IPv4
// ---------------------------------------------------------------------------

/// The number of ASCII digits in a row from position `i`.
pub open spec fn digit_run(b: Seq<u8>, i: int) -> nat
    decreases b.len() - i,
{
    if 0 <= i < b.len() && is_digit(b[i]) {
        1 + digit_run(b, i + 1)
    } else {
        0
    }
}

/// A decimal octet at position `i` and the position after it: one to three
/// digits, no leading zero unless the octet is "0", and a value up to 255. The
/// digits are read greedily, so a fourth digit makes the octet fail.
pub open spec fn octet_at(b: Seq<u8>, i: int) -> Option<(u8, int)> {
    let n = digit_run(b, i) as int;
    let v = digits_value(b.subrange(i, i + n));
    if 1 <= n <= 3 && !(n > 1 && b[i] == 48) && v <= 255 {
        Some((v as u8, i + n))
    } else {
        None
    }
}

/// A `.` followed by an octet.
pub open spec fn dot_octet_at(b: Seq<u8>, i: int) -> Option<(u8, int)> {
    if 0 <= i < b.len() && b[i] == 46 {
        octet_at(b, i + 1)
    } else {
        None
    }
}

/// A dotted-quad IPv4 address at position `i`, and the position after it.
pub open spec fn ipv4_at(b: Seq<u8>, i: int) -> Option<([u8; 4], int)> {
    match octet_at(b, i) {
        Some((a0, i1)) => match dot_octet_at(b, i1) {
            Some((a1, i2)) => match dot_octet_at(b, i2) {
                Some((a2, i3)) => match dot_octet_at(b, i3) {
                    Some((a3, i4)) => Some(([a0, a1, a2, a3], i4)),
                    None => None,
                },
                None => None,
            },
            None => None,
        },
        None => None,
    }
}

/// The dotted-quad text of an IPv4 address.
pub open spec fn ipv4_text(a: [u8; 4]) -> Seq<u8> {
    decimal(a[0] as nat) + seq![46u8] + decimal(a[1] as nat) + seq![46u8] + decimal(
        a[2] as nat,
    ) + seq![46u8] + decimal(a[3] as nat)
}

fn digit_run_exec(b: &[u8], i: usize) -> (n: usize)
    requires
        i <= b@.len(),
    ensures
        n == digit_run(b@, i as int),
        i + n <= b@.len(),
{
    let mut j = i;
    while j < b.len() && 48 <= b[j] && b[j] <= 57
        invariant
            i <= j <= b@.len(),
            forall|m: int| i <= m < j ==> is_digit(#[trigger] b@[m]),
        decreases b@.len() - j,
    {
        j = j + 1;
    }
    proof {
        lemma_digit_run_from(b@, i as int, j as int);
    }
    j - i
}

proof fn lemma_digit_run_from(b: Seq<u8>, i: int, j: int)
    requires
        0 <= i <= j <= b.len(),
        forall|m: int| i <= m < j ==> is_digit(#[trigger] b[m]),
        j == b.len() || !is_digit(b[j]),
    ensures
        digit_run(b, i) == j - i,
    decreases j - i,
{
    if i < j {
        lemma_digit_run_from(b, i + 1, j);
    }
}

/// The value of the decimal digits `b[i..j]`, when it is at most `bound`.
fn small_digits_value(b: &[u8], i: usize, j: usize) -> (v: u32)
    requires
        i <= j <= b@.len(),
        j - i <= 5,
        forall|m: int| i <= m < j ==> is_digit(#[trigger] b@[m]),
    ensures
        v == digits_value(b@.subrange(i as int, j as int)),
{
    let mut v: u32 = 0;
    let mut k = i;
    while k < j
        invariant
            i <= k <= j <= b@.len(),
            j - i <= 5,
            forall|m: int| i <= m < j ==> is_digit(#[trigger] b@[m]),
            v == digits_value(b@.subrange(i as int, k as int)),
            v < pow10((k - i) as nat),
        decreases j - k,
    {
        proof {
            assert(b@.subrange(i as int, k + 1) =~= b@.subrange(i as int, k as int).push(b@[k as int]));
            crate::decimal::lemma_digits_value_push(b@.subrange(i as int, k as int), b@[k as int]);
            assert(is_digit(b@[k as int]));
            lemma_pow10_step((k - i) as nat);
        }
        v = v * 10 + (b[k] - 48) as u32;
        k = k + 1;
    }
    v
}

/// Ten to the power `n`, for the small `n` that numerals here have.
pub open spec fn pow10(n: nat) -> nat
    decreases n,
{
    if n == 0 {
        1
    } else {
        10 * pow10((n - 1) as nat)
    }
}

proof fn lemma_pow10_step(n: nat)
    requires
        n < 5,
    ensures
        pow10(n + 1) == 10 * pow10(n),
        pow10(n + 1) <= 100000,
{
    reveal_with_fuel(pow10, 6);
}

fn octet_at_exec(b: &[u8], i: usize) -> (r: Option<(u8, usize)>)
    requires
        i <= b@.len(),
    ensures
        match r {
            Some((v, e)) => octet_at(b@, i as int) == Some((v, e as int)) && e <= b@.len(),
            None => octet_at(b@, i as int) is None,
        },
{
    let n = digit_run_exec(b, i);
    assert(b@.len() == b.len());
    if n < 1 || n > 3 {
        return None;
    }
    if n > 1 && b[i] == 48 {
        return None;
    }
    proof {
        assert forall|m: int| i <= m < i + n implies is_digit(#[trigger] b@[m]) by {
            lemma_digit_run_is_digits(b@, i as int, m);
        }
    }
    let v = small_digits_value(b, i, i + n);
    if v > 255 {
        return None;
    }
    Some((v as u8, i + n))
}

proof fn lemma_digit_run_is_digits(b: Seq<u8>, i: int, m: int)
    requires
        0 <= i <= m < i + digit_run(b, i),
    ensures
        is_digit(b[m]),
    decreases m - i,
{
    if m > i {
        lemma_digit_run_is_digits(b, i + 1, m);
    }
}

fn dot_octet_at_exec(b: &[u8], i: usize) -> (r: Option<(u8, usize)>)
    requires
        i <= b@.len(),
    ensures
        match r {
            Some((v, e)) => dot_octet_at(b@, i as int) == Some((v, e as int)) && e <= b@.len(),
            None => dot_octet_at(b@, i as int) is None,
        },
{
    if i < b.len() && b[i] == 46 {
        octet_at_exec(b, i + 1)
    } else {
        None
    }
}

/// Reads a dotted-quad IPv4 address at position `i`.
pub fn ipv4_at_exec(b: &[u8], i: usize) -> (r: Option<([u8; 4], usize)>)
    requires
        i <= b@.len(),
    ensures
        match r {
            Some((a, e)) => ipv4_at(b@, i as int) == Some((a, e as int)) && e <= b@.len(),
            None => ipv4_at(b@, i as int) is None,
        },
{
    let (a0, i1) = match octet_at_exec(b, i) {
        Some(x) => x,
        None => return None,
    };
    let (a1, i2) = match dot_octet_at_exec(b, i1) {
        Some(x) => x,
        None => return None,
    };
    let (a2, i3) = match dot_octet_at_exec(b, i2) {
        Some(x) => x,
        None => return None,
    };
    let (a3, i4) = match dot_octet_at_exec(b, i3) {
        Some(x) => x,
        None => return None,
    };
    Some(([a0, a1, a2, a3], i4))
}

/// Appends the dotted-quad text of an IPv4 address.
pub fn push_ipv4_text(out: &mut Vec<u8>, a: [u8; 4])
    ensures
        final(out)@ == old(out)@ + ipv4_text(a),
{
    push_decimal(out, a[0] as u32);
    out.push(46u8);
    push_decimal(out, a[1] as u32);
    out.push(46u8);
    push_decimal(out, a[2] as u32);
    out.push(46u8);
    push_decimal(out, a[3] as u32);
    proof {
        assert(final(out)@ =~= old(out)@ + ipv4_text(a));
    }
}

// ---------------------------------------------------------------------------
// IPv6
// ---------------------------------------------------------------------------

/// The value of a hexadecimal digit (either case), or -1 for another byte.
pub open spec fn hex_digit_value(c: u8) -> int {
    if 48 <= c <= 57 {
        c - 48
    } else if 97 <= c <= 102 {
        c - 87
    } else if 65 <= c <= 70 {
        c - 55
    } else {
        -1
    }
}

pub open spec fn is_hex_digit(c: u8) -> bool {
    hex_digit_value(c) >= 0
}

/// The number of hexadecimal digits in a row from position `i`.
pub open spec fn hex_run(b: Seq<u8>, i: int) -> nat
    decreases b.len() - i,
{
    if 0 <= i < b.len() && is_hex_digit(b[i]) {
        1 + hex_run(b, i + 1)
    } else {
        0
    }
}

/// The value of a string of hexadecimal digits.
pub open spec fn hex_digits_value(d: Seq<u8>) -> nat
    decreases d.len(),
{
    if d.len() == 0 {
        0
    } else {
        16 * hex_digits_value(d.drop_last()) + hex_digit_value(d.last()) as nat
    }
}

/// A group of one to four hexadecimal digits at position `i`, read greedily
/// (a fifth digit makes it fail), and the position after it.
pub open spec fn hex_group_at(b: Seq<u8>, i: int) -> Option<(u16, int)> {
    let n = hex_run(b, i) as int;
    if 1 <= n <= 4 {
        Some((hex_digits_value(b.subrange(i, i + n)) as u16, i + n))
    } else {
        None
    }
}

/// The separator before group `k`: none before the first group, a `:` before the others.
pub open spec fn sep_at(b: Seq<u8>, i: int, k: nat) -> Option<int> {
    if k == 0 {
        Some(i)
    } else if 0 <= i < b.len() && b[i] == 58 {
        Some(i + 1)
    } else {
        None
    }
}

/// Two bytes as a big-endian 16-bit group.
pub open spec fn be16(hi: u8, lo: u8) -> u16 {
    (hi * 256 + lo) as u16
}

/// Reads colon-separated groups from position `i`, group number `k` first, up to
/// `limit` groups. Where at least two groups are left, a dotted-quad IPv4 address
/// is tried first and, when it is there, gives the last two groups and ends the
/// read. Returns the groups read from `k` on, the position after them, and
/// whether an IPv4 address ended them. A failed group leaves the position before
/// its separator.
pub open spec fn read_groups(b: Seq<u8>, i: int, k: nat, limit: nat) -> (Seq<u16>, int, bool)
    decreases limit - k,
{
    if k >= limit {
        (seq![], i, false)
    } else {
        let v4 = if k + 1 < limit {
            match sep_at(b, i, k) {
                Some(j) => ipv4_at(b, j),
                None => None,
            }
        } else {
            None
        };
        match v4 {
            Some((a, e)) => (seq![be16(a[0], a[1]), be16(a[2], a[3])], e, true),
            None => match sep_at(b, i, k) {
                Some(j) => match hex_group_at(b, j) {
                    Some((g, e)) => {
                        let r = read_groups(b, e, k + 1, limit);
                        (seq![g] + r.0, r.1, r.2)
                    },
                    None => (seq![], i, false),
                },
                None => (seq![], i, false),
            },
        }
    }
}

/// `n` zero groups.
pub open spec fn zero_groups(n: int) -> Seq<u16> {
    Seq::new(n as nat, |_i: int| 0u16)
}

/// An IPv6 address at the start of `b` and the position after it: eight groups;
/// or fewer, then `::`, then fewer groups again, the gap filled with zeros. An
/// IPv4 tail may end the groups after `::`, or the eight groups without it.
pub open spec fn ipv6_at(b: Seq<u8>) -> Option<(Seq<u16>, int)> {
    let (head, e, v4) = read_groups(b, 0, 0, 8);
    if head.len() == 8 {
        Some((head, e))
    } else if v4 {
        None
    } else if 0 <= e && e + 2 <= b.len() && b[e] == 58 && b[e + 1] == 58 {
        let (tail, e2, _v4) = read_groups(b, e + 2, 0, (7 - head.len()) as nat);
        Some((head + zero_groups(8 - head.len() - tail.len()) + tail, e2))
    } else {
        None
    }
}

/// The eight groups of a sequence as an array.
pub open spec fn groups_array(s: Seq<u16>) -> [u16; 8] {
    [s[0], s[1], s[2], s[3], s[4], s[5], s[6], s[7]]
}

/// What `str::parse::<IpAddr>` makes of the text: an IPv4 address is tried first
/// and, when it reads, must take the whole text; otherwise an IPv6 address must.
pub open spec fn parse_ip_spec(b: Seq<u8>) -> Option<IpAddress> {
    match ipv4_at(b, 0) {
        Some((a, e)) => if e == b.len() {
            Some(IpAddress::V4(a))
        } else {
            None
        },
        None => match ipv6_at(b) {
            Some((g, e)) => if e == b.len() {
                Some(IpAddress::V6(groups_array(g)))
            } else {
                None
            },
            None => None,
        },
    }
}

/// The lowercase hexadecimal digit of a value below 16.
pub open spec fn hex_char(d: nat) -> u8 {
    if d < 10 {
        (48 + d) as u8
    } else {
        (87 + d) as u8
    }
}

/// The shortest lowercase hexadecimal numeral of `n`.
pub open spec fn hex_text(n: nat) -> Seq<u8>
    decreases n,
{
    if n < 16 {
        seq![hex_char(n)]
    } else {
        hex_text(n / 16).push(hex_char(n % 16))
    }
}

/// Groups in hexadecimal, separated by `:`.
pub open spec fn join_hex(s: Seq<u16>) -> Seq<u8>
    decreases s.len(),
{
    if s.len() == 0 {
        seq![]
    } else if s.len() == 1 {
        hex_text(s[0] as nat)
    } else {
        hex_text(s[0] as nat) + seq![58u8] + join_hex(s.drop_first())
    }
}

/// The number of zero groups in a row from position `i`.
pub open spec fn zeros_from(s: Seq<u16>, i: int) -> nat
    decreases s.len() - i,
{
    if 0 <= i < s.len() && s[i] == 0 {
        1 + zeros_from(s, i + 1)
    } else {
        0
    }
}

/// Among the positions from `i` on, the first one where the run of zero groups
/// is longest, with that length; `(0, 0)` when there is no zero group.
pub open spec fn longest_zeros_from(s: Seq<u16>, i: int) -> (int, nat)
    decreases s.len() - i,
{
    if i < 0 || i >= s.len() {
        (0, 0)
    } else {
        let rest = longest_zeros_from(s, i + 1);
        if zeros_from(s, i) > 0 && zeros_from(s, i) >= rest.1 {
            (i, zeros_from(s, i))
        } else {
            rest
        }
    }
}

/// Whether the address is an IPv4-mapped one, `::ffff:a.b.c.d`.
pub open spec fn is_ipv4_mapped(s: Seq<u16>) -> bool {
    s[0] == 0 && s[1] == 0 && s[2] == 0 && s[3] == 0 && s[4] == 0 && s[5] == 0xffff
}

/// The bytes of `::ffff:`.
pub open spec fn mapped_prefix() -> Seq<u8> {
    seq![58u8, 58u8, 102u8, 102u8, 102u8, 102u8, 58u8]
}

/// The text `Ipv6Addr`'s `Display` writes: an IPv4-mapped address as `::ffff:`
/// and a dotted quad; otherwise the groups in lowercase hexadecimal, the first
/// longest run of two or more zero groups written as `::`.
pub open spec fn ipv6_text(g: [u16; 8]) -> Seq<u8> {
    let s = g@;
    if is_ipv4_mapped(s) {
        mapped_prefix() + ipv4_text(
            [(s[6] / 256) as u8, (s[6] % 256) as u8, (s[7] / 256) as u8, (s[7] % 256) as u8],
        )
    } else {
        let (st, l) = longest_zeros_from(s, 0);
        if l > 1 {
            join_hex(s.take(st)) + seq![58u8, 58u8] + join_hex(s.skip(st + l))
        } else {
            join_hex(s)
        }
    }
}

/// The text the controller sends for an address.
pub open spec fn ip_text(a: IpAddress) -> Seq<u8> {
    match a {
        IpAddress::V4(x) => ipv4_text(x),
        IpAddress::V6(g) => ipv6_text(g),
    }
}

fn is_hex_digit_exec(c: u8) -> (r: bool)
    ensures
        r == is_hex_digit(c),
{
    (48 <= c && c <= 57) || (97 <= c && c <= 102) || (65 <= c && c <= 70)
}

fn hex_digit_value_exec(c: u8) -> (r: Option<u16>)
    ensures
        match r {
            Some(v) => v == hex_digit_value(c) && v < 16,
            None => !is_hex_digit(c),
        },
{
    if 48 <= c && c <= 57 {
        Some((c - 48) as u16)
    } else if 97 <= c && c <= 102 {
        Some((c - 87) as u16)
    } else if 65 <= c && c <= 70 {
        Some((c - 55) as u16)
    } else {
        None
    }
}

proof fn lemma_hex_run_from(b: Seq<u8>, i: int, j: int)
    requires
        0 <= i <= j <= b.len(),
        forall|m: int| i <= m < j ==> is_hex_digit(#[trigger] b[m]),
        j == b.len() || !is_hex_digit(b[j]),
    ensures
        hex_run(b, i) == j - i,
    decreases j - i,
{
    if i < j {
        lemma_hex_run_from(b, i + 1, j);
    }
}

fn hex_group_at_exec(b: &[u8], i: usize) -> (r: Option<(u16, usize)>)
    requires
        i <= b@.len(),
    ensures
        match r {
            Some((v, e)) => hex_group_at(b@, i as int) == Some((v, e as int)) && e <= b@.len(),
            None => hex_group_at(b@, i as int) is None,
        },
{
    let mut j = i;
    let mut v: u32 = 0;
    while j < b.len() && j - i <= 4 && is_hex_digit_exec(b[j])
        invariant
            i <= j <= b@.len(),
            j - i <= 5,
            forall|m: int| i <= m < j ==> is_hex_digit(#[trigger] b@[m]),
            j - i <= 4 ==> v == hex_digits_value(b@.subrange(i as int, j as int)),
            j - i == 0 ==> v == 0,
            j - i == 1 ==> v < 16,
            j - i == 2 ==> v < 256,
            j - i == 3 ==> v < 4096,
            v < 65536,
        decreases b@.len() - j,
    {
        let d = match hex_digit_value_exec(b[j]) {
            Some(d) => d,
            None => {
                proof {
                    assert(false);
                }
                0
            },
        };
        proof {
            assert(b@.subrange(i as int, j + 1) =~= b@.subrange(i as int, j as int).push(
                b@[j as int],
            ));
            assert(b@.subrange(i as int, j + 1).drop_last() =~= b@.subrange(i as int, j as int));
        }
        if j - i < 4 {
            v = v * 16 + d as u32;
        }
        j = j + 1;
    }
    let n = j - i;
    if n == 5 {
        proof {
            assert(hex_run(b@, i as int) >= 5) by {
                lemma_hex_run_at_least(b@, i as int, j as int);
            }
        }
        return None;
    }
    proof {
        lemma_hex_run_from(b@, i as int, j as int);
    }
    if n == 0 {
        return None;
    }
    Some((v as u16, j))
}

proof fn lemma_hex_run_at_least(b: Seq<u8>, i: int, j: int)
    requires
        0 <= i <= j <= b.len(),
        forall|m: int| i <= m < j ==> is_hex_digit(#[trigger] b[m]),
    ensures
        hex_run(b, i) >= j - i,
    decreases j - i,
{
    if i < j {
        lemma_hex_run_at_least(b, i + 1, j);
    }
}

fn sep_at_exec(b: &[u8], i: usize, k: usize) -> (r: Option<usize>)
    requires
        i <= b@.len(),
    ensures
        match r {
            Some(j) => sep_at(b@, i as int, k as nat) == Some(j as int) && j <= b@.len(),
            None => sep_at(b@, i as int, k as nat) is None,
        },
{
    if k == 0 {
        Some(i)
    } else if i < b.len() && b[i] == 58 {
        Some(i + 1)
    } else {
        None
    }
}

fn be16_exec(hi: u8, lo: u8) -> (r: u16)
    ensures
        r == be16(hi, lo),
{
    (hi as u16) * 256 + (lo as u16)
}

fn read_groups_exec(b: &[u8], i: usize, k: usize, limit: usize) -> (r: (Vec<u16>, usize, bool))
    requires
        i <= b@.len(),
        limit <= 8,
    ensures
        (r.0@, r.1 as int, r.2) == read_groups(b@, i as int, k as nat, limit as nat),
        r.1 <= b@.len(),
    decreases limit - k,
{
    if k >= limit {
        return (Vec::new(), i, false);
    }
    if k + 1 < limit {
        if let Some(j) = sep_at_exec(b, i, k) {
            if let Some((a, e)) = ipv4_at_exec(b, j) {
                let mut v: Vec<u16> = Vec::new();
                v.push(be16_exec(a[0], a[1]));
                v.push(be16_exec(a[2], a[3]));
                proof {
                    assert(v@ =~= seq![be16(a[0], a[1]), be16(a[2], a[3])]);
                }
                return (v, e, true);
            }
        }
    }
    match sep_at_exec(b, i, k) {
        Some(j) => match hex_group_at_exec(b, j) {
            Some((g, e)) => {
                let (rest, e2, f) = read_groups_exec(b, e, k + 1, limit);
                let mut v: Vec<u16> = Vec::new();
                v.push(g);
                let mut rest = rest;
                v.append(&mut rest);
                proof {
                    assert(v@ =~= seq![g] + read_groups(b@, e as int, (k + 1) as nat, limit as nat).0);
                }
                (v, e2, f)
            },
            None => (Vec::new(), i, false),
        },
        None => (Vec::new(), i, false),
    }
}

/// Reads an IPv6 address at the start of `b`.
fn ipv6_at_exec(b: &[u8]) -> (r: Option<([u16; 8], usize)>)
    ensures
        match r {
            Some((g, e)) => ipv6_at(b@) matches Some((s, e2)) && g@ == s && e == e2,
            None => ipv6_at(b@) is None,
        },
{
    let (head, e, v4) = read_groups_exec(b, 0, 0, 8);
    let ghost hs = read_groups(b@, 0, 0, 8).0;
    proof {
        lemma_read_groups_len(b@, 0, 0, 8);
    }
    if head.len() == 8 {
        let g = [head[0], head[1], head[2], head[3], head[4], head[5], head[6], head[7]];
        proof {
            assert(g@ =~= head@);
        }
        return Some((g, e));
    }
    if v4 {
        return None;
    }
    if !(e < b.len() && b.len() - e >= 2 && b[e] == 58 && b[e + 1] == 58) {
        return None;
    }
    let limit = 7 - head.len();
    let (tail, e2, _f) = read_groups_exec(b, e + 2, 0, limit);
    proof {
        lemma_read_groups_len(b@, e + 2, 0, limit as nat);
    }
    let gap = 8 - head.len() - tail.len();
    let mut all: Vec<u16> = Vec::new();
    let mut i: usize = 0;
    while i < head.len()
        invariant
            i <= head@.len(),
            all@ == head@.take(i as int),
        decreases head@.len() - i,
    {
        all.push(head[i]);
        i = i + 1;
        proof {
            assert(all@ =~= head@.take(i as int));
        }
    }
    let mut z: usize = 0;
    while z < gap
        invariant
            z <= gap,
            i == head@.len(),
            all@ == head@ + zero_groups(z as int),
        decreases gap - z,
    {
        all.push(0u16);
        z = z + 1;
        proof {
            assert(all@ =~= head@ + zero_groups(z as int));
        }
    }
    let mut t: usize = 0;
    while t < tail.len()
        invariant
            t <= tail@.len(),
            all@ == head@ + zero_groups(gap as int) + tail@.take(t as int),
        decreases tail@.len() - t,
    {
        all.push(tail[t]);
        t = t + 1;
        proof {
            assert(all@ =~= head@ + zero_groups(gap as int) + tail@.take(t as int));
        }
    }
    proof {
        assert(tail@.take(t as int) =~= tail@);
        assert(all@.len() == 8);
    }
    let g = [all[0], all[1], all[2], all[3], all[4], all[5], all[6], all[7]];
    proof {
        assert(g@ =~= all@);
    }
    Some((g, e2))
}

/// The groups read never pass the limit.
proof fn lemma_read_groups_len(b: Seq<u8>, i: int, k: nat, limit: nat)
    ensures
        k <= limit ==> k + read_groups(b, i, k, limit).0.len() <= limit,
        read_groups(b, i, k, limit).2 ==> read_groups(b, i, k, limit).0.len() >= 2,
    decreases limit - k,
{
    if k < limit {
        lemma_read_groups_len(b, i, k + 1, limit);
        let v4 = if k + 1 < limit {
            match sep_at(b, i, k) {
                Some(j) => ipv4_at(b, j),
                None => None,
            }
        } else {
            None
        };
        if v4 is None {
            match sep_at(b, i, k) {
                Some(j) => match hex_group_at(b, j) {
                    Some((g, e)) => {
                        lemma_read_groups_len(b, e, k + 1, limit);
                    },
                    None => {},
                },
                None => {},
            }
        }
    }
}

/// Reads the target address out of the text the node received.
pub fn parse_ip_text(b: &[u8]) -> (r: Option<IpAddress>)
    ensures
        r == parse_ip_spec(b@),
{
    match ipv4_at_exec(b, 0) {
        Some((a, e)) => if e == b.len() {
            Some(IpAddress::V4(a))
        } else {
            None
        },
        None => match ipv6_at_exec(b) {
            Some((g, e)) => {
                proof {
                    assert(g =~= groups_array(g@));
                }
                if e == b.len() {
                    Some(IpAddress::V6(g))
                } else {
                    None
                }
            },
            None => None,
        },
    }
}

/// Appends the lowercase hexadecimal numeral of `n`.
fn push_hex(out: &mut Vec<u8>, n: u16)
    ensures
        final(out)@ == old(out)@ + hex_text(n as nat),
    decreases n,
{
    if n >= 16 {
        push_hex(out, n / 16);
    }
    let d = n % 16;
    let c: u8 = if d < 10 {
        (48 + d) as u8
    } else {
        (87 + d) as u8
    };
    out.push(c);
    proof {
        assert(final(out)@ =~= old(out)@ + hex_text(n as nat));
    }
}

/// Appends `s[from..to]` in hexadecimal, separated by `:`.
fn push_join_hex(out: &mut Vec<u8>, s: &[u16; 8], from: usize, to: usize)
    requires
        from <= to <= 8,
    ensures
        final(out)@ == old(out)@ + join_hex(s@.subrange(from as int, to as int)),
    decreases to - from,
{
    if from == to {
        proof {
            assert(s@.subrange(from as int, to as int).len() == 0);
            assert(final(out)@ =~= old(out)@ + join_hex(s@.subrange(from as int, to as int)));
        }
        return;
    }
    push_hex(out, s[from]);
    let ghost sub = s@.subrange(from as int, to as int);
    if from + 1 < to {
        out.push(58u8);
        push_join_hex(out, s, from + 1, to);
        proof {
            assert(sub.drop_first() =~= s@.subrange(from + 1, to as int));
            assert(final(out)@ =~= old(out)@ + join_hex(sub));
        }
    } else {
        proof {
            assert(final(out)@ =~= old(out)@ + join_hex(sub));
        }
    }
}

/// The length of the run of zero groups from `i`.
fn zeros_from_exec(s: &[u16; 8], i: usize) -> (n: usize)
    requires
        i <= 8,
    ensures
        n == zeros_from(s@, i as int),
        i + n <= 8,
{
    let mut j = i;
    while j < 8 && s[j] == 0
        invariant
            i <= j <= 8,
            forall|m: int| i <= m < j ==> #[trigger] s@[m] == 0,
        decreases 8 - j,
    {
        j = j + 1;
    }
    proof {
        lemma_zeros_from(s@, i as int, j as int);
    }
    j - i
}

proof fn lemma_zeros_from(s: Seq<u16>, i: int, j: int)
    requires
        0 <= i <= j <= s.len(),
        forall|m: int| i <= m < j ==> #[trigger] s[m] == 0,
        j == s.len() || s[j] != 0,
    ensures
        zeros_from(s, i) == j - i,
    decreases j - i,
{
    if i < j {
        lemma_zeros_from(s, i + 1, j);
    }
}

/// The first longest run of zero groups.
fn longest_zeros(s: &[u16; 8]) -> (r: (usize, usize))
    ensures
        (r.0 as int, r.1 as nat) == longest_zeros_from(s@, 0),
        r.0 + r.1 <= 8,
{
    let mut best: (usize, usize) = (0, 0);
    let mut i: usize = 8;
    while i > 0
        invariant
            i <= 8,
            (best.0 as int, best.1 as nat) == longest_zeros_from(s@, i as int),
            best.0 + best.1 <= 8,
        decreases i,
    {
        i = i - 1;
        let here = zeros_from_exec(s, i);
        if here > 0 && here >= best.1 {
            best = (i, here);
        }
    }
    best
}

/// Appends the text `Display` writes for an IPv6 address.
fn push_ipv6_text(out: &mut Vec<u8>, g: &[u16; 8])
    ensures
        final(out)@ == old(out)@ + ipv6_text(*g),
{
    let ghost s = g@;
    if g[0] == 0 && g[1] == 0 && g[2] == 0 && g[3] == 0 && g[4] == 0 && g[5] == 0xffff {
        out.push(58u8);
        out.push(58u8);
        out.push(102u8);
        out.push(102u8);
        out.push(102u8);
        out.push(102u8);
        out.push(58u8);
        let a = [(g[6] / 256) as u8, (g[6] % 256) as u8, (g[7] / 256) as u8, (g[7] % 256) as u8];
        push_ipv4_text(out, a);
        proof {
            assert(final(out)@ =~= old(out)@ + ipv6_text(*g));
        }
    } else {
        let (st, l) = longest_zeros(g);
        if l > 1 {
            push_join_hex(out, g, 0, st);
            out.push(58u8);
            out.push(58u8);
            push_join_hex(out, g, st + l, 8);
            proof {
                assert(s.subrange(0, st as int) =~= s.take(st as int));
                assert(s.subrange(st + l, 8) =~= s.skip(st + l));
                assert(final(out)@ =~= old(out)@ + ipv6_text(*g));
            }
        } else {
            push_join_hex(out, g, 0, 8);
            proof {
                assert(s.subrange(0, 8) =~= s);
                assert(final(out)@ =~= old(out)@ + ipv6_text(*g));
            }
        }
    }
}

/// The text the controller sends for a target address.
pub fn format_ip_text(a: &IpAddress) -> (r: Vec<u8>)
    ensures
        r@ == ip_text(*a),
{
    let mut out: Vec<u8> = Vec::new();
    match a {
        IpAddress::V4(x) => push_ipv4_text(&mut out, *x),
        IpAddress::V6(g) => push_ipv6_text(&mut out, g),
    }
    proof {
        assert(out@ =~= ip_text(*a));
    }
    out
}

// ---------------------------------------------------------------------------
// Reading back what is written
// ---------------------------------------------------------------------------

/// A decimal octet written out is read back, when a non-digit or the end follows.
proof fn lemma_octet_of(b: Seq<u8>, j: int, x: u8)
    requires
        0 <= j,
        j + decimal(x as nat).len() <= b.len(),
        b.subrange(j, j + decimal(x as nat).len()) == decimal(x as nat),
        j + decimal(x as nat).len() == b.len() || !is_digit(b[j + decimal(x as nat).len()]),
    ensures
        octet_at(b, j) == Some((x, j + decimal(x as nat).len())),
{
    let d = decimal(x as nat);
    let e = j + d.len();
    crate::decimal::lemma_decimal(x as nat);
    assert forall|m: int| j <= m < e implies is_digit(#[trigger] b[m]) by {
        assert(b[m] == d[m - j]);
    }
    lemma_digit_run_from(b, j, e);
    assert(b[j] == d[0]);
}

/// The dotted-quad text of an address, standing at the end of `b`, is read back.
proof fn lemma_ipv4_text_at(b: Seq<u8>, i: int, a: [u8; 4])
    requires
        0 <= i,
        i + ipv4_text(a).len() == b.len(),
        b.subrange(i, b.len() as int) == ipv4_text(a),
    ensures
        ipv4_at(b, i) == Some((a, b.len() as int)),
{
    let d0 = decimal(a[0] as nat);
    let d1 = decimal(a[1] as nat);
    let d2 = decimal(a[2] as nat);
    let d3 = decimal(a[3] as nat);
    let p1 = i + d0.len();
    let p2 = p1 + 1 + d1.len();
    let p3 = p2 + 1 + d2.len();
    let t = ipv4_text(a);
    assert(t =~= d0 + seq![46u8] + d1 + seq![46u8] + d2 + seq![46u8] + d3);
    assert(b[p1] == 46u8) by {
        assert(b[p1] == t[p1 - i]);
    }
    assert(b[p2] == 46u8) by {
        assert(b[p2] == t[p2 - i]);
    }
    assert(b[p3] == 46u8) by {
        assert(b[p3] == t[p3 - i]);
    }
    assert(b.subrange(i, p1) =~= d0) by {
        assert forall|m: int| 0 <= m < d0.len() implies b.subrange(i, p1)[m] == d0[m] by {
            assert(b[i + m] == t[m]);
        }
    }
    assert(b.subrange(p1 + 1, p2) =~= d1) by {
        assert forall|m: int| 0 <= m < d1.len() implies b.subrange(p1 + 1, p2)[m] == d1[m] by {
            assert(b[p1 + 1 + m] == t[p1 + 1 + m - i]);
        }
    }
    assert(b.subrange(p2 + 1, p3) =~= d2) by {
        assert forall|m: int| 0 <= m < d2.len() implies b.subrange(p2 + 1, p3)[m] == d2[m] by {
            assert(b[p2 + 1 + m] == t[p2 + 1 + m - i]);
        }
    }
    assert(b.subrange(p3 + 1, b.len() as int) =~= d3) by {
        assert forall|m: int| 0 <= m < d3.len() implies b.subrange(p3 + 1, b.len() as int)[m]
            == d3[m] by {
            assert(b[p3 + 1 + m] == t[p3 + 1 + m - i]);
        }
    }
    lemma_octet_of(b, i, a[0]);
    lemma_octet_of(b, p1 + 1, a[1]);
    lemma_octet_of(b, p2 + 1, a[2]);
    lemma_octet_of(b, p3 + 1, a[3]);
    assert([a[0], a[1], a[2], a[3]] =~= a);
}

/// Whether no byte is a `.`.
pub open spec fn no_dot(b: Seq<u8>) -> bool {
    forall|m: int| 0 <= m < b.len() ==> #[trigger] b[m] != 46
}

/// Without a `.` there is no dotted quad.
proof fn lemma_no_ipv4_without_dot(b: Seq<u8>, j: int)
    requires
        no_dot(b),
    ensures
        ipv4_at(b, j) is None,
{
    if let Some((_v, i1)) = octet_at(b, j) {
        if 0 <= i1 < b.len() {
            assert(b[i1] != 46);
        }
    }
}

proof fn lemma_hex_char(d: nat)
    requires
        d < 16,
    ensures
        is_hex_digit(hex_char(d)),
        hex_digit_value(hex_char(d)) == d,
        hex_char(d) != 58,
        hex_char(d) != 46,
{
}

/// The hexadecimal numeral of `n` is made of hexadecimal digits, is not empty,
/// has the value `n`, and has at most four digits below 65536.
proof fn lemma_hex_text(n: nat)
    ensures
        forall|m: int|
            0 <= m < hex_text(n).len() ==> is_hex_digit(#[trigger] hex_text(n)[m]) && hex_text(
                n,
            )[m] != 58 && hex_text(n)[m] != 46,
        hex_text(n).len() >= 1,
        hex_digits_value(hex_text(n)) == n,
        n < 16 ==> hex_text(n).len() == 1,
        n < 256 ==> hex_text(n).len() <= 2,
        n < 4096 ==> hex_text(n).len() <= 3,
        n < 65536 ==> hex_text(n).len() <= 4,
    decreases n,
{
    let h = hex_text(n);
    if n < 16 {
        lemma_hex_char(n);
        assert(h.drop_last().len() == 0);
        assert(hex_digits_value(h.drop_last()) == 0);
    } else {
        lemma_hex_text(n / 16);
        lemma_hex_char(n % 16);
        assert(h.drop_last() =~= hex_text(n / 16));
        assert(h.last() == hex_char(n % 16));
        assert forall|m: int| 0 <= m < h.len() implies is_hex_digit(#[trigger] h[m]) && h[m] != 58
            && h[m] != 46 by {
            if m < h.len() - 1 {
                assert(h[m] == hex_text(n / 16)[m]);
            }
        }
    }
}

/// A hexadecimal group written out is read back, when a non-hexadecimal byte or
/// the end follows.
proof fn lemma_hex_group_of(b: Seq<u8>, j: int, g: u16)
    requires
        0 <= j,
        j + hex_text(g as nat).len() <= b.len(),
        b.subrange(j, j + hex_text(g as nat).len()) == hex_text(g as nat),
        j + hex_text(g as nat).len() == b.len() || !is_hex_digit(b[j + hex_text(g as nat).len()]),
    ensures
        hex_group_at(b, j) == Some((g, j + hex_text(g as nat).len())),
{
    let h = hex_text(g as nat);
    let e = j + h.len();
    lemma_hex_text(g as nat);
    assert forall|m: int| j <= m < e implies is_hex_digit(#[trigger] b[m]) by {
        assert(b[m] == h[m - j]);
    }
    lemma_hex_run_from(b, j, e);
}

/// Every byte of joined groups is a hexadecimal digit or a `:`.
proof fn lemma_join_hex_bytes(s: Seq<u16>)
    ensures
        forall|m: int|
            0 <= m < join_hex(s).len() ==> (is_hex_digit(#[trigger] join_hex(s)[m]) || join_hex(
                s,
            )[m] == 58) && join_hex(s)[m] != 46,
    decreases s.len(),
{
    if s.len() == 1 {
        lemma_hex_text(s[0] as nat);
    } else if s.len() > 1 {
        lemma_hex_text(s[0] as nat);
        lemma_join_hex_bytes(s.drop_first());
        let h = hex_text(s[0] as nat);
        let j = join_hex(s);
        assert forall|m: int| 0 <= m < j.len() implies (is_hex_digit(#[trigger] j[m]) || j[m] == 58)
            && j[m] != 46 by {
            if m < h.len() {
                assert(j[m] == h[m]);
            } else if m > h.len() {
                assert(j[m] == join_hex(s.drop_first())[m - h.len() - 1]);
            }
        }
    }
}

/// The text of groups `k` on: a `:` before them unless they are the first.
pub open spec fn groups_text(k: nat, segs: Seq<u16>) -> Seq<u8> {
    if segs.len() == 0 {
        seq![]
    } else if k == 0 {
        join_hex(segs)
    } else {
        seq![58u8] + join_hex(segs)
    }
}

/// Whether reading the next group, number `k`, at position `e` fails.
pub open spec fn read_stops(b: Seq<u8>, e: int, k: nat) -> bool {
    match sep_at(b, e, k) {
        Some(j) => hex_group_at(b, j) is None,
        None => true,
    }
}

/// Groups written out from number `k` on are read back, when what follows them
/// stops the reading (or the limit is reached).
proof fn lemma_read_hex_groups(b: Seq<u8>, i: int, k: nat, limit: nat, segs: Seq<u16>)
    requires
        k + segs.len() <= limit,
        no_dot(b),
        0 <= i,
        i + groups_text(k, segs).len() <= b.len(),
        b.subrange(i, i + groups_text(k, segs).len()) == groups_text(k, segs),
        i + groups_text(k, segs).len() == b.len() || !is_hex_digit(
            b[i + groups_text(k, segs).len()],
        ),
        k + segs.len() < limit ==> read_stops(b, i + groups_text(k, segs).len(), k + segs.len()),
    ensures
        read_groups(b, i, k, limit) == (segs, i + groups_text(k, segs).len(), false),
    decreases segs.len(),
{
    let t = groups_text(k, segs);
    if segs.len() == 0 {
        if k < limit {
            match sep_at(b, i, k) {
                Some(j) => lemma_no_ipv4_without_dot(b, j),
                None => {},
            }
        }
        assert(read_groups(b, i, k, limit).0 =~= segs);
    } else {
        let g = segs[0];
        let rest = segs.drop_first();
        let h = hex_text(g as nat);
        lemma_hex_text(g as nat);
        let j = if k == 0 {
            i
        } else {
            i + 1
        };
        if k > 0 {
            assert(b[i] == t[0]);
        }
        assert(sep_at(b, i, k) == Some(j));
        lemma_no_ipv4_without_dot(b, j);
        let jt = join_hex(segs);
        assert(t.len() == (j - i) + jt.len());
        if rest.len() > 0 {
            assert(jt =~= h + seq![58u8] + join_hex(rest));
        } else {
            assert(jt =~= h);
        }
        let e = j + h.len();
        assert(b.subrange(j, e) =~= h) by {
            assert forall|m: int| 0 <= m < h.len() implies b.subrange(j, e)[m] == h[m] by {
                assert(b[j + m] == t[j - i + m]);
                assert(t[j - i + m] == jt[m]);
            }
        }
        if rest.len() > 0 {
            assert(b[e] == 58u8) by {
                assert(b[e] == t[e - i]);
                assert(t[e - i] == jt[h.len() as int]);
            }
        }
        lemma_hex_group_of(b, j, g);
        let t2 = groups_text(k + 1, rest);
        if rest.len() > 0 {
            assert(t2 =~= seq![58u8] + join_hex(rest));
            assert(e + t2.len() == i + t.len());
            assert(b.subrange(e, e + t2.len()) =~= t2) by {
                assert forall|m: int| 0 <= m < t2.len() implies b.subrange(e, e + t2.len())[m]
                    == t2[m] by {
                    assert(b[e + m] == t[e - i + m]);
                    assert(t[e - i + m] == jt[h.len() + m]);
                }
            }
        } else {
            assert(t2.len() == 0);
            assert(e == i + t.len());
            assert(b.subrange(e, e + t2.len()) =~= t2);
        }
        lemma_read_hex_groups(b, e, k + 1, limit, rest);
        lemma_read_groups_cons(b, i, k, limit, j, g, e);
        assert(seq![g] + rest =~= segs);
    }
}

/// The zero run that `longest_zeros_from` picks lies within the groups and is all zeros.
proof fn lemma_longest_zeros(s: Seq<u16>, i: int)
    requires
        0 <= i,
    ensures
        longest_zeros_from(s, i).0 >= 0,
        longest_zeros_from(s, i).1 > 0 ==> {
            let (st, l) = longest_zeros_from(s, i);
            &&& i <= st
            &&& zeros_from(s, st) == l
        },
    decreases s.len() - i,
{
    if i < s.len() {
        lemma_longest_zeros(s, i + 1);
    }
}

proof fn lemma_zeros_from_bounds(s: Seq<u16>, i: int)
    requires
        0 <= i,
    ensures
        zeros_from(s, i) > 0 ==> i + zeros_from(s, i) <= s.len(),
        forall|m: int| i <= m < i + zeros_from(s, i) ==> s[m] == 0,
    decreases s.len() - i,
{
    if 0 <= i < s.len() && s[i] == 0 {
        lemma_zeros_from_bounds(s, i + 1);
    }
}

/// One group read, then the rest.
proof fn lemma_read_groups_cons(b: Seq<u8>, i: int, k: nat, limit: nat, j: int, g: u16, e: int)
    requires
        k < limit,
        sep_at(b, i, k) == Some(j),
        k + 1 < limit ==> ipv4_at(b, j) is None,
        hex_group_at(b, j) == Some((g, e)),
    ensures
        read_groups(b, i, k, limit) == ({
            let r = read_groups(b, e, k + 1, limit);
            (seq![g] + r.0, r.1, r.2)
        }),
{
}

/// No group read.
proof fn lemma_read_groups_none(b: Seq<u8>, i: int, k: nat, limit: nat)
    requires
        k < limit,
        k + 1 < limit ==> (sep_at(b, i, k) matches Some(j) ==> ipv4_at(b, j) is None),
        read_stops(b, i, k),
    ensures
        read_groups(b, i, k, limit) == (Seq::<u16>::empty(), i, false),
{
    assert(read_groups(b, i, k, limit).0 =~= Seq::<u16>::empty());
}

/// A dotted quad read as the last two groups.
proof fn lemma_read_groups_v4(b: Seq<u8>, i: int, k: nat, limit: nat, j: int, a: [u8; 4], e: int)
    requires
        k + 1 < limit,
        sep_at(b, i, k) == Some(j),
        ipv4_at(b, j) == Some((a, e)),
    ensures
        read_groups(b, i, k, limit) == (seq![be16(a[0], a[1]), be16(a[2], a[3])], e, true),
{
}

proof fn lemma_mapped_text(g: [u16; 8], b: Seq<u8>, a: [u8; 4])
    requires
        is_ipv4_mapped(g@),
        b == ipv6_text(g),
        a == [(g@[6] / 256) as u8, (g@[6] % 256) as u8, (g@[7] / 256) as u8, (g@[7] % 256) as u8],
    ensures
        b == mapped_prefix() + ipv4_text(a),
        b[0] == 58u8 && b[1] == 58u8 && b[2] == 102u8 && b[6] == 58u8,
        b.subrange(2, 6) == hex_text(0xffff),
        b.subrange(7, b.len() as int) == ipv4_text(a),
        7 + ipv4_text(a).len() == b.len(),
        6 < b.len(),
{
    assert(b.subrange(2, 6) =~= hex_text(0xffff)) by {
        reveal_with_fuel(hex_text, 5);
    }
    assert(b.subrange(7, b.len() as int) =~= ipv4_text(a));
}

proof fn lemma_be16_split(x: u16)
    ensures
        be16((x / 256) as u8, (x % 256) as u8) == x,
{
}

/// The groups of the text of an IPv4-mapped address.
proof fn lemma_mapped_read(b: Seq<u8>, a: [u8; 4])
    requires
        b == mapped_prefix() + ipv4_text(a),
        b[0] == 58u8 && b[1] == 58u8 && b[2] == 102u8 && b[6] == 58u8,
        b.subrange(2, 6) == hex_text(0xffff),
        b.subrange(7, b.len() as int) == ipv4_text(a),
        7 + ipv4_text(a).len() == b.len(),
        6 < b.len(),
    ensures
        ipv4_at(b, 0) is None,
        ipv6_at(b) == Some((zero_groups(5) + seq![0xffffu16, be16(a[0], a[1]), be16(a[2], a[3])], b.len() as int)),
{
    assert(digit_run(b, 0) == 0);
    assert(hex_run(b, 0) == 0);
    lemma_no_ipv4_at_non_digit(b, 0);
    lemma_read_groups_none(b, 0, 0, 8);
    assert(digit_run(b, 2) == 0);
    lemma_no_ipv4_at_non_digit(b, 2);
    lemma_hex_group_of(b, 2, 0xffff);
    lemma_ipv4_text_at(b, 7, a);
    lemma_read_groups_v4(b, 6, 1, 7, 7, a, b.len() as int);
    lemma_read_groups_cons(b, 2, 0, 7, 2, 0xffff, 6);
    let tail = read_groups(b, 2, 0, 7);
    assert(tail.0 =~= seq![0xffffu16, be16(a[0], a[1]), be16(a[2], a[3])]);
    assert(Seq::<u16>::empty() + zero_groups(5) + tail.0 =~= zero_groups(5) + tail.0);
}

/// The text of an IPv4-mapped address is read back.
proof fn lemma_ipv6_mapped_roundtrip(g: [u16; 8])
    requires
        is_ipv4_mapped(g@),
    ensures
        parse_ip_spec(ipv6_text(g)) == Some(IpAddress::V6(g)),
{
    let s = g@;
    let a = [(s[6] / 256) as u8, (s[6] % 256) as u8, (s[7] / 256) as u8, (s[7] % 256) as u8];
    let b = ipv6_text(g);
    lemma_mapped_text(g, b, a);
    lemma_mapped_read(b, a);
    lemma_be16_split(s[6]);
    lemma_be16_split(s[7]);
    let all = zero_groups(5) + seq![0xffffu16, be16(a[0], a[1]), be16(a[2], a[3])];
    assert(all =~= s);
    assert(groups_array(s) =~= g);
}

proof fn lemma_no_ipv4_at_non_digit(b: Seq<u8>, j: int)
    requires
        digit_run(b, j) == 0,
    ensures
        ipv4_at(b, j) is None,
{
}

/// The compressed text `head::tail` is read back as the head, zeros, and the tail.
#[verifier::rlimit(40)]
proof fn lemma_ipv6_compressed_read(b: Seq<u8>, h: Seq<u16>, t: Seq<u16>)
    requires
        h.len() + t.len() <= 6,
        b == join_hex(h) + seq![58u8, 58u8] + join_hex(t),
    ensures
        ipv6_at(b) == Some((h + zero_groups(8 - h.len() - t.len()) + t, b.len() as int)),
        no_dot(b),
{
    let jh = join_hex(h);
    let jt = join_hex(t);
    lemma_join_hex_bytes(h);
    lemma_join_hex_bytes(t);
    assert(no_dot(b)) by {
        assert forall|m: int| 0 <= m < b.len() implies #[trigger] b[m] != 46 by {
            if m < jh.len() {
                assert(b[m] == jh[m]);
            } else if m >= jh.len() + 2 {
                assert(b[m] == jt[m - jh.len() - 2]);
            }
        }
    }
    let p = jh.len() as int;
    assert(b[p] == 58u8 && b[p + 1] == 58u8);
    assert(groups_text(0, h) =~= jh);
    assert(b.subrange(0, p) =~= jh);
    assert(hex_run(b, p + 1) == 0);
    if h.len() == 0 {
        assert(hex_run(b, 0) == 0);
    }
    lemma_read_hex_groups(b, 0, 0, 8, h);
    assert(groups_text(0, t) =~= jt);
    assert(b.subrange(p + 2, b.len() as int) =~= jt);
    assert(hex_run(b, b.len() as int) == 0);
    lemma_read_hex_groups(b, p + 2, 0, (7 - h.len()) as nat, t);
}

/// The text of an IPv6 address that is not IPv4-mapped is read back.
proof fn lemma_ipv6_plain_roundtrip(g: [u16; 8])
    requires
        !is_ipv4_mapped(g@),
    ensures
        parse_ip_spec(ipv6_text(g)) == Some(IpAddress::V6(g)),
{
    let s = g@;
    let b = ipv6_text(g);
    let (st, l) = longest_zeros_from(s, 0);
    lemma_longest_zeros(s, 0);
    lemma_zeros_from_bounds(s, st);
    if l > 1 {
        let h = s.take(st);
        let t = s.skip(st + l);
        lemma_ipv6_compressed_read(b, h, t);
        lemma_no_ipv4_without_dot(b, 0);
        let all = h + zero_groups(8 - h.len() - t.len()) + t;
        assert(all =~= s);
        assert(groups_array(s) =~= g);
    } else {
        lemma_join_hex_bytes(s);
        assert(no_dot(b));
        lemma_no_ipv4_without_dot(b, 0);
        assert(groups_text(0, s) =~= b);
        assert(b.subrange(0, b.len() as int) =~= b);
        lemma_read_hex_groups(b, 0, 0, 8, s);
        assert(groups_array(s) =~= g);
    }
}

/// Reading back the text of an address gives the address: what the controller
/// sends is what the node connects to.
pub proof fn law_ip_text_roundtrip(a: IpAddress)
    ensures
        parse_ip_spec(ip_text(a)) == Some(a),
{
    match a {
        IpAddress::V4(x) => {
            let b = ipv4_text(x);
            assert(b.subrange(0, b.len() as int) =~= b);
            lemma_ipv4_text_at(b, 0, x);
        },
        IpAddress::V6(g) => {
            if is_ipv4_mapped(g@) {
                lemma_ipv6_mapped_roundtrip(g);
            } else {
                lemma_ipv6_plain_roundtrip(g);
            }
        },
    }
}

} // verus!
