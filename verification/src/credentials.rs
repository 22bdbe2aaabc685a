//! The username/password check, and the `user:pass` argument that sets the credentials.
//!
//! The server does not read the RFC 1929 message field by field: it decodes the
//! whole zero-filled buffer as UTF-8 (invalid sequences become U+FFFD), keeps the
//! alphabetic characters and compares them with the username followed by the password.
use vstd::prelude::*;
use crate::lossy::{decode_lossy, is_ascii_bytes, lemma_lossy_ascii, lossy_chars};

verus! {

/// Whether `char::is_alphabetic` holds of a character (the Unicode `Alphabetic`
/// property). The table behind it is Unicode's, so it is named rather than written out.
pub uninterp spec fn char_alphabetic(c: char) -> bool;

/// Calls `char::is_alphabetic`, which answers whether the character has the
/// Unicode `Alphabetic` property of the Character Database's
/// DerivedCoreProperties. Among ASCII characters exactly the letters `A`-`Z` and
/// `a`-`z` have it; beyond ASCII the contract names the answer and says nothing
/// of which characters have it.
#[verifier::external_body]
fn is_alphabetic(c: char) -> (r: bool)
    ensures
        r == char_alphabetic(c),
        (c as u32) < 128 ==> (r <==> ('A' <= c <= 'Z' || 'a' <= c <= 'z')),
{
    c.is_alphabetic()
}

/// Calls `String::push`, which appends one character.
#[verifier::external_body]
fn push_char(s: &mut String, c: char)
    ensures
        final(s)@ == old(s)@.push(c),
{
    s.push(c)
}

/// The predicate the server filters the decoded text with.
pub open spec fn alphabetic() -> spec_fn(char) -> bool {
    |c: char| char_alphabetic(c)
}

/// The alphabetic characters of the text the bytes decode to.
pub open spec fn letters(b: Seq<u8>) -> Seq<char> {
    lossy_chars(b).filter(alphabetic())
}

/// Whether the credentials message in `data` is accepted for `username` and `password`.
pub open spec fn credentials_accepted(data: Seq<u8>, username: Seq<char>, password: Seq<char>) -> bool {
    letters(data) == username + password
}

/// The alphabetic characters of the text that `b` decodes to.
pub fn letters_of(b: &[u8]) -> (r: Vec<char>)
    ensures
        r@ == letters(b@),
{
    let cs = decode_lossy(b);
    let mut acc: Vec<char> = Vec::new();
    let mut i: usize = 0;
    while i < cs.len()
        invariant
            i <= cs@.len(),
            cs@ == lossy_chars(b@),
            acc@ == cs@.take(i as int).filter(alphabetic()),
        decreases cs@.len() - i,
    {
        let c = cs[i];
        proof {
            assert(cs@.take(i + 1) =~= cs@.take(i as int).push(c));
            cs@.take(i as int).lemma_filter_push(c, alphabetic());
        }
        if is_alphabetic(c) {
            acc.push(c);
        }
        i = i + 1;
    }
    proof {
        assert(cs@.take(i as int) =~= cs@);
    }
    acc
}

/// The characters of a string slice, in a vector.
pub fn chars_of(s: &str) -> (v: Vec<char>)
    ensures
        v@ == s@,
{
    let mut v: Vec<char> = Vec::new();
    for c in it: s.chars()
        invariant
            v@ == it.seq().take(it.index() as int),
            it.seq() == s@,
    {
        v.push(c);
        proof {
            assert(v@ =~= it.seq().take(it.index() + 1));
        }
    }
    v
}

/// Decides whether the credentials message read into `data` is accepted: the
/// alphabetic characters of its text must be exactly the username followed by the password.
pub fn check_credentials(data: &[u8], username: &str, password: &str) -> (r: bool)
    ensures
        r == credentials_accepted(data@, username@, password@),
{
    let got = letters_of(data);
    let u = chars_of(username);
    let p = chars_of(password);
    let ghost want = u@ + p@;
    if got.len() < u.len() || got.len() - u.len() != p.len() {
        return false;
    }
    let mut i: usize = 0;
    while i < got.len()
        invariant
            got@.len() == want.len(),
            want == u@ + p@,
            got@ == letters(data@),
            u@ == username@,
            p@ == password@,
            i <= got@.len(),
            got@.take(i as int) == want.take(i as int),
        decreases got@.len() - i,
    {
        let w = if i < u.len() {
            u[i]
        } else {
            p[i - u.len()]
        };
        assert(w == want[i as int]);
        if got[i] != w {
            assert(got@ != want) by {
                assert(got@[i as int] != want[i as int]);
            }
            return false;
        }
        i = i + 1;
        proof {
            assert(got@.take(i as int) =~= want.take(i as int));
        }
    }
    proof {
        assert(got@ =~= got@.take(i as int));
        assert(want =~= want.take(i as int));
    }
    true
}

/// The first `':'`-separated field of `s` and the second: `s` is the username,
/// a colon, the password, and then either nothing or another colon and the rest.
pub open spec fn splits_credentials(s: Seq<char>, username: Seq<char>, password: Seq<char>) -> bool {
    let n = username.len() as int;
    let m = password.len() as int;
    &&& !username.contains(':')
    &&& !password.contains(':')
    &&& n + 1 + m <= s.len()
    &&& s.take(n) == username
    &&& s[n] == ':'
    &&& s.subrange(n + 1, n + 1 + m) == password
    &&& (n + 1 + m == s.len() || s[n + 1 + m] == ':')
}

/// The first index at or after `from` whose character is `':'`, or the length.
fn next_colon(cs: &Vec<char>, from: usize) -> (k: usize)
    requires
        from <= cs@.len(),
    ensures
        from <= k <= cs@.len(),
        forall|j: int| from <= j < k ==> cs@[j] != ':',
        k < cs@.len() ==> cs@[k as int] == ':',
{
    let mut k = from;
    while k < cs.len() && cs[k] != ':'
        invariant
            from <= k <= cs@.len(),
            forall|j: int| from <= j < k ==> cs@[j] != ':',
        decreases cs@.len() - k,
    {
        k = k + 1;
    }
    k
}

/// The string made of `cs[from..to]`.
fn string_of(cs: &Vec<char>, from: usize, to: usize) -> (s: String)
    requires
        from <= to <= cs@.len(),
    ensures
        s@ == cs@.subrange(from as int, to as int),
{
    let mut s = String::new();
    let mut i = from;
    while i < to
        invariant
            from <= i <= to,
            to <= cs@.len(),
            s@ == cs@.subrange(from as int, i as int),
        decreases to - i,
    {
        push_char(&mut s, cs[i]);
        i = i + 1;
        proof {
            assert(s@ =~= cs@.subrange(from as int, i as int));
        }
    }
    s
}

/// Splits the `user:pass` argument the server is started with into the username
/// and the password. The argument must hold a colon: without one there is no
/// second field. Any further colon and what follows it is ignored.
pub fn split_credentials(arg: &str) -> (r: (String, String))
    requires
        arg@.contains(':'),
    ensures
        splits_credentials(arg@, r.0@, r.1@),
{
    let cs = chars_of(arg);
    let k = next_colon(&cs, 0);
    if k == cs.len() {
        proof {
            let j = choose|j: int| 0 <= j < arg@.len() && arg@[j] == ':';
            assert(cs@[j] == ':');
        }
    }
    let e = next_colon(&cs, k + 1);
    let user = string_of(&cs, 0, k);
    let pass = string_of(&cs, k + 1, e);
    proof {
        assert(!user@.contains(':')) by {
            if user@.contains(':') {
                let j = choose|j: int| 0 <= j < user@.len() && user@[j] == ':';
                assert(cs@[j] == ':');
            }
        }
        assert(!pass@.contains(':')) by {
            if pass@.contains(':') {
                let j = choose|j: int| 0 <= j < pass@.len() && pass@[j] == ':';
                assert(cs@[k + 1 + j] == ':');
            }
        }
        assert(cs@.take(k as int) =~= user@);
    }
    (user, pass)
}

/// Credentials holding a character that is not alphabetic (a digit, say) are
/// never accepted, whatever the client sends: the check keeps only alphabetic
/// characters of the message.
pub proof fn law_non_alphabetic_credentials_never_match(
    data: Seq<u8>,
    username: Seq<char>,
    password: Seq<char>,
    i: int,
)
    requires
        0 <= i < (username + password).len(),
        !char_alphabetic((username + password)[i]),
    ensures
        !credentials_accepted(data, username, password),
{
    if credentials_accepted(data, username, password) {
        lossy_chars(data).lemma_filter_pred(alphabetic(), i);
    }
}

/// Splitting `user:pass` gives back the username and the password, when neither
/// holds a colon.
pub proof fn law_split_credentials_roundtrip(
    username: Seq<char>,
    password: Seq<char>,
    u: Seq<char>,
    p: Seq<char>,
)
    requires
        !username.contains(':'),
        !password.contains(':'),
        splits_credentials(username + seq![':'] + password, u, p),
    ensures
        u == username,
        p == password,
{
    let s = username + seq![':'] + password;
    let n = username.len() as int;
    let k = u.len() as int;
    if k < n {
        assert(s[k] == username[k]);
        assert(username.contains(':'));
    }
    if k > n {
        assert(u[n] == s[n]);
        assert(u.contains(':'));
    }
    assert(u =~= username);
    let m = p.len() as int;
    if n + 1 + m < s.len() {
        assert(s[n + 1 + m] == password[m]);
        assert(password.contains(':'));
    }
    assert(p =~= password);
}

/// The username/password message of RFC 1929: version 1, the username's length
/// and bytes, the password's length and bytes, then the zeros of the buffer.
pub open spec fn rfc1929_message(username: Seq<u8>, password: Seq<u8>, padding: nat) -> Seq<u8> {
    seq![1u8, username.len() as u8] + username + seq![password.len() as u8] + password + Seq::new(
        padding,
        |_i: int| 0u8,
    )
}

/// The characters of ASCII bytes.
pub open spec fn ascii_chars(b: Seq<u8>) -> Seq<char> {
    b.map_values(|x: u8| x as char)
}

proof fn lemma_filter_all_pass(s: Seq<char>)
    requires
        forall|i: int| 0 <= i < s.len() ==> char_alphabetic(#[trigger] s[i]),
    ensures
        s.filter(alphabetic()) == s,
    decreases s.len(),
{
    reveal(Seq::filter);
    if s.len() > 0 {
        lemma_filter_all_pass(s.drop_last());
        assert(alphabetic()(s.last()));
        assert(s.drop_last().push(s.last()) =~= s);
    }
}

proof fn lemma_filter_none_pass(s: Seq<char>)
    requires
        forall|i: int| 0 <= i < s.len() ==> !char_alphabetic(#[trigger] s[i]),
    ensures
        s.filter(alphabetic()) == Seq::<char>::empty(),
{
    let pred = alphabetic();
    assert(s.all(|x: char| !pred(x)));
    s.lemma_all_neg_filter_empty(pred);
    assert(s.filter(pred) =~= Seq::<char>::empty());
}

/// A well-formed RFC 1929 message with ASCII credentials is accepted for exactly
/// those credentials, provided their characters are alphabetic and the framing
/// bytes (the version, the two lengths and the zero padding) are not.
pub proof fn law_rfc1929_credentials_accepted(username: Seq<u8>, password: Seq<u8>, padding: nat)
    requires
        username.len() < 128,
        password.len() < 128,
        is_ascii_bytes(username),
        is_ascii_bytes(password),
        forall|i: int| 0 <= i < username.len() ==> char_alphabetic(#[trigger] username[i] as char),
        forall|i: int| 0 <= i < password.len() ==> char_alphabetic(#[trigger] password[i] as char),
        !char_alphabetic(1u8 as char),
        !char_alphabetic(username.len() as u8 as char),
        !char_alphabetic(password.len() as u8 as char),
        padding > 0 ==> !char_alphabetic(0u8 as char),
    ensures
        credentials_accepted(
            rfc1929_message(username, password, padding),
            ascii_chars(username),
            ascii_chars(password),
        ),
{
    let head = seq![1u8, username.len() as u8];
    let mid = seq![password.len() as u8];
    let zeros = Seq::new(padding, |_i: int| 0u8);
    let m = rfc1929_message(username, password, padding);
    assert(m == head + username + mid + password + zeros);
    assert(is_ascii_bytes(m)) by {
        assert forall|i: int| 0 <= i < m.len() implies #[trigger] m[i] <= 0x7f by {
            if i >= 2 && i < 2 + username.len() {
                assert(m[i] == username[i - 2]);
            } else if i >= 3 + username.len() && i < 3 + username.len() + password.len() {
                assert(m[i] == password[i - 3 - username.len()]);
            }
        }
    }
    lemma_lossy_ascii(m);
    let cm = ascii_chars(m);
    assert(lossy_chars(m) == cm);
    let ch = ascii_chars(head);
    let cu = ascii_chars(username);
    let cmid = ascii_chars(mid);
    let cp = ascii_chars(password);
    let cz = ascii_chars(zeros);
    assert(cm =~= ch + cu + cmid + cp + cz);
    let pred = alphabetic();
    Seq::filter_distributes_over_add(ch + cu + cmid + cp, cz, pred);
    Seq::filter_distributes_over_add(ch + cu + cmid, cp, pred);
    Seq::filter_distributes_over_add(ch + cu, cmid, pred);
    Seq::filter_distributes_over_add(ch, cu, pred);
    assert forall|i: int| 0 <= i < ch.len() implies !char_alphabetic(#[trigger] ch[i]) by {
        if i == 0 {
            assert(ch[i] == 1u8 as char);
        } else {
            assert(ch[i] == username.len() as u8 as char);
        }
    }
    lemma_filter_none_pass(ch);
    assert forall|i: int| 0 <= i < cmid.len() implies !char_alphabetic(#[trigger] cmid[i]) by {
        assert(cmid[i] == password.len() as u8 as char);
    }
    lemma_filter_none_pass(cmid);
    assert forall|i: int| 0 <= i < cz.len() implies !char_alphabetic(#[trigger] cz[i]) by {
        assert(cz[i] == 0u8 as char);
    }
    lemma_filter_none_pass(cz);
    assert forall|i: int| 0 <= i < cu.len() implies char_alphabetic(#[trigger] cu[i]) by {
        assert(cu[i] == username[i] as char);
    }
    lemma_filter_all_pass(cu);
    assert forall|i: int| 0 <= i < cp.len() implies char_alphabetic(#[trigger] cp[i]) by {
        assert(cp[i] == password[i] as char);
    }
    lemma_filter_all_pass(cp);
    assert(letters(m) =~= cu + cp);
}

} // verus!
