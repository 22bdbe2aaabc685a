//! The short text messages of the controller–node protocol. Each side decodes
//! what it reads lossily and compares the text with the expected message.
use vstd::prelude::*;
use crate::lossy::{is_ascii_bytes, lemma_lossy_eq_ascii, lossy_chars};

verus! {

/// `node_greeting`, which a node sends when it connects to the controller.
pub open spec fn node_greeting() -> Seq<u8> {
    seq![110u8, 111, 100, 101, 95, 103, 114, 101, 101, 116, 105, 110, 103]
}

/// `node_tmp_connect`, which the controller sends on a node's main connection to
/// ask for a new connection for one client.
pub open spec fn tmp_connect_message() -> Seq<u8> {
    seq![110u8, 111, 100, 101, 95, 116, 109, 112, 95, 99, 111, 110, 110, 101, 99, 116]
}

/// `ok`, the node's acknowledgement.
pub open spec fn ack() -> Seq<u8> {
    seq![111u8, 107]
}

/// Whether the lossily decoded bytes are the text of the ASCII message `t`.
pub open spec fn text_is(b: Seq<u8>, t: Seq<u8>) -> bool {
    lossy_chars(b) == t.map_values(|x: u8| x as char)
}

pub fn node_greeting_bytes() -> (r: Vec<u8>)
    ensures
        r@ == node_greeting(),
{
    let r = vec![110u8, 111, 100, 101, 95, 103, 114, 101, 101, 116, 105, 110, 103];
    proof {
        assert(r@ =~= node_greeting());
    }
    r
}

pub fn tmp_connect_bytes() -> (r: Vec<u8>)
    ensures
        r@ == tmp_connect_message(),
{
    let r = vec![110u8, 111, 100, 101, 95, 116, 109, 112, 95, 99, 111, 110, 110, 101, 99, 116];
    proof {
        assert(r@ =~= tmp_connect_message());
    }
    r
}

pub fn ack_bytes() -> (r: Vec<u8>)
    ensures
        r@ == ack(),
{
    let r = vec![111u8, 107];
    proof {
        assert(r@ =~= ack());
    }
    r
}

fn same_bytes(b: &[u8], t: &Vec<u8>) -> (r: bool)
    ensures
        r == (b@ == t@),
{
    if b.len() != t.len() {
        return false;
    }
    let mut i: usize = 0;
    while i < b.len()
        invariant
            b@.len() == t@.len(),
            i <= b@.len(),
            b@.take(i as int) == t@.take(i as int),
        decreases b@.len() - i,
    {
        if b[i] != t[i] {
            assert(b@ != t@) by {
                assert(b@[i as int] != t@[i as int]);
            }
            return false;
        }
        i = i + 1;
        proof {
            assert(b@.take(i as int) =~= t@.take(i as int));
        }
    }
    proof {
        assert(b@ =~= b@.take(i as int));
        assert(t@ =~= t@.take(i as int));
    }
    true
}

fn text_is_exec(b: &[u8], t: &Vec<u8>) -> (r: bool)
    requires
        is_ascii_bytes(t@),
    ensures
        r == text_is(b@, t@),
{
    proof {
        lemma_lossy_eq_ascii(b@, t@);
    }
    same_bytes(b, t)
}

/// Whether a reply read from the node is its acknowledgement.
pub fn is_ack(b: &[u8]) -> (r: bool)
    ensures
        r == text_is(b@, ack()),
{
    let t = ack_bytes();
    text_is_exec(b, &t)
}

/// Whether a message read on the node's main connection asks for a new connection.
pub fn is_tmp_connect_request(b: &[u8]) -> (r: bool)
    ensures
        r == text_is(b@, tmp_connect_message()),
{
    let t = tmp_connect_bytes();
    text_is_exec(b, &t)
}

/// What the controller makes of the first bytes a would-be node sends: nothing
/// when it sent none, otherwise whether they are the node greeting.
pub fn classify_node_greeting(b: &[u8]) -> (r: Option<bool>)
    ensures
        b@.len() == 0 ==> r is None,
        b@.len() > 0 ==> r == Some(text_is(b@, node_greeting())),
{
    if b.len() == 0 {
        None
    } else {
        let t = node_greeting_bytes();
        Some(text_is_exec(b, &t))
    }
}

} // verus!
