//! The arithmetic of the terminal client's screen and what it sends first.
use vstd::prelude::*;

verus! {

/// The input box takes no more text once it holds this many bytes.
pub const INPUT_LIMIT: usize = 100;

/// Whether the input box, holding `len` bytes, takes another key.
pub fn accepts_key(len: usize) -> (r: bool)
    ensures
        r == (len < INPUT_LIMIT),
{
    len < INPUT_LIMIT
}

/// The index of the first message shown when `height` rows hold the last
/// `n` messages: the newest ones are kept.
pub fn first_visible(n: usize, height: usize) -> (r: usize)
    ensures
        r == (if n > height { n - height } else { 0 }),
        n - r <= height,
{
    if n > height {
        n - height
    } else {
        0
    }
}

/// How many columns the input text may use in a box `width` columns wide:
/// two go to the border and one to the cursor.
pub fn input_columns(width: u16) -> (r: u16)
    ensures
        r == (if width > 3 { width - 3 } else { 0 }),
{
    if width > 3 {
        width - 3
    } else {
        0
    }
}

/// How far the input text scrolls left so that the cursor stays in view.
pub fn input_scroll(cursor: u16, columns: u16) -> (r: u16)
    ensures
        r == (if cursor > columns { cursor - columns } else { 0 }),
        cursor - r <= columns,
{
    if cursor > columns {
        cursor - columns
    } else {
        0
    }
}

/// `/name ` followed by the nickname.
pub open spec fn name_request_of(nick: Seq<u8>) -> Seq<u8> {
    seq![47u8, 110u8, 97u8, 109u8, 101u8, 32u8] + nick
}

/// The request that a client sends right after connecting to take `nick`
/// as its name.
pub fn name_request(nick: &[u8]) -> (r: Vec<u8>)
    ensures
        r@ == name_request_of(nick@),
{
    let mut r: Vec<u8> = vec![47u8, 110u8, 97u8, 109u8, 101u8, 32u8];
    let ghost head = r@;
    let mut i: usize = 0;
    while i < nick.len()
        invariant
            i <= nick@.len(),
            head == seq![47u8, 110u8, 97u8, 109u8, 101u8, 32u8],
            r@ =~= head + nick@.subrange(0, i as int),
        decreases nick@.len() - i,
    {
        r.push(nick[i]);
        i = i + 1;
    }
    assert(nick@.subrange(0, i as int) =~= nick@);
    r
}

} // verus!
