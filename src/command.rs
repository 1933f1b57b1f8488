//! In-band commands: a frame that opens with `/` names a command.
use vstd::prelude::*;
use crate::codec::{is_space, is_space_byte, trim, trimmed};

verus! {

/// What opens a command frame.
pub const SLASH: u8 = 47;

/// What a frame asks for, as a value of the model.
pub ghost enum RequestModel {
    Help,
    Name(Seq<u8>),
    WhoAmI,
    Unknown,
    Chat(Seq<u8>),
}

/// What a frame asks for.
pub enum Request {
    /// List the commands.
    Help,
    /// Take the given display name (empty when none was given).
    Name(Vec<u8>),
    /// Tell the caller its display name.
    WhoAmI,
    /// A command that is not known, or `/` alone.
    Unknown,
    /// Text to relay to everyone.
    Chat(Vec<u8>),
}

impl View for Request {
    type V = RequestModel;

    open spec fn view(&self) -> RequestModel {
        match self {
            Request::Help => RequestModel::Help,
            Request::Name(n) => RequestModel::Name(n@),
            Request::WhoAmI => RequestModel::WhoAmI,
            Request::Unknown => RequestModel::Unknown,
            Request::Chat(t) => RequestModel::Chat(t@),
        }
    }
}

/// `help`
pub open spec fn help_word() -> Seq<u8> {
    seq![104u8, 101u8, 108u8, 112u8]
}

/// `name`
pub open spec fn name_word() -> Seq<u8> {
    seq![110u8, 97u8, 109u8, 101u8]
}

/// `whoami`
pub open spec fn whoami_word() -> Seq<u8> {
    seq![119u8, 104u8, 111u8, 97u8, 109u8, 105u8]
}

/// How many bytes open `s` before its first space.
pub open spec fn word_len(s: Seq<u8>) -> nat
    decreases s.len(),
{
    if s.len() == 0 || is_space(s[0]) {
        0
    } else {
        1 + word_len(s.drop_first())
    }
}

/// The request that a frame makes: after a `/`, the command name runs up to
/// the first space and the argument is the rest, trimmed; a frame without
/// the `/` is chat text.
pub open spec fn parsed(f: Seq<u8>) -> RequestModel {
    if f.len() > 0 && f[0] == SLASH {
        let rest = f.drop_first();
        let w = rest.take(word_len(rest) as int);
        if w == help_word() {
            RequestModel::Help
        } else if w == name_word() {
            RequestModel::Name(trim(rest.skip(word_len(rest) as int)))
        } else if w == whoami_word() {
            RequestModel::WhoAmI
        } else {
            RequestModel::Unknown
        }
    } else {
        RequestModel::Chat(f)
    }
}

proof fn lemma_word_step(s: Seq<u8>, i: int)
    requires
        0 <= i < s.len(),
        !is_space(s[i]),
    ensures
        word_len(s.subrange(i, s.len() as int)) == 1 + word_len(s.subrange(i + 1, s.len() as int)),
{
    assert(s.subrange(i, s.len() as int).drop_first() =~= s.subrange(i + 1, s.len() as int));
}

/// Whether `s[lo..hi]` holds exactly the bytes of `lit`.
fn span_is(s: &[u8], lo: usize, hi: usize, lit: &[u8]) -> (r: bool)
    requires
        lo <= hi <= s@.len(),
    ensures
        r == (s@.subrange(lo as int, hi as int) == lit@),
{
    if hi - lo != lit.len() {
        return false;
    }
    let mut i: usize = 0;
    while i < lit.len()
        invariant
            hi - lo == lit@.len(),
            lo <= hi <= s@.len(),
            i <= lit@.len(),
            forall|j: int| 0 <= j < i ==> s@[lo + j] == lit@[j],
        decreases lit@.len() - i,
    {
        if s[lo + i] != lit[i] {
            assert(s@.subrange(lo as int, hi as int)[i as int] != lit@[i as int]);
            return false;
        }
        i = i + 1;
    }
    assert(s@.subrange(lo as int, hi as int) =~= lit@);
    true
}

/// Reads the request that a decoded frame makes.
pub fn parse_request(f: &[u8]) -> (r: Request)
    ensures
        r@ == parsed(f@),
{
    if f.len() == 0 || f[0] != SLASH {
        let mut t: Vec<u8> = Vec::new();
        let mut i: usize = 0;
        while i < f.len()
            invariant
                i <= f@.len(),
                t@ =~= f@.subrange(0, i as int),
            decreases f@.len() - i,
        {
            t.push(f[i]);
            i = i + 1;
        }
        assert(f@.subrange(0, i as int) =~= f@);
        return Request::Chat(t);
    }
    let ghost rest = f@.drop_first();
    let mut k: usize = 1;
    while k < f.len() && !is_space_byte(f[k])
        invariant
            1 <= k <= f@.len(),
            rest == f@.drop_first(),
            word_len(rest) == (k - 1) + word_len(f@.subrange(k as int, f@.len() as int)),
        decreases f@.len() - k,
    {
        proof {
            lemma_word_step(f@, k as int);
        }
        k = k + 1;
    }
    proof {
        assert(rest =~= f@.subrange(1, f@.len() as int));
        assert(word_len(f@.subrange(k as int, f@.len() as int)) == 0);
        assert(rest.take(word_len(rest) as int) =~= f@.subrange(1, k as int));
        assert(rest.skip(word_len(rest) as int) =~= f@.subrange(k as int, f@.len() as int));
    }
    if span_is(f, 1, k, &[104u8, 101u8, 108u8, 112u8]) {
        Request::Help
    } else if span_is(f, 1, k, &[110u8, 97u8, 109u8, 101u8]) {
        Request::Name(trimmed(f, k, f.len()))
    } else if span_is(f, 1, k, &[119u8, 104u8, 111u8, 97u8, 109u8, 105u8]) {
        Request::WhoAmI
    } else {
        Request::Unknown
    }
}

} // verus!
