//! Framing of the wire protocol: text frames separated by `^`.
use vstd::prelude::*;

verus! {

/// The frame delimiter.
pub const CARET: u8 = 94;

/// What a `^` inside a body is sent as.
pub const HASH: u8 = 35;

/// Space, tab, line feed and carriage return.
pub open spec fn is_space(b: u8) -> bool {
    b == 32 || b == 9 || b == 10 || b == 13
}

pub fn is_space_byte(b: u8) -> (r: bool)
    ensures
        r == is_space(b),
{
    b == 32 || b == 9 || b == 10 || b == 13
}

/// How many spaces open `s`.
pub open spec fn lead_spaces(s: Seq<u8>) -> nat
    decreases s.len(),
{
    if s.len() > 0 && is_space(s[0]) {
        1 + lead_spaces(s.drop_first())
    } else {
        0
    }
}

/// How many spaces close `s`.
pub open spec fn trail_spaces(s: Seq<u8>) -> nat
    decreases s.len(),
{
    if s.len() > 0 && is_space(s.last()) {
        1 + trail_spaces(s.drop_last())
    } else {
        0
    }
}

/// `s` without the spaces that open it.
pub open spec fn trim_start(s: Seq<u8>) -> Seq<u8> {
    s.subrange(lead_spaces(s) as int, s.len() as int)
}

/// `s` without the spaces that open and close it.
pub open spec fn trim(s: Seq<u8>) -> Seq<u8> {
    let t = trim_start(s);
    t.subrange(0, t.len() - trail_spaces(t))
}

/// `s` without the zero bytes that pad its end.
pub open spec fn strip_padding(s: Seq<u8>) -> Seq<u8>
    decreases s.len(),
{
    if s.len() > 0 && s.last() == 0 {
        strip_padding(s.drop_last())
    } else {
        s
    }
}

/// The body with each `^` replaced by `#`.
pub open spec fn escape(body: Seq<u8>) -> Seq<u8> {
    body.map_values(|b: u8| if b == CARET { HASH } else { b })
}

/// The bytes that carry one frame on the wire.
pub open spec fn encoded(body: Seq<u8>) -> Seq<u8> {
    escape(body).push(CARET)
}

/// The frames completed so far, with the trimmed piece added when it is not empty.
pub open spec fn close_piece(done: Seq<Seq<u8>>, piece: Seq<u8>) -> Seq<Seq<u8>> {
    if trim(piece).len() > 0 {
        done.push(trim(piece))
    } else {
        done
    }
}

/// Reading `s` left to right: the frames completed and the piece still open.
pub open spec fn scan(s: Seq<u8>) -> (Seq<Seq<u8>>, Seq<u8>)
    decreases s.len(),
{
    if s.len() == 0 {
        (seq![], seq![])
    } else {
        let (done, piece) = scan(s.drop_last());
        if s.last() == CARET {
            (close_piece(done, piece), seq![])
        } else {
            (done, piece.push(s.last()))
        }
    }
}

/// The frames that a read buffer holds: padding stripped, split at each `^`,
/// each piece trimmed, empty pieces dropped.
pub open spec fn frames_of(raw: Seq<u8>) -> Seq<Seq<u8>> {
    let (done, piece) = scan(strip_padding(raw));
    close_piece(done, piece)
}

/// The views of a sequence of byte vectors.
pub open spec fn views(v: Seq<Vec<u8>>) -> Seq<Seq<u8>> {
    v.map_values(|x: Vec<u8>| x@)
}

proof fn lemma_lead_step(s: Seq<u8>, i: int)
    requires
        0 <= i < s.len(),
        is_space(s[i]),
    ensures
        lead_spaces(s.subrange(i, s.len() as int)) == 1 + lead_spaces(
            s.subrange(i + 1, s.len() as int),
        ),
{
    assert(s.subrange(i, s.len() as int).drop_first() =~= s.subrange(i + 1, s.len() as int));
}

proof fn lemma_trail_step(s: Seq<u8>, j: int)
    requires
        0 < j <= s.len(),
        is_space(s[j - 1]),
    ensures
        trail_spaces(s.subrange(0, j)) == 1 + trail_spaces(s.subrange(0, j - 1)),
{
    assert(s.subrange(0, j).drop_last() =~= s.subrange(0, j - 1));
}

/// The part of `s[lo..hi]` left when spaces are taken from both ends.
pub fn trimmed(s: &[u8], lo: usize, hi: usize) -> (r: Vec<u8>)
    requires
        lo <= hi <= s@.len(),
    ensures
        r@ == trim(s@.subrange(lo as int, hi as int)),
{
    let ghost t = s@.subrange(lo as int, hi as int);
    let mut i: usize = lo;
    while i < hi && is_space_byte(s[i])
        invariant
            lo <= i <= hi <= s@.len(),
            t == s@.subrange(lo as int, hi as int),
            lead_spaces(t) == (i - lo) + lead_spaces(s@.subrange(i as int, hi as int)),
        decreases hi - i,
    {
        proof {
            let u = s@.subrange(0, hi as int);
            assert(u.subrange(i as int, u.len() as int) =~= s@.subrange(i as int, hi as int));
            assert(u.subrange(i as int + 1, u.len() as int) =~= s@.subrange(i + 1, hi as int));
            lemma_lead_step(u, i as int);
        }
        i = i + 1;
    }
    proof {
        if i < hi {
            assert(lead_spaces(s@.subrange(i as int, hi as int)) == 0);
        } else {
            assert(lead_spaces(s@.subrange(i as int, hi as int)) == 0);
        }
        assert(trim_start(t) =~= s@.subrange(i as int, hi as int));
    }
    let ghost ts = s@.subrange(i as int, hi as int);
    let mut j: usize = hi;
    while j > i && is_space_byte(s[j - 1])
        invariant
            i <= j <= hi <= s@.len(),
            ts == s@.subrange(i as int, hi as int),
            trail_spaces(ts) == (hi - j) + trail_spaces(s@.subrange(i as int, j as int)),
        decreases j - i,
    {
        proof {
            let u = s@.subrange(i as int, hi as int);
            assert(u.subrange(0, j - i) =~= s@.subrange(i as int, j as int));
            assert(u.subrange(0, j - i - 1) =~= s@.subrange(i as int, j - 1));
            lemma_trail_step(u, j - i);
        }
        j = j - 1;
    }
    proof {
        assert(trail_spaces(s@.subrange(i as int, j as int)) == 0);
    }
    let mut r: Vec<u8> = Vec::new();
    let mut k: usize = i;
    while k < j
        invariant
            i <= k <= j <= hi <= s@.len(),
            r@ =~= s@.subrange(i as int, k as int),
        decreases j - k,
    {
        r.push(s[k]);
        k = k + 1;
    }
    proof {
        assert(ts.subrange(0, ts.len() - trail_spaces(ts)) =~= s@.subrange(i as int, j as int));
    }
    r
}


/// The frames held by one read buffer: zero padding at the end is ignored,
/// the rest is split at each `^`, each piece is trimmed of spaces and the
/// pieces left empty are dropped.
pub fn decode_frames(raw: &[u8]) -> (r: Vec<Vec<u8>>)
    ensures
        views(r@) == frames_of(raw@),
{
    let mut end: usize = raw.len();
    assert(raw@ =~= raw@.subrange(0, raw@.len() as int));
    while end > 0 && raw[end - 1] == 0
        invariant
            end <= raw@.len(),
            strip_padding(raw@.subrange(0, end as int)) == strip_padding(raw@),
        decreases end,
    {
        assert(raw@.subrange(0, end as int).drop_last() =~= raw@.subrange(0, end - 1));
        end = end - 1;
    }
    assert(raw@ =~= raw@.subrange(0, raw@.len() as int));
    let ghost body = raw@.subrange(0, end as int);
    assert(strip_padding(body) == body);
    let mut r: Vec<Vec<u8>> = Vec::new();
    let mut start: usize = 0;
    let mut i: usize = 0;
    while i < end
        invariant
            start <= i <= end <= raw@.len(),
            body == raw@.subrange(0, end as int),
            scan(body.subrange(0, i as int)) == (views(r@), raw@.subrange(start as int, i as int)),
        decreases end - i,
    {
        assert(body.subrange(0, i + 1).drop_last() =~= body.subrange(0, i as int));
        if raw[i] == CARET {
            let piece = trimmed(raw, start, i);
            if piece.len() > 0 {
                let ghost old_r = r@;
                r.push(piece);
                assert(views(r@) =~= views(old_r).push(piece@));
            }
            start = i + 1;
            assert(raw@.subrange(start as int, i + 1) =~= seq![]);
        } else {
            assert(raw@.subrange(start as int, i + 1) =~= raw@.subrange(start as int, i as int).push(raw@[i as int]));
        }
        i = i + 1;
    }
    assert(body.subrange(0, end as int) =~= body);
    let piece = trimmed(raw, start, end);
    if piece.len() > 0 {
        let ghost old_r = r@;
        r.push(piece);
        assert(views(r@) =~= views(old_r).push(piece@));
    }
    r
}

/// The wire form of one frame: each `^` of the body becomes `#`, and a `^`
/// closes the frame.
pub fn encode_frame(body: &[u8]) -> (r: Vec<u8>)
    ensures
        r@ == encoded(body@),
{
    let mut r: Vec<u8> = Vec::new();
    let mut i: usize = 0;
    while i < body.len()
        invariant
            i <= body@.len(),
            r@ =~= escape(body@.subrange(0, i as int)),
        decreases body@.len() - i,
    {
        let b = body[i];
        if b == CARET {
            r.push(HASH);
        } else {
            r.push(b);
        }
        i = i + 1;
    }
    assert(body@.subrange(0, i as int) =~= body@);
    r.push(CARET);
    r
}

proof fn lemma_scan_open(s: Seq<u8>)
    requires
        !s.contains(CARET),
    ensures
        scan(s) == (Seq::<Seq<u8>>::empty(), s),
    decreases s.len(),
{
    if s.len() > 0 {
        assert(!s.drop_last().contains(CARET)) by {
            if s.drop_last().contains(CARET) {
                let k = choose|k: int| 0 <= k < s.drop_last().len() && s.drop_last()[k] == CARET;
                assert(s[k] == CARET);
            }
        }
        lemma_scan_open(s.drop_last());
        assert(s.last() != CARET) by {
            assert(s[s.len() - 1] == s.last());
        }
        assert(s.drop_last().push(s.last()) =~= s);
    }
}

proof fn lemma_escape_no_caret(body: Seq<u8>)
    ensures
        !escape(body).contains(CARET),
{
    if escape(body).contains(CARET) {
        let k = choose|k: int| 0 <= k < escape(body).len() && escape(body)[k] == CARET;
        assert(escape(body)[k] == if body[k] == CARET { HASH } else { body[k] });
    }
}

/// Decoding an encoded frame never splits it: the whole escaped body comes
/// back as at most one frame, its trimmed form.
pub proof fn lemma_escaped_frame_is_one(body: Seq<u8>)
    ensures
        frames_of(encoded(body)) == close_piece(seq![], escape(body)),
        frames_of(encoded(body)).len() <= 1,
{
    let e = encoded(body);
    assert(e.last() == CARET);
    assert(strip_padding(e) == e);
    lemma_escape_no_caret(body);
    assert(e.drop_last() =~= escape(body));
    lemma_scan_open(escape(body));
    assert(trim(Seq::<u8>::empty()) =~= Seq::<u8>::empty());
}

/// A body with no `^`, no spaces at its ends and at least one byte comes back
/// unchanged, as the single frame of its encoding.
pub proof fn lemma_round_trip(body: Seq<u8>)
    requires
        !body.contains(CARET),
        body.len() > 0,
        trim(body) == body,
    ensures
        frames_of(encoded(body)) == seq![body],
{
    lemma_escaped_frame_is_one(body);
    assert(escape(body) =~= body) by {
        assert forall|k: int| 0 <= k < body.len() implies escape(body)[k] == body[k] by {
            if body[k] == CARET {
                assert(body.contains(CARET));
            }
        }
    }
}

} // verus!
