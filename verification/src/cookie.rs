//! Cookie and header codec for the session id.
//!
//! Reading: the `Cookie` request header is scanned as semicolon-delimited
//! segments; the first segment whose trimmed form starts with the session
//! cookie name yields the candidate value, which must be the thirty-two
//! lowercase hex digits of a session id. Anything else — no header, no such
//! segment, a malformed value — parses to nothing, which upstream treats
//! exactly like an absent session. Writing is the inverse: one `Set-Cookie`
//! line with the fixed hardened attributes.

use vstd::prelude::*;
use crate::hexcode::{
    decode_u64, encode_u64, hex64, hex_to_int, is_hex_digit, lemma_hex64_digits,
    lemma_hex_round_trip,
};
use crate::store::SessionId;

verus! {

/// A byte the codec trims around a cookie segment: space or tab.
pub open spec fn is_cookie_space(b: u8) -> bool {
    b == 32 || b == 9
}

/// The segment with its leading spaces removed.
pub open spec fn trim_front(s: Seq<u8>) -> Seq<u8>
    decreases s.len(),
{
    if s.len() > 0 && is_cookie_space(s[0]) {
        trim_front(s.drop_first())
    } else {
        s
    }
}

/// The segment with its trailing spaces removed.
pub open spec fn trim_back(s: Seq<u8>) -> Seq<u8>
    decreases s.len(),
{
    if s.len() > 0 && is_cookie_space(s.last()) {
        trim_back(s.drop_last())
    } else {
        s
    }
}

/// The segment with spaces removed on both sides.
pub open spec fn trimmed(s: Seq<u8>) -> Seq<u8> {
    trim_back(trim_front(s))
}

/// The bytes of `sid=`: the session cookie name and its equals sign.
pub open spec fn name_prefix() -> Seq<u8> {
    seq![115u8, 105u8, 100u8, 61u8]
}

/// What one cookie segment contributes: the value after `sid=` when the
/// trimmed segment starts with it, nothing otherwise.
pub open spec fn seg_value(seg: Seq<u8>) -> Option<Seq<u8>> {
    let t = trimmed(seg);
    if t.len() >= 4 && t.take(4) == name_prefix() {
        Some(t.skip(4))
    } else {
        None
    }
}

/// Scan of the remaining header bytes `s` with the currently open segment
/// `cur`: a semicolon closes the segment, and the first segment that
/// carries the session cookie name wins.
pub open spec fn scan(s: Seq<u8>, cur: Seq<u8>) -> Option<Seq<u8>>
    decreases s.len(),
{
    if s.len() == 0 {
        seg_value(cur)
    } else if s[0] == 59 {
        if seg_value(cur) is Some {
            seg_value(cur)
        } else {
            scan(s.drop_first(), Seq::empty())
        }
    } else {
        scan(s.drop_first(), cur.push(s[0]))
    }
}

/// The raw value of the session cookie within a `Cookie` header.
pub open spec fn cookie_value(s: Seq<u8>) -> Option<Seq<u8>> {
    scan(s, Seq::empty())
}

/// The thirty-two hex digits of a session id, serial first.
pub open spec fn sid_bytes(id: SessionId) -> Seq<u8> {
    hex64(id.serial) + hex64(id.nonce)
}

/// The session id a raw cookie value denotes, if it is well-formed.
pub open spec fn sid_of_bytes(v: Seq<u8>) -> Option<SessionId> {
    if v.len() == 32 && (forall|j: int| 0 <= j < 32 ==> is_hex_digit(#[trigger] v[j])) {
        Some(
            SessionId {
                serial: hex_to_int(v.take(16)) as u64,
                nonce: hex_to_int(v.skip(16)) as u64,
            },
        )
    } else {
        None
    }
}

/// The session id carried by a whole `Cookie` header, if any.
pub open spec fn parse_cookie(s: Seq<u8>) -> Option<SessionId> {
    match cookie_value(s) {
        Some(v) => sid_of_bytes(v),
        None => None,
    }
}

/// The fixed hardened cookie attributes, as written on every response.
pub open spec fn cookie_attrs() -> Seq<u8> {
    seq![
        59u8, 32u8, 80u8, 97u8, 116u8, 104u8, 61u8, 47u8, 59u8, 32u8, 72u8, 116u8, 116u8, 112u8,
        79u8, 110u8, 108u8, 121u8, 59u8, 32u8, 83u8, 97u8, 109u8, 101u8, 83u8, 105u8, 116u8,
        101u8, 61u8, 83u8, 116u8, 114u8, 105u8, 99u8, 116u8, 59u8, 32u8, 77u8, 97u8, 120u8, 45u8,
        65u8, 103u8, 101u8, 61u8, 51u8, 54u8, 48u8, 48u8,
    ]
}

/// The full `Set-Cookie` line for a session:
/// `sid=<hex>; Path=/; HttpOnly; SameSite=Strict; Max-Age=3600`.
pub open spec fn set_cookie_of(id: SessionId) -> Seq<u8> {
    name_prefix() + sid_bytes(id) + cookie_attrs()
}

/// Encodes a session id as its thirty-two hex digits.
pub fn encode_session_id(id: SessionId) -> (r: Vec<u8>)
    ensures
        r@ == sid_bytes(id),
{
    let mut out: Vec<u8> = Vec::new();
    encode_u64(id.serial, &mut out);
    encode_u64(id.nonce, &mut out);
    proof {
        assert(out@ =~= sid_bytes(id));
    }
    out
}

/// Builds the `Set-Cookie` line for `id`.
pub fn set_cookie_line(id: SessionId) -> (r: Vec<u8>)
    ensures
        r@ == set_cookie_of(id),
{
    let mut out: Vec<u8> = Vec::new();
    out.push(115u8);
    out.push(105u8);
    out.push(100u8);
    out.push(61u8);
    encode_u64(id.serial, &mut out);
    encode_u64(id.nonce, &mut out);
    out.push(59u8);
    out.push(32u8);
    out.push(80u8);
    out.push(97u8);
    out.push(116u8);
    out.push(104u8);
    out.push(61u8);
    out.push(47u8);
    out.push(59u8);
    out.push(32u8);
    out.push(72u8);
    out.push(116u8);
    out.push(116u8);
    out.push(112u8);
    out.push(79u8);
    out.push(110u8);
    out.push(108u8);
    out.push(121u8);
    out.push(59u8);
    out.push(32u8);
    out.push(83u8);
    out.push(97u8);
    out.push(109u8);
    out.push(101u8);
    out.push(83u8);
    out.push(105u8);
    out.push(116u8);
    out.push(101u8);
    out.push(61u8);
    out.push(83u8);
    out.push(116u8);
    out.push(114u8);
    out.push(105u8);
    out.push(99u8);
    out.push(116u8);
    out.push(59u8);
    out.push(32u8);
    out.push(77u8);
    out.push(97u8);
    out.push(120u8);
    out.push(45u8);
    out.push(65u8);
    out.push(103u8);
    out.push(101u8);
    out.push(61u8);
    out.push(51u8);
    out.push(54u8);
    out.push(48u8);
    out.push(48u8);
    proof {
        assert(out@ =~= set_cookie_of(id));
    }
    out
}

/// Front spaces between `a0` and `a` make the recursive front trim land on
/// index `a`.
proof fn lemma_trim_front_range(s: Seq<u8>, a0: int, a: int, b0: int)
    requires
        0 <= a0 <= a <= b0 <= s.len(),
        forall|j: int| a0 <= j < a ==> is_cookie_space(#[trigger] s[j]),
        a < b0 ==> !is_cookie_space(s[a]),
    ensures
        trim_front(s.subrange(a0, b0)) == s.subrange(a, b0),
    decreases a - a0,
{
    let seg = s.subrange(a0, b0);
    if a0 == a {
        if a < b0 {
            assert(seg[0] == s[a]);
        }
    } else {
        assert(seg[0] == s[a0]);
        assert(is_cookie_space(seg[0]));
        assert(seg.drop_first() =~= s.subrange(a0 + 1, b0));
        lemma_trim_front_range(s, a0 + 1, a, b0);
    }
}

/// Back spaces between `b` and `b0` make the recursive back trim land on
/// index `b`.
proof fn lemma_trim_back_range(s: Seq<u8>, a: int, b: int, b0: int)
    requires
        0 <= a <= b <= b0 <= s.len(),
        forall|j: int| b <= j < b0 ==> is_cookie_space(#[trigger] s[j]),
        a < b ==> !is_cookie_space(s[b - 1]),
    ensures
        trim_back(s.subrange(a, b0)) == s.subrange(a, b),
    decreases b0 - b,
{
    let seg = s.subrange(a, b0);
    if b == b0 {
        if a < b {
            assert(seg.last() == s[b - 1]);
        }
    } else {
        assert(seg.last() == s[b0 - 1]);
        assert(is_cookie_space(seg.last()));
        assert(seg.drop_last() =~= s.subrange(a, b0 - 1));
        lemma_trim_back_range(s, a, b, b0 - 1);
    }
}

/// Decides what the segment `[lo, hi)` of the header contributes, handing
/// back the index range of the cookie value when the segment matches.
fn seg_match(h: &[u8], lo: usize, hi: usize) -> (r: Option<(usize, usize)>)
    requires
        lo <= hi <= h@.len(),
    ensures
        match r {
            Some(v) => lo <= v.0 <= v.1 <= hi && seg_value(h@.subrange(lo as int, hi as int))
                == Some(h@.subrange(v.0 as int, v.1 as int)),
            None => seg_value(h@.subrange(lo as int, hi as int)) is None,
        },
{
    let mut a: usize = lo;
    while a < hi && (h[a] == 32 || h[a] == 9)
        invariant
            lo <= a <= hi <= h@.len(),
            forall|j: int| lo <= j < a ==> is_cookie_space(#[trigger] h@[j]),
        decreases hi - a,
    {
        a += 1;
    }
    let mut b: usize = hi;
    while b > a && (h[b - 1] == 32 || h[b - 1] == 9)
        invariant
            a <= b <= hi <= h@.len(),
            forall|j: int| b <= j < hi ==> is_cookie_space(#[trigger] h@[j]),
        decreases b - a,
    {
        b -= 1;
    }
    proof {
        lemma_trim_front_range(h@, lo as int, a as int, hi as int);
        lemma_trim_back_range(h@, a as int, b as int, hi as int);
        assert(trimmed(h@.subrange(lo as int, hi as int)) == h@.subrange(a as int, b as int));
    }
    let ghost t = trimmed(h@.subrange(lo as int, hi as int));
    if b - a >= 4 && h[a] == 115 && h[a + 1] == 105 && h[a + 2] == 100 && h[a + 3] == 61 {
        proof {
            assert(t.take(4) =~= name_prefix());
            assert(t.skip(4) =~= h@.subrange(a as int + 4, b as int));
        }
        Some((a + 4, b))
    } else {
        proof {
            if t.len() >= 4 {
                if t.take(4) == name_prefix() {
                    assert(t.take(4)[0] == h@[a as int]);
                    assert(t.take(4)[1] == h@[a as int + 1]);
                    assert(t.take(4)[2] == h@[a as int + 2]);
                    assert(t.take(4)[3] == h@[a as int + 3]);
                    assert(name_prefix()[0] == 115u8);
                    assert(name_prefix()[1] == 105u8);
                    assert(name_prefix()[2] == 100u8);
                    assert(name_prefix()[3] == 61u8);
                    assert(false);
                }
            }
        }
        None
    }
}

/// Reads the session id out of a raw cookie value, if it is exactly the
/// thirty-two hex digits the codec writes.
fn sid_from_range(h: &[u8], va: usize, vb: usize) -> (r: Option<SessionId>)
    requires
        va <= vb <= h@.len(),
    ensures
        r == sid_of_bytes(h@.subrange(va as int, vb as int)),
{
    let ghost v = h@.subrange(va as int, vb as int);
    if vb - va != 32 {
        return None;
    }
    let serial = match decode_u64(h, va) {
        Some(x) => x,
        None => {
            proof {
                let j = choose|j: int| va <= j < va + 16 && !is_hex_digit(h@[j]);
                assert(v[j - va] == h@[j]);
            }
            return None;
        },
    };
    let nonce = match decode_u64(h, va + 16) {
        Some(x) => x,
        None => {
            proof {
                let j = choose|j: int| va + 16 <= j < va + 32 && !is_hex_digit(h@[j]);
                assert(v[j - va] == h@[j]);
            }
            return None;
        },
    };
    proof {
        assert forall|j: int| 0 <= j < 32 implies is_hex_digit(#[trigger] v[j]) by {
            assert(v[j] == h@[va + j]);
        }
        assert(v.take(16) =~= h@.subrange(va as int, va as int + 16));
        assert(v.skip(16) =~= h@.subrange(va as int + 16, va as int + 32));
        assert(serial as int == hex_to_int(v.take(16)));
        assert(nonce as int == hex_to_int(v.skip(16)));
    }
    Some(SessionId { serial, nonce })
}

/// Parses the session id out of a whole `Cookie` header.
pub fn parse_session_cookie(h: &[u8]) -> (r: Option<SessionId>)
    ensures
        r == parse_cookie(h@),
{
    let n = h.len();
    let mut i: usize = 0;
    let mut segstart: usize = 0;
    proof {
        assert(h@.skip(0) =~= h@);
        assert(h@.subrange(0, 0) =~= Seq::<u8>::empty());
    }
    while i < n
        invariant
            0 <= segstart <= i <= n,
            n == h@.len(),
            cookie_value(h@) == scan(
                h@.skip(i as int),
                h@.subrange(segstart as int, i as int),
            ),
        decreases n - i,
    {
        let ghost cur = h@.subrange(segstart as int, i as int);
        proof {
            assert(h@.skip(i as int)[0] == h@[i as int]);
            assert(h@.skip(i as int).drop_first() =~= h@.skip(i as int + 1));
        }
        if h[i] == 59 {
            match seg_match(h, segstart, i) {
                Some(v) => {
                    proof {
                        assert(scan(h@.skip(i as int), cur) == seg_value(cur));
                    }
                    return sid_from_range(h, v.0, v.1);
                },
                None => {
                    proof {
                        assert(scan(h@.skip(i as int), cur) == scan(
                            h@.skip(i as int + 1),
                            Seq::empty(),
                        ));
                        assert(h@.subrange(i as int + 1, i as int + 1)
                            =~= Seq::<u8>::empty());
                    }
                    segstart = i + 1;
                },
            }
        } else {
            proof {
                assert(cur.push(h@[i as int]) =~= h@.subrange(segstart as int, i as int + 1));
                assert(scan(h@.skip(i as int), cur) == scan(
                    h@.skip(i as int + 1),
                    h@.subrange(segstart as int, i as int + 1),
                ));
            }
        }
        i += 1;
    }
    proof {
        assert(h@.skip(n as int) =~= Seq::<u8>::empty());
        assert(cookie_value(h@) == seg_value(h@.subrange(segstart as int, n as int)));
    }
    match seg_match(h, segstart, n) {
        Some(v) => sid_from_range(h, v.0, v.1),
        None => None,
    }
}

/// The digits the codec writes denote the id they came from.
pub proof fn lemma_sid_round_trip(id: SessionId)
    ensures
        sid_of_bytes(sid_bytes(id)) == Some(id),
{
    let v = sid_bytes(id);
    lemma_hex64_digits(id.serial);
    lemma_hex64_digits(id.nonce);
    assert forall|j: int| 0 <= j < 32 implies is_hex_digit(#[trigger] v[j]) by {
        if j < 16 {
            assert(v[j] == hex64(id.serial)[j]);
        } else {
            assert(v[j] == hex64(id.nonce)[j - 16]);
        }
    }
    assert(v.take(16) =~= hex64(id.serial));
    assert(v.skip(16) =~= hex64(id.nonce));
    lemma_hex_round_trip(id.serial);
    lemma_hex_round_trip(id.nonce);
}

/// A scan of semicolon-free bytes just closes the one open segment.
proof fn lemma_scan_no_semi(s: Seq<u8>, cur: Seq<u8>)
    requires
        forall|j: int| 0 <= j < s.len() ==> (#[trigger] s[j]) != 59,
    ensures
        scan(s, cur) == seg_value(cur + s),
    decreases s.len(),
{
    if s.len() == 0 {
        assert(cur + s =~= cur);
    } else {
        lemma_scan_no_semi(s.drop_first(), cur.push(s[0]));
        assert(cur.push(s[0]) + s.drop_first() =~= cur + s);
    }
}

/// A header holding exactly the pair the codec writes parses back to its
/// session id: writing and reading the cookie round-trip.
pub proof fn lemma_cookie_round_trip(id: SessionId)
    ensures
        parse_cookie(name_prefix() + sid_bytes(id)) == Some(id),
{
    let s = name_prefix() + sid_bytes(id);
    lemma_hex64_digits(id.serial);
    lemma_hex64_digits(id.nonce);
    assert forall|j: int| 0 <= j < s.len() implies (#[trigger] s[j]) != 59 by {
        lemma_pair_bytes(id, j);
    }
    lemma_scan_no_semi(s, Seq::empty());
    assert(Seq::empty() + s =~= s);
    assert(s[0] == 115u8);
    assert(!is_cookie_space(s[0]));
    assert(trim_front(s) == s);
    assert(s.len() == 36);
    assert(s.last() == hex64(id.nonce)[15]);
    assert(is_hex_digit(s.last()));
    assert(!is_cookie_space(s.last()));
    assert(trim_back(s) == s);
    assert(s.take(4) =~= name_prefix());
    assert(s.skip(4) =~= sid_bytes(id));
    lemma_sid_round_trip(id);
}

/// No byte of the written cookie pair is a semicolon.
proof fn lemma_pair_bytes(id: SessionId, j: int)
    requires
        0 <= j < (name_prefix() + sid_bytes(id)).len(),
    ensures
        (name_prefix() + sid_bytes(id))[j] != 59,
{
    let s = name_prefix() + sid_bytes(id);
    lemma_hex64_digits(id.serial);
    lemma_hex64_digits(id.nonce);
    if j < 4 {
        assert(s[j] == name_prefix()[j]);
    } else if j < 20 {
        assert(s[j] == hex64(id.serial)[j - 4]);
        assert(is_hex_digit(s[j]));
    } else {
        assert(s[j] == hex64(id.nonce)[j - 20]);
        assert(is_hex_digit(s[j]));
    }
}

} // verus!
