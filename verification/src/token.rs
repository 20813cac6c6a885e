//! CSRF token service.
//!
//! A token is derived deterministically from the process secret and the
//! session id, and carries the id itself in its trailing digits. Validation
//! recomputes the expected token for the claimed session and compares the
//! two byte strings in constant time, so it needs no server-side state
//! beyond the secret. Because the token embeds the session id through an
//! injective hex expansion, a token minted for one session can never
//! validate against another: cross-session replay is impossible by
//! construction, not merely by collision odds.

use vstd::prelude::*;
use crate::hexcode::{encode_u64, hex64, lemma_hex64_injective};
use crate::store::{random_word, SessionId};

verus! {

/// Keyed mixing of the session id with the process secret. Deterministic,
/// and not invertible without the secret words.
pub open spec fn tag_of(hi: u64, lo: u64, id: SessionId) -> u64 {
    let a = (id.serial ^ hi).wrapping_mul(0x9e37_79b9_7f4a_7c15);
    let b = (id.nonce ^ lo).wrapping_mul(0xc2b2_ae3d_27d4_eb4f);
    (a ^ b ^ (a >> 29)).wrapping_mul(0xff51_afd7_ed55_8ccd) ^ lo
}

/// Stateless token service: holds only the process-wide secret.
pub struct CsrfService {
    secret_hi: u64,
    secret_lo: u64,
}

impl CsrfService {
    /// High word of the secret.
    pub closed spec fn hi(self) -> u64 {
        self.secret_hi
    }

    /// Low word of the secret.
    pub closed spec fn lo(self) -> u64 {
        self.secret_lo
    }

    /// The one token this service accepts for `id`: the keyed tag followed
    /// by the id's own digits, forty-eight lowercase hex bytes in all.
    pub open spec fn token_of(self, id: SessionId) -> Seq<u8> {
        hex64(tag_of(self.hi(), self.lo(), id)) + hex64(id.serial) + hex64(id.nonce)
    }

    /// Validation predicate: exactly the bytes of `token_of` pass.
    pub open spec fn accepts(self, token: Seq<u8>, id: SessionId) -> bool {
        token == self.token_of(id)
    }

    /// A service over a caller-chosen secret, for deterministic assembly.
    pub fn from_secret(hi: u64, lo: u64) -> (r: Self)
        ensures
            r.hi() == hi,
            r.lo() == lo,
    {
        CsrfService { secret_hi: hi, secret_lo: lo }
    }

    /// A service over a fresh random secret, drawn once at startup and
    /// never exposed; nothing is promised of the secret's value.
    pub fn new_random() -> CsrfService {
        let hi = random_word();
        let lo = random_word();
        CsrfService { secret_hi: hi, secret_lo: lo }
    }

    /// Mints the token bound to `id`.
    pub fn generate_token(&self, id: SessionId) -> (r: Vec<u8>)
        ensures
            r@ == self.token_of(id),
    {
        let tag = mix(self.secret_hi, self.secret_lo, id);
        let mut out: Vec<u8> = Vec::new();
        encode_u64(tag, &mut out);
        encode_u64(id.serial, &mut out);
        encode_u64(id.nonce, &mut out);
        proof {
            assert(out@ == self.token_of(id));
        }
        out
    }

    /// Accepts `token` exactly when it is the token bound to `id`. The
    /// comparison is constant-time over the full expected width, so a
    /// mismatch reveals nothing about how much of the token was right.
    pub fn validate_token(&self, token: &[u8], id: SessionId) -> (r: bool)
        ensures
            r == self.accepts(token@, id),
    {
        let expected = self.generate_token(id);
        ct_eq(token, &expected)
    }
}

/// A token generated for a session always validates against that session.
pub proof fn lemma_token_round_trip(c: CsrfService, id: SessionId)
    ensures
        c.accepts(c.token_of(id), id),
{
}

/// A token generated for one session never validates against another:
/// the trailing digits of a token pin down the id injectively.
pub proof fn lemma_no_cross_session_replay(c: CsrfService, id1: SessionId, id2: SessionId)
    requires
        id1 != id2,
    ensures
        !c.accepts(c.token_of(id1), id2),
{
    if c.token_of(id1) == c.token_of(id2) {
        let t1 = c.token_of(id1);
        let t2 = c.token_of(id2);
        assert forall|k: int| 0 <= k < 16 implies hex64(id1.serial)[k] == hex64(
            id2.serial,
        )[k] by {
            assert(t1[16 + k] == hex64(id1.serial)[k]);
            assert(t2[16 + k] == hex64(id2.serial)[k]);
        }
        assert forall|k: int| 0 <= k < 16 implies hex64(id1.nonce)[k] == hex64(
            id2.nonce,
        )[k] by {
            assert(t1[32 + k] == hex64(id1.nonce)[k]);
            assert(t2[32 + k] == hex64(id2.nonce)[k]);
        }
        assert(hex64(id1.serial) =~= hex64(id2.serial));
        assert(hex64(id1.nonce) =~= hex64(id2.nonce));
        lemma_hex64_injective(id1.serial, id2.serial);
        lemma_hex64_injective(id1.nonce, id2.nonce);
        assert(id1 == id2);
    }
}

/// Executable twin of `tag_of`.
fn mix(hi: u64, lo: u64, id: SessionId) -> (r: u64)
    ensures
        r == tag_of(hi, lo, id),
{
    let a = (id.serial ^ hi).wrapping_mul(0x9e37_79b9_7f4a_7c15);
    let b = (id.nonce ^ lo).wrapping_mul(0xc2b2_ae3d_27d4_eb4f);
    (a ^ b ^ (a >> 29)).wrapping_mul(0xff51_afd7_ed55_8ccd) ^ lo
}

/// Constant-time byte-string equality: scans the whole common width and
/// folds every difference into one accumulator.
fn ct_eq(a: &[u8], b: &Vec<u8>) -> (r: bool)
    ensures
        r == (a@ == b@),
{
    let n = a.len();
    if n != b.len() {
        proof {
            assert(a@.len() != b@.len());
        }
        return false;
    }
    let mut diff: u8 = 0;
    let mut i: usize = 0;
    while i < n
        invariant
            0 <= i <= n,
            n == a@.len(),
            n == b@.len(),
            diff == 0 <==> (forall|j: int| 0 <= j < i ==> a@[j] == b@[j]),
        decreases n - i,
    {
        let x = a[i];
        let y = b[i];
        proof {
            assert((x ^ y) == 0 <==> x == y) by (bit_vector);
            assert((diff | (x ^ y)) == 0 <==> diff == 0 && (x ^ y) == 0) by (bit_vector);
        }
        diff = diff | (x ^ y);
        i += 1;
    }
    if diff == 0 {
        proof {
            assert(a@ =~= b@);
        }
        true
    } else {
        proof {
            let j = choose|j: int| 0 <= j < n && a@[j] != b@[j];
            assert(a@[j] != b@[j]);
        }
        false
    }
}

} // verus!
