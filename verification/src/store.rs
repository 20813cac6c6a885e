//! In-memory session store.
//!
//! The store owns the table of live sessions. A session is identified by an
//! opaque pair of 64-bit words: a serial number that the store allocates in
//! strictly increasing order (which makes identifiers provably unique) and a
//! random nonce (which makes them unguessable). Expiry is a sliding
//! inactivity window: a session is live at `now` exactly when `now` is at
//! most `last_seen_at + TTL_SECONDS`, and `touch` resets that window.
//!
//! Concurrent request handlers are expected to share one store behind a
//! single mutual-exclusion boundary; every method here is a whole atomic
//! step of the table, so no interleaving of calls can observe or produce a
//! torn session record.

use vstd::prelude::*;

verus! {

/// Sliding inactivity window, in seconds. Matches the cookie `Max-Age`.
pub const TTL_SECONDS: u64 = 3600;

/// Opaque session identifier: an allocation serial and a random nonce.
#[derive(PartialEq, Eq, Structural, Clone, Copy, Debug)]
pub struct SessionId {
    pub serial: u64,
    pub nonce: u64,
}

/// One session record.
pub struct Session {
    pub id: SessionId,
    pub created_at: u64,
    pub last_seen_at: u64,
    pub csrf_token: Option<Vec<u8>>,
}

/// Mathematical image of a session record.
pub ghost struct SessionView {
    pub id: SessionId,
    pub created_at: u64,
    pub last_seen_at: u64,
    pub csrf_token: Option<Seq<u8>>,
}

impl View for Session {
    type V = SessionView;

    open spec fn view(&self) -> SessionView {
        SessionView {
            id: self.id,
            created_at: self.created_at,
            last_seen_at: self.last_seen_at,
            csrf_token: match self.csrf_token {
                Some(t) => Some(t@),
                None => None,
            },
        }
    }
}

/// Whether a session is within its inactivity window at time `now`.
pub open spec fn live(s: SessionView, now: u64) -> bool {
    now <= s.last_seen_at + TTL_SECONDS
}

/// Whether some live session with this id is in the table at time `now`.
pub open spec fn has_live(rows: Seq<SessionView>, id: SessionId, now: u64) -> bool {
    exists|i: int| 0 <= i < rows.len() && rows[i].id == id && live(rows[i], now)
}

/// The table after a touch of `id` at `now`: only that session's
/// `last_seen_at` moves; every id, creation time and stored token stays.
pub open spec fn touched(rows: Seq<SessionView>, id: SessionId, now: u64) -> Seq<SessionView> {
    rows.map_values(
        |s: SessionView|
            if s.id == id {
                SessionView { last_seen_at: now, ..s }
            } else {
                s
            },
    )
}

/// The table after the stored token of `id` is overwritten with `tok`.
pub open spec fn with_token(rows: Seq<SessionView>, id: SessionId, tok: Seq<u8>) -> Seq<
    SessionView,
> {
    rows.map_values(
        |s: SessionView|
            if s.id == id {
                SessionView { csrf_token: Some(tok), ..s }
            } else {
                s
            },
    )
}

/// Mathematical image of a whole table of records.
pub open spec fn views_of(rows: Seq<Session>) -> Seq<SessionView> {
    rows.map_values(|s: Session| s@)
}

/// The table of live sessions, with its serial allocator.
pub struct SessionStore {
    sessions: Vec<Session>,
    next_serial: u64,
}

impl View for SessionStore {
    type V = Seq<SessionView>;

    closed spec fn view(&self) -> Seq<SessionView> {
        views_of(self.sessions@)
    }
}

impl SessionStore {
    /// Serials `self.serial_bound()` and above are still unallocated.
    pub closed spec fn serial_bound(self) -> u64 {
        self.next_serial
    }

    /// Table invariant: serials are pairwise distinct and below the
    /// allocator bound, so no two sessions ever share an id.
    pub open spec fn wf(self) -> bool {
        &&& forall|i: int|
            0 <= i < self@.len() ==> (#[trigger] self@[i].id.serial) < self.serial_bound()
        &&& forall|i: int, j: int|
            0 <= i < j < self@.len() ==> (#[trigger] self@[i].id.serial) != (
            #[trigger] self@[j].id.serial)
    }

    /// An empty store.
    pub fn new() -> (r: Self)
        ensures
            r@ =~= Seq::<SessionView>::empty(),
            r.serial_bound() == 0,
            r.wf(),
    {
        SessionStore { sessions: Vec::new(), next_serial: 0 }
    }

    /// Whether the serial allocator has run out: only then may `create`
    /// not be called.
    pub fn exhausted(&self) -> (r: bool)
        ensures
            r == (self.serial_bound() == u64::MAX),
    {
        self.next_serial == u64::MAX
    }

    /// How many sessions the table physically holds, live or expired.
    pub fn count(&self) -> (r: usize)
        ensures
            r == self@.len(),
    {
        self.sessions.len()
    }

    /// Allocates a fresh session at time `now`: a brand-new id, both
    /// timestamps set to `now`, and no CSRF token yet. The new id's serial
    /// is the old allocator bound, so it differs from every id the store
    /// has ever handed out.
    pub fn create(&mut self, now: u64) -> (r: Session)
        requires
            old(self).wf(),
            old(self).serial_bound() < u64::MAX,
        ensures
            final(self).wf(),
            r.id.serial == old(self).serial_bound(),
            r.created_at == now,
            r.last_seen_at == now,
            r.csrf_token is None,
            final(self)@ == old(self)@.push(r@),
            final(self).serial_bound() == old(self).serial_bound() + 1,
    {
        let nonce = random_word();
        let id = SessionId { serial: self.next_serial, nonce };
        let s = Session { id, created_at: now, last_seen_at: now, csrf_token: None };
        let r = Session { id, created_at: now, last_seen_at: now, csrf_token: None };
        self.sessions.push(s);
        self.next_serial = self.next_serial + 1;
        proof {
            assert(self@ =~= old(self)@.push(r@));
        }
        r
    }

    /// Looks up `id`, treating an expired entry as absent. Returns a copy
    /// of the live session record, and never mutates the table.
    pub fn get(&self, id: SessionId, now: u64) -> (r: Option<Session>)
        ensures
            match r {
                Some(s) => exists|i: int|
                    0 <= i < self@.len() && (#[trigger] self@[i]) == s@ && s@.id == id && live(
                        s@,
                        now,
                    ),
                None => forall|i: int|
                    0 <= i < self@.len() && (#[trigger] self@[i]).id == id ==> !live(
                        self@[i],
                        now,
                    ),
            },
            r is Some <==> has_live(self@, id, now),
    {
        let n = self.sessions.len();
        let mut i: usize = 0;
        while i < n
            invariant
                0 <= i <= n,
                n == self@.len(),
                self@ == views_of(self.sessions@),
                forall|j: int|
                    0 <= j < i && (#[trigger] self@[j]).id == id ==> !live(self@[j], now),
            decreases n - i,
        {
            let s = &self.sessions[i];
            if s.id.serial == id.serial && s.id.nonce == id.nonce {
                if now <= s.last_seen_at || now - s.last_seen_at <= TTL_SECONDS {
                    let c = copy_session(s);
                    proof {
                        assert(self@[i as int] == c@);
                    }
                    return Some(c);
                }
            }
            i += 1;
        }
        None
    }

    /// Refreshes the inactivity window of `id`: its `last_seen_at` becomes
    /// `now`, nothing else in the table moves, and an absent id is a no-op.
    /// Repeated touches therefore never change an id or a creation time.
    pub fn touch(&mut self, id: SessionId, now: u64)
        requires
            old(self).wf(),
        ensures
            final(self).wf(),
            final(self)@ == touched(old(self)@, id, now),
            final(self).serial_bound() == old(self).serial_bound(),
    {
        let ghost orig = self@;
        let mut rest: Vec<Session> = Vec::new();
        core::mem::swap(&mut rest, &mut self.sessions);
        let ghost rows = rest@;
        let mut done: Vec<Session> = Vec::new();
        let mut i: usize = 0;
        let n = rest.len();
        while i < n
            invariant
                0 <= i <= n,
                n == rest@.len(),
                rest@ == rows,
                orig == views_of(rows),
                views_of(done@) == touched(orig, id, now).take(i as int),
            decreases n - i,
        {
            let s = &rest[i];
            let seen: u64 = if s.id.serial == id.serial && s.id.nonce == id.nonce {
                now
            } else {
                s.last_seen_at
            };
            let c = Session {
                id: s.id,
                created_at: s.created_at,
                last_seen_at: seen,
                csrf_token: copy_token(&s.csrf_token),
            };
            proof {
                assert(orig[i as int] == rows[i as int]@);
                assert(c@ == touched(orig, id, now)[i as int]);
            }
            let ghost dpre = done@;
            done.push(c);
            proof {
                let t = touched(orig, id, now);
                assert(views_of(dpre).len() == i as int);
                assert(dpre.len() == i as int);
                assert(done@ == dpre.push(c));
                assert forall|k: int| 0 <= k <= i as int implies views_of(done@)[k] == t.take(
                    i as int + 1,
                )[k] by {
                    if k < i as int {
                        assert(done@[k] == dpre[k]);
                        assert(views_of(dpre)[k] == t.take(i as int)[k]);
                    } else {
                        assert(done@[k] == c);
                    }
                }
                assert(views_of(done@) =~= t.take(i as int + 1));
            }
            i += 1;
        }
        self.sessions = done;
        proof {
            assert(touched(orig, id, now).take(n as int) =~= touched(orig, id, now));
            assert(self@ == views_of(done@));
        }
    }

    /// Overwrites the stored CSRF token of `id` with `tok`; an absent id is
    /// a no-op, and nothing else in the table moves.
    pub fn update_csrf(&mut self, id: SessionId, tok: &Vec<u8>)
        requires
            old(self).wf(),
        ensures
            final(self).wf(),
            final(self)@ == with_token(old(self)@, id, tok@),
            final(self).serial_bound() == old(self).serial_bound(),
    {
        let ghost orig = self@;
        let mut rest: Vec<Session> = Vec::new();
        core::mem::swap(&mut rest, &mut self.sessions);
        let ghost rows = rest@;
        let mut done: Vec<Session> = Vec::new();
        let mut i: usize = 0;
        let n = rest.len();
        while i < n
            invariant
                0 <= i <= n,
                n == rest@.len(),
                rest@ == rows,
                orig == views_of(rows),
                views_of(done@) == with_token(orig, id, tok@).take(i as int),
            decreases n - i,
        {
            let s = &rest[i];
            let fresh_tok: Option<Vec<u8>> = if s.id.serial == id.serial && s.id.nonce
                == id.nonce {
                Some(clone_bytes(tok))
            } else {
                copy_token(&s.csrf_token)
            };
            let c = Session {
                id: s.id,
                created_at: s.created_at,
                last_seen_at: s.last_seen_at,
                csrf_token: fresh_tok,
            };
            proof {
                assert(orig[i as int] == rows[i as int]@);
                assert(c@ == with_token(orig, id, tok@)[i as int]);
            }
            let ghost dpre = done@;
            done.push(c);
            proof {
                let t = with_token(orig, id, tok@);
                assert(views_of(dpre).len() == i as int);
                assert(dpre.len() == i as int);
                assert(done@ == dpre.push(c));
                assert forall|k: int| 0 <= k <= i as int implies views_of(done@)[k] == t.take(
                    i as int + 1,
                )[k] by {
                    if k < i as int {
                        assert(done@[k] == dpre[k]);
                        assert(views_of(dpre)[k] == t.take(i as int)[k]);
                    } else {
                        assert(done@[k] == c);
                    }
                }
                assert(views_of(done@) =~= t.take(i as int + 1));
            }
            i += 1;
        }
        self.sessions = done;
        proof {
            assert(with_token(orig, id, tok@).take(n as int) =~= with_token(orig, id, tok@));
            assert(self@ == views_of(done@));
        }
    }

    /// Removes every expired session and keeps every live one, in order.
    pub fn cleanup_expired(&mut self, now: u64)
        requires
            old(self).wf(),
        ensures
            final(self).wf(),
            final(self)@ == old(self)@.filter(|s: SessionView| live(s, now)),
            final(self).serial_bound() == old(self).serial_bound(),
    {
        let ghost orig = self@;
        let ghost pred = |s: SessionView| live(s, now);
        let mut rest: Vec<Session> = Vec::new();
        core::mem::swap(&mut rest, &mut self.sessions);
        let ghost rows = rest@;
        let mut done: Vec<Session> = Vec::new();
        let mut i: usize = 0;
        let n = rest.len();
        while i < n
            invariant
                0 <= i <= n,
                n == rest@.len(),
                rest@ == rows,
                orig == views_of(rows),
                views_of(done@) == orig.take(i as int).filter(pred),
                pred == (|s: SessionView| live(s, now)),
            decreases n - i,
        {
            let s = &rest[i];
            proof {
                assert(orig.take(i as int + 1).drop_last() =~= orig.take(i as int));
                assert(orig.take(i as int + 1).last() == s@);
                seq_filter_drop_last(orig.take(i as int + 1), pred);
            }
            if now <= s.last_seen_at || now - s.last_seen_at <= TTL_SECONDS {
                let c = copy_session(s);
                done.push(c);
                proof {
                    assert(views_of(done@) =~= orig.take(i as int + 1).filter(
                        pred,
                    ));
                }
            } else {
                proof {
                    assert(views_of(done@) =~= orig.take(i as int + 1).filter(
                        pred,
                    ));
                }
            }
            i += 1;
        }
        self.sessions = done;
        proof {
            assert(orig.take(n as int) =~= orig);
            assert(self@ == views_of(done@));
            assert(self@ == orig.filter(pred));
            lemma_filter_keeps_distinct(orig, pred, self.serial_bound());
        }
    }
}

/// Sessions of a well-formed table have pairwise distinct ids: however many
/// sessions are created, no two entries ever collide or overwrite another,
/// because every creation takes a serial no earlier session carries.
pub proof fn lemma_ids_distinct(s: SessionStore)
    requires
        s.wf(),
    ensures
        forall|i: int, j: int|
            0 <= i < j < s@.len() ==> (#[trigger] s@[i].id) != (#[trigger] s@[j].id),
{
    assert forall|i: int, j: int|
        0 <= i < j < s@.len() implies (#[trigger] s@[i].id) != (#[trigger] s@[j].id) by {
        assert(s@[i].id.serial != s@[j].id.serial);
    }
}

/// A session allocated at the current serial bound carries an id no stored
/// session shares: a stale cookie can never be answered with a recycled id.
pub proof fn lemma_new_serial_is_fresh(rows: Seq<SessionView>, bound: u64, sess: SessionView)
    requires
        forall|i: int| 0 <= i < rows.len() ==> (#[trigger] rows[i].id.serial) < bound,
        sess.id.serial == bound,
    ensures
        forall|i: int| 0 <= i < rows.len() ==> (#[trigger] rows[i].id) != sess.id,
{
    assert forall|i: int| 0 <= i < rows.len() implies (#[trigger] rows[i].id) != sess.id by {
        assert(rows[i].id.serial < bound);
    }
}

/// Sliding expiry around a touch: after a touch of `id` at time `t`, the
/// table holds a live session under `id` at every time up to `t` plus the
/// window, and none beyond it.
pub proof fn lemma_touch_window(rows: Seq<SessionView>, id: SessionId, t: u64, t2: u64, i: int)
    requires
        0 <= i < rows.len(),
        rows[i].id == id,
        forall|a: int, b: int|
            0 <= a < b < rows.len() ==> (#[trigger] rows[a].id.serial) != (
            #[trigger] rows[b].id.serial),
    ensures
        t2 <= t + TTL_SECONDS ==> has_live(touched(rows, id, t), id, t2),
        t2 > t + TTL_SECONDS ==> !has_live(touched(rows, id, t), id, t2),
{
    let tr = touched(rows, id, t);
    assert(tr[i].id == id);
    assert(tr[i].last_seen_at == t);
    if t2 <= t + TTL_SECONDS {
        assert(live(tr[i], t2));
        assert(has_live(tr, id, t2));
    } else {
        assert forall|j: int| 0 <= j < tr.len() && (#[trigger] tr[j]).id == id implies !live(
            tr[j],
            t2,
        ) by {
            assert(tr[j].id == rows[j].id);
            if j != i {
                assert(rows[j].id.serial != rows[i].id.serial);
            }
        }
    }
}

/// Touching is idempotent on identity: however often a session is touched,
/// its id, creation time and stored token never move — only `last_seen_at`
/// does — and a later touch fully absorbs an earlier one.
pub proof fn lemma_touch_idempotent(rows: Seq<SessionView>, id: SessionId, t1: u64, t2: u64)
    ensures
        forall|i: int|
            0 <= i < rows.len() ==> (#[trigger] touched(rows, id, t1)[i]).id == rows[i].id
                && touched(rows, id, t1)[i].created_at == rows[i].created_at && touched(
                rows,
                id,
                t1,
            )[i].csrf_token == rows[i].csrf_token,
        touched(touched(rows, id, t1), id, t2) == touched(rows, id, t2),
{
    assert(touched(touched(rows, id, t1), id, t2) =~= touched(rows, id, t2));
}

/// A filtered table still satisfies the serial invariants of `wf`.
proof fn lemma_filter_keeps_distinct(
    rows: Seq<SessionView>,
    pred: spec_fn(SessionView) -> bool,
    bound: u64,
)
    requires
        forall|i: int| 0 <= i < rows.len() ==> (#[trigger] rows[i].id.serial) < bound,
        forall|i: int, j: int|
            0 <= i < j < rows.len() ==> (#[trigger] rows[i].id.serial) != (
            #[trigger] rows[j].id.serial),
    ensures
        forall|i: int|
            0 <= i < rows.filter(pred).len() ==> (#[trigger] rows.filter(pred)[i].id.serial)
                < bound,
        forall|i: int, j: int|
            0 <= i < j < rows.filter(pred).len() ==> (#[trigger] rows.filter(pred)[i].id.serial)
                != (#[trigger] rows.filter(pred)[j].id.serial),
    decreases rows.len(),
{
    if rows.len() > 0 {
        let prefix = rows.drop_last();
        lemma_filter_keeps_distinct(prefix, pred, bound);
        lemma_filter_subset(prefix, pred);
        seq_filter_drop_last(rows, pred);
        let f = prefix.filter(pred);
        let out = rows.filter(pred);
        assert forall|i: int| 0 <= i < out.len() implies (#[trigger] out[i].id.serial)
            < bound by {
            if i < f.len() {
                assert(out[i] == f[i]);
                let k = choose|k: int| 0 <= k < prefix.len() && prefix[k] == f[i];
                assert(rows[k] == f[i]);
            } else {
                assert(out[i] == rows.last());
                assert(rows[rows.len() - 1] == rows.last());
            }
        }
        assert forall|i: int, j: int|
            0 <= i < j < out.len() implies (#[trigger] out[i].id.serial) != (
        #[trigger] out[j].id.serial) by {
            if j < f.len() {
                assert(out[i] == f[i]);
                assert(out[j] == f[j]);
            } else {
                assert(out[j] == rows.last());
                assert(out[i] == f[i]);
                assert(prefix.contains(f[i]));
                let k = choose|k: int| 0 <= k < prefix.len() && prefix[k] == f[i];
                assert(rows[k] == f[i]);
                assert(rows[k].id.serial != rows[rows.len() - 1].id.serial);
            }
        }
    }
}

/// Every element a filter keeps was an element of the unfiltered table.
proof fn lemma_filter_subset(rows: Seq<SessionView>, pred: spec_fn(SessionView) -> bool)
    ensures
        forall|i: int|
            0 <= i < rows.filter(pred).len() ==> rows.contains(#[trigger] rows.filter(pred)[i]),
    decreases rows.len(),
{
    if rows.len() > 0 {
        let prefix = rows.drop_last();
        lemma_filter_subset(prefix, pred);
        seq_filter_drop_last(rows, pred);
        let f = prefix.filter(pred);
        let out = rows.filter(pred);
        assert forall|i: int| 0 <= i < out.len() implies rows.contains(#[trigger] out[i]) by {
            if i < f.len() {
                assert(out[i] == f[i]);
                assert(prefix.contains(f[i]));
                let k = choose|k: int| 0 <= k < prefix.len() && prefix[k] == f[i];
                assert(rows[k] == out[i]);
            } else {
                assert(out[i] == rows.last());
                assert(rows[rows.len() - 1] == rows.last());
            }
        }
    }
}

/// Unfolds `filter` one element from the back.
proof fn seq_filter_drop_last(rows: Seq<SessionView>, pred: spec_fn(SessionView) -> bool)
    requires
        rows.len() > 0,
    ensures
        rows.filter(pred) == if pred(rows.last()) {
            rows.drop_last().filter(pred).push(rows.last())
        } else {
            rows.drop_last().filter(pred)
        },
{
    reveal_with_fuel(Seq::filter, 2);
}

/// Copies a stored token so a caller can take a session record home
/// without disturbing the table.
fn copy_token(t: &Option<Vec<u8>>) -> (r: Option<Vec<u8>>)
    ensures
        match (t, &r) {
            (Some(a), Some(b)) => a@ == b@,
            (None, None) => true,
            _ => false,
        },
{
    match t {
        Some(v) => Some(clone_bytes(v)),
        None => None,
    }
}

/// Byte-for-byte copy of a byte vector.
fn clone_bytes(v: &Vec<u8>) -> (r: Vec<u8>)
    ensures
        r@ == v@,
{
    let r = v.clone();
    proof {
        assert(r@ =~= v@);
    }
    r
}

/// Copy of a whole session record.
fn copy_session(s: &Session) -> (r: Session)
    ensures
        r@ == s@,
{
    Session {
        id: s.id,
        created_at: s.created_at,
        last_seen_at: s.last_seen_at,
        csrf_token: copy_token(&s.csrf_token),
    }
}

/// Relies on `rand::random::<u64>()` for every random word the library
/// draws: the unguessable half of a fresh session id, and the two words of
/// the process secret. Nothing can be promised of a random value.
#[verifier::external_body]
pub(crate) fn random_word() -> u64 {
    rand::random::<u64>()
}

} // verus!
