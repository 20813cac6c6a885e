//! Request-level decisions of the security middleware pipeline.
//!
//! Each function here is one whole decision a middleware layer takes for a
//! request: resolving or creating the session and minting its token,
//! gating mutating methods on a consistent cookie/session/token triple,
//! the probabilistic sweep of expired sessions, and the fixed header sets
//! written onto every response. The surrounding HTTP plumbing only moves
//! bytes between these functions and the wire.

use vstd::prelude::*;
use crate::cookie::{parse_cookie, parse_session_cookie, set_cookie_line, set_cookie_of};
use crate::store::{
    has_live, live, touched, with_token, Session, SessionId, SessionStore, SessionView,
};
use crate::token::CsrfService;

verus! {

/// HTTP request method, as far as the pipeline distinguishes them.
#[derive(PartialEq, Eq, Structural, Clone, Copy, Debug)]
pub enum Method {
    Get,
    Head,
    Options,
    Post,
    Put,
    Delete,
    Patch,
    Other,
}

/// Whether a method can change state: everything but the three read-only,
/// body-less methods.
pub open spec fn is_mutating(m: Method) -> bool {
    !(m is Get || m is Head || m is Options)
}

/// Executable twin of `is_mutating`.
pub fn method_mutates(m: Method) -> (r: bool)
    ensures
        r == is_mutating(m),
{
    match m {
        Method::Get | Method::Head | Method::Options => false,
        _ => true,
    }
}

/// Verdict of the CSRF gate. A forbidden verdict is uniform on purpose:
/// it never says which of the checks failed.
#[derive(PartialEq, Eq, Structural, Clone, Copy, Debug)]
pub enum Verdict {
    Proceed,
    Forbidden,
}

/// View of an optional borrowed header value.
pub open spec fn view_opt(o: Option<&[u8]>) -> Option<Seq<u8>> {
    match o {
        Some(s) => Some(s@),
        None => None,
    }
}

/// When enforcement admits a request: read-only methods are always
/// admitted; a mutating request is admitted exactly when the cookie
/// parses to a session id, that session is live in the table, and the
/// submitted token is the one bound to that id.
pub open spec fn gate_allows(
    rows: Seq<SessionView>,
    svc: CsrfService,
    method: Method,
    cookie: Option<Seq<u8>>,
    token: Option<Seq<u8>>,
    now: u64,
) -> bool {
    !is_mutating(method) || (match (cookie, token) {
        (Some(c), Some(t)) => match parse_cookie(c) {
            Some(id) => has_live(rows, id, now) && t == svc.token_of(id),
            None => false,
        },
        _ => false,
    })
}

/// CSRF enforcement for one request. Requires a resolvable session id, a
/// live session, and a matching token, all at once, for mutating methods;
/// any missing or inconsistent piece yields the same uniform verdict.
pub fn csrf_gate(
    store: &SessionStore,
    svc: &CsrfService,
    method: Method,
    cookie: Option<&[u8]>,
    token: Option<&[u8]>,
    now: u64,
) -> (r: Verdict)
    ensures
        r is Proceed <==> gate_allows(store@, *svc, method, view_opt(cookie), view_opt(token), now),
{
    if !method_mutates(method) {
        return Verdict::Proceed;
    }
    let c = match cookie {
        Some(c) => c,
        None => {
            return Verdict::Forbidden;
        },
    };
    let t = match token {
        Some(t) => t,
        None => {
            return Verdict::Forbidden;
        },
    };
    let id = match parse_session_cookie(c) {
        Some(id) => id,
        None => {
            return Verdict::Forbidden;
        },
    };
    if store.get(id, now).is_none() {
        return Verdict::Forbidden;
    }
    if svc.validate_token(t, id) {
        Verdict::Proceed
    } else {
        Verdict::Forbidden
    }
}

/// What session binding hands the rest of the pipeline.
pub struct Established {
    pub session: Session,
    pub token: Vec<u8>,
    pub cookie_line: Vec<u8>,
    pub is_new: bool,
}

/// The fresh half of `establish_post`: a session created at `now` under
/// the next free serial, appended to the table with its token stored.
pub open spec fn established_fresh(
    pre: Seq<SessionView>,
    bound: u64,
    now: u64,
    sess: SessionView,
    tok: Seq<u8>,
    is_new: bool,
    post: Seq<SessionView>,
    post_bound: u64,
) -> bool {
    &&& is_new
    &&& sess.id.serial == bound
    &&& sess.created_at == now
    &&& sess.last_seen_at == now
    &&& post == with_token(pre.push(sess), sess.id, tok)
    &&& post_bound == bound + 1
}

/// Full effect of session binding on the table: a live session named by
/// the cookie is touched and its token refreshed; any other request gets a
/// brand-new session.
pub open spec fn establish_post(
    pre: Seq<SessionView>,
    bound: u64,
    svc: CsrfService,
    cookie: Option<Seq<u8>>,
    now: u64,
    sess: SessionView,
    tok: Seq<u8>,
    is_new: bool,
    post: Seq<SessionView>,
    post_bound: u64,
) -> bool {
    let pid = match cookie {
        Some(c) => parse_cookie(c),
        None => None,
    };
    &&& tok == svc.token_of(sess.id)
    &&& match pid {
        Some(id) => if has_live(pre, id, now) {
            &&& !is_new
            &&& sess.id == id
            &&& live(sess, now)
            &&& exists|i: int| 0 <= i < pre.len() && (#[trigger] pre[i]) == sess
            &&& post == with_token(touched(pre, id, now), id, tok)
            &&& post_bound == bound
        } else {
            established_fresh(pre, bound, now, sess, tok, is_new, post, post_bound)
        },
        None => established_fresh(pre, bound, now, sess, tok, is_new, post, post_bound),
    }
}

/// Session binding for one request: resolves the cookie against the table,
/// touches the session it names or creates a fresh one, mints the token
/// bound to that session, stores it, and prepares the `Set-Cookie` line.
pub fn establish(
    store: &mut SessionStore,
    svc: &CsrfService,
    cookie: Option<&[u8]>,
    now: u64,
) -> (r: Established)
    requires
        old(store).wf(),
        old(store).serial_bound() < u64::MAX,
    ensures
        final(store).wf(),
        establish_post(
            old(store)@,
            old(store).serial_bound(),
            *svc,
            view_opt(cookie),
            now,
            r.session@,
            r.token@,
            r.is_new,
            final(store)@,
            final(store).serial_bound(),
        ),
        r.cookie_line@ == set_cookie_of(r.session@.id),
{
    let pid = match cookie {
        Some(c) => parse_session_cookie(c),
        None => None,
    };
    let resolved: Option<Session> = match pid {
        Some(id) => store.get(id, now),
        None => None,
    };
    let (session, is_new): (Session, bool) = match resolved {
        Some(s) => {
            let id = s.id;
            store.touch(id, now);
            (s, false)
        },
        None => (store.create(now), true),
    };
    let token = svc.generate_token(session.id);
    store.update_csrf(session.id, &token);
    let cookie_line = set_cookie_line(session.id);
    Established { session, token, cookie_line, is_new }
}

/// A client that echoes what session binding just handed it is always
/// admitted: after `establish`, a request carrying the cookie pair of the
/// established session and its token satisfies the enforcement predicate
/// at the same instant, whatever the method.
pub proof fn lemma_established_client_is_admitted(
    pre: Seq<SessionView>,
    bound: u64,
    svc: CsrfService,
    cookie: Option<Seq<u8>>,
    now: u64,
    sess: SessionView,
    tok: Seq<u8>,
    is_new: bool,
    post: Seq<SessionView>,
    post_bound: u64,
    method: Method,
)
    requires
        establish_post(pre, bound, svc, cookie, now, sess, tok, is_new, post, post_bound),
    ensures
        gate_allows(
            post,
            svc,
            method,
            Some(crate::cookie::name_prefix() + crate::cookie::sid_bytes(sess.id)),
            Some(tok),
            now,
        ),
{
    crate::cookie::lemma_cookie_round_trip(sess.id);
    let pid = match cookie {
        Some(c) => parse_cookie(c),
        None => None,
    };
    match pid {
        Some(id) if has_live(pre, id, now) => {
            let i = choose|i: int| 0 <= i < pre.len() && pre[i].id == id && live(pre[i], now);
            assert(post[i].id == sess.id);
            assert(post[i].last_seen_at == now);
            assert(live(post[i], now));
            assert(has_live(post, sess.id, now));
        },
        _ => {
            let i = pre.len() as int;
            assert(pre.push(sess)[i] == sess);
            assert(post[i].id == sess.id);
            assert(post[i].last_seen_at == now);
            assert(live(post[i], now));
            assert(has_live(post, sess.id, now));
        },
    }
}

/// Probabilistic sweep: roughly one request in eighty-five pays the linear
/// sweep of expired sessions, so the expected cost per request stays
/// constant while the table cannot grow without bound under idle load.
/// Either the table is swept exactly, or it is left exactly as it was.
pub fn maybe_cleanup(store: &mut SessionStore, now: u64) -> (r: bool)
    requires
        old(store).wf(),
    ensures
        final(store).wf(),
        final(store).serial_bound() == old(store).serial_bound(),
        r ==> final(store)@ == old(store)@.filter(|s: SessionView| live(s, now)),
        !r ==> final(store)@ == old(store)@,
{
    let roll = cleanup_roll();
    if roll < 3 {
        store.cleanup_expired(now);
        true
    } else {
        false
    }
}

/// Relies on `rand::random::<u8>()` for the sweep trigger; nothing can be
/// promised of a random value, and both outcomes of the sweep are covered.
#[verifier::external_body]
fn cleanup_roll() -> u8 {
    rand::random::<u8>()
}

/// The fixed hardened header set written onto every response, success or
/// error: strict CSP pinned to self plus the integrity hashes of the two
/// vendored scripts, MIME and framing lockdown, referrer and DNS-prefetch
/// suppression, feature lockdown, a blanked server identity, cache denial,
/// and cross-origin isolation.
pub fn security_header_list() -> (r: Vec<(&'static str, &'static str)>)
    ensures
        r@.len() == 13,
        r@[0].0@ == "content-security-policy"@,
        r@[0].1@
            == "default-src 'self'; script-src 'self' 'sha384-HGfztofotfshcF7+8n44JQL2oJmowVChPTg48S+jvZoztPfvwD79OC/LTtG6dMp+' 'sha384-PMounJsLzecWPmGgUp+rmq81ao6CaK1vp02qhyBK66VebP1pIGgbYS+m14+AsFN5'; style-src 'self' 'unsafe-inline'; img-src 'self' data:; font-src 'self'; connect-src 'self'; frame-ancestors 'none'; base-uri 'self'; form-action 'self'; object-src 'none'"@,
        r@[1].0@ == "x-content-type-options"@,
        r@[1].1@ == "nosniff"@,
        r@[2].0@ == "x-frame-options"@,
        r@[2].1@ == "DENY"@,
        r@[3].0@ == "x-xss-protection"@,
        r@[3].1@ == "1; mode=block"@,
        r@[4].0@ == "referrer-policy"@,
        r@[4].1@ == "no-referrer"@,
        r@[5].0@ == "x-dns-prefetch-control"@,
        r@[5].1@ == "off"@,
        r@[6].0@ == "permissions-policy"@,
        r@[6].1@ == "camera=(), microphone=(), geolocation=(), browsing-topics=()"@,
        r@[7].0@ == "server"@,
        r@[7].1@ == ""@,
        r@[8].0@ == "cache-control"@,
        r@[8].1@ == "no-store, no-cache, must-revalidate"@,
        r@[9].0@ == "pragma"@,
        r@[9].1@ == "no-cache"@,
        r@[10].0@ == "cross-origin-opener-policy"@,
        r@[10].1@ == "same-origin"@,
        r@[11].0@ == "cross-origin-embedder-policy"@,
        r@[11].1@ == "require-corp"@,
        r@[12].0@ == "cross-origin-resource-policy"@,
        r@[12].1@ == "same-origin"@,
{
    let mut r: Vec<(&'static str, &'static str)> = Vec::new();
    r.push(
        (
            "content-security-policy",
            "default-src 'self'; script-src 'self' 'sha384-HGfztofotfshcF7+8n44JQL2oJmowVChPTg48S+jvZoztPfvwD79OC/LTtG6dMp+' 'sha384-PMounJsLzecWPmGgUp+rmq81ao6CaK1vp02qhyBK66VebP1pIGgbYS+m14+AsFN5'; style-src 'self' 'unsafe-inline'; img-src 'self' data:; font-src 'self'; connect-src 'self'; frame-ancestors 'none'; base-uri 'self'; form-action 'self'; object-src 'none'",
        ),
    );
    r.push(("x-content-type-options", "nosniff"));
    r.push(("x-frame-options", "DENY"));
    r.push(("x-xss-protection", "1; mode=block"));
    r.push(("referrer-policy", "no-referrer"));
    r.push(("x-dns-prefetch-control", "off"));
    r.push(("permissions-policy", "camera=(), microphone=(), geolocation=(), browsing-topics=()"));
    r.push(("server", ""));
    r.push(("cache-control", "no-store, no-cache, must-revalidate"));
    r.push(("pragma", "no-cache"));
    r.push(("cross-origin-opener-policy", "same-origin"));
    r.push(("cross-origin-embedder-policy", "require-corp"));
    r.push(("cross-origin-resource-policy", "same-origin"));
    r
}

/// The uniform body of every forbidden response. One generic message
/// covers every cause of rejection, so a caller learns nothing about
/// which condition was missing.
pub fn forbidden_body() -> (r: &'static str)
    ensures
        r@
            == "<div class=\"alert alert-danger\" role=\"alert\">\n    <div class=\"alert-title\"><i class=\"bi bi-shield-x\"></i> <strong>Forbidden</strong></div>\n    <div class=\"alert-body\">Request blocked</div>\n</div>"@,
{
    "<div class=\"alert alert-danger\" role=\"alert\">\n    <div class=\"alert-title\"><i class=\"bi bi-shield-x\"></i> <strong>Forbidden</strong></div>\n    <div class=\"alert-body\">Request blocked</div>\n</div>"
}

} // verus!
