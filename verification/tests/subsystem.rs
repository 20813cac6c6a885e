use session_csrf::cookie::{encode_session_id, parse_session_cookie, set_cookie_line};
use session_csrf::hexcode::{decode_u64, encode_u64};
use session_csrf::pipeline::{
    csrf_gate, establish, forbidden_body, maybe_cleanup, method_mutates, security_header_list,
    Method, Verdict,
};
use session_csrf::store::{SessionId, SessionStore, TTL_SECONDS};
use session_csrf::token::CsrfService;

fn cookie_pair(id: SessionId) -> Vec<u8> {
    let mut v = b"sid=".to_vec();
    v.extend_from_slice(&encode_session_id(id));
    v
}

#[test]
fn hex_encodes_and_decodes() {
    let mut out: Vec<u8> = Vec::new();
    encode_u64(0xff, &mut out);
    assert_eq!(out, b"00000000000000ff".to_vec());
    assert_eq!(decode_u64(&out, 0), Some(0xff));
    let mut big: Vec<u8> = Vec::new();
    encode_u64(0x0123_4567_89ab_cdef, &mut big);
    assert_eq!(big, b"0123456789abcdef".to_vec());
    assert_eq!(decode_u64(&big, 0), Some(0x0123_4567_89ab_cdef));
    assert_eq!(decode_u64(b"0123456789abcdeg", 0), None);
    assert_eq!(decode_u64(b"0123456789ABCDEF", 0), None);
}

#[test]
fn token_validates_for_its_own_session() {
    let svc = CsrfService::from_secret(7, 11);
    let id = SessionId { serial: 5, nonce: 9 };
    let tok = svc.generate_token(id);
    assert_eq!(tok.len(), 48);
    assert!(svc.validate_token(&tok, id));
}

#[test]
fn token_rejected_for_other_session() {
    let svc = CsrfService::from_secret(7, 11);
    let a = SessionId { serial: 5, nonce: 9 };
    let b = SessionId { serial: 6, nonce: 9 };
    let c = SessionId { serial: 5, nonce: 10 };
    let tok = svc.generate_token(a);
    assert!(!svc.validate_token(&tok, b));
    assert!(!svc.validate_token(&tok, c));
}

#[test]
fn token_rejected_when_malformed() {
    let svc = CsrfService::from_secret(1, 2);
    let id = SessionId { serial: 0, nonce: 0 };
    assert!(!svc.validate_token(b"", id));
    assert!(!svc.validate_token(b"not-a-token", id));
    let mut tok = svc.generate_token(id);
    tok[0] ^= 1;
    assert!(!svc.validate_token(&tok, id));
}

#[test]
fn get_respects_sliding_window() {
    let mut store = SessionStore::new();
    let s = store.create(100);
    let id = s.id;
    assert!(store.get(id, 100).is_some());
    assert!(store.get(id, 100 + TTL_SECONDS).is_some());
    assert!(store.get(id, 101 + TTL_SECONDS).is_none());
    store.touch(id, 200);
    assert!(store.get(id, 200 + TTL_SECONDS).is_some());
    assert!(store.get(id, 201 + TTL_SECONDS).is_none());
}

#[test]
fn touch_changes_only_last_seen() {
    let mut store = SessionStore::new();
    let s = store.create(100);
    let id = s.id;
    store.touch(id, 150);
    store.touch(id, 175);
    let got = store.get(id, 175).unwrap();
    assert_eq!(got.id, id);
    assert_eq!(got.created_at, 100);
    assert_eq!(got.last_seen_at, 175);
}

#[test]
fn touch_of_absent_id_creates_nothing() {
    let mut store = SessionStore::new();
    let ghost_id = SessionId { serial: 42, nonce: 1 };
    store.touch(ghost_id, 100);
    assert_eq!(store.count(), 0);
    assert!(store.get(ghost_id, 100).is_none());
}

#[test]
fn many_creates_give_distinct_ids() {
    let mut store = SessionStore::new();
    let mut ids: Vec<SessionId> = Vec::new();
    for _ in 0..10 {
        ids.push(store.create(50).id);
    }
    assert_eq!(store.count(), 10);
    for i in 0..ids.len() {
        for j in 0..ids.len() {
            if i != j {
                assert_ne!(ids[i], ids[j]);
            }
        }
    }
}

#[test]
fn cleanup_removes_exactly_the_expired() {
    let mut store = SessionStore::new();
    let a = store.create(100).id;
    let b = store.create(100).id;
    store.touch(b, 5000);
    store.cleanup_expired(5000);
    assert_eq!(store.count(), 1);
    assert!(store.get(a, 5000).is_none());
    assert!(store.get(b, 5000).is_some());
}

#[test]
fn update_csrf_stores_the_token() {
    let mut store = SessionStore::new();
    let svc = CsrfService::from_secret(3, 4);
    let id = store.create(10).id;
    let tok = svc.generate_token(id);
    store.update_csrf(id, &tok);
    let got = store.get(id, 10).unwrap();
    assert_eq!(got.csrf_token, Some(tok));
}

#[test]
fn cookie_parses_from_multi_cookie_header() {
    let id = SessionId { serial: 3, nonce: 0xdead_beef };
    let hex = String::from_utf8(encode_session_id(id)).unwrap();
    let header = format!("theme=dark; sid={}; lang=en", hex);
    assert_eq!(parse_session_cookie(header.as_bytes()), Some(id));
    let padded = format!("  sid={}  ; lang=en", hex);
    assert_eq!(parse_session_cookie(padded.as_bytes()), Some(id));
    assert_eq!(parse_session_cookie(format!("sid={}", hex).as_bytes()), Some(id));
}

#[test]
fn cookie_parse_rejects_malformed() {
    assert_eq!(parse_session_cookie(b""), None);
    assert_eq!(parse_session_cookie(b"lang=en; theme=dark"), None);
    assert_eq!(parse_session_cookie(b"sid=short"), None);
    assert_eq!(
        parse_session_cookie(b"sid=0123456789ABCDEF0123456789ABCDEF"),
        None
    );
    // the first `sid=` segment wins, even when a later one is well-formed
    let id = SessionId { serial: 1, nonce: 2 };
    let hex = String::from_utf8(encode_session_id(id)).unwrap();
    let header = format!("sid=bogus; sid={}", hex);
    assert_eq!(parse_session_cookie(header.as_bytes()), None);
}

#[test]
fn set_cookie_line_has_fixed_attributes() {
    let id = SessionId { serial: 2, nonce: 7 };
    let hex = String::from_utf8(encode_session_id(id)).unwrap();
    let line = String::from_utf8(set_cookie_line(id)).unwrap();
    assert_eq!(
        line,
        format!("sid={}; Path=/; HttpOnly; SameSite=Strict; Max-Age=3600", hex)
    );
}

#[test]
fn method_classes() {
    assert!(!method_mutates(Method::Get));
    assert!(!method_mutates(Method::Head));
    assert!(!method_mutates(Method::Options));
    assert!(method_mutates(Method::Post));
    assert!(method_mutates(Method::Put));
    assert!(method_mutates(Method::Delete));
    assert!(method_mutates(Method::Patch));
    assert!(method_mutates(Method::Other));
}

#[test]
fn first_visit_sets_cookie_and_token_then_bare_post_is_forbidden() {
    let mut store = SessionStore::new();
    let svc = CsrfService::from_secret(21, 9);
    let now = 1000;
    let est = establish(&mut store, &svc, None, now);
    assert!(est.is_new);
    let line = String::from_utf8(est.cookie_line.clone()).unwrap();
    assert!(line.starts_with("sid="));
    assert!(line.ends_with("; Path=/; HttpOnly; SameSite=Strict; Max-Age=3600"));
    assert_eq!(est.token.len(), 48);
    // a mutating request without the token is rejected
    let ck = cookie_pair(est.session.id);
    let verdict = csrf_gate(&store, &svc, Method::Post, Some(&ck), None, now);
    assert_eq!(verdict, Verdict::Forbidden);
}

#[test]
fn post_with_matching_cookie_and_token_proceeds() {
    let mut store = SessionStore::new();
    let svc = CsrfService::from_secret(21, 9);
    let now = 1000;
    let est = establish(&mut store, &svc, None, now);
    let ck = cookie_pair(est.session.id);
    let verdict = csrf_gate(&store, &svc, Method::Post, Some(&ck), Some(&est.token), now);
    assert_eq!(verdict, Verdict::Proceed);
}

#[test]
fn token_replayed_under_other_cookie_is_forbidden() {
    let mut store = SessionStore::new();
    let svc = CsrfService::from_secret(21, 9);
    let now = 1000;
    let a = establish(&mut store, &svc, None, now);
    let b = establish(&mut store, &svc, None, now);
    let cookie_b = cookie_pair(b.session.id);
    let verdict = csrf_gate(&store, &svc, Method::Post, Some(&cookie_b), Some(&a.token), now);
    assert_eq!(verdict, Verdict::Forbidden);
    // the stolen pair still works where it belongs
    let cookie_a = cookie_pair(a.session.id);
    let ok = csrf_gate(&store, &svc, Method::Post, Some(&cookie_a), Some(&a.token), now);
    assert_eq!(ok, Verdict::Proceed);
}

#[test]
fn stale_cookie_gets_fresh_session_and_sweep_drops_old_entry() {
    let mut store = SessionStore::new();
    let svc = CsrfService::from_secret(5, 6);
    let t0 = 1000;
    let first = establish(&mut store, &svc, None, t0);
    let stale_cookie = cookie_pair(first.session.id);
    let later = t0 + TTL_SECONDS + 1;
    let second = establish(&mut store, &svc, Some(&stale_cookie), later);
    assert!(second.is_new);
    assert_ne!(second.session.id, first.session.id);
    assert_eq!(store.count(), 2);
    store.cleanup_expired(later);
    assert_eq!(store.count(), 1);
    assert!(store.get(first.session.id, later).is_none());
    assert!(store.get(second.session.id, later).is_some());
}

#[test]
fn returning_visitor_keeps_session_and_token() {
    let mut store = SessionStore::new();
    let svc = CsrfService::from_secret(5, 6);
    let first = establish(&mut store, &svc, None, 1000);
    let ck = cookie_pair(first.session.id);
    let second = establish(&mut store, &svc, Some(&ck), 1500);
    assert!(!second.is_new);
    assert_eq!(second.session.id, first.session.id);
    assert_eq!(second.token, first.token);
    assert_eq!(store.count(), 1);
    let got = store.get(first.session.id, 1500).unwrap();
    assert_eq!(got.last_seen_at, 1500);
    assert_eq!(got.created_at, 1000);
}

#[test]
fn read_only_methods_pass_the_gate_without_any_session() {
    let store = SessionStore::new();
    let svc = CsrfService::from_secret(1, 1);
    assert_eq!(
        csrf_gate(&store, &svc, Method::Get, None, None, 0),
        Verdict::Proceed
    );
    assert_eq!(
        csrf_gate(&store, &svc, Method::Head, None, None, 0),
        Verdict::Proceed
    );
    assert_eq!(
        csrf_gate(&store, &svc, Method::Options, None, None, 0),
        Verdict::Proceed
    );
}

#[test]
fn gate_forbids_expired_session_even_with_right_token() {
    let mut store = SessionStore::new();
    let svc = CsrfService::from_secret(8, 8);
    let est = establish(&mut store, &svc, None, 1000);
    let ck = cookie_pair(est.session.id);
    let later = 1000 + TTL_SECONDS + 1;
    let verdict = csrf_gate(&store, &svc, Method::Post, Some(&ck), Some(&est.token), later);
    assert_eq!(verdict, Verdict::Forbidden);
}

#[test]
fn security_headers_are_the_fixed_set() {
    let hs = security_header_list();
    assert_eq!(hs.len(), 13);
    let names: Vec<&str> = hs.iter().map(|p| p.0).collect();
    assert_eq!(
        names,
        vec![
            "content-security-policy",
            "x-content-type-options",
            "x-frame-options",
            "x-xss-protection",
            "referrer-policy",
            "x-dns-prefetch-control",
            "permissions-policy",
            "server",
            "cache-control",
            "pragma",
            "cross-origin-opener-policy",
            "cross-origin-embedder-policy",
            "cross-origin-resource-policy",
        ]
    );
    assert_eq!(hs[1].1, "nosniff");
    assert_eq!(hs[2].1, "DENY");
    assert_eq!(hs[7].1, "");
    assert_eq!(hs[8].1, "no-store, no-cache, must-revalidate");
    assert!(hs[0].1.starts_with("default-src 'self'; script-src 'self' 'sha384-"));
    assert!(hs[0].1.ends_with("object-src 'none'"));
}

#[test]
fn forbidden_body_is_uniform_and_generic() {
    let body = forbidden_body();
    assert!(body.contains("Forbidden"));
    assert!(!body.contains("session"));
    assert!(!body.contains("token"));
}

#[test]
fn maybe_cleanup_sweeps_exactly_or_not_at_all() {
    let mut store = SessionStore::new();
    let old_id = store.create(100).id;
    let new_id = store.create(100).id;
    store.touch(new_id, 9000);
    let swept = maybe_cleanup(&mut store, 9000);
    if swept {
        assert_eq!(store.count(), 1);
        assert!(store.get(old_id, 9000).is_none());
    } else {
        assert_eq!(store.count(), 2);
    }
    assert!(store.get(new_id, 9000).is_some());
}

#[test]
fn random_service_round_trips_its_own_tokens() {
    let svc = CsrfService::new_random();
    let id = SessionId { serial: 1, nonce: 77 };
    let tok = svc.generate_token(id);
    assert!(svc.validate_token(&tok, id));
    assert!(!svc.validate_token(&tok, SessionId { serial: 2, nonce: 77 }));
}
