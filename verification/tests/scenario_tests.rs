use imap_cache_proxy::cache::{Cache, MessageKey};
use imap_cache_proxy::policy::{ClientAction, SessionCtx, handle_client_line, handle_server_line,
    handle_server_literal};

const TTL: u64 = 86_400;

fn forward_bytes(act: ClientAction) -> Vec<u8> {
    match act {
        ClientAction::Forward(l) => l,
        ClientAction::Reply(_) => panic!("expected a forward, got a cached reply"),
    }
}

fn reply_bytes(act: ClientAction) -> Vec<u8> {
    match act {
        ClientAction::Reply(r) => r,
        ClientAction::Forward(_) => panic!("expected a cached reply, got a forward"),
    }
}

fn select_inbox(ctx: &mut SessionCtx, cache: &mut Cache, now: u64) {
    let line = b"a0 SELECT INBOX\r\n".to_vec();
    let fwd = forward_bytes(handle_client_line(ctx, cache, &line, now));
    assert_eq!(fwd, line);
}

/// The whole miss-capture flow: the first FETCH is relayed, the server
/// answer is captured into the cache and relayed byte-for-byte.
#[test]
fn fetch_miss_relays_and_captures() {
    let mut ctx = SessionCtx::new();
    let mut cache = Cache::new(TTL);
    select_inbox(&mut ctx, &mut cache, 0);

    let cmd = b"a1 FETCH 1 BODY[]\r\n".to_vec();
    let fwd = forward_bytes(handle_client_line(&mut ctx, &mut cache, &cmd, 1));
    assert_eq!(fwd, cmd);

    let data = b"* 1 FETCH (BODY[] {11}\r\n".to_vec();
    assert_eq!(handle_server_line(&mut ctx, &mut cache, &data, 2), data);
    let lit = b"Hello world".to_vec();
    assert_eq!(handle_server_literal(&mut ctx, &mut cache, &lit, 2), lit);
    let close = b")\r\n".to_vec();
    assert_eq!(handle_server_line(&mut ctx, &mut cache, &close, 2), close);
    let done = b"a1 OK FETCH completed\r\n".to_vec();
    assert_eq!(handle_server_line(&mut ctx, &mut cache, &done, 2), done);

    let key = MessageKey {
        mailbox: b"INBOX".to_vec(),
        num: 1,
        by_uid: false,
        section: b"BODY[]".to_vec(),
    };
    assert_eq!(cache.get(&key, 3), Some(b"Hello world".to_vec()));
}

/// Immediately after the capture, the same FETCH under a new tag is answered
/// from cache with the full wire-compatible response and nothing forwarded.
#[test]
fn second_fetch_is_served_from_cache() {
    let mut ctx = SessionCtx::new();
    let mut cache = Cache::new(TTL);
    select_inbox(&mut ctx, &mut cache, 0);

    let cmd = b"a1 FETCH 1 BODY[]\r\n".to_vec();
    forward_bytes(handle_client_line(&mut ctx, &mut cache, &cmd, 1));
    handle_server_line(&mut ctx, &mut cache, &b"* 1 FETCH (BODY[] {11}\r\n".to_vec(), 2);
    handle_server_literal(&mut ctx, &mut cache, &b"Hello world".to_vec(), 2);
    handle_server_line(&mut ctx, &mut cache, &b")\r\n".to_vec(), 2);
    handle_server_line(&mut ctx, &mut cache, &b"a1 OK FETCH completed\r\n".to_vec(), 2);

    let again = b"a2 FETCH 1 BODY[]\r\n".to_vec();
    let resp = reply_bytes(handle_client_line(&mut ctx, &mut cache, &again, 3));
    assert_eq!(
        resp,
        b"* 1 FETCH (BODY[] {11}\r\nHello world)\r\na2 OK FETCH completed\r\n".to_vec()
    );
    // nothing was marked for upstream: the hit left no pending command behind
    assert_eq!(ctx.pending.len(), 0);
}

/// A FETCH data line without a literal (flags-only data) arms no capture,
/// so a later stray literal is never cached.
#[test]
fn fetch_data_without_literal_is_not_captured() {
    let mut ctx = SessionCtx::new();
    let mut cache = Cache::new(TTL);
    select_inbox(&mut ctx, &mut cache, 0);
    forward_bytes(handle_client_line(&mut ctx, &mut cache, &b"c1 FETCH 1 BODY[]\r\n".to_vec(), 1));
    let flags = b"* 1 FETCH (FLAGS (\\Seen))\r\n".to_vec();
    assert_eq!(handle_server_line(&mut ctx, &mut cache, &flags, 1), flags);
    assert!(ctx.capture.is_none());
    handle_server_line(&mut ctx, &mut cache, &b"c1 OK FETCH completed\r\n".to_vec(), 1);
    assert_eq!(cache.slots.len(), 0);
}

/// STORE then EXPUNGE, both OK, leave no cache entry behind: the next FETCH
/// is forced upstream again.
#[test]
fn store_and_expunge_invalidate_the_cache() {
    let mut ctx = SessionCtx::new();
    let mut cache = Cache::new(TTL);
    select_inbox(&mut ctx, &mut cache, 0);

    forward_bytes(handle_client_line(&mut ctx, &mut cache, &b"a1 FETCH 1 BODY[]\r\n".to_vec(), 1));
    handle_server_line(&mut ctx, &mut cache, &b"* 1 FETCH (BODY[] {11}\r\n".to_vec(), 2);
    handle_server_literal(&mut ctx, &mut cache, &b"Hello world".to_vec(), 2);
    handle_server_line(&mut ctx, &mut cache, &b")\r\n".to_vec(), 2);
    handle_server_line(&mut ctx, &mut cache, &b"a1 OK FETCH completed\r\n".to_vec(), 2);

    let store = b"a3 STORE 1 +FLAGS (\\Deleted)\r\n".to_vec();
    let fwd = forward_bytes(handle_client_line(&mut ctx, &mut cache, &store, 3));
    assert_eq!(fwd, store);
    handle_server_line(&mut ctx, &mut cache, &b"a3 OK STORE completed\r\n".to_vec(), 3);

    let expunge = b"a4 EXPUNGE\r\n".to_vec();
    let fwd = forward_bytes(handle_client_line(&mut ctx, &mut cache, &expunge, 4));
    assert_eq!(fwd, expunge);
    handle_server_line(&mut ctx, &mut cache, &b"* 1 EXPUNGE\r\n".to_vec(), 4);
    handle_server_line(&mut ctx, &mut cache, &b"a4 OK EXPUNGE completed\r\n".to_vec(), 4);

    // the stale entry must not be served: the FETCH goes upstream, and the
    // server's failure will be relayed as-is
    let refetch = b"a5 FETCH 1 BODY[]\r\n".to_vec();
    let fwd = forward_bytes(handle_client_line(&mut ctx, &mut cache, &refetch, 5));
    assert_eq!(fwd, refetch);
    let no = b"a5 NO no such message\r\n".to_vec();
    assert_eq!(handle_server_line(&mut ctx, &mut cache, &no, 5), no);
}

/// After the TTL has elapsed the entry serves nothing and upstream is
/// queried again.
#[test]
fn expired_entry_forces_upstream_requery() {
    let mut ctx = SessionCtx::new();
    let mut cache = Cache::new(TTL);
    select_inbox(&mut ctx, &mut cache, 0);
    cache.put(
        MessageKey {
            mailbox: b"INBOX".to_vec(),
            num: 1,
            by_uid: false,
            section: b"BODY[]".to_vec(),
        },
        b"Hello world".to_vec(),
        0,
    );

    // within TTL: served
    let cmd = b"b1 FETCH 1 BODY[]\r\n".to_vec();
    reply_bytes(handle_client_line(&mut ctx, &mut cache, &cmd, TTL - 1));

    // at TTL: relayed upstream
    let cmd = b"b2 FETCH 1 BODY[]\r\n".to_vec();
    let fwd = forward_bytes(handle_client_line(&mut ctx, &mut cache, &cmd, TTL));
    assert_eq!(fwd, cmd);
}

/// Pure-relay traffic keeps its exact bytes in both directions.
#[test]
fn pure_relay_preserves_bytes() {
    let mut ctx = SessionCtx::new();
    let mut cache = Cache::new(TTL);

    let noop = b"q1 NOOP\r\n".to_vec();
    assert_eq!(forward_bytes(handle_client_line(&mut ctx, &mut cache, &noop, 1)), noop);

    let odd = b"q2 XUNKNOWN some args {3}\r\n".to_vec();
    assert_eq!(forward_bytes(handle_client_line(&mut ctx, &mut cache, &odd, 1)), odd);

    let exists = b"* 12 EXISTS\r\n".to_vec();
    assert_eq!(handle_server_line(&mut ctx, &mut cache, &exists, 1), exists);

    let lit = b"raw literal \r\n bytes".to_vec();
    assert_eq!(handle_server_literal(&mut ctx, &mut cache, &lit, 1), lit);
}

/// FETCHes asking for non-body criteria are never served from cache.
#[test]
fn flags_fetch_is_always_relayed() {
    let mut ctx = SessionCtx::new();
    let mut cache = Cache::new(TTL);
    select_inbox(&mut ctx, &mut cache, 0);
    cache.put(
        MessageKey {
            mailbox: b"INBOX".to_vec(),
            num: 1,
            by_uid: false,
            section: b"BODY[]".to_vec(),
        },
        b"Hello world".to_vec(),
        0,
    );
    let cmd = b"f1 FETCH 1 FLAGS\r\n".to_vec();
    assert_eq!(forward_bytes(handle_client_line(&mut ctx, &mut cache, &cmd, 1)), cmd);
    let cmd = b"f2 FETCH 1 (FLAGS BODY[])\r\n".to_vec();
    assert_eq!(forward_bytes(handle_client_line(&mut ctx, &mut cache, &cmd, 1)), cmd);
}

/// Without a selected mailbox nothing is served from cache.
#[test]
fn no_selected_mailbox_means_no_cache_hit() {
    let mut ctx = SessionCtx::new();
    let mut cache = Cache::new(TTL);
    cache.put(
        MessageKey {
            mailbox: b"INBOX".to_vec(),
            num: 1,
            by_uid: false,
            section: b"BODY[]".to_vec(),
        },
        b"Hello world".to_vec(),
        0,
    );
    let cmd = b"n1 FETCH 1 BODY[]\r\n".to_vec();
    assert_eq!(forward_bytes(handle_client_line(&mut ctx, &mut cache, &cmd, 1)), cmd);
}

/// During IDLE pushed notifications still invalidate, and DONE ends the idle.
#[test]
fn idle_applies_invalidation_and_done_ends_it() {
    let mut ctx = SessionCtx::new();
    let mut cache = Cache::new(TTL);
    select_inbox(&mut ctx, &mut cache, 0);
    cache.put(
        MessageKey {
            mailbox: b"INBOX".to_vec(),
            num: 1,
            by_uid: false,
            section: b"BODY[]".to_vec(),
        },
        b"Hello world".to_vec(),
        0,
    );

    let idle = b"i1 IDLE\r\n".to_vec();
    assert_eq!(forward_bytes(handle_client_line(&mut ctx, &mut cache, &idle, 1)), idle);
    assert!(ctx.idling);

    // while idling, even command-looking lines are only relayed
    let cmd_like = b"i2 FETCH 1 BODY[]\r\n".to_vec();
    assert_eq!(forward_bytes(handle_client_line(&mut ctx, &mut cache, &cmd_like, 1)), cmd_like);
    assert!(ctx.idling);

    // a pushed EXPUNGE invalidates the selected mailbox
    let push = b"* 1 EXPUNGE\r\n".to_vec();
    assert_eq!(handle_server_line(&mut ctx, &mut cache, &push, 2), push);
    let key = MessageKey {
        mailbox: b"INBOX".to_vec(),
        num: 1,
        by_uid: false,
        section: b"BODY[]".to_vec(),
    };
    assert_eq!(cache.get(&key, 2), None);

    let done = b"DONE\r\n".to_vec();
    assert_eq!(forward_bytes(handle_client_line(&mut ctx, &mut cache, &done, 3)), done);
    assert!(!ctx.idling);
}

/// A UID FETCH is captured by matching the `UID n` data item, not the
/// leading sequence number.
#[test]
fn uid_fetch_capture_and_hit() {
    let mut ctx = SessionCtx::new();
    let mut cache = Cache::new(TTL);
    select_inbox(&mut ctx, &mut cache, 0);

    let cmd = b"u1 UID FETCH 457 BODY[]\r\n".to_vec();
    assert_eq!(forward_bytes(handle_client_line(&mut ctx, &mut cache, &cmd, 1)), cmd);

    let data = b"* 3 FETCH (UID 457 BODY[] {2}\r\n".to_vec();
    assert_eq!(handle_server_line(&mut ctx, &mut cache, &data, 2), data);
    handle_server_literal(&mut ctx, &mut cache, &b"hi".to_vec(), 2);
    handle_server_line(&mut ctx, &mut cache, &b")\r\n".to_vec(), 2);
    handle_server_line(&mut ctx, &mut cache, &b"u1 OK UID FETCH completed\r\n".to_vec(), 2);

    let again = b"u2 UID FETCH 457 BODY[]\r\n".to_vec();
    let resp = reply_bytes(handle_client_line(&mut ctx, &mut cache, &again, 3));
    assert_eq!(
        resp,
        b"* 457 FETCH (UID 457 BODY[] {2}\r\nhi)\r\nu2 OK FETCH completed\r\n".to_vec()
    );
}

/// A DELETE of a named mailbox invalidates that mailbox on its OK.
#[test]
fn delete_invalidates_named_mailbox() {
    let mut ctx = SessionCtx::new();
    let mut cache = Cache::new(TTL);
    cache.put(
        MessageKey {
            mailbox: b"Work".to_vec(),
            num: 2,
            by_uid: false,
            section: b"BODY[]".to_vec(),
        },
        b"payload".to_vec(),
        0,
    );
    let del = b"d1 DELETE Work\r\n".to_vec();
    assert_eq!(forward_bytes(handle_client_line(&mut ctx, &mut cache, &del, 1)), del);
    handle_server_line(&mut ctx, &mut cache, &b"d1 OK DELETE completed\r\n".to_vec(), 1);
    let key = MessageKey {
        mailbox: b"Work".to_vec(),
        num: 2,
        by_uid: false,
        section: b"BODY[]".to_vec(),
    };
    assert_eq!(cache.get(&key, 2), None);
}

/// A NO completion does not invalidate.
#[test]
fn failed_store_does_not_invalidate() {
    let mut ctx = SessionCtx::new();
    let mut cache = Cache::new(TTL);
    select_inbox(&mut ctx, &mut cache, 0);
    cache.put(
        MessageKey {
            mailbox: b"INBOX".to_vec(),
            num: 1,
            by_uid: false,
            section: b"BODY[]".to_vec(),
        },
        b"Hello world".to_vec(),
        0,
    );
    let store = b"s1 STORE 1 +FLAGS (\\Seen)\r\n".to_vec();
    forward_bytes(handle_client_line(&mut ctx, &mut cache, &store, 1));
    handle_server_line(&mut ctx, &mut cache, &b"s1 NO store failed\r\n".to_vec(), 1);
    let key = MessageKey {
        mailbox: b"INBOX".to_vec(),
        num: 1,
        by_uid: false,
        section: b"BODY[]".to_vec(),
    };
    assert_eq!(cache.get(&key, 2), Some(b"Hello world".to_vec()));
}

fn seeded_entry(num: u32, by_uid: bool) -> MessageKey {
    MessageKey { mailbox: b"INBOX".to_vec(), num, by_uid, section: b"BODY[]".to_vec() }
}

/// A STORE's OK removes exactly the stored message's entries; entries of
/// unaffected keys in the same mailbox stay untouched.
#[test]
fn store_invalidates_only_its_targets() {
    let mut ctx = SessionCtx::new();
    let mut cache = Cache::new(TTL);
    select_inbox(&mut ctx, &mut cache, 0);
    cache.put(seeded_entry(1, false), b"one".to_vec(), 0);
    cache.put(seeded_entry(2, false), b"two".to_vec(), 0);

    let store = b"t1 STORE 1 +FLAGS (\\Deleted)\r\n".to_vec();
    assert_eq!(forward_bytes(handle_client_line(&mut ctx, &mut cache, &store, 1)), store);
    handle_server_line(&mut ctx, &mut cache, &b"t1 OK STORE completed\r\n".to_vec(), 1);

    assert_eq!(cache.get(&seeded_entry(1, false), 2), None);
    assert_eq!(cache.get(&seeded_entry(2, false), 2), Some(b"two".to_vec()));
}

/// Ranges and comma lists in a STORE's sequence set are resolved exactly.
#[test]
fn store_sequence_set_ranges_and_lists() {
    let mut ctx = SessionCtx::new();
    let mut cache = Cache::new(TTL);
    select_inbox(&mut ctx, &mut cache, 0);
    for n in 1..=4u32 {
        cache.put(seeded_entry(n, false), vec![n as u8], 0);
    }

    let store = b"t2 STORE 1:2 +FLAGS (\\Seen)\r\n".to_vec();
    forward_bytes(handle_client_line(&mut ctx, &mut cache, &store, 1));
    handle_server_line(&mut ctx, &mut cache, &b"t2 OK STORE completed\r\n".to_vec(), 1);
    assert_eq!(cache.get(&seeded_entry(1, false), 2), None);
    assert_eq!(cache.get(&seeded_entry(2, false), 2), None);
    assert_eq!(cache.get(&seeded_entry(3, false), 2), Some(vec![3]));

    let store = b"t3 STORE 3,5 +FLAGS (\\Seen)\r\n".to_vec();
    forward_bytes(handle_client_line(&mut ctx, &mut cache, &store, 3));
    handle_server_line(&mut ctx, &mut cache, &b"t3 OK STORE completed\r\n".to_vec(), 3);
    assert_eq!(cache.get(&seeded_entry(3, false), 4), None);
    assert_eq!(cache.get(&seeded_entry(4, false), 4), Some(vec![4]));
}

/// A UID STORE targets UID-keyed entries; a sequence-keyed entry with the
/// same number is a different key and stays.
#[test]
fn uid_store_targets_uid_keys() {
    let mut ctx = SessionCtx::new();
    let mut cache = Cache::new(TTL);
    select_inbox(&mut ctx, &mut cache, 0);
    cache.put(seeded_entry(457, true), b"uid".to_vec(), 0);
    cache.put(seeded_entry(457, false), b"seq".to_vec(), 0);

    let store = b"t4 UID STORE 457 +FLAGS (\\Seen)\r\n".to_vec();
    forward_bytes(handle_client_line(&mut ctx, &mut cache, &store, 1));
    handle_server_line(&mut ctx, &mut cache, &b"t4 OK STORE completed\r\n".to_vec(), 1);

    assert_eq!(cache.get(&seeded_entry(457, true), 2), None);
    assert_eq!(cache.get(&seeded_entry(457, false), 2), Some(b"seq".to_vec()));
}

/// A STORE whose sequence set cannot be resolved (`*`) falls back to
/// invalidating its whole mailbox — safe, never stale.
#[test]
fn store_unresolvable_set_invalidates_mailbox() {
    let mut ctx = SessionCtx::new();
    let mut cache = Cache::new(TTL);
    select_inbox(&mut ctx, &mut cache, 0);
    cache.put(seeded_entry(5, false), b"five".to_vec(), 0);

    let store = b"t5 STORE 1:* +FLAGS (\\Seen)\r\n".to_vec();
    forward_bytes(handle_client_line(&mut ctx, &mut cache, &store, 1));
    handle_server_line(&mut ctx, &mut cache, &b"t5 OK STORE completed\r\n".to_vec(), 1);

    assert_eq!(cache.get(&seeded_entry(5, false), 2), None);
}

/// A FETCH data line answering a different section than the pending capture
/// asked for arms nothing: the literal is never cached under that key.
#[test]
fn capture_requires_matching_section() {
    let mut ctx = SessionCtx::new();
    let mut cache = Cache::new(TTL);
    select_inbox(&mut ctx, &mut cache, 0);
    let cmd = b"h1 FETCH 1 BODY[HEADER]\r\n".to_vec();
    forward_bytes(handle_client_line(&mut ctx, &mut cache, &cmd, 1));

    let data = b"* 1 FETCH (BODY[] {5}\r\n".to_vec();
    assert_eq!(handle_server_line(&mut ctx, &mut cache, &data, 1), data);
    assert!(ctx.capture.is_none());
    handle_server_literal(&mut ctx, &mut cache, &b"hello".to_vec(), 1);
    handle_server_line(&mut ctx, &mut cache, &b")\r\n".to_vec(), 1);
    handle_server_line(&mut ctx, &mut cache, &b"h1 OK FETCH completed\r\n".to_vec(), 1);

    assert_eq!(cache.slots.len(), 0);
}

/// A `BODY.PEEK[...]` fetch is answered by a `BODY[...]` data item; the
/// capture still matches and the entry serves later peeks.
#[test]
fn body_peek_is_answered_by_body() {
    let mut ctx = SessionCtx::new();
    let mut cache = Cache::new(TTL);
    select_inbox(&mut ctx, &mut cache, 0);
    let cmd = b"p1 FETCH 1 BODY.PEEK[]\r\n".to_vec();
    forward_bytes(handle_client_line(&mut ctx, &mut cache, &cmd, 1));

    let data = b"* 1 FETCH (BODY[] {2}\r\n".to_vec();
    handle_server_line(&mut ctx, &mut cache, &data, 1);
    handle_server_literal(&mut ctx, &mut cache, &b"hi".to_vec(), 1);
    handle_server_line(&mut ctx, &mut cache, &b")\r\n".to_vec(), 1);
    handle_server_line(&mut ctx, &mut cache, &b"p1 OK FETCH completed\r\n".to_vec(), 1);

    let again = b"p2 FETCH 1 BODY.PEEK[]\r\n".to_vec();
    let resp = reply_bytes(handle_client_line(&mut ctx, &mut cache, &again, 2));
    assert_eq!(resp, b"* 1 FETCH (BODY.PEEK[] {2}\r\nhi)\r\np2 OK FETCH completed\r\n".to_vec());
}
