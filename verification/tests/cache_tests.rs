use imap_cache_proxy::cache::{Cache, MessageKey};

fn key(mailbox: &[u8], num: u32, section: &[u8]) -> MessageKey {
    MessageKey { mailbox: mailbox.to_vec(), num, by_uid: false, section: section.to_vec() }
}

#[test]
fn put_get_round_trip() {
    let mut c = Cache::new(100);
    c.put(key(b"INBOX", 1, b"BODY[]"), b"Hello world".to_vec(), 10);
    let got = c.get(&key(b"INBOX", 1, b"BODY[]"), 50);
    assert_eq!(got, Some(b"Hello world".to_vec()));
}

#[test]
fn get_just_before_ttl_still_hits() {
    let mut c = Cache::new(100);
    c.put(key(b"INBOX", 1, b"BODY[]"), b"x".to_vec(), 0);
    assert_eq!(c.get(&key(b"INBOX", 1, b"BODY[]"), 99), Some(b"x".to_vec()));
}

#[test]
fn get_after_ttl_returns_none_and_evicts() {
    let mut c = Cache::new(100);
    c.put(key(b"INBOX", 1, b"BODY[]"), b"x".to_vec(), 0);
    assert_eq!(c.get(&key(b"INBOX", 1, b"BODY[]"), 100), None);
    assert_eq!(c.slots.len(), 0);
}

#[test]
fn put_twice_leaves_one_entry_with_latest_stamp() {
    let mut c = Cache::new(100);
    c.put(key(b"INBOX", 1, b"BODY[]"), b"v".to_vec(), 1);
    c.put(key(b"INBOX", 1, b"BODY[]"), b"v".to_vec(), 2);
    assert_eq!(c.slots.len(), 1);
    assert_eq!(c.slots[0].created_at, 2);
    assert_eq!(c.get(&key(b"INBOX", 1, b"BODY[]"), 3), Some(b"v".to_vec()));
}

#[test]
fn put_overwrites_payload() {
    let mut c = Cache::new(100);
    c.put(key(b"INBOX", 1, b"BODY[]"), b"old".to_vec(), 1);
    c.put(key(b"INBOX", 1, b"BODY[]"), b"new".to_vec(), 2);
    assert_eq!(c.slots.len(), 1);
    assert_eq!(c.get(&key(b"INBOX", 1, b"BODY[]"), 3), Some(b"new".to_vec()));
}

#[test]
fn invalidate_removes_entry() {
    let mut c = Cache::new(100);
    c.put(key(b"INBOX", 1, b"BODY[]"), b"x".to_vec(), 0);
    c.invalidate(&key(b"INBOX", 1, b"BODY[]"));
    assert_eq!(c.get(&key(b"INBOX", 1, b"BODY[]"), 1), None);
}

#[test]
fn invalidate_mailbox_removes_only_that_mailbox() {
    let mut c = Cache::new(100);
    c.put(key(b"INBOX", 1, b"BODY[]"), b"a".to_vec(), 0);
    c.put(key(b"INBOX", 2, b"BODY[]"), b"b".to_vec(), 0);
    c.put(key(b"Work", 1, b"BODY[]"), b"c".to_vec(), 0);
    c.invalidate_mailbox(&b"INBOX".to_vec());
    assert_eq!(c.get(&key(b"INBOX", 1, b"BODY[]"), 1), None);
    assert_eq!(c.get(&key(b"INBOX", 2, b"BODY[]"), 1), None);
    assert_eq!(c.get(&key(b"Work", 1, b"BODY[]"), 1), Some(b"c".to_vec()));
}

#[test]
fn distinct_sections_are_distinct_entries() {
    let mut c = Cache::new(100);
    c.put(key(b"INBOX", 1, b"BODY[]"), b"whole".to_vec(), 0);
    c.put(key(b"INBOX", 1, b"BODY[HEADER]"), b"hdr".to_vec(), 0);
    assert_eq!(c.slots.len(), 2);
    assert_eq!(c.get(&key(b"INBOX", 1, b"BODY[]"), 1), Some(b"whole".to_vec()));
    assert_eq!(c.get(&key(b"INBOX", 1, b"BODY[HEADER]"), 1), Some(b"hdr".to_vec()));
}

#[test]
fn uid_and_sequence_keys_differ() {
    let mut c = Cache::new(100);
    let seq_key = MessageKey {
        mailbox: b"INBOX".to_vec(),
        num: 7,
        by_uid: false,
        section: b"BODY[]".to_vec(),
    };
    let uid_key = MessageKey {
        mailbox: b"INBOX".to_vec(),
        num: 7,
        by_uid: true,
        section: b"BODY[]".to_vec(),
    };
    c.put(
        MessageKey { mailbox: seq_key.mailbox.clone(), num: 7, by_uid: false, section: seq_key.section.clone() },
        b"seq".to_vec(),
        0,
    );
    assert_eq!(c.get(&uid_key, 1), None);
    assert_eq!(c.get(&seq_key, 1), Some(b"seq".to_vec()));
}
