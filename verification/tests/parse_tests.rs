use imap_cache_proxy::bytes::parse_num;
use imap_cache_proxy::command::{Verb, parse_command, parse_seq_set};
use imap_cache_proxy::response::{RespLine, classify_response};

#[test]
fn parse_fetch_command() {
    let c = parse_command(&b"a1 FETCH 1 BODY[]\r\n".to_vec()).unwrap();
    assert_eq!(c.tag, b"a1".to_vec());
    assert_eq!(c.verb, Verb::Fetch);
    assert_eq!(c.args, vec![b"1".to_vec(), b"BODY[]".to_vec()]);
}

#[test]
fn parse_is_case_insensitive_on_the_verb() {
    let c = parse_command(&b"a2 fetch 3 BODY[]\r\n".to_vec()).unwrap();
    assert_eq!(c.verb, Verb::Fetch);
    let c = parse_command(&b"a3 Store 1 +FLAGS (\\Seen)\r\n".to_vec()).unwrap();
    assert_eq!(c.verb, Verb::Store);
}

#[test]
fn parse_uid_fetch_command() {
    let c = parse_command(&b"k7 UID FETCH 457 BODY[]\r\n".to_vec()).unwrap();
    assert_eq!(c.tag, b"k7".to_vec());
    assert_eq!(c.verb, Verb::UidFetch);
    assert_eq!(c.args, vec![b"457".to_vec(), b"BODY[]".to_vec()]);
}

#[test]
fn parse_uid_store_is_uid_store() {
    let c = parse_command(&b"k8 UID STORE 4 +FLAGS (\\Deleted)\r\n".to_vec()).unwrap();
    assert_eq!(c.verb, Verb::UidStore);
}

#[test]
fn unknown_verb_parses_as_other() {
    let c = parse_command(&b"z9 XAPPLEPUSHSERVICE foo\r\n".to_vec()).unwrap();
    assert_eq!(c.verb, Verb::Other);
    assert_eq!(c.tag, b"z9".to_vec());
}

#[test]
fn tagless_or_short_lines_do_not_parse() {
    assert!(parse_command(&b"a1\r\n".to_vec()).is_none());
    assert!(parse_command(&b"* 1 EXISTS\r\n".to_vec()).is_none());
    assert!(parse_command(&b"+ go ahead\r\n".to_vec()).is_none());
}

#[test]
fn parse_num_accepts_up_to_nine_digits() {
    assert_eq!(parse_num(&b"0".to_vec()), Some(0));
    assert_eq!(parse_num(&b"457".to_vec()), Some(457));
    assert_eq!(parse_num(&b"999999999".to_vec()), Some(999_999_999));
    assert_eq!(parse_num(&b"1234567890".to_vec()), None);
    assert_eq!(parse_num(&b"".to_vec()), None);
    assert_eq!(parse_num(&b"12a".to_vec()), None);
}

#[test]
fn classify_tagged_ok_and_failures() {
    match classify_response(&b"a1 OK FETCH completed\r\n".to_vec()) {
        RespLine::Tagged { tag, ok } => {
            assert_eq!(tag, b"a1".to_vec());
            assert!(ok);
        },
        _ => panic!("expected a tagged completion"),
    }
    match classify_response(&b"a2 NO no such message\r\n".to_vec()) {
        RespLine::Tagged { tag, ok } => {
            assert_eq!(tag, b"a2".to_vec());
            assert!(!ok);
        },
        _ => panic!("expected a tagged completion"),
    }
    match classify_response(&b"a3 BAD parse error\r\n".to_vec()) {
        RespLine::Tagged { ok, .. } => assert!(!ok),
        _ => panic!("expected a tagged completion"),
    }
}

#[test]
fn classify_untagged_fetch_and_expunge() {
    match classify_response(&b"* 1 FETCH (BODY[] {11}\r\n".to_vec()) {
        RespLine::UntaggedFetch { num } => assert_eq!(num, 1),
        _ => panic!("expected untagged FETCH data"),
    }
    match classify_response(&b"* 3 EXPUNGE\r\n".to_vec()) {
        RespLine::UntaggedExpunge { num } => assert_eq!(num, 3),
        _ => panic!("expected an untagged EXPUNGE"),
    }
}

#[test]
fn classify_other_lines() {
    assert!(matches!(classify_response(&b"* 12 EXISTS\r\n".to_vec()), RespLine::OtherLine));
    assert!(matches!(classify_response(&b"+ continue\r\n".to_vec()), RespLine::OtherLine));
    assert!(matches!(classify_response(&b"\r\n".to_vec()), RespLine::OtherLine));
}

#[test]
fn parse_seq_set_values() {
    assert_eq!(parse_seq_set(&b"7".to_vec()), Some(vec![7]));
    assert_eq!(parse_seq_set(&b"1:3".to_vec()), Some(vec![1, 2, 3]));
    assert_eq!(parse_seq_set(&b"1,4:5,9".to_vec()), Some(vec![1, 4, 5, 9]));
    assert_eq!(parse_seq_set(&b"1:*".to_vec()), None);
    assert_eq!(parse_seq_set(&b"*".to_vec()), None);
    assert_eq!(parse_seq_set(&b"".to_vec()), None);
    assert_eq!(parse_seq_set(&b"5:1".to_vec()), None);
}
