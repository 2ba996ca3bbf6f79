use evs_delta::delta::{apply_delta, apply_delta_mut, Delta};
use evs_delta::error::Error;
use evs_delta::fingerprint::{fnv1a64, Fingerprint};
use evs_delta::lexer::lex_full;
use evs_delta::id::{NodeId, NodeIdAllocator};
use evs_delta::range::ByteRange;
use evs_delta::version::Version;

#[test]
fn insert_delete_replace() {
    let mut s = String::from("hello");
    apply_delta_mut(&mut s, &Delta::insert(5, "!")).unwrap();
    assert_eq!(s, "hello!");
    apply_delta_mut(&mut s, &Delta::delete(4, 5)).unwrap();
    assert_eq!(s, "hell!");
    apply_delta_mut(&mut s, &Delta::replace(0, 4, "hi")).unwrap();
    assert_eq!(s, "hi!");
}

#[test]
fn composite_is_sequential() {
    let (out, _) = apply_delta(
        "abcd",
        &Delta::composite(vec![Delta::insert(2, "X"), Delta::delete(0, 1)]),
    )
    .unwrap();
    // insert at 2 gives "abXcd", then deleting [0,1) gives "bXcd"
    assert_eq!(out, "bXcd");
}

#[test]
fn rejects_bad_offset() {
    let err = apply_delta("ab", &Delta::insert(3, "x")).unwrap_err();
    assert!(matches!(err, Error::InvalidDelta(_)));
}

#[test]
fn rejects_mid_codepoint() {
    let s = "héllo";
    let pos = s.find('é').unwrap() + 1;
    let err = apply_delta(s, &Delta::insert(pos, "x")).unwrap_err();
    assert!(matches!(err, Error::InvalidDelta(_)));
}

#[test]
fn move_is_unsupported() {
    let err = apply_delta(
        "abc",
        &Delta::Move {
            from_start: 0,
            from_end: 1,
            to: 2,
        },
    )
    .unwrap_err();
    assert!(matches!(err, Error::Unsupported(_)));
}

#[test]
fn deterministic_and_sensitive() {
    let a = Fingerprint::of_bytes(b"hello");
    let b = Fingerprint::of_bytes(b"hello");
    let c = Fingerprint::of_bytes(b"hallo");
    assert_eq!(a, b);
    assert_ne!(a, c);
}

#[test]
fn empty_is_offset_basis() {
    assert_eq!(fnv1a64(b""), 0xcbf29ce484222325);
}

#[test]
fn ids_are_unique_and_ordered() {
    let mut a = NodeIdAllocator::default();
    let x = a.allocate();
    let y = a.allocate();
    assert_ne!(x, y);
    assert!(x < y);
}

#[test]
fn bump_and_stale() {
    let v = Version::never().bump();
    assert_eq!(v.get(), 1);
    assert!(Version::never().is_stale_wrt(v));
    assert!(!v.is_stale_wrt(v));
}

#[test]
fn error_messages_name_the_offset() {
    match apply_delta("ab", &Delta::insert(3, "x")).unwrap_err() {
        Error::InvalidDelta(m) => assert_eq!(m, "offset 3 exceeds length 2"),
        other => panic!("unexpected {other:?}"),
    }
    match apply_delta("héllo", &Delta::insert(2, "x")).unwrap_err() {
        Error::InvalidDelta(m) => assert_eq!(m, "offset 2 is not a UTF-8 char boundary"),
        other => panic!("unexpected {other:?}"),
    }
}

#[test]
fn apply_stats_count_bytes() {
    let (out, stats) = apply_delta("hello", &Delta::replace(1, 3, "EYY")).unwrap();
    assert_eq!(out, "hEYYlo");
    assert_eq!(stats.inserted_bytes, 3);
    assert_eq!(stats.deleted_bytes, 2);
}

#[test]
fn then_matches_applying_in_sequence() {
    let a = Delta::insert(0, "ab");
    let b = Delta::delete(1, 2);
    let (step1, _) = apply_delta("xyz", &a).unwrap();
    let (step2, _) = apply_delta(&step1, &b).unwrap();
    let (both, _) = apply_delta("xyz", &a.then(b)).unwrap();
    assert_eq!(both, step2);
    assert_eq!(both, "axyz");
}

#[test]
fn insert_then_delete_restores() {
    let (grown, _) = apply_delta("hello", &Delta::insert(2, "XYZ")).unwrap();
    let (back, _) = apply_delta(&grown, &Delta::delete(2, 5)).unwrap();
    assert_eq!(back, "hello");
}

#[test]
fn empty_deltas_change_nothing() {
    assert!(Delta::insert(3, "").is_empty());
    assert!(Delta::delete(2, 2).is_empty());
    assert!(!Delta::insert(0, "a").is_empty());
    let (out, _) = apply_delta("abc", &Delta::composite(vec![])).unwrap();
    assert_eq!(out, "abc");
}

#[test]
fn net_char_delta_counts_characters() {
    assert_eq!(Delta::insert(0, "héllo").net_char_delta(), (5, 0));
    assert_eq!(Delta::delete(1, 4).net_char_delta(), (0, 3));
}

#[test]
fn byte_range_rejects_reversed() {
    assert!(matches!(ByteRange::new(3, 1), Err(Error::InvalidDelta(_))));
    let r = ByteRange::new(1, 4).unwrap();
    assert_eq!(r.len(), 3);
    assert!(r.contains(1));
    assert!(!r.contains(4));
    assert!(r.validate_against(4).is_ok());
    assert!(r.validate_against(3).is_err());
}

#[test]
fn fingerprint_hex_is_sixteen_digits() {
    assert_eq!(Fingerprint::from_raw(0xab).hex(), "00000000000000ab");
}

#[test]
fn node_labels() {
    assert_eq!(NodeId::new(3, 7).label(), "n3.7");
    assert_eq!(Version::new(4).label(), "v4");
}

#[test]
fn error_messages_read_like_their_kind() {
    assert_eq!(Error::InvalidDelta("x".to_string()).message(), "invalid delta: x");
    assert_eq!(Error::StaleNode(NodeId::new(2, 5)).message(), "stale generation for node n2.5");
    assert_eq!(Error::Limit("too many".to_string()).message(), "limit exceeded: too many");
}

#[test]
fn empty_delta_leaves_text_unchanged() {
    for d in [Delta::insert(2, ""), Delta::delete(3, 3), Delta::replace(1, 1, ""), Delta::composite(vec![])] {
        assert!(d.is_empty());
        let mut s = String::from("hello");
        apply_delta_mut(&mut s, &d).unwrap();
        assert_eq!(s, "hello");
    }
}

#[test]
fn lexeme_fingerprint_hashes_lexemes_in_order() {
    let ts = lex_full("let a = 1;\nlet b = a;\n");
    let mut bytes: Vec<u8> = Vec::new();
    for t in &ts.tokens {
        bytes.extend_from_slice(t.lexeme.as_bytes());
    }
    assert_eq!(ts.lexeme_fingerprint(), Fingerprint::of_bytes(&bytes));
    let other = lex_full("let b = 1;\nlet a = b;\n");
    assert_ne!(ts.lexeme_fingerprint(), other.lexeme_fingerprint());
    assert_eq!(lex_full("").lexeme_fingerprint(), Fingerprint::of_bytes(&[]));
}

#[test]
fn net_char_delta_counts_chars_and_spans() {
    assert_eq!(Delta::insert(0, "héllo").net_char_delta(), (5, 0));
    assert_eq!(Delta::delete(2, 7).net_char_delta(), (0, 5));
    assert_eq!(Delta::delete(7, 2).net_char_delta(), (0, 0));
    assert_eq!(Delta::replace(1, 4, "ab").net_char_delta(), (2, 3));
    let c = Delta::composite(vec![Delta::insert(0, "xy"), Delta::delete(0, 1), Delta::replace(0, 2, "z")]);
    assert_eq!(c.net_char_delta(), (3, 3));
    assert_eq!(Delta::delete(0, usize::MAX).net_char_delta(), (0, 0));
    assert_eq!(Delta::delete(usize::MAX, 0).net_char_delta(), (0, 1));
}
