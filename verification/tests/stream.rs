use i3bar_river::utils::{
    de_first_json, de_last_json, feed, last_line, settle, skip_separators, ExtractError, Step,
};
use serde_json::Value;

fn array(items: &[u64]) -> Value {
    Value::Array(items.iter().map(|&n| Value::from(n)).collect())
}

fn to_vec_u8(v: Option<Value>) -> Option<Vec<u8>> {
    v.map(|v| serde_json::from_value::<Vec<u8>>(v).unwrap())
}

#[test]
fn streaming_json() {
    let s = b",[2]\n, [3], [4, 3],[32][3] ";
    let (v, rest) = de_first_json(s).ok().unwrap();
    assert_eq!(
        (to_vec_u8(v), rest),
        (Some(vec![2]), &"\n, [3], [4, 3],[32][3] ".as_bytes()[..])
    );
    let (v, rest) = de_last_json(s).ok().unwrap();
    assert_eq!((to_vec_u8(v), rest), (Some(vec![3]), &"".as_bytes()[..]));

    let s = b",[2]\n, [3], [4, 3],[32][3] [2, 4";
    let (v, rest) = de_last_json(s).ok().unwrap();
    assert_eq!((to_vec_u8(v), rest), (Some(vec![3]), &"[2, 4".as_bytes()[..]));

    let s = b",[2]\n, [3], [4, 3],[32] invalid";
    let (v, rest) = de_first_json(s).ok().unwrap();
    assert_eq!(
        (to_vec_u8(v), rest),
        (Some(vec![2]), &"\n, [3], [4, 3],[32] invalid".as_bytes()[..])
    );
    assert!(de_last_json(s).is_err());
}

#[test]
fn test_last_line() {
    let s = b"hello";
    assert_eq!(last_line(s), None);

    let s = b"hello\n";
    assert_eq!(last_line(s), Some((&"hello".as_bytes()[..], &"".as_bytes()[..])));

    let s = b"hello\nworld";
    assert_eq!(last_line(s), Some((&"hello".as_bytes()[..], &"world".as_bytes()[..])));

    let s = b"hello\nworld\n";
    assert_eq!(last_line(s), Some((&"world".as_bytes()[..], &"".as_bytes()[..])));

    let s = b"hello\nworld\n...";
    assert_eq!(last_line(s), Some((&"world".as_bytes()[..], &"...".as_bytes()[..])));
}

#[test]
fn last_line_of_only_newlines() {
    assert_eq!(last_line(b"\n"), Some((&b""[..], &b""[..])));
    assert_eq!(last_line(b"\n\n"), Some((&b""[..], &b""[..])));
    assert_eq!(last_line(b"a\n\nb"), Some((&b""[..], &b"b"[..])));
    assert_eq!(last_line(b""), None);
}

#[test]
fn last_line_drops_older_lines() {
    assert_eq!(last_line(b"one\ntwo\nthree\nfour"), Some((&b"three"[..], &b"four"[..])));
}

#[test]
fn skip_separators_stops_at_other_bytes() {
    assert_eq!(skip_separators(b" ,\n ,x, "), &b"x, "[..]);
    assert_eq!(skip_separators(b"\t [1]"), &b"\t [1]"[..]);
    assert_eq!(skip_separators(b"\r\n"), &b"\r\n"[..]);
    assert_eq!(skip_separators(b" ,\n"), &b""[..]);
    assert_eq!(skip_separators(b""), &b""[..]);
}

#[test]
fn leading_tab_is_not_skipped() {
    // A comma behind a tab is not passed over: the tab ends the separators,
    // and the comma is no value.
    assert!(de_first_json(b"\t,[1]").is_err());
    assert!(de_first_json(b" \t ,[1]").is_err());
    let (v, rest) = de_first_json(b", \n,[1]").ok().unwrap();
    assert_eq!((v, rest), (Some(array(&[1])), &b""[..]));
    // A carriage return is no separator either.
    assert!(de_first_json(b"\r\n,[1]").is_err());
}

#[test]
fn an_incomplete_value_is_kept() {
    let (v, rest) = de_first_json(b" [1, 2").ok().unwrap();
    assert_eq!((v, rest), (None, &b"[1, 2"[..]));
    let (v, rest) = de_first_json(b",\n{\"a\": [1, ").ok().unwrap();
    assert_eq!((v, rest), (None, &b"{\"a\": [1, "[..]));
    let (v, rest) = de_first_json(b"\"abc").ok().unwrap();
    assert_eq!((v, rest), (None, &b"\"abc"[..]));
}

#[test]
fn first_value_is_parsed_not_echoed() {
    let (v, rest) = de_first_json(b"  [10, 20] tail").ok().unwrap();
    assert_eq!(v, Some(array(&[10, 20])));
    assert_eq!(rest, &b" tail"[..]);
    let (v, rest) = de_first_json(b"{\"a\": [1]}{").ok().unwrap();
    let v = v.unwrap();
    assert_eq!(v.get("a"), Some(&array(&[1])));
    assert_eq!(rest, &b"{"[..]);
}

#[test]
fn empty_input_gives_nothing() {
    let (v, rest) = de_first_json(b"").ok().unwrap();
    assert_eq!((v, rest), (None, &b""[..]));
    let (v, rest) = de_last_json(b" , \n").ok().unwrap();
    assert_eq!((v, rest), (None, &b""[..]));
}

#[test]
fn malformed_first_value_is_an_error() {
    match de_first_json(b" ]") {
        Err(ExtractError::Malformed(e)) => assert!(!e.is_eof()),
        Ok(_) => panic!("a syntax error must be reported"),
    }
    assert!(de_first_json(b"[1,]").is_err());
    assert!(de_last_json(b"[1] [2] }").is_err());
}

#[test]
fn settle_on_given_steps() {
    let s = b"[7] rest";
    let r = settle(Step { item: Some(Ok(array(&[7]))), offset: 3 }, s).ok().unwrap();
    assert_eq!(r, (Some(array(&[7])), &b" rest"[..]));
    let r = settle(Step { item: None, offset: 8 }, s).ok().unwrap();
    assert_eq!(r, (None, &b""[..]));
    let eof = serde_json::from_slice::<Value>(b"[1").unwrap_err();
    let r = settle(Step { item: Some(Err(eof)), offset: 0 }, s).ok().unwrap();
    assert_eq!(r, (None, &s[..]));
    let bad = serde_json::from_slice::<Value>(b"]").unwrap_err();
    assert!(settle(Step { item: Some(Err(bad)), offset: 0 }, s).is_err());
}

#[test]
fn feed_waits_for_a_complete_line() {
    let (v, n) = feed(b"[[1], [2]").ok().unwrap();
    assert_eq!((v, n), (None, 0));
    let (v, n) = feed(b"").ok().unwrap();
    assert_eq!((v, n), (None, 0));
}

#[test]
fn feed_returns_the_newest_line() {
    let buf = b"[1],\n[2],\n[3],\n[4";
    let (v, n) = feed(buf).ok().unwrap();
    assert_eq!(v, Some(array(&[3])));
    assert_eq!(n, 15);
    assert_eq!(&buf[n..], &b"[4"[..]);
}

#[test]
fn feed_takes_the_last_value_of_the_line() {
    let buf = b"[1] [2], [3]\n";
    let (v, n) = feed(buf).ok().unwrap();
    assert_eq!(v, Some(array(&[3])));
    assert_eq!(n, buf.len());
}

#[test]
fn feed_of_a_line_without_value() {
    let (v, n) = feed(b" , \nxyz").ok().unwrap();
    assert_eq!(v, None);
    assert_eq!(n, 4);
    // A value cut by the newline is not an error: its line is dropped.
    let (v, n) = feed(b"[1, 2\n").ok().unwrap();
    assert_eq!((v, n), (None, 6));
}

#[test]
fn feed_reports_a_malformed_line() {
    match feed(b"[1] nonsense\n[2") {
        Err(ExtractError::Malformed(_)) => {}
        Ok(_) => panic!("a malformed line must be reported"),
    }
    // Malformed bytes in an older line are not looked at.
    let (v, _) = feed(b"nonsense\n[5]\n").ok().unwrap();
    assert_eq!(v, Some(array(&[5])));
}
