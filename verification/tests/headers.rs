use hyperx::access_control_allow_credentials::AccessControlAllowCredentials;
use hyperx::access_control_allow_origin::AccessControlAllowOrigin;
use hyperx::cookie::Cookie;
use hyperx::date::HttpDate;
use hyperx::header::Header;
use hyperx::last_event_id::LastEventId;
use hyperx::preference_applied::{Preference, PreferenceApplied};
use hyperx::raw::Raw;
use hyperx::referrer_policy::ReferrerPolicy;
use hyperx::warning::Warning;
use hyperx::Error;

#[test]
fn test_set_and_get() {
    let mut cookie = Cookie::new();
    cookie.append("foo", "bar");
    cookie.append("dyn", "amic");

    assert_eq!(cookie.get("foo"), Some("bar"));
    assert_eq!(cookie.get("dyn"), Some("amic"));
    assert!(cookie.get("nope").is_none());

    cookie.append("foo", "notbar");
    assert_eq!(cookie.get("foo"), Some("bar"));

    cookie.set("foo", "hi");
    assert_eq!(cookie.get("foo"), Some("hi"));
    assert_eq!(cookie.get("dyn"), Some("amic"));
}

#[test]
fn test_eq() {
    let mut cookie = Cookie::new();
    let mut cookie2 = Cookie::new();

    // empty is equal
    assert_eq!(cookie, cookie2);

    // left has more params
    cookie.append("foo", "bar");
    assert_ne!(cookie, cookie2);

    // same len, different params
    cookie2.append("bar", "foo");
    assert_ne!(cookie, cookie2);

    // right has more params, and matching KV
    cookie2.append("foo", "bar");
    assert_ne!(cookie, cookie2);

    // same params, different order
    cookie.append("bar", "foo");
    assert_eq!(cookie, cookie2);
}

#[test]
fn test_parse() {
    let mut cookie = Cookie::new();
    let r = Raw::from_line(b"foo=bar".to_vec());
    let parsed = Cookie::parse_header(&r).unwrap();
    cookie.append("foo", "bar");
    assert_eq!(cookie, parsed);

    let parsed = Cookie::parse_header(&r).unwrap();
    assert_eq!(cookie, parsed);

    let r = Raw::from_line(b"foo=bar; baz=quux".to_vec());
    let parsed = Cookie::parse_header(&r).unwrap();
    cookie.append("baz", "quux");
    assert_eq!(cookie, parsed);

    let r = Raw::from_line(b"foo=bar;; baz=quux".to_vec());
    let parsed = Cookie::parse_header(&r).unwrap();
    assert_eq!(cookie, parsed);

    let r = Raw::from_line(b"foo=bar; invalid ; bad; ;; baz=quux".to_vec());
    let parsed = Cookie::parse_header(&r).unwrap();
    assert_eq!(cookie, parsed);

    let r = Raw::from_line(b" foo  =    bar;baz= quux  ".to_vec());
    let parsed = Cookie::parse_header(&r).unwrap();
    assert_eq!(cookie, parsed);

    let r = Raw::from_lines(vec![b"foo  =    bar".to_vec(), b"baz= quux  ".to_vec()]);
    let parsed = Cookie::parse_header(&r).unwrap();
    assert_eq!(cookie, parsed);

    let r = Raw::from_line(b"foo=bar; baz=quux ; empty=".to_vec());
    let parsed = Cookie::parse_header(&r).unwrap();
    cookie.append("empty", "");
    assert_eq!(cookie, parsed);

    let mut cookie = Cookie::new();
    let r = Raw::from_line(b"middle=equals=in=the=middle".to_vec());
    let parsed = Cookie::parse_header(&r).unwrap();
    cookie.append("middle", "equals=in=the=middle");
    assert_eq!(cookie, parsed);

    let r = Raw::from_line(b"middle=equals=in=the=middle; double==2".to_vec());
    let parsed = Cookie::parse_header(&r).unwrap();
    cookie.append("double", "=2");
    assert_eq!(cookie, parsed);
}

#[test]
fn test_format_ignore_parameters() {
    assert_eq!(
        String::from_utf8(
            PreferenceApplied(vec![Preference::Extension(
                "foo".to_owned(),
                "bar".to_owned(),
                vec![
                    ("bar".to_owned(), "foo".to_owned()),
                    ("buz".to_owned(), "".to_owned())
                ]
            )])
            .fmt_header()
        )
        .unwrap(),
        "foo=bar".to_owned()
    );
}

#[test]
fn test_parse_header() {
    let r = Raw::from_text("origin");
    let a: ReferrerPolicy = Header::parse_header(&r).unwrap();
    let b = ReferrerPolicy::Origin;
    assert_eq!(a, b);

    let r = Raw::from_text("foobar");
    let e: Result<ReferrerPolicy, Error> = Header::parse_header(&r);
    assert!(e.is_err());
}

#[test]
fn test_rightmost_header() {
    let r = Raw::from_text("same-origin, origin, foobar");
    let a: ReferrerPolicy = Header::parse_header(&r).unwrap();
    let b = ReferrerPolicy::Origin;
    assert_eq!(a, b);
}

#[test]
fn test_parsing() {
    let r = Raw::from_lines(vec![
        b"112 - \"network down\" \"Sat, 25 Aug 2012 23:34:45 GMT\"".to_vec(),
    ]);
    let warning = Warning::parse_header(&r);
    assert_eq!(
        warning.ok(),
        Some(Warning {
            code: 112,
            agent: "-".to_owned(),
            text: "network down".to_owned(),
            date: HttpDate::parse("Sat, 25 Aug 2012 23:34:45 GMT")
        })
    );

    let r = Raw::from_lines(vec![b"299 api.hyper.rs:8080 \"Deprecated API : \
              use newapi.hyper.rs instead.\""
        .to_vec()]);
    let warning = Warning::parse_header(&r);
    assert_eq!(
        warning.ok(),
        Some(Warning {
            code: 299,
            agent: "api.hyper.rs:8080".to_owned(),
            text: "Deprecated API : use newapi.hyper.rs instead.".to_owned(),
            date: None
        })
    );

    let r = Raw::from_lines(vec![b"299 api.hyper.rs:8080 \"Deprecated API : \
              use newapi.hyper.rs instead.\" \
              \"Tue, 15 Nov 1994 08:12:31 GMT\""
        .to_vec()]);
    let warning = Warning::parse_header(&r);
    assert_eq!(
        warning.ok(),
        Some(Warning {
            code: 299,
            agent: "api.hyper.rs:8080".to_owned(),
            text: "Deprecated API : use newapi.hyper.rs instead.".to_owned(),
            date: HttpDate::parse("Tue, 15 Nov 1994 08:12:31 GMT")
        })
    );
}

#[test]
fn test_cookie_iter_order() {
    let mut cookie = Cookie::new();
    cookie.append("foo", "bar");
    cookie.append("dyn", "amic");
    let mut keys = Vec::new();
    let mut values = Vec::new();
    let mut it = cookie.iter();
    while let Some((k, v)) = it.next() {
        keys.push(k);
        values.push(v);
    }
    assert_eq!(keys, vec!["foo", "dyn"]);
    assert_eq!(values, vec!["bar", "amic"]);
}

#[test]
fn test_cookie_encode() {
    let mut cookie = Cookie::new();
    cookie.append("foo", "bar");
    cookie.append("baz", "quux");
    assert_eq!(
        String::from_utf8(cookie.fmt_header()).unwrap(),
        "foo=bar; baz=quux"
    );
}

#[test]
fn test_cookie_errors() {
    // no line at all
    let r = Raw::from_lines(vec![]);
    assert_eq!(Cookie::parse_header(&r), Err(Error::Header));
    // a line without any pair
    let r = Raw::from_line(b"no pairs here".to_vec());
    assert_eq!(Cookie::parse_header(&r), Err(Error::Header));
    // a line that is not UTF-8
    let r = Raw::from_line(vec![0xff, 0xfe, 0x3d, 0x61]);
    assert_eq!(Cookie::parse_header(&r), Err(Error::Utf8));
}

#[test]
fn test_allow_credentials_parses_case_insensitively() {
    let r = Raw::from_text("true");
    assert!(AccessControlAllowCredentials::parse_header(&r).is_ok());
    let r = Raw::from_text("True");
    assert!(AccessControlAllowCredentials::parse_header(&r).is_ok());
    let r = Raw::from_text("TRUE");
    assert!(AccessControlAllowCredentials::parse_header(&r).is_ok());
    let r = Raw::from_text("false");
    assert_eq!(
        AccessControlAllowCredentials::parse_header(&r),
        Err(Error::Header)
    );
    let r = Raw::from_lines(vec![b"true".to_vec(), b"true".to_vec()]);
    assert!(AccessControlAllowCredentials::parse_header(&r).is_err());
    assert_eq!(
        String::from_utf8(AccessControlAllowCredentials.fmt_header()).unwrap(),
        "true"
    );
}

#[test]
fn test_allow_origin_round_trips() {
    for line in ["null", "*", "http://google.com/"] {
        let r = Raw::from_text(line);
        let v = AccessControlAllowOrigin::parse_header(&r).unwrap();
        assert_eq!(String::from_utf8(v.fmt_header()).unwrap(), line);
    }
    let r = Raw::from_text("*");
    assert!(matches!(
        AccessControlAllowOrigin::parse_header(&r),
        Ok(AccessControlAllowOrigin::Any)
    ));
    let r = Raw::from_text("null");
    assert!(matches!(
        AccessControlAllowOrigin::parse_header(&r),
        Ok(AccessControlAllowOrigin::Null)
    ));
}

#[test]
fn test_last_event_id() {
    let r = Raw::from_line(b"".to_vec());
    assert_eq!(
        LastEventId::parse_header(&r),
        Ok(LastEventId("".to_owned()))
    );
    let r = Raw::from_line(b"1".to_vec());
    assert_eq!(
        LastEventId::parse_header(&r),
        Ok(LastEventId("1".to_owned()))
    );
    let v = LastEventId("1".to_owned());
    assert_eq!(String::from_utf8(v.fmt_header()).unwrap(), "1");
}

#[test]
fn test_warning_encode() {
    let w = Warning {
        code: 299,
        agent: "api.hyper.rs".to_owned(),
        text: "Deprecated".to_owned(),
        date: None,
    };
    assert_eq!(
        String::from_utf8(w.fmt_header()).unwrap(),
        "299 api.hyper.rs \"Deprecated\""
    );
    let w = Warning {
        code: 12,
        agent: "-".to_owned(),
        text: "x".to_owned(),
        date: HttpDate::parse("Tue, 15 Nov 1994 08:12:31 GMT"),
    };
    assert_eq!(
        String::from_utf8(w.fmt_header()).unwrap(),
        "012 - \"x\" \"Tue, 15 Nov 1994 08:12:31 GMT\""
    );
}

#[test]
fn test_http_date_wrappers() {
    // one hour after the epoch, from httpdate's own documentation values
    let d = HttpDate::parse("Thu, 01 Jan 1970 01:00:00 GMT").unwrap();
    assert_eq!(d.secs(), 3600);
    assert_eq!(d.format(), "Thu, 01 Jan 1970 01:00:00 GMT");
    let d2 = HttpDate::parse("Sun, 06 Nov 1994 08:49:37 GMT").unwrap();
    assert_eq!(d2.secs(), 784111777);
    // the legacy formats name the same moment
    assert_eq!(
        HttpDate::parse("Sunday, 06-Nov-94 08:49:37 GMT"),
        Some(d2)
    );
    assert_eq!(HttpDate::parse("Sun Nov  6 08:49:37 1994"), Some(d2));
    assert_eq!(HttpDate::parse("not a date"), None);
    assert!(HttpDate::from_secs(253402300800).is_none());
}
