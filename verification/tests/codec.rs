use hyperx::accept_ranges::{AcceptRanges, RangeUnit};
use hyperx::cookie::Cookie;
use hyperx::header::{Header, HeaderItem};
use hyperx::last_event_id::LastEventId;
use hyperx::parsing::comma_items;
use hyperx::preference_applied::{Preference, PreferenceApplied};
use hyperx::quality::{parse_qvalue_bytes, q, qitem, QualityItem};
use hyperx::raw::Raw;
use hyperx::referrer_policy::ReferrerPolicy;
use hyperx::warning::Warning;

#[test]
fn test_quality_precision() {
    assert_eq!(parse_qvalue_bytes(b"0.5"), Some(500));
    assert_eq!(parse_qvalue_bytes(b"1"), Some(1000));
    assert_eq!(parse_qvalue_bytes(b"0.667"), Some(667));
    assert_eq!(parse_qvalue_bytes(b"0"), Some(0));
    assert_eq!(parse_qvalue_bytes(b"1.5"), None);
    assert_eq!(parse_qvalue_bytes(b"0.0001"), None);
    assert_eq!(parse_qvalue_bytes(b"1.000"), Some(1000));
    assert_eq!(parse_qvalue_bytes(b"0.05"), Some(50));
    assert_eq!(parse_qvalue_bytes(b"2"), None);
    assert_eq!(parse_qvalue_bytes(b""), None);
}

#[test]
fn test_quality_default_omitted() {
    let item: QualityItem<RangeUnit> = qitem(RangeUnit::Bytes);
    assert_eq!(item.encode_item(), b"bytes".to_vec());
    let weighted = QualityItem {
        item: RangeUnit::Bytes,
        quality: q(500),
    };
    assert_eq!(weighted.encode_item(), b"bytes;q=0.5".to_vec());
    let zero = QualityItem {
        item: RangeUnit::Bytes,
        quality: q(0),
    };
    assert_eq!(zero.encode_item(), b"bytes;q=0".to_vec());
}

#[test]
fn test_quality_default_decoded() {
    let item = QualityItem::<RangeUnit>::parse_item(b"bytes").unwrap();
    assert_eq!(item.quality.value(), 1000);
    let item = QualityItem::<RangeUnit>::parse_item(b"bytes;q=0.5").unwrap();
    assert_eq!(item.quality.value(), 500);
    assert_eq!(item.item, RangeUnit::Bytes);
    let item = QualityItem::<RangeUnit>::parse_item(b"bytes; q=0.667").unwrap();
    assert_eq!(item.quality.value(), 667);
    // a malformed weight fails the item
    assert!(QualityItem::<RangeUnit>::parse_item(b"bytes;q=1.5").is_none());
    // other parameters are ignored
    let item = QualityItem::<RangeUnit>::parse_item(b"bytes;level=1").unwrap();
    assert_eq!(item.quality.value(), 1000);
}

#[test]
fn test_quality_clamped() {
    assert_eq!(q(2000).value(), 1000);
    assert_eq!(q(1000).value(), 1000);
    assert_eq!(q(999).value(), 999);
}

#[test]
fn test_list_tolerance() {
    // empty segments are skipped
    let r = Raw::from_text("a,, b");
    let items = comma_items(&r);
    assert_eq!(items, vec![b"a".to_vec(), b"b".to_vec()]);
    // an empty field is an empty list
    let r = Raw::from_text("");
    assert_eq!(comma_items(&r).len(), 0);
    // a comma inside a quoted string is not a separator
    let r = Raw::from_text("a, \"b,c\", d");
    let items = comma_items(&r);
    assert_eq!(
        items,
        vec![b"a".to_vec(), b"\"b,c\"".to_vec(), b"d".to_vec()]
    );
}

#[test]
fn test_accept_ranges() {
    for line in ["bytes", "none", "unknown-unit", "bytes, unknown-unit"] {
        let r = Raw::from_text(line);
        let v = AcceptRanges::parse_header(&r).unwrap();
        assert_eq!(String::from_utf8(v.fmt_header()).unwrap(), line);
    }
    let r = Raw::from_text("bytes");
    assert_eq!(
        AcceptRanges::parse_header(&r).unwrap(),
        AcceptRanges(vec![RangeUnit::Bytes])
    );
    let r = Raw::from_text("none");
    assert_eq!(
        AcceptRanges::parse_header(&r).unwrap(),
        AcceptRanges(vec![RangeUnit::NoRanges])
    );
    // the list may not be empty
    let r = Raw::from_text("");
    assert!(AcceptRanges::parse_header(&r).is_err());
}

#[test]
fn test_preference_applied_parse() {
    let r = Raw::from_text("respond-async, return=representation, wait=10");
    let v = PreferenceApplied::parse_header(&r).unwrap();
    assert_eq!(
        v,
        PreferenceApplied(vec![
            Preference::RespondAsync,
            Preference::ReturnRepresentation,
            Preference::Wait(10),
        ])
    );
    assert_eq!(
        String::from_utf8(v.fmt_header()).unwrap(),
        "respond-async, return=representation, wait=10"
    );
    let r = Raw::from_text("return=minimal, foo=\"some value\"");
    let v = PreferenceApplied::parse_header(&r).unwrap();
    assert_eq!(
        v,
        PreferenceApplied(vec![
            Preference::ReturnMinimal,
            Preference::Extension("foo".to_owned(), "some value".to_owned(), vec![]),
        ])
    );
    // an empty field has no preference
    let r = Raw::from_text("");
    assert!(PreferenceApplied::parse_header(&r).is_err());
}

#[test]
fn test_decode_is_total() {
    // arbitrary bytes, including text that is not UTF-8, malformed
    // numbers, stray quotes and separators: every decoder returns a
    // value or an error, never panicking
    let nasty: Vec<Vec<u8>> = vec![
        vec![],
        vec![0xff, 0xfe, 0xfd],
        vec![0xc3],
        b"\"".to_vec(),
        b"\\".to_vec(),
        b",,,;;;===".to_vec(),
        b"wait=99999999999999999999".to_vec(),
        b"999999 agent \"text".to_vec(),
        b"bytes;q=0.9999".to_vec(),
        vec![0x00, 0x22, 0x2c, 0x3b, 0x80],
    ];
    for line in &nasty {
        let r = Raw::from_line(line.clone());
        let _ = Cookie::parse_header(&r);
        let _ = Warning::parse_header(&r);
        let _ = ReferrerPolicy::parse_header(&r);
        let _ = AcceptRanges::parse_header(&r);
        let _ = PreferenceApplied::parse_header(&r);
        let _ = LastEventId::parse_header(&r);
    }
}

#[test]
fn test_header_names() {
    assert_eq!(Cookie::header_name(), "Cookie");
    assert_eq!(ReferrerPolicy::header_name(), "Referrer-Policy");
    assert_eq!(Warning::header_name(), "Warning");
    assert_eq!(AcceptRanges::header_name(), "Accept-Ranges");
    assert_eq!(PreferenceApplied::header_name(), "Preference-Applied");
    assert_eq!(LastEventId::header_name(), "Last-Event-ID");
}

#[test]
fn test_referrer_policy_encode() {
    let tokens = [
        (ReferrerPolicy::NoReferrer, "no-referrer"),
        (
            ReferrerPolicy::NoReferrerWhenDowngrade,
            "no-referrer-when-downgrade",
        ),
        (ReferrerPolicy::SameOrigin, "same-origin"),
        (ReferrerPolicy::Origin, "origin"),
        (
            ReferrerPolicy::OriginWhenCrossOrigin,
            "origin-when-cross-origin",
        ),
        (ReferrerPolicy::UnsafeUrl, "unsafe-url"),
        (ReferrerPolicy::StrictOrigin, "strict-origin"),
        (
            ReferrerPolicy::StrictOriginWhenCrossOrigin,
            "strict-origin-when-cross-origin",
        ),
    ];
    for (v, line) in tokens {
        assert_eq!(String::from_utf8(v.fmt_header()).unwrap(), line);
        let r = Raw::from_text(line);
        assert_eq!(ReferrerPolicy::parse_header(&r), Ok(v));
    }
    // the aliases of the legacy spelling
    for (line, v) in [
        ("never", ReferrerPolicy::NoReferrer),
        ("default", ReferrerPolicy::NoReferrerWhenDowngrade),
        ("always", ReferrerPolicy::UnsafeUrl),
        ("ORIGIN", ReferrerPolicy::Origin),
    ] {
        let r = Raw::from_text(line);
        assert_eq!(ReferrerPolicy::parse_header(&r), Ok(v));
    }
}

#[test]
fn test_quality_list_decode() {
    let r = Raw::from_text("bytes;q=0.5, none, waffles;q=0.2");
    let items = hyperx::header::from_comma_delimited::<QualityItem<RangeUnit>>(&r).unwrap();
    assert_eq!(items.len(), 3);
    assert_eq!(items[0].item, RangeUnit::Bytes);
    assert_eq!(items[0].quality.value(), 500);
    assert_eq!(items[1].item, RangeUnit::NoRanges);
    assert_eq!(items[1].quality.value(), 1000);
    assert_eq!(
        items[2].item,
        RangeUnit::Unregistered("waffles".to_owned())
    );
    assert_eq!(items[2].quality.value(), 200);
}

#[test]
fn test_non_ascii_text() {
    // two-byte UTF-8 text decodes as text, not as an error
    let r = Raw::from_text("caf\u{e9}");
    let v = LastEventId::parse_header(&r).unwrap();
    assert_eq!(v, LastEventId("caf\u{e9}".to_owned()));
    assert_eq!(String::from_utf8(v.fmt_header()).unwrap(), "caf\u{e9}");
}
