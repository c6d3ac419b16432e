//! `Access-Control-Allow-Origin` response header: `*`, `null`, or one
//! particular origin.

use vstd::prelude::*;
use vstd::string::{StrSliceExecFns, StringSliceAdditionalSpecFns};
use vstd::utf8::{decode_utf8, encode_utf8, valid_utf8};
use crate::Error;
use crate::header::Header;
use crate::raw::Raw;
use crate::text::{bytes_eq, bytes_to_string};

verus! {

/// Model of [`AccessControlAllowOrigin`]: the origin as character text.
pub enum AllowOrigin {
    /// All origins are allowed.
    Any,
    /// A hidden origin.
    Null,
    /// One particular origin.
    Value(Seq<char>),
}

/// `Access-Control-Allow-Origin` header: whether a resource can be
/// shared, as `*`, `null`, or the allowed origin itself.
#[derive(Clone, Debug)]
pub enum AccessControlAllowOrigin {
    /// All origins are allowed.
    Any,
    /// A hidden origin.
    Null,
    /// One particular origin.
    Value(String),
}

impl View for AccessControlAllowOrigin {
    type V = AllowOrigin;

    open spec fn view(&self) -> AllowOrigin {
        match self {
            AccessControlAllowOrigin::Any => AllowOrigin::Any,
            AccessControlAllowOrigin::Null => AllowOrigin::Null,
            AccessControlAllowOrigin::Value(s) => AllowOrigin::Value(s@),
        }
    }
}

impl Header for AccessControlAllowOrigin {
    open spec fn spec_name() -> Seq<char> {
        "Access-Control-Allow-Origin"@
    }

    /// Exactly one raw line is accepted: `*`, `null`, or any other
    /// UTF-8 text as the origin value; text that is neither of the two
    /// keywords nor UTF-8 is a malformed field.
    open spec fn spec_parse(raw: Seq<Seq<u8>>) -> Result<AllowOrigin, Error> {
        if raw.len() != 1 {
            Err(Error::Header)
        } else if raw[0] == "*".spec_bytes() {
            Ok(AllowOrigin::Any)
        } else if raw[0] == "null".spec_bytes() {
            Ok(AllowOrigin::Null)
        } else if valid_utf8(raw[0]) {
            Ok(AllowOrigin::Value(decode_utf8(raw[0])))
        } else {
            Err(Error::Utf8)
        }
    }

    open spec fn spec_encode(v: AllowOrigin) -> Seq<u8> {
        match v {
            AllowOrigin::Any => "*".spec_bytes(),
            AllowOrigin::Null => "null".spec_bytes(),
            AllowOrigin::Value(s) => encode_utf8(s),
        }
    }

    fn header_name() -> (n: &'static str) {
        "Access-Control-Allow-Origin"
    }

    fn parse_header(raw: &Raw) -> (r: Result<Self, Error>) {
        match raw.one() {
            Some(line) => {
                if bytes_eq(line.as_slice(), "*".as_bytes()) {
                    Ok(AccessControlAllowOrigin::Any)
                } else if bytes_eq(line.as_slice(), "null".as_bytes()) {
                    Ok(AccessControlAllowOrigin::Null)
                } else {
                    match bytes_to_string(line.as_slice()) {
                        Ok(s) => Ok(AccessControlAllowOrigin::Value(s)),
                        Err(e) => Err(e),
                    }
                }
            },
            None => Err(Error::Header),
        }
    }

    fn fmt_header(&self) -> (line: Vec<u8>) {
        match self {
            AccessControlAllowOrigin::Any => "*".as_bytes_vec(),
            AccessControlAllowOrigin::Null => "null".as_bytes_vec(),
            AccessControlAllowOrigin::Value(s) => s.as_str().as_bytes_vec(),
        }
    }
}

/// A value in canonical wire form: an origin value spells neither of the
/// two keywords.
pub open spec fn allow_origin_wf(v: AllowOrigin) -> bool {
    match v {
        AllowOrigin::Value(s) => s != "*"@ && s != "null"@,
        _ => true,
    }
}

/// Round trip: decoding the canonical encoding of any well-formed value
/// returns that value.
pub proof fn lemma_allow_origin_round_trip(v: AllowOrigin)
    requires
        allow_origin_wf(v),
    ensures
        AccessControlAllowOrigin::spec_parse(seq![AccessControlAllowOrigin::spec_encode(v)])
            == Ok::<AllowOrigin, Error>(v),
{
    broadcast use vstd::utf8::encode_utf8_valid_utf8;
    broadcast use vstd::utf8::encode_utf8_decode_utf8;

    reveal_strlit("*");
    reveal_strlit("null");
    match v {
        AllowOrigin::Any => {},
        AllowOrigin::Null => {
            broadcast use vstd::utf8::is_ascii_chars_encode_utf8;

            assert(vstd::utf8::is_ascii_chars("null"@));
            assert(vstd::utf8::is_ascii_chars("*"@));
            assert("null".spec_bytes().len() == 4 && "*".spec_bytes().len() == 1);
        },
        AllowOrigin::Value(s) => {
            if encode_utf8(s) == "*".spec_bytes() {
                assert(decode_utf8(encode_utf8(s)) == decode_utf8(encode_utf8("*"@)));
            }
            if encode_utf8(s) == "null".spec_bytes() {
                assert(decode_utf8(encode_utf8(s)) == decode_utf8(encode_utf8("null"@)));
            }
        },
    }
}

/// The reverse round trip: a raw line that is itself a canonical
/// encoding decodes and re-encodes to the same line.
pub proof fn lemma_allow_origin_reencode(raw: Seq<u8>)
    requires
        exists|v: AllowOrigin|
            allow_origin_wf(v) && raw == AccessControlAllowOrigin::spec_encode(v),
    ensures
        AccessControlAllowOrigin::spec_parse(seq![raw]) matches Ok(m)
            && AccessControlAllowOrigin::spec_encode(m) == raw,
{
    let v = choose|v: AllowOrigin|
        allow_origin_wf(v) && raw == AccessControlAllowOrigin::spec_encode(v);
    lemma_allow_origin_round_trip(v);
}

} // verus!
