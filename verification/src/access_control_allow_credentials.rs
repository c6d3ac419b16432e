//! `Access-Control-Allow-Credentials` response header: its only legal
//! value is `true`, so the type carries no data.

use vstd::prelude::*;
use vstd::string::{StrSliceExecFns, StringSliceAdditionalSpecFns};
use crate::Error;
use crate::header::Header;
use crate::raw::Raw;
use crate::text::{ascii_caseless_eq, bytes_to_string, eq_ascii, is_ascii_bytes, lemma_ascii_decode, lower_byte, lower_bytes};

verus! {

/// `Access-Control-Allow-Credentials` header.  The field's only value is
/// `true`, matched ignoring ASCII letter case, so the header is a bare
/// marker.
#[derive(Clone, Copy, Debug, PartialEq, Eq, Structural)]
pub struct AccessControlAllowCredentials;

impl View for AccessControlAllowCredentials {
    type V = AccessControlAllowCredentials;

    open spec fn view(&self) -> AccessControlAllowCredentials {
        *self
    }
}

impl Header for AccessControlAllowCredentials {
    open spec fn spec_name() -> Seq<char> {
        "Access-Control-Allow-Credentials"@
    }

    /// Exactly one raw line spelling `true`, ignoring ASCII case, is
    /// accepted; everything else is a malformed field.
    open spec fn spec_parse(raw: Seq<Seq<u8>>) -> Result<AccessControlAllowCredentials, Error> {
        if raw.len() == 1 && ascii_caseless_eq(raw[0], "true".spec_bytes()) {
            Ok(AccessControlAllowCredentials)
        } else {
            Err(Error::Header)
        }
    }

    open spec fn spec_encode(v: AccessControlAllowCredentials) -> Seq<u8> {
        "true".spec_bytes()
    }

    fn header_name() -> (n: &'static str) {
        "Access-Control-Allow-Credentials"
    }

    fn parse_header(raw: &Raw) -> (r: Result<Self, Error>) {
        match raw.one() {
            Some(line) => {
                match bytes_to_string(line.as_slice()) {
                    Ok(s) => {
                        if eq_ascii(s.as_str(), "true") {
                            Ok(AccessControlAllowCredentials)
                        } else {
                            Err(Error::Header)
                        }
                    },
                    Err(_) => {
                        proof {
                            lemma_not_utf8_not_true(line@);
                        }
                        Err(Error::Header)
                    },
                }
            },
            None => Err(Error::Header),
        }
    }

    fn fmt_header(&self) -> (line: Vec<u8>) {
        "true".as_bytes_vec()
    }
}

/// Bytes that spell `true` up to ASCII case are ASCII, hence UTF-8.
proof fn lemma_not_utf8_not_true(line: Seq<u8>)
    requires
        !vstd::utf8::valid_utf8(line),
    ensures
        !ascii_caseless_eq(line, "true".spec_bytes()),
{
    reveal_strlit("true");
    broadcast use vstd::string::is_ascii_spec_bytes;

    let tb = "true".spec_bytes();
    assert(vstd::string::is_ascii("true"));
    assert(tb.len() == 4);
    if ascii_caseless_eq(line, tb) {
        assert(lower_bytes(line).len() == line.len());
        assert(lower_bytes(tb).len() == tb.len());
        assert forall|i: int| 0 <= i < line.len() implies line[i] < 0x80 by {
            assert(lower_bytes(line)[i] == lower_byte(line[i]));
            assert(lower_bytes(tb)[i] == lower_byte(tb[i]));
            assert(tb[i] < 0x80);
        }
        assert(is_ascii_bytes(line));
        lemma_ascii_decode(line);
    }
}

/// Round trip: decoding the canonical encoding gives the value back.
pub proof fn lemma_allow_credentials_round_trip(v: AccessControlAllowCredentials)
    ensures
        AccessControlAllowCredentials::spec_parse(
            seq![AccessControlAllowCredentials::spec_encode(v)],
        ) == Ok::<AccessControlAllowCredentials, Error>(v),
{
}

} // verus!
