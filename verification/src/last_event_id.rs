//! `Last-Event-ID` header: the identifier of the last event seen in an
//! event-stream interaction, an arbitrary (possibly empty) string.

use vstd::prelude::*;
use vstd::string::{StrSliceExecFns, StringSliceAdditionalSpecFns};
use vstd::utf8::{decode_utf8, encode_utf8, valid_utf8};
use crate::Error;
use crate::header::Header;
use crate::parsing::{is_ws, lemma_trim_id, trim, trim_bytes};
use crate::raw::Raw;
use crate::text::bytes_to_string;

verus! {

/// `Last-Event-ID` header.  Carries the identifier of the last event of
/// an interaction; the empty string acts as a reset.
#[derive(Clone, Debug, PartialEq)]
pub struct LastEventId(pub String);

impl View for LastEventId {
    type V = Seq<char>;

    open spec fn view(&self) -> Seq<char> {
        self.0@
    }
}

impl Header for LastEventId {
    open spec fn spec_name() -> Seq<char> {
        "Last-Event-ID"@
    }

    /// Exactly one raw line is accepted; its text, trimmed, is the value,
    /// and text that is not UTF-8 is a malformed field.
    open spec fn spec_parse(raw: Seq<Seq<u8>>) -> Result<Seq<char>, Error> {
        if raw.len() != 1 {
            Err(Error::Header)
        } else {
            let t = trim(raw[0]);
            if valid_utf8(t) {
                Ok(decode_utf8(t))
            } else {
                Err(Error::Utf8)
            }
        }
    }

    open spec fn spec_encode(v: Seq<char>) -> Seq<u8> {
        encode_utf8(v)
    }

    fn header_name() -> (n: &'static str) {
        "Last-Event-ID"
    }

    fn parse_header(raw: &Raw) -> (r: Result<Self, Error>) {
        match raw.one() {
            Some(line) => {
                let t = trim_bytes(line.as_slice());
                match bytes_to_string(t.as_slice()) {
                    Ok(s) => Ok(LastEventId(s)),
                    Err(e) => Err(e),
                }
            },
            None => Err(Error::Header),
        }
    }

    fn fmt_header(&self) -> (line: Vec<u8>) {
        self.0.as_str().as_bytes_vec()
    }
}

/// A value in canonical wire form: its UTF-8 bytes carry no marginal
/// whitespace that decoding would trim away.
pub open spec fn last_event_id_wf(v: Seq<char>) -> bool {
    let b = encode_utf8(v);
    b.len() > 0 ==> (!is_ws(b[0]) && !is_ws(b.last()))
}

/// Round trip: decoding the canonical encoding of any well-formed value
/// returns that value.
pub proof fn lemma_last_event_id_round_trip(v: Seq<char>)
    requires
        last_event_id_wf(v),
    ensures
        LastEventId::spec_parse(seq![LastEventId::spec_encode(v)]) == Ok::<Seq<char>, Error>(v),
{
    broadcast use vstd::utf8::encode_utf8_valid_utf8;
    broadcast use vstd::utf8::encode_utf8_decode_utf8;

    lemma_trim_id(encode_utf8(v));
}

/// The reverse round trip: a raw line that is itself a canonical
/// encoding decodes and re-encodes to the same line.
pub proof fn lemma_last_event_id_reencode(raw: Seq<u8>)
    requires
        exists|v: Seq<char>| last_event_id_wf(v) && raw == LastEventId::spec_encode(v),
    ensures
        LastEventId::spec_parse(seq![raw]) matches Ok(m) && LastEventId::spec_encode(m) == raw,
{
    let v = choose|v: Seq<char>| last_event_id_wf(v) && raw == LastEventId::spec_encode(v);
    lemma_last_event_id_round_trip(v);
}

} // verus!
