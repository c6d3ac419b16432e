//! `Accept-Ranges` header: the range units a server supports, a
//! nonempty comma-delimited list of tokens.

use vstd::prelude::*;
use vstd::string::{StrSliceExecFns, StringSliceAdditionalSpecFns};
use vstd::utf8::{decode_utf8, encode_utf8, valid_utf8};
use crate::Error;
use crate::header::{
    from_comma_delimited,
    fmt_comma_delimited,
    items_view,
    spec_list_encode,
    spec_list_parse,
    Header,
    HeaderItem,
};
use crate::raw::Raw;
use crate::text::{bytes_eq, bytes_to_string};

verus! {

/// Model of a [`RangeUnit`]: the unit's name as character text.
pub enum RangeUnitModel {
    /// Byte-range requests are supported.
    Bytes,
    /// No ranges are supported.
    NoRanges,
    /// A range unit not registered at IANA.
    Unregistered(Seq<char>),
}

/// A range unit: `bytes`, `none`, or an unregistered unit name.
#[derive(Clone, Debug, Eq, PartialEq)]
pub enum RangeUnit {
    /// Byte-range requests are supported.
    Bytes,
    /// No ranges are supported.
    NoRanges,
    /// A range unit not registered at IANA.
    Unregistered(String),
}

impl View for RangeUnit {
    type V = RangeUnitModel;

    open spec fn view(&self) -> RangeUnitModel {
        match self {
            RangeUnit::Bytes => RangeUnitModel::Bytes,
            RangeUnit::NoRanges => RangeUnitModel::NoRanges,
            RangeUnit::Unregistered(s) => RangeUnitModel::Unregistered(s@),
        }
    }
}

impl HeaderItem for RangeUnit {
    /// `bytes` and `none` name their units; any other UTF-8 text is an
    /// unregistered unit.
    open spec fn spec_parse_item(s: Seq<u8>) -> Option<RangeUnitModel> {
        if s == "bytes".spec_bytes() {
            Some(RangeUnitModel::Bytes)
        } else if s == "none".spec_bytes() {
            Some(RangeUnitModel::NoRanges)
        } else if valid_utf8(s) {
            Some(RangeUnitModel::Unregistered(decode_utf8(s)))
        } else {
            None
        }
    }

    open spec fn spec_encode_item(v: RangeUnitModel) -> Seq<u8> {
        match v {
            RangeUnitModel::Bytes => "bytes".spec_bytes(),
            RangeUnitModel::NoRanges => "none".spec_bytes(),
            RangeUnitModel::Unregistered(s) => encode_utf8(s),
        }
    }

    fn parse_item(s: &[u8]) -> (r: Option<Self>) {
        if bytes_eq(s, "bytes".as_bytes()) {
            Some(RangeUnit::Bytes)
        } else if bytes_eq(s, "none".as_bytes()) {
            Some(RangeUnit::NoRanges)
        } else {
            match bytes_to_string(s) {
                Ok(t) => Some(RangeUnit::Unregistered(t)),
                Err(_) => None,
            }
        }
    }

    fn encode_item(&self) -> (r: Vec<u8>) {
        match self {
            RangeUnit::Bytes => "bytes".as_bytes_vec(),
            RangeUnit::NoRanges => "none".as_bytes_vec(),
            RangeUnit::Unregistered(s) => s.as_str().as_bytes_vec(),
        }
    }
}

/// `Accept-Ranges` header: the range units the server supports.
#[derive(Clone, Debug, PartialEq)]
pub struct AcceptRanges(pub Vec<RangeUnit>);

impl View for AcceptRanges {
    type V = Seq<RangeUnitModel>;

    open spec fn view(&self) -> Seq<RangeUnitModel> {
        items_view(self.0@)
    }
}

impl Header for AcceptRanges {
    open spec fn spec_name() -> Seq<char> {
        "Accept-Ranges"@
    }

    /// A comma-delimited list of range units; a field yielding no unit
    /// at all is malformed.
    open spec fn spec_parse(raw: Seq<Seq<u8>>) -> Result<Seq<RangeUnitModel>, Error> {
        match spec_list_parse::<RangeUnit>(raw) {
            Ok(items) => if items.len() > 0 {
                Ok(items)
            } else {
                Err(Error::Header)
            },
            Err(e) => Err(e),
        }
    }

    open spec fn spec_encode(v: Seq<RangeUnitModel>) -> Seq<u8> {
        spec_list_encode::<RangeUnit>(v)
    }

    fn header_name() -> (n: &'static str) {
        "Accept-Ranges"
    }

    fn parse_header(raw: &Raw) -> (r: Result<Self, Error>) {
        match from_comma_delimited::<RangeUnit>(raw) {
            Ok(items) => if items.len() > 0 {
                Ok(AcceptRanges(items))
            } else {
                Err(Error::Header)
            },
            Err(e) => Err(e),
        }
    }

    fn fmt_header(&self) -> (line: Vec<u8>) {
        fmt_comma_delimited::<RangeUnit>(&self.0)
    }
}

/// A range unit in canonical wire form: an unregistered unit's name
/// spells neither keyword and is a nonempty token without comma, quote
/// or marginal whitespace.
pub open spec fn range_unit_wf(m: RangeUnitModel) -> bool {
    match m {
        RangeUnitModel::Bytes => true,
        RangeUnitModel::NoRanges => true,
        RangeUnitModel::Unregistered(s) => {
            let b = encode_utf8(s);
            &&& s != "bytes"@
            &&& s != "none"@
            &&& b.len() > 0
            &&& !crate::parsing::is_ws(b[0])
            &&& !crate::parsing::is_ws(b.last())
            &&& forall|i: int| 0 <= i < b.len() ==> b[i] != 0x2c && b[i] != 0x22
        },
    }
}

/// A well-formed range unit's item text survives the list codec.
pub proof fn lemma_range_unit_list_safe(m: RangeUnitModel)
    requires
        range_unit_wf(m),
    ensures
        crate::header::item_list_safe::<RangeUnit>(m),
{
    broadcast use vstd::utf8::encode_utf8_valid_utf8;
    broadcast use vstd::utf8::encode_utf8_decode_utf8;
    broadcast use vstd::utf8::is_ascii_chars_encode_utf8;

    reveal_strlit("bytes");
    reveal_strlit("none");
    assert(vstd::utf8::is_ascii_chars("bytes"@));
    assert(vstd::utf8::is_ascii_chars("none"@));
    let bb = "bytes".spec_bytes();
    let nb = "none".spec_bytes();
    assert(bb.len() == 5 && nb.len() == 4);
    assert(forall|i: int| 0 <= i < bb.len() ==> #[trigger] bb[i] == "bytes"@[i] as u8);
    assert(forall|i: int| 0 <= i < nb.len() ==> #[trigger] nb[i] == "none"@[i] as u8);
    match m {
        RangeUnitModel::Bytes => {
        },
        RangeUnitModel::NoRanges => {
        },
        RangeUnitModel::Unregistered(s) => {
            if encode_utf8(s) == bb {
                assert(decode_utf8(encode_utf8(s)) == decode_utf8(encode_utf8("bytes"@)));
            }
            if encode_utf8(s) == nb {
                assert(decode_utf8(encode_utf8(s)) == decode_utf8(encode_utf8("none"@)));
            }
        },
    }
}

/// Round trip: a nonempty list of well-formed range units decodes from
/// its canonical wire line to the same units, in the same order.
pub proof fn lemma_accept_ranges_round_trip(v: Seq<RangeUnitModel>)
    requires
        v.len() > 0,
        forall|i: int| 0 <= i < v.len() ==> range_unit_wf(#[trigger] v[i]),
    ensures
        AcceptRanges::spec_parse(seq![AcceptRanges::spec_encode(v)]) == Ok::<
            Seq<RangeUnitModel>,
            Error,
        >(v),
{
    assert forall|i: int| 0 <= i < v.len() implies crate::header::item_list_safe::<RangeUnit>(
        #[trigger] v[i],
    ) by {
        lemma_range_unit_list_safe(v[i]);
    }
    crate::header::lemma_list_round_trip::<RangeUnit>(v);
}

/// The reverse round trip: a raw line that is itself a canonical
/// encoding of a nonempty list of units decodes and re-encodes to the
/// same line.
pub proof fn lemma_accept_ranges_reencode(raw: Seq<u8>)
    requires
        exists|v: Seq<RangeUnitModel>|
            v.len() > 0 && (forall|i: int| 0 <= i < v.len() ==> range_unit_wf(#[trigger] v[i]))
                && raw == AcceptRanges::spec_encode(v),
    ensures
        AcceptRanges::spec_parse(seq![raw]) matches Ok(m) && AcceptRanges::spec_encode(m) == raw,
{
    let v = choose|v: Seq<RangeUnitModel>|
        v.len() > 0 && (forall|i: int| 0 <= i < v.len() ==> range_unit_wf(#[trigger] v[i]))
            && raw == AcceptRanges::spec_encode(v);
    lemma_accept_ranges_round_trip(v);
}

} // verus!
