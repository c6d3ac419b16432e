//! `Warning` header: a warn code, the agent that added the warning, a
//! quoted warning text, and an optional quoted HTTP date.

use vstd::prelude::*;
use vstd::string::{StrSliceExecFns, StringSliceAdditionalSpecFns};
use vstd::utf8::{decode_utf8, encode_utf8, valid_utf8};
use crate::Error;
use crate::date::{http_date_format, http_date_parse, HttpDate};
use crate::header::Header;
use crate::parsing::{
    dec_bytes,
    dec_bytes_pad3,
    digits_val,
    fmt_u16_pad3,
    parse_u16,
    plain_split,
    plain_split_line,
    trim,
    trim_bytes,
    ws_tokens,
    ws_tokens_vec,
};
use crate::raw::Raw;
use crate::text::bytes_to_string;

verus! {

/// Model of a [`Warning`]: code, agent, text, and the optional date as
/// seconds since the epoch.
pub struct WarningModel {
    /// The three-digit warn code.
    pub code: u16,
    /// The agent that added the warning.
    pub agent: Seq<char>,
    /// The warning text.
    pub text: Seq<char>,
    /// The optional warning date.
    pub date: Option<u64>,
}

/// `Warning` header: extra information about the status or
/// transformation of a message, such as a deprecation notice.
#[derive(Clone, Debug, PartialEq)]
pub struct Warning {
    /// The three-digit warn code.
    pub code: u16,
    /// The name or pseudonym of the server adding this header.
    pub agent: String,
    /// The warning message describing the error.
    pub text: String,
    /// An optional warning date.
    pub date: Option<HttpDate>,
}

impl View for Warning {
    type V = WarningModel;

    open spec fn view(&self) -> WarningModel {
        WarningModel {
            code: self.code,
            agent: self.agent@,
            text: self.text@,
            date: match self.date {
                Some(d) => Some(d@),
                None => None,
            },
        }
    }
}

/// The meaning of one trimmed warning line: the first two
/// whitespace-separated words are the code and the agent, the text
/// stands between the first pair of quotes, and a date, if any, between
/// the second; a date that does not parse is simply absent.  Text that
/// is not UTF-8 is a malformed field.
pub open spec fn warning_from_line(t: Seq<u8>) -> Result<WarningModel, Error> {
    let toks = ws_tokens(t);
    let parts = plain_split(t, 0x22);
    if toks.len() == 0 {
        Err(Error::Header)
    } else if parse_u16_spec(toks[0]) is None {
        Err(Error::Header)
    } else if toks.len() < 2 {
        Err(Error::Header)
    } else if !valid_utf8(toks[1]) {
        Err(Error::Utf8)
    } else if parts.len() < 2 {
        Err(Error::Header)
    } else if !valid_utf8(parts[1]) {
        Err(Error::Utf8)
    } else {
        Ok(
            WarningModel {
                code: parse_u16_spec(toks[0]).unwrap(),
                agent: decode_utf8(toks[1]),
                text: decode_utf8(parts[1]),
                date: if parts.len() >= 4 && valid_utf8(parts[3]) {
                    http_date_parse(decode_utf8(parts[3]))
                } else {
                    None
                },
            },
        )
    }
}

/// The number that a word denotes as a decimal of at most sixteen bits.
pub open spec fn parse_u16_spec(s: Seq<u8>) -> Option<u16> {
    if s.len() > 0 && crate::parsing::all_digits(s) && digits_val(s) <= 0xffff {
        Some(digits_val(s) as u16)
    } else {
        None
    }
}

impl Header for Warning {
    open spec fn spec_name() -> Seq<char> {
        "Warning"@
    }

    /// Exactly one raw line is accepted, trimmed and read as a warning
    /// value; see [`warning_from_line`].
    open spec fn spec_parse(raw: Seq<Seq<u8>>) -> Result<WarningModel, Error> {
        if raw.len() != 1 {
            Err(Error::Header)
        } else if !valid_utf8(raw[0]) {
            Err(Error::Utf8)
        } else {
            warning_from_line(trim(raw[0]))
        }
    }

    /// `code agent "text"`, the code padded to three digits, with
    /// ` "date"` appended when a date is present.
    open spec fn spec_encode(v: WarningModel) -> Seq<u8> {
        dec_bytes_pad3(v.code as int) + seq![0x20u8] + encode_utf8(v.agent) + seq![0x20u8, 0x22u8]
            + encode_utf8(v.text) + seq![0x22u8] + match v.date {
            Some(d) => seq![0x20u8, 0x22u8] + encode_utf8(http_date_format(d)) + seq![0x22u8],
            None => Seq::empty(),
        }
    }

    fn header_name() -> (n: &'static str) {
        "Warning"
    }

    fn parse_header(raw: &Raw) -> (r: Result<Self, Error>) {
        let line = match raw.one() {
            Some(line) => line,
            None => {
                return Err(Error::Header);
            },
        };
        match bytes_to_string(line.as_slice()) {
            Ok(_) => {},
            Err(_) => {
                return Err(Error::Utf8);
            },
        }
        let t = trim_bytes(line.as_slice());
        let toks = ws_tokens_vec(t.as_slice());
        if toks.len() == 0 {
            return Err(Error::Header);
        }
        let code = match parse_u16(toks[0].as_slice()) {
            Some(c) => c,
            None => {
                return Err(Error::Header);
            },
        };
        if toks.len() < 2 {
            return Err(Error::Header);
        }
        let agent = match bytes_to_string(toks[1].as_slice()) {
            Ok(s) => s,
            Err(_) => {
                return Err(Error::Utf8);
            },
        };
        let parts = plain_split_line(t.as_slice(), 0x22);
        if parts.len() < 2 {
            return Err(Error::Header);
        }
        let text = match bytes_to_string(parts[1].as_slice()) {
            Ok(s) => s,
            Err(_) => {
                return Err(Error::Utf8);
            },
        };
        let date = if parts.len() >= 4 {
            match bytes_to_string(parts[3].as_slice()) {
                Ok(ds) => HttpDate::parse(ds.as_str()),
                Err(_) => None,
            }
        } else {
            None
        };
        proof {
            assert(parse_u16_spec(toks@[0]@) == Some(code));
        }
        Ok(Warning { code, agent, text, date })
    }

    fn fmt_header(&self) -> (line: Vec<u8>) {
        let mut out = fmt_u16_pad3(self.code);
        out.push(0x20);
        let mut ab = self.agent.as_str().as_bytes_vec();
        out.append(&mut ab);
        out.push(0x20);
        out.push(0x22);
        let mut tb = self.text.as_str().as_bytes_vec();
        out.append(&mut tb);
        out.push(0x22);
        match &self.date {
            Some(d) => {
                out.push(0x20);
                out.push(0x22);
                let ds = d.format();
                let mut db = ds.as_str().as_bytes_vec();
                out.append(&mut db);
                out.push(0x22);
            },
            None => {},
        }
        proof {
            assert(out@ =~= Self::spec_encode(self@));
        }
        out
    }
}

/// A warning in canonical wire form: the agent is a nonempty word
/// without whitespace or quotes, the text holds no quote, and a date,
/// when present, is one whose quote-free ASCII text reads back to it —
/// what [`crate::date::HttpDate::format`] guarantees of every date it
/// writes.
pub open spec fn warning_wf(v: WarningModel) -> bool {
    let ab = encode_utf8(v.agent);
    let tb = encode_utf8(v.text);
    &&& ab.len() > 0
    &&& forall|i: int|
        0 <= i < ab.len() ==> !crate::parsing::is_ws(#[trigger] ab[i]) && ab[i] != 0x22
    &&& forall|i: int| 0 <= i < tb.len() ==> #[trigger] tb[i] != 0x22
    &&& match v.date {
        Some(d) => {
            let ds = http_date_format(d);
            &&& http_date_parse(ds) == Some(d)
            &&& vstd::utf8::is_ascii_chars(ds)
            &&& forall|i: int| 0 <= i < ds.len() ==> #[trigger] ds[i] != '"'
        },
        None => true,
    }
}

/// Round trip: a well-formed warning decodes from its canonical wire
/// line to the same code, agent, text and date.
#[verifier::rlimit(60)]
pub proof fn lemma_warning_round_trip(v: WarningModel)
    requires
        warning_wf(v),
    ensures
        Warning::spec_parse(seq![Warning::spec_encode(v)]) == Ok::<WarningModel, Error>(v),
{
    broadcast use vstd::utf8::encode_utf8_valid_utf8;
    broadcast use vstd::utf8::encode_utf8_decode_utf8;
    broadcast use vstd::utf8::valid_utf8_concat;
    broadcast use vstd::utf8::is_ascii_chars_encode_utf8;

    let cb = dec_bytes_pad3(v.code as int);
    let ab = encode_utf8(v.agent);
    let tb = encode_utf8(v.text);
    let line = Warning::spec_encode(v);
    let datepart = match v.date {
        Some(d) => seq![0x20u8, 0x22u8] + encode_utf8(http_date_format(d)) + seq![0x22u8],
        None => Seq::<u8>::empty(),
    };

    // the code's digits
    crate::parsing::lemma_dec_bytes_val(v.code as int);
    if (v.code as int) < 10 {
        assert(cb =~= seq![0x30u8] + (seq![0x30u8] + dec_bytes(v.code as int)));
        crate::parsing::lemma_digits_val_leading_zero(dec_bytes(v.code as int));
        crate::parsing::lemma_digits_val_leading_zero(seq![0x30u8] + dec_bytes(v.code as int));
    } else if (v.code as int) < 100 {
        crate::parsing::lemma_digits_val_leading_zero(dec_bytes(v.code as int));
    }
    assert(crate::parsing::all_digits(cb));
    assert(digits_val(cb) == v.code);
    assert(cb.len() > 0);
    assert(parse_u16_spec(cb) == Some(v.code));

    // the line is valid UTF-8 text
    crate::text::lemma_ascii_decode(seq![0x20u8]);
    crate::text::lemma_ascii_decode(seq![0x20u8, 0x22u8]);
    crate::text::lemma_ascii_decode(seq![0x22u8]);
    assert(crate::text::is_ascii_bytes(cb));
    crate::text::lemma_ascii_decode(cb);
    let head = cb + seq![0x20u8] + ab + seq![0x20u8, 0x22u8];
    assert(valid_utf8(cb + seq![0x20u8]));
    assert(valid_utf8((cb + seq![0x20u8]) + ab));
    assert(valid_utf8(((cb + seq![0x20u8]) + ab) + seq![0x20u8, 0x22u8]));
    assert(head =~= ((cb + seq![0x20u8]) + ab) + seq![0x20u8, 0x22u8]);
    match v.date {
        Some(d) => {
            let db = encode_utf8(http_date_format(d));
            assert(valid_utf8(seq![0x20u8, 0x22u8] + db));
            assert(valid_utf8((seq![0x20u8, 0x22u8] + db) + seq![0x22u8]));
            assert(datepart =~= (seq![0x20u8, 0x22u8] + db) + seq![0x22u8]);
        },
        None => {
            assert(valid_utf8(Seq::<u8>::empty()));
        },
    }
    assert(valid_utf8(head + tb));
    assert(valid_utf8((head + tb) + seq![0x22u8]));
    assert(valid_utf8(((head + tb) + seq![0x22u8]) + datepart));
    assert(line =~= ((head + tb) + seq![0x22u8]) + datepart);
    assert(valid_utf8(line));

    // trimming leaves the line unchanged
    assert(line[0] == cb[0]);
    assert(!crate::parsing::is_ws(line[0]));
    match v.date {
        Some(d) => {
            assert(line.last() == 0x22);
        },
        None => {
            assert(line.last() == 0x22);
        },
    }
    crate::parsing::lemma_trim_id(line);

    // the first two whitespace-separated words are the code and the agent
    let rest1 = ab + seq![0x20u8, 0x22u8] + tb + seq![0x22u8] + datepart;
    assert(line.take(cb.len() as int) =~= cb);
    assert(crate::parsing::is_ws(line[cb.len() as int]));
    assert(forall|j: int| 0 <= j < cb.len() ==> !crate::parsing::is_ws(#[trigger] line[j]));
    crate::parsing::lemma_ws_split_first(line, cb.len() as int);
    assert(line.skip((cb.len() + 1) as int) =~= rest1);
    let rest2 = seq![0x22u8] + tb + seq![0x22u8] + datepart;
    assert(rest1.take(ab.len() as int) =~= ab);
    assert(crate::parsing::is_ws(rest1[ab.len() as int]));
    assert(forall|j: int| 0 <= j < ab.len() ==> !crate::parsing::is_ws(#[trigger] rest1[j]));
    crate::parsing::lemma_ws_split_first(rest1, ab.len() as int);
    assert(rest1.skip((ab.len() + 1) as int) =~= rest2);
    let tail_words = crate::parsing::ws_scan(rest2, 0, Seq::empty());
    assert(crate::parsing::ws_scan(line, 0, Seq::empty()) =~= seq![cb, ab] + tail_words);
    crate::parsing::lemma_drop_empties_concat(seq![cb, ab], tail_words);
    assert(seq![cb, ab].drop_last() =~= seq![cb]);
    assert(seq![cb].drop_last() =~= Seq::<Seq<u8>>::empty());
    assert(crate::parsing::drop_empties(Seq::<Seq<u8>>::empty()) =~= Seq::<Seq<u8>>::empty());
    assert(crate::parsing::drop_empties(seq![cb]) =~= seq![cb]);
    assert(crate::parsing::drop_empties(seq![cb, ab]) =~= seq![cb, ab]);
    let toks = ws_tokens(line);
    assert(toks =~= seq![cb, ab] + crate::parsing::drop_empties(tail_words));
    assert(toks.len() >= 2);
    assert(toks[0] == cb && toks[1] == ab);

    // the text between the first pair of quotes, and the date between
    // the second
    let q1 = (cb.len() + 1 + ab.len() + 1) as int;
    assert(line[q1] == 0x22);
    assert(forall|j: int| 0 <= j < q1 ==> #[trigger] line[j] != 0x22);
    crate::parsing::lemma_plain_split_first(line, 0x22, q1);
    assert(line.skip(q1 + 1) =~= tb + seq![0x22u8] + datepart);
    let after_text = tb + seq![0x22u8] + datepart;
    assert(after_text[tb.len() as int] == 0x22);
    assert(forall|j: int| 0 <= j < tb.len() ==> #[trigger] after_text[j] != 0x22);
    crate::parsing::lemma_plain_split_first(after_text, 0x22, tb.len() as int);
    assert(after_text.take(tb.len() as int) =~= tb);
    assert(after_text.skip((tb.len() + 1) as int) =~= datepart);
    let parts = plain_split(line, 0x22);
    match v.date {
        None => {
            assert(datepart.len() == 0);
            crate::parsing::lemma_plain_split_whole(datepart, 0x22);
            assert(parts =~= seq![line.take(q1), tb, datepart]);
            assert(parts.len() == 3);
            assert(parts[1] == tb);
        },
        Some(d) => {
            let ds = http_date_format(d);
            let db = encode_utf8(ds);
            assert(forall|i: int| 0 <= i < ds.len() ==> #[trigger] db[i] == ds[i] as u8);
            assert(forall|i: int| 0 <= i < db.len() ==> ds[i] != '"' && ('"' as u8) == 0x22);
            assert(forall|i: int| 0 <= i < db.len() ==> #[trigger] db[i] != 0x22) by {
                assert(forall|i: int|
                    0 <= i < db.len() ==> #[trigger] db[i] == ds[i] as u8 && ds[i] as u8 == (
                    ds[i] as u32) as u8);
            }
            assert(datepart[1] == 0x22);
            assert(datepart[0] == 0x20 && !(datepart[0] == 0x22));
            crate::parsing::lemma_plain_split_first(datepart, 0x22, 1);
            assert(datepart.take(1) =~= seq![0x20u8]);
            assert(datepart.skip(2) =~= db + seq![0x22u8]);
            let after_sp = db + seq![0x22u8];
            assert(after_sp[db.len() as int] == 0x22);
            crate::parsing::lemma_plain_split_first(after_sp, 0x22, db.len() as int);
            assert(after_sp.take(db.len() as int) =~= db);
            assert(after_sp.skip((db.len() + 1) as int) =~= Seq::<u8>::empty());
            crate::parsing::lemma_plain_split_whole(Seq::<u8>::empty(), 0x22);
            assert(parts =~= seq![line.take(q1), tb, seq![0x20u8], db, Seq::<u8>::empty()]);
            assert(parts.len() == 5);
            assert(parts[1] == tb && parts[3] == db);
            crate::text::lemma_ascii_decode(db);
            assert(decode_utf8(db) == ds);
        },
    }
    assert(warning_from_line(line) == Ok::<WarningModel, Error>(
        WarningModel {
            code: v.code,
            agent: decode_utf8(ab),
            text: decode_utf8(tb),
            date: v.date,
        },
    ));
}

/// The reverse round trip: a raw line that is itself a canonical
/// warning encoding decodes and re-encodes to the same line.
pub proof fn lemma_warning_reencode(raw: Seq<u8>)
    requires
        exists|v: WarningModel| warning_wf(v) && raw == Warning::spec_encode(v),
    ensures
        Warning::spec_parse(seq![raw]) matches Ok(m) && Warning::spec_encode(m) == raw,
{
    let v = choose|v: WarningModel| warning_wf(v) && raw == Warning::spec_encode(v);
    lemma_warning_round_trip(v);
}

} // verus!
