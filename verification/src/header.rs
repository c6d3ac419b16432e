//! The header codec contract: every concrete header type decodes from a
//! raw field and serializes back to a wire line, pinned to a
//! specification-level model of the type.

use vstd::prelude::*;
use vstd::utf8::valid_utf8;
use crate::Error;
use crate::parsing::{comma_items, field_items, views_of};
use crate::raw::Raw;
use crate::text::bytes_to_string;

verus! {

/// The views of a vector of typed values.
pub open spec fn items_view<T: View>(vs: Seq<T>) -> Seq<T::V> {
    Seq::new(vs.len(), |i: int| vs[i]@)
}

/// The codec contract.  A concrete header type names its field, decodes a
/// raw field into a typed value or a typed failure, and serializes a
/// value back to its wire line; both directions are pinned to the type's
/// specification-level model.
pub trait Header: View + Sized {
    /// The field name on the wire.
    spec fn spec_name() -> Seq<char>;

    /// The meaning of a raw field: the decoded model, or the exact error.
    spec fn spec_parse(raw: Seq<Seq<u8>>) -> Result<Self::V, Error>;

    /// The canonical wire line of a value.
    spec fn spec_encode(v: Self::V) -> Seq<u8>;

    /// The field name this type decodes and encodes.
    fn header_name() -> (n: &'static str)
        ensures
            n@ == Self::spec_name(),
    ;

    /// Decodes a raw field: a typed value, or the exact typed failure
    /// that the model assigns to this input.
    fn parse_header(raw: &Raw) -> (r: Result<Self, Error>)
        ensures
            r is Ok <==> Self::spec_parse(raw@) is Ok,
            r matches Ok(v) ==> Self::spec_parse(raw@) matches Ok(m) && v@ == m,
            r matches Err(e) ==> Self::spec_parse(raw@) matches Err(m) && e == m,
    ;

    /// Serializes the value to its canonical wire line.
    fn fmt_header(&self) -> (line: Vec<u8>)
        ensures
            line@ == Self::spec_encode(self@),
    ;
}

/// One element of a comma-delimited header list.
pub trait HeaderItem: View + Sized {
    /// The meaning of one trimmed, nonempty, valid-UTF-8 list item.
    spec fn spec_parse_item(s: Seq<u8>) -> Option<Self::V>;

    /// The canonical wire text of a value.
    spec fn spec_encode_item(v: Self::V) -> Seq<u8>;

    /// Decodes one list item; `None` marks an unrecognized item, which a
    /// list decoder skips rather than failing.
    fn parse_item(s: &[u8]) -> (r: Option<Self>)
        ensures
            r is Some <==> Self::spec_parse_item(s@) is Some,
            r matches Some(v) ==> Self::spec_parse_item(s@) == Some(v@),
    ;

    /// Serializes one list item.
    fn encode_item(&self) -> (r: Vec<u8>)
        ensures
            r@ == Self::spec_encode_item(self@),
    ;
}

/// A value whose canonical item text survives the list codec: it is
/// nonempty valid UTF-8 that parses back to the value and holds no
/// comma, quote, or marginal whitespace.
pub open spec fn item_list_safe<T: HeaderItem>(v: T::V) -> bool {
    let b = T::spec_encode_item(v);
    &&& T::spec_parse_item(b) == Some(v)
    &&& b.len() > 0
    &&& valid_utf8(b)
    &&& !crate::parsing::is_ws(b[0])
    &&& !crate::parsing::is_ws(b.last())
    &&& forall|i: int| 0 <= i < b.len() ==> b[i] != 0x2c && b[i] != 0x22
}

/// A value whose canonical item text additionally holds no parameter
/// separator, so a `;q=` suffix can follow it.
pub open spec fn item_wire_safe<T: HeaderItem>(v: T::V) -> bool {
    let b = T::spec_encode_item(v);
    &&& item_list_safe::<T>(v)
    &&& forall|i: int| 0 <= i < b.len() ==> b[i] != 0x3b
}

/// Every raw line of the field is valid UTF-8 text.
pub open spec fn lines_utf8(lines: Seq<Seq<u8>>) -> bool {
    forall|i: int| 0 <= i < lines.len() ==> valid_utf8(lines[i])
}

/// The values of the recognized items, in wire order; unrecognized items
/// are skipped.
pub open spec fn parsed_items<T: HeaderItem>(items: Seq<Seq<u8>>) -> Seq<T::V>
    decreases items.len(),
{
    if items.len() == 0 {
        Seq::empty()
    } else {
        let rest = parsed_items::<T>(items.drop_last());
        match T::spec_parse_item(items.last()) {
            Some(v) => rest.push(v),
            None => rest,
        }
    }
}

/// The meaning of a raw field read as a comma-delimited list of `T`:
/// text that is not UTF-8 is a malformed field; otherwise the recognized
/// items, unrecognized ones skipped.
pub open spec fn spec_list_parse<T: HeaderItem>(lines: Seq<Seq<u8>>) -> Result<Seq<T::V>, Error> {
    if lines_utf8(lines) {
        Ok(parsed_items::<T>(field_items(lines)))
    } else {
        Err(Error::Utf8)
    }
}

/// The canonical wire line of a list: items separated by `, `.
pub open spec fn spec_list_encode<T: HeaderItem>(vs: Seq<T::V>) -> Seq<u8>
    decreases vs.len(),
{
    if vs.len() == 0 {
        Seq::empty()
    } else if vs.len() == 1 {
        T::spec_encode_item(vs[0])
    } else {
        spec_list_encode::<T>(vs.drop_last()) + seq![0x2cu8, 0x20u8] + T::spec_encode_item(
            vs.last(),
        )
    }
}

/// Decodes a raw field as a comma-delimited list of `T`; see
/// [`spec_list_parse`].
pub fn from_comma_delimited<T: HeaderItem>(raw: &Raw) -> (r: Result<Vec<T>, Error>)
    ensures
        r is Ok <==> spec_list_parse::<T>(raw@) is Ok,
        r matches Ok(vs) ==> spec_list_parse::<T>(raw@) matches Ok(m) && items_view(vs@) == m,
        r matches Err(e) ==> spec_list_parse::<T>(raw@) matches Err(m) && e == m,
{
    let n = raw.len();
    let mut i: usize = 0;
    while i < n
        invariant
            i <= n,
            n == raw@.len(),
            forall|j: int| 0 <= j < i ==> valid_utf8(raw@[j]),
        decreases n - i,
    {
        match bytes_to_string(raw.line(i).as_slice()) {
            Ok(_) => {},
            Err(_) => {
                return Err(Error::Utf8);
            },
        }
        i += 1;
    }
    let items = comma_items(raw);
    let mut out: Vec<T> = Vec::new();
    let m = items.len();
    let mut k: usize = 0;
    while k < m
        invariant
            k <= m,
            m == items@.len(),
            views_of(items@) == field_items(raw@),
            items_view(out@) == parsed_items::<T>(views_of(items@).take(k as int)),
        decreases m - k,
    {
        let ghost pref = views_of(items@).take(k as int);
        proof {
            assert(views_of(items@).take(k + 1).drop_last() =~= pref);
            assert(views_of(items@).take(k + 1).last() == items@[k as int]@);
        }
        match T::parse_item(items[k].as_slice()) {
            Some(v) => {
                let ghost old_out = out@;
                out.push(v);
                proof {
                    assert(items_view(out@) =~= items_view(old_out).push(out@.last()@));
                }
            },
            None => {},
        }
        k += 1;
    }
    proof {
        assert(views_of(items@).take(m as int) =~= views_of(items@));
    }
    Ok(out)
}

/// The canonical item texts of the values, in order.
pub open spec fn encoded_items<T: HeaderItem>(vs: Seq<T::V>) -> Seq<Seq<u8>> {
    vs.map_values(|v: T::V| T::spec_encode_item(v))
}

proof fn lemma_list_encode_front<T: HeaderItem>(vs: Seq<T::V>)
    requires
        vs.len() >= 2,
    ensures
        spec_list_encode::<T>(vs) == T::spec_encode_item(vs[0]) + seq![0x2cu8, 0x20u8]
            + spec_list_encode::<T>(vs.drop_first()),
    decreases vs.len(),
{
    if vs.len() == 2 {
        assert(vs.drop_last() =~= seq![vs[0]]);
        assert(vs.drop_first() =~= seq![vs[1]]);
        assert(spec_list_encode::<T>(seq![vs[0]]) == T::spec_encode_item(vs[0]));
        assert(spec_list_encode::<T>(seq![vs[1]]) == T::spec_encode_item(vs[1]));
        assert(spec_list_encode::<T>(vs) =~= T::spec_encode_item(vs[0]) + seq![0x2cu8, 0x20u8]
            + T::spec_encode_item(vs[1]));
    } else {
        lemma_list_encode_front::<T>(vs.drop_last());
        assert(vs.drop_last()[0] == vs[0]);
        assert(vs.drop_last().drop_first() =~= vs.drop_first().drop_last());
        assert(vs.drop_first().last() == vs.last());
        assert((T::spec_encode_item(vs[0]) + seq![0x2cu8, 0x20u8] + spec_list_encode::<T>(
            vs.drop_first().drop_last(),
        )) + seq![0x2cu8, 0x20u8] + T::spec_encode_item(vs.last()) =~= T::spec_encode_item(vs[0])
            + seq![0x2cu8, 0x20u8] + (spec_list_encode::<T>(vs.drop_first().drop_last())
            + seq![0x2cu8, 0x20u8] + T::spec_encode_item(vs.last())));
    }
}

proof fn lemma_list_items<T: HeaderItem>(vs: Seq<T::V>, pad: Seq<u8>)
    requires
        vs.len() >= 1,
        forall|i: int| 0 <= i < vs.len() ==> item_list_safe::<T>(#[trigger] vs[i]),
        forall|i: int| 0 <= i < pad.len() ==> crate::parsing::is_ws(#[trigger] pad[i]),
    ensures
        crate::parsing::line_items(pad + spec_list_encode::<T>(vs)) == encoded_items::<T>(vs),
    decreases vs.len(),
{
    let enc0 = T::spec_encode_item(vs[0]);
    assert(forall|i: int| 0 <= i < pad.len() ==> pad[i] != 0x2c && pad[i] != 0x22);
    if vs.len() == 1 {
        let s = pad + spec_list_encode::<T>(vs);
        assert(s =~= pad + enc0);
        crate::parsing::lemma_split_whole(s, 0x2c);
        crate::parsing::lemma_trim_ws_prefix(pad, enc0);
        crate::parsing::lemma_trim_id(enc0);
        assert(seq![s].drop_last() =~= Seq::<Seq<u8>>::empty());
        assert(crate::parsing::kept_items(Seq::<Seq<u8>>::empty()) =~= Seq::<Seq<u8>>::empty());
        assert(crate::parsing::kept_items(seq![s]) =~= seq![enc0]);
        assert(encoded_items::<T>(vs) =~= seq![enc0]);
    } else {
        lemma_list_encode_front::<T>(vs);
        let rest = spec_list_encode::<T>(vs.drop_first());
        let s = pad + spec_list_encode::<T>(vs);
        let k = pad.len() + enc0.len();
        assert(s =~= pad + enc0 + seq![0x2cu8, 0x20u8] + rest);
        assert(s[k as int] == 0x2c);
        assert(forall|j: int| 0 <= j < k ==> s[j] != 0x2c && s[j] != 0x22);
        crate::parsing::lemma_split_first(s, 0x2c, k as int);
        let tail = s.skip(k as int + 1);
        assert(s.take(k as int) =~= pad + enc0);
        assert(tail =~= seq![0x20u8] + rest);
        lemma_list_items::<T>(vs.drop_first(), seq![0x20u8]);
        crate::parsing::lemma_kept_concat(
            seq![pad + enc0],
            crate::parsing::split_top(tail, 0x2c),
        );
        crate::parsing::lemma_trim_ws_prefix(pad, enc0);
        crate::parsing::lemma_trim_id(enc0);
        assert(seq![pad + enc0].drop_last() =~= Seq::<Seq<u8>>::empty());
        assert(crate::parsing::kept_items(Seq::<Seq<u8>>::empty()) =~= Seq::<Seq<u8>>::empty());
        assert(crate::parsing::kept_items(seq![pad + enc0]) =~= seq![enc0]);
        assert(crate::parsing::line_items(s) =~= seq![enc0] + encoded_items::<T>(
            vs.drop_first(),
        ));
        assert(encoded_items::<T>(vs) =~= seq![enc0] + encoded_items::<T>(vs.drop_first()));
    }
}

proof fn lemma_parsed_encoded<T: HeaderItem>(vs: Seq<T::V>)
    requires
        forall|i: int| 0 <= i < vs.len() ==> item_list_safe::<T>(#[trigger] vs[i]),
    ensures
        parsed_items::<T>(encoded_items::<T>(vs)) == vs,
    decreases vs.len(),
{
    if vs.len() == 0 {
        assert(encoded_items::<T>(vs) =~= Seq::<Seq<u8>>::empty());
        assert(parsed_items::<T>(encoded_items::<T>(vs)) =~= vs);
    } else {
        lemma_parsed_encoded::<T>(vs.drop_last());
        assert(encoded_items::<T>(vs).drop_last() =~= encoded_items::<T>(vs.drop_last()));
        assert(encoded_items::<T>(vs).last() == T::spec_encode_item(vs.last()));
        assert(parsed_items::<T>(encoded_items::<T>(vs)) =~= vs.drop_last().push(vs.last()));
        assert(vs.drop_last().push(vs.last()) =~= vs);
    }
}

proof fn lemma_list_encode_utf8<T: HeaderItem>(vs: Seq<T::V>)
    requires
        forall|i: int| 0 <= i < vs.len() ==> item_list_safe::<T>(#[trigger] vs[i]),
    ensures
        valid_utf8(spec_list_encode::<T>(vs)),
    decreases vs.len(),
{
    broadcast use vstd::utf8::valid_utf8_concat;

    if vs.len() == 0 {
        assert(valid_utf8(Seq::<u8>::empty()));
    } else if vs.len() == 1 {
        assert(spec_list_encode::<T>(vs) == T::spec_encode_item(vs[0]));
    } else {
        lemma_list_encode_utf8::<T>(vs.drop_last());
        crate::text::lemma_ascii_decode(seq![0x2cu8, 0x20u8]);
        let a = spec_list_encode::<T>(vs.drop_last());
        let sep = seq![0x2cu8, 0x20u8];
        let b = T::spec_encode_item(vs.last());
        assert(valid_utf8(a + sep));
        assert(valid_utf8((a + sep) + b));
        assert(spec_list_encode::<T>(vs) =~= (a + sep) + b);
    }
}

/// Round trip for list-valued headers: a list of values whose item
/// texts survive the codec decodes from its canonical wire line to the
/// same values, in the same order.
pub proof fn lemma_list_round_trip<T: HeaderItem>(vs: Seq<T::V>)
    requires
        forall|i: int| 0 <= i < vs.len() ==> item_list_safe::<T>(#[trigger] vs[i]),
    ensures
        spec_list_parse::<T>(seq![spec_list_encode::<T>(vs)]) == Ok::<Seq<T::V>, Error>(vs),
{
    let line = spec_list_encode::<T>(vs);
    lemma_list_encode_utf8::<T>(vs);
    assert(lines_utf8(seq![line]));
    assert(seq![line].drop_last() =~= Seq::<Seq<u8>>::empty());
    assert(field_items(Seq::<Seq<u8>>::empty()) =~= Seq::<Seq<u8>>::empty());
    assert(field_items(seq![line]) =~= Seq::<Seq<u8>>::empty() + crate::parsing::line_items(
        line,
    ));
    assert(field_items(seq![line]) =~= crate::parsing::line_items(line));
    if vs.len() == 0 {
        crate::parsing::lemma_split_whole(line, 0x2c);
        assert(seq![line].drop_last() =~= Seq::<Seq<u8>>::empty());
        assert(crate::parsing::trim(line) == line);
        assert(crate::parsing::kept_items(Seq::<Seq<u8>>::empty()) =~= Seq::<Seq<u8>>::empty());
        assert(crate::parsing::kept_items(seq![line]) =~= Seq::<Seq<u8>>::empty());
        assert(parsed_items::<T>(Seq::empty()) =~= vs);
    } else {
        lemma_list_items::<T>(vs, Seq::empty());
        assert(Seq::<u8>::empty() + line =~= line);
        lemma_parsed_encoded::<T>(vs);
    }
}

/// The reverse round trip: a raw line that is itself a canonical list
/// encoding decodes and re-encodes to the same line.
pub proof fn lemma_list_reencode<T: HeaderItem>(raw: Seq<u8>)
    requires
        exists|vs: Seq<T::V>|
            raw == spec_list_encode::<T>(vs) && (forall|i: int|
                0 <= i < vs.len() ==> item_list_safe::<T>(#[trigger] vs[i])),
    ensures
        spec_list_parse::<T>(seq![raw]) matches Ok(m) && spec_list_encode::<T>(m) == raw,
{
    let vs = choose|vs: Seq<T::V>|
        raw == spec_list_encode::<T>(vs) && (forall|i: int|
            0 <= i < vs.len() ==> item_list_safe::<T>(#[trigger] vs[i]));
    lemma_list_round_trip::<T>(vs);
}

/// Serializes a list to its canonical wire line; see [`spec_list_encode`].
pub fn fmt_comma_delimited<T: HeaderItem>(vs: &Vec<T>) -> (r: Vec<u8>)
    ensures
        r@ == spec_list_encode::<T>(items_view(vs@)),
{
    let mut out: Vec<u8> = Vec::new();
    let n = vs.len();
    let mut i: usize = 0;
    while i < n
        invariant
            i <= n,
            n == vs@.len(),
            out@ == spec_list_encode::<T>(items_view(vs@).take(i as int)),
        decreases n - i,
    {
        let ghost pref = items_view(vs@).take(i as int);
        proof {
            assert(items_view(vs@).take(i + 1).drop_last() =~= pref);
            assert(items_view(vs@).take(i + 1).last() == vs@[i as int]@);
        }
        if i > 0 {
            out.push(0x2c);
            out.push(0x20);
        }
        let mut item = vs[i].encode_item();
        out.append(&mut item);
        i += 1;
    }
    proof {
        assert(items_view(vs@).take(n as int) =~= items_view(vs@));
    }
    out
}

} // verus!
