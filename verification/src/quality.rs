//! The quality-value codec: the `;q=` weight suffix of content
//! negotiation lists, held as a fixed-point integer in `[0, 1000]`
//! (thousandths) to avoid floating-point drift.

use vstd::prelude::*;
use vstd::utf8::valid_utf8;
use crate::header::HeaderItem;
use crate::parsing::{
    views_of,
    all_digits,
    digits_val,
    is_ws,
    lemma_digits_val_bound,
    lemma_split_first,
    lemma_split_top_nonempty,
    lemma_split_whole,
    lemma_trim_id,
    pow10,
    split_line,
    split_top,
    trim,
    trim_bytes,
};
verus! {

/// A fixed-point preference weight in `[0.000, 1.000]`, held in
/// thousandths.  The default weight of an item with no `;q=` suffix is
/// `1.000`.
#[derive(Clone, Copy, Debug, PartialEq, Eq, Structural)]
pub struct Quality {
    millis: u16,
}

impl View for Quality {
    type V = u16;

    closed spec fn view(&self) -> u16 {
        self.millis
    }
}

impl Quality {
    #[verifier::type_invariant]
    closed spec fn inv(self) -> bool {
        self.millis <= 1000
    }

    /// The weight in thousandths, at most 1000.
    pub fn value(&self) -> (v: u16)
        ensures
            v == self@,
            v <= 1000,
    {
        proof {
            use_type_invariant(self);
        }
        self.millis
    }
}

impl Default for Quality {
    /// The default weight `1.000` of an item with no `;q=` suffix.
    fn default() -> (r: Quality)
        ensures
            r@ == 1000,
    {
        Quality { millis: 1000 }
    }
}

/// A weight of `v` thousandths; a value beyond 1000 is clamped to 1000.
pub fn q(v: u16) -> (r: Quality)
    ensures
        r@ == if v <= 1000 {
            v
        } else {
            1000u16
        },
{
    Quality { millis: if v <= 1000 { v } else { 1000 } }
}

/// An item of a content-negotiation list together with its weight.
#[derive(Clone, Debug)]
pub struct QualityItem<T> {
    /// The item itself.
    pub item: T,
    /// Its preference weight.
    pub quality: Quality,
}

/// Model of a [`QualityItem`]: the item's model and the weight in
/// thousandths.
pub struct QualityItemModel<M> {
    /// Model of the item.
    pub item: M,
    /// The weight in thousandths, at most 1000.
    pub quality: u16,
}

impl<T: View> View for QualityItem<T> {
    type V = QualityItemModel<T::V>;

    open spec fn view(&self) -> QualityItemModel<T::V> {
        QualityItemModel { item: self.item@, quality: self.quality@ }
    }
}

/// An item with the default weight `1.000`.
pub fn qitem<T>(item: T) -> (r: QualityItem<T>)
    ensures
        r.item == item,
        r.quality@ == 1000,
{
    QualityItem { item, quality: q(1000) }
}

/// The number of thousandths that a `q` parameter value denotes: a
/// decimal in `[0, 1]` with at most three fractional digits.  Anything
/// else — out of range, too precise, or not a number — is refused.
pub open spec fn parse_qvalue(w: Seq<u8>) -> Option<u16> {
    if w.len() == 0 {
        None
    } else if w[0] == 0x31 {
        let rest = w.drop_first();
        if rest.len() == 0 {
            Some(1000)
        } else if rest[0] == 0x2e && rest.len() <= 4 && (forall|i: int|
            1 <= i < rest.len() ==> rest[i] == 0x30) {
            Some(1000)
        } else {
            None
        }
    } else if w[0] == 0x30 {
        let rest = w.drop_first();
        if rest.len() == 0 {
            Some(0)
        } else if rest[0] == 0x2e && rest.len() <= 4 && all_digits(rest.drop_first()) {
            Some((digits_val(rest.drop_first()) * pow10(3 - (rest.len() - 1))) as u16)
        } else {
            None
        }
    } else {
        None
    }
}

/// Decodes a `q` parameter value; see [`parse_qvalue`].
pub fn parse_qvalue_bytes(w: &[u8]) -> (r: Option<u16>)
    ensures
        r == parse_qvalue(w@),
        r matches Some(v) ==> v <= 1000,
{
    let n = w.len();
    if n == 0 {
        return None;
    }
    let ghost rest = w@.drop_first();
    let first = *vstd::slice::slice_index_get(w, 0);
    if first == 0x31 {
        if n == 1 {
            return Some(1000);
        }
        if *vstd::slice::slice_index_get(w, 1) != 0x2e || n > 5 {
            proof {
                assert(w@.drop_first()[0] == w@[1]);
            }
            return None;
        }
        let mut i: usize = 2;
        while i < n
            invariant
                2 <= i <= n,
                n == w@.len(),
                n <= 5,
                w@[0] == 0x31,
                w@[1] == 0x2e,
                forall|j: int| 2 <= j < i ==> w@[j] == 0x30,
            decreases n - i,
        {
            if *vstd::slice::slice_index_get(w, i) != 0x30 {
                proof {
                    assert(w@.drop_first() =~= w@.subrange(1, n as int));
                    assert(w@.drop_first()[i - 1] == w@[i as int]);
                }
                return None;
            }
            i += 1;
        }
        proof {
            assert(forall|i: int| 1 <= i < rest.len() ==> rest[i] == w@[i + 1] && w@[i + 1]
                == 0x30);
        }
        Some(1000)
    } else if first == 0x30 {
        if n == 1 {
            return Some(0);
        }
        if *vstd::slice::slice_index_get(w, 1) != 0x2e || n > 5 {
            return None;
        }
        if n == 2 {
            proof {
                assert(rest.drop_first() =~= Seq::<u8>::empty());
                assert(digits_val(Seq::<u8>::empty()) == 0);
            }
            return Some(0);
        }
        let mut val: u16 = 0;
        let mut i: usize = 2;
        while i < n
            invariant
                2 <= i <= n,
                n == w@.len(),
                n <= 5,
                w@[0] == 0x30,
                w@[1] == 0x2e,
                all_digits(w@.subrange(2, i as int)),
                val == digits_val(w@.subrange(2, i as int)),
                val <= 999,
            decreases n - i,
        {
            let c = *vstd::slice::slice_index_get(w, i);
            if c < 0x30 || c > 0x39 {
                proof {
                    assert(w@.drop_first() =~= w@.subrange(1, n as int));
                    assert(w@.drop_first().drop_first() =~= w@.subrange(2, n as int));
                    assert(w@.drop_first().drop_first()[i - 2] == w@[i as int]);
                }
                return None;
            }
            proof {
                assert(w@.subrange(2, i + 1).drop_last() =~= w@.subrange(2, i as int));
                assert(w@.subrange(2, i + 1).last() == w@[i as int]);
                lemma_digits_val_bound(w@.subrange(2, i + 1));
                assert(pow10(0) == 1);
                assert(pow10(1) == 10);
                assert(pow10(2) == 100);
                assert(pow10(3) == 1000);
            }
            val = val * 10 + (c - 0x30) as u16;
            i += 1;
        }
        let scale: u16 = if n == 3 {
            100
        } else if n == 4 {
            10
        } else {
            1
        };
        proof {
            let frac = rest.drop_first();
            assert(frac =~= w@.subrange(2, n as int));
            lemma_digits_val_bound(frac);
            assert(pow10(0) == 1);
            assert(pow10(1) == 10);
            assert(pow10(2) == 100);
            assert(pow10(3) == 1000);
            assert(pow10(3 - (rest.len() - 1)) == scale);
            assert(pow10(frac.len() as int) * scale == 1000);
            assert(digits_val(frac) * scale <= 1000 - scale) by (nonlinear_arith)
                requires
                    0 <= digits_val(frac) < pow10(frac.len() as int),
                    pow10(frac.len() as int) * scale == 1000,
                    scale >= 1,
            ;
        }
        Some(val * scale)
    } else {
        None
    }
}

/// The canonical text of a weight below the default: `0`, or `0.` and
/// up to three fractional digits with trailing zeros trimmed.
pub open spec fn qvalue_bytes(qv: u16) -> Seq<u8>
    recommends
        qv < 1000,
{
    if qv == 0 {
        seq![0x30u8]
    } else {
        let d1 = (0x30 + qv / 100) as u8;
        let d2 = (0x30 + (qv / 10) % 10) as u8;
        let d3 = (0x30 + qv % 10) as u8;
        seq![0x30u8, 0x2eu8] + if qv % 10 != 0 {
            seq![d1, d2, d3]
        } else if (qv / 10) % 10 != 0 {
            seq![d1, d2]
        } else {
            seq![d1]
        }
    }
}

/// Formats a weight below the default; see [`qvalue_bytes`].
pub fn fmt_qvalue(qv: u16) -> (r: Vec<u8>)
    requires
        qv < 1000,
    ensures
        r@ == qvalue_bytes(qv),
{
    let mut r: Vec<u8> = Vec::new();
    if qv == 0 {
        r.push(0x30);
    } else {
        r.push(0x30);
        r.push(0x2e);
        r.push(0x30 + (qv / 100) as u8);
        if qv % 10 != 0 {
            r.push(0x30 + ((qv / 10) % 10) as u8);
            r.push(0x30 + (qv % 10) as u8);
        } else if (qv / 10) % 10 != 0 {
            r.push(0x30 + ((qv / 10) % 10) as u8);
        }
    }
    proof {
        assert(r@ =~= qvalue_bytes(qv));
    }
    r
}

/// Whether a trimmed parameter segment names the weight: `q=` or `Q=`.
pub open spec fn is_q_param(t: Seq<u8>) -> bool {
    t.len() >= 2 && (t[0] == 0x71 || t[0] == 0x51) && t[1] == 0x3d
}

/// The value text of the first weight parameter among the parameter
/// segments; later `q` parameters and parameters with other keys are
/// ignored.
pub open spec fn first_q_value(params: Seq<Seq<u8>>) -> Option<Seq<u8>>
    decreases params.len(),
{
    if params.len() == 0 {
        None
    } else {
        let t = trim(params.first());
        if is_q_param(t) {
            Some(trim(t.skip(2)))
        } else {
            first_q_value(params.drop_first())
        }
    }
}

impl<T: HeaderItem> HeaderItem for QualityItem<T> {
    /// The item splits at top-level semicolons: the first segment is the
    /// item text, the remaining segments are parameters, of which the
    /// first `q` key gives the weight (default `1.000` when absent); a
    /// malformed weight fails the item.
    open spec fn spec_parse_item(s: Seq<u8>) -> Option<QualityItemModel<T::V>> {
        let segs = split_top(s, 0x3b);
        match T::spec_parse_item(trim(segs[0])) {
            None => None,
            Some(m) => match first_q_value(segs.drop_first()) {
                None => Some(QualityItemModel { item: m, quality: 1000 }),
                Some(wv) => match parse_qvalue(wv) {
                    Some(qv) => Some(QualityItemModel { item: m, quality: qv }),
                    None => None,
                },
            },
        }
    }

    open spec fn spec_encode_item(v: QualityItemModel<T::V>) -> Seq<u8> {
        T::spec_encode_item(v.item) + if v.quality == 1000 {
            Seq::empty()
        } else {
            seq![0x3bu8, 0x71u8, 0x3du8] + qvalue_bytes(v.quality)
        }
    }

    fn parse_item(s: &[u8]) -> (r: Option<Self>) {
        let segs = split_line(s, 0x3b);
        proof {
            lemma_split_top_nonempty(s@, 0x3b);
        }
        let ghost all = views_of(segs@);
        let item_text = trim_bytes(segs[0].as_slice());
        match T::parse_item(item_text.as_slice()) {
            None => None,
            Some(item) => {
                let m = segs.len();
                let mut i: usize = 1;
                while i < m
                    invariant
                        1 <= i <= m,
                        m == segs@.len(),
                        all == views_of(segs@),
                        all == split_top(s@, 0x3b),
                        T::spec_parse_item(trim(all[0])) == Some(item@),
                        first_q_value(all.drop_first()) == first_q_value(all.skip(i as int)),
                    decreases m - i,
                {
                    let ghost tail = all.skip(i as int);
                    proof {
                        assert(tail.first() == all[i as int]);
                        assert(tail.drop_first() =~= all.skip(i + 1));
                    }
                    let t = trim_bytes(segs[i].as_slice());
                    if t.len() >= 2 && (t[0] == 0x71 || t[0] == 0x51) && t[1] == 0x3d {
                        let wv = trim_bytes(vstd::slice::slice_subrange(t.as_slice(), 2, t.len()));
                        proof {
                            assert(t@.subrange(2, t@.len() as int) =~= t@.skip(2));
                        }
                        match parse_qvalue_bytes(wv.as_slice()) {
                            Some(qv) => {
                                return Some(QualityItem { item, quality: Quality { millis: qv } });
                            },
                            None => {
                                return None;
                            },
                        }
                    }
                    i += 1;
                }
                proof {
                    assert(all.skip(m as int) =~= Seq::<Seq<u8>>::empty());
                }
                Some(QualityItem { item, quality: Quality { millis: 1000 } })
            },
        }
    }

    fn encode_item(&self) -> (r: Vec<u8>) {
        let mut out = self.item.encode_item();
        let qv = self.quality.value();
        if qv != 1000 {
            out.push(0x3b);
            out.push(0x71);
            out.push(0x3d);
            let mut w = fmt_qvalue(qv);
            out.append(&mut w);
            proof {
                assert(out@ =~= Self::spec_encode_item(self@));
            }
        } else {
            proof {
                assert(out@ =~= Self::spec_encode_item(self@));
            }
        }
        out
    }
}

/// A weight's canonical text reads back as that weight.
pub proof fn lemma_qvalue_round_trip(qv: u16)
    requires
        qv < 1000,
    ensures
        parse_qvalue(qvalue_bytes(qv)) == Some(qv),
{
    let w = qvalue_bytes(qv);
    if qv == 0 {
        assert(w.drop_first() =~= Seq::<u8>::empty());
    } else {
        let d1 = (0x30 + qv / 100) as u8;
        let d2 = (0x30 + (qv / 10) % 10) as u8;
        let d3 = (0x30 + qv % 10) as u8;
        assert(0 <= qv % 10 < 10 && 0 <= (qv / 10) % 10 < 10 && 0 <= qv / 100 < 10 && (qv / 100)
            * 100 + ((qv / 10) % 10) * 10 + qv % 10 == qv) by (nonlinear_arith)
            requires
                0 < qv < 1000,
        ;
        let rest = w.drop_first();
        assert(pow10(0) == 1);
        assert(pow10(1) == 10);
        assert(pow10(2) == 100);
        assert(digits_val(Seq::<u8>::empty()) == 0);
        assert(seq![d1].drop_last() =~= Seq::<u8>::empty());
        assert(digits_val(seq![d1]) == qv / 100);
        assert(seq![d1, d2].drop_last() =~= seq![d1]);
        assert(digits_val(seq![d1, d2]) == (qv / 100) * 10 + (qv / 10) % 10);
        assert(seq![d1, d2, d3].drop_last() =~= seq![d1, d2]);
        assert(digits_val(seq![d1, d2, d3]) == ((qv / 100) * 10 + (qv / 10) % 10) * 10 + qv % 10);
        if qv % 10 != 0 {
            let frac = seq![d1, d2, d3];
            assert(rest =~= seq![0x2eu8] + frac);
            assert(rest.drop_first() =~= frac);
            assert(digits_val(frac) * pow10(3 - (rest.len() - 1)) == qv);
        } else if (qv / 10) % 10 != 0 {
            let frac = seq![d1, d2];
            assert(rest =~= seq![0x2eu8] + frac);
            assert(rest.drop_first() =~= frac);
            assert(digits_val(frac) * pow10(3 - (rest.len() - 1)) == ((qv / 100) * 10 + (qv / 10)
                % 10) * 10);
            assert(((qv / 100) * 10 + (qv / 10) % 10) * 10 + qv % 10 == qv);
        } else {
            let frac = seq![d1];
            assert(rest =~= seq![0x2eu8] + frac);
            assert(rest.drop_first() =~= frac);
            assert(digits_val(frac) * pow10(3 - (rest.len() - 1)) == (qv / 100) * 100);
            assert((qv / 100) * 100 == qv);
        }
    }
}

/// Round trip: a weighted item whose item text survives the list codec
/// decodes from its canonical encoding to the same item and weight.
pub proof fn lemma_quality_item_round_trip<T: HeaderItem>(v: QualityItemModel<T::V>)
    requires
        crate::header::item_wire_safe::<T>(v.item),
        v.quality <= 1000,
    ensures
        QualityItem::<T>::spec_parse_item(QualityItem::<T>::spec_encode_item(v)) == Some(v),
{
    let ib = T::spec_encode_item(v.item);
    lemma_trim_id(ib);
    if v.quality == 1000 {
        let s = QualityItem::<T>::spec_encode_item(v);
        assert(s =~= ib);
        lemma_split_whole(s, 0x3b);
        let segs = split_top(s, 0x3b);
        assert(segs =~= seq![s]);
        assert(segs.drop_first() =~= Seq::<Seq<u8>>::empty());
    } else {
        let qb = qvalue_bytes(v.quality);
        let tail = seq![0x71u8, 0x3du8] + qb;
        let s = QualityItem::<T>::spec_encode_item(v);
        assert(s =~= ib + seq![0x3bu8] + tail);
        let k = ib.len() as int;
        assert(s[k] == 0x3b);
        assert(forall|j: int| 0 <= j < k ==> s[j] == ib[j]);
        lemma_split_first(s, 0x3b, k);
        assert(s.take(k) =~= ib);
        assert(s.skip(k + 1) =~= tail);
        assert(forall|i: int|
            0 <= i < qb.len() ==> (#[trigger] qb[i] == 0x30 || qb[i] == 0x2e || (0x30 <= qb[i]
                <= 0x39)));
        assert(forall|i: int| 0 <= i < tail.len() ==> tail[i] != 0x3b && tail[i] != 0x22);
        lemma_split_whole(tail, 0x3b);
        let segs = split_top(s, 0x3b);
        assert(segs =~= seq![ib] + seq![tail]);
        assert(segs[0] == ib);
        assert(segs.drop_first() =~= seq![tail]);
        assert(!is_ws(tail[0]) && !is_ws(tail.last()));
        lemma_trim_id(tail);
        assert(seq![tail].first() == tail);
        assert(is_q_param(tail));
        assert(tail.skip(2) =~= qb);
        assert(!is_ws(qb[0]) && !is_ws(qb.last()));
        lemma_trim_id(qb);
        lemma_qvalue_round_trip(v.quality);
    }
}

/// A weighted item whose inner item text is wire safe is itself safe as
/// a list element: its text parses back and fits between commas.
pub proof fn lemma_quality_item_list_safe<T: HeaderItem>(v: QualityItemModel<T::V>)
    requires
        crate::header::item_wire_safe::<T>(v.item),
        v.quality <= 1000,
    ensures
        crate::header::item_list_safe::<QualityItem<T>>(v),
{
    broadcast use vstd::utf8::valid_utf8_concat;

    lemma_quality_item_round_trip::<T>(v);
    let ib = T::spec_encode_item(v.item);
    let b = QualityItem::<T>::spec_encode_item(v);
    if v.quality == 1000 {
        assert(b =~= ib);
    } else {
        let suffix = seq![0x3bu8, 0x71u8, 0x3du8] + qvalue_bytes(v.quality);
        assert(b =~= ib + suffix);
        assert(forall|i: int|
            0 <= i < qvalue_bytes(v.quality).len() ==> (#[trigger] qvalue_bytes(v.quality)[i]
                == 0x30 || qvalue_bytes(v.quality)[i] == 0x2e || (0x30 <= qvalue_bytes(
                v.quality,
            )[i] <= 0x39)));
        assert(forall|i: int| 0 <= i < suffix.len() ==> #[trigger] suffix[i] < 0x80);
        crate::text::lemma_ascii_decode(suffix);
        assert(valid_utf8(b));
        assert(b[0] == ib[0]);
        assert(b.last() == suffix.last());
        assert(!crate::parsing::is_ws(suffix.last()));
    }
}

/// Round trip for weight-annotated lists: a list of weighted items with
/// wire-safe item texts decodes from its canonical line to the same
/// items and weights, in the same order.
pub proof fn lemma_quality_list_round_trip<T: HeaderItem>(vs: Seq<QualityItemModel<T::V>>)
    requires
        forall|i: int|
            0 <= i < vs.len() ==> crate::header::item_wire_safe::<T>((#[trigger] vs[i]).item)
                && vs[i].quality <= 1000,
    ensures
        crate::header::spec_list_parse::<QualityItem<T>>(
            seq![crate::header::spec_list_encode::<QualityItem<T>>(vs)],
        ) == Ok::<Seq<QualityItemModel<T::V>>, crate::Error>(vs),
{
    assert forall|i: int| 0 <= i < vs.len() implies crate::header::item_list_safe::<
        QualityItem<T>,
    >(#[trigger] vs[i]) by {
        lemma_quality_item_list_safe::<T>(vs[i]);
    }
    crate::header::lemma_list_round_trip::<QualityItem<T>>(vs);
}

/// An item whose weight is exactly the default `1.000` is encoded with
/// no `;q=` suffix at all: the line is the bare item text.
pub proof fn lemma_default_quality_not_encoded<T: HeaderItem>(v: QualityItemModel<T::V>)
    requires
        v.quality == 1000,
    ensures
        QualityItem::<T>::spec_encode_item(v) == T::spec_encode_item(v.item),
{
    assert(T::spec_encode_item(v.item) + Seq::<u8>::empty() =~= T::spec_encode_item(v.item));
}

/// An item decoded without any `;q=` suffix carries exactly the default
/// weight `1.000`.
pub proof fn lemma_missing_quality_is_default<T: HeaderItem>(s: Seq<u8>, m: T::V)
    requires
        forall|i: int| 0 <= i < s.len() ==> s[i] != 0x3b && s[i] != 0x22,
        T::spec_parse_item(trim(s)) == Some(m),
    ensures
        QualityItem::<T>::spec_parse_item(s) == Some(
            QualityItemModel::<T::V> { item: m, quality: 1000 },
        ),
{
    lemma_split_whole(s, 0x3b);
    let segs = split_top(s, 0x3b);
    assert(segs =~= seq![s]);
    assert(segs.drop_first() =~= Seq::<Seq<u8>>::empty());
}

} // verus!
