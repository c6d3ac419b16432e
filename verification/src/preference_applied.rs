//! `Preference-Applied` response header: which preference tokens of a
//! request the server honored, as a nonempty comma-delimited list.

use vstd::prelude::*;
use vstd::string::{StrSliceExecFns, StringSliceAdditionalSpecFns};
use vstd::utf8::{decode_utf8, encode_utf8, valid_utf8};
use crate::Error;
use crate::header::{
    from_comma_delimited,
    fmt_comma_delimited,
    items_view,
    spec_list_encode,
    spec_list_parse,
    Header,
    HeaderItem,
};
use crate::parsing::{dec_bytes, fmt_u32, parse_u32, split_line, split_once, split_once_bytes, split_top, trim, trim_bytes, views_of};
use crate::raw::Raw;
use crate::text::{bytes_eq, bytes_to_string};

verus! {

/// `s` without its leading and trailing quote characters.
pub open spec fn strip_q_start(s: Seq<u8>) -> Seq<u8>
    decreases s.len(),
{
    if s.len() > 0 && s[0] == 0x22 {
        strip_q_start(s.drop_first())
    } else {
        s
    }
}

/// `s` without its trailing quote characters.
pub open spec fn strip_q_end(s: Seq<u8>) -> Seq<u8>
    decreases s.len(),
{
    if s.len() > 0 && s.last() == 0x22 {
        strip_q_end(s.drop_last())
    } else {
        s
    }
}

/// `s` without marginal quote characters.
pub open spec fn strip_quotes(s: Seq<u8>) -> Seq<u8> {
    strip_q_end(strip_q_start(s))
}

/// Strips marginal quote characters; see [`strip_quotes`].
pub fn strip_quotes_bytes(s: &[u8]) -> (r: Vec<u8>)
    ensures
        r@ == strip_quotes(s@),
{
    let n = s.len();
    let mut start: usize = 0;
    proof {
        assert(s@.skip(0) =~= s@);
    }
    while start < n && *vstd::slice::slice_index_get(s, start) == 0x22
        invariant
            start <= n,
            n == s@.len(),
            strip_q_start(s@) == strip_q_start(s@.skip(start as int)),
        decreases n - start,
    {
        proof {
            assert(s@.skip(start as int).drop_first() =~= s@.skip(start + 1));
        }
        start += 1;
    }
    proof {
        assert(strip_q_start(s@) == s@.skip(start as int));
    }
    let mut end: usize = n;
    while end > start && *vstd::slice::slice_index_get(s, end - 1) == 0x22
        invariant
            start <= end <= n,
            n == s@.len(),
            strip_q_start(s@) == s@.skip(start as int),
            strip_q_end(s@.skip(start as int)) == strip_q_end(
                s@.subrange(start as int, end as int),
            ),
        decreases end,
    {
        proof {
            assert(s@.subrange(start as int, end as int).drop_last() =~= s@.subrange(
                start as int,
                end - 1,
            ));
            assert(s@.subrange(start as int, end as int).last() == s@[end - 1]);
        }
        end -= 1;
    }
    proof {
        let t = s@.subrange(start as int, end as int);
        if t.len() > 0 {
            assert(t.last() != 0x22);
        }
        assert(strip_q_end(t) == t);
    }
    vstd::slice::slice_to_vec(vstd::slice::slice_subrange(s, start, end))
}

/// One preference parameter: the text before the first `=` is the name,
/// the text after it the value, both trimmed and the value unquoted; a
/// segment without `=` is a bare name with an empty value.
pub open spec fn pref_kv(seg: Seq<u8>) -> (Seq<u8>, Seq<u8>) {
    match split_once(seg, 0x3d) {
        None => (trim(seg), Seq::empty()),
        Some(kv) => (trim(kv.0), strip_quotes(trim(kv.1))),
    }
}

/// Reads one preference parameter; see [`pref_kv`].
pub fn pref_kv_bytes(seg: &[u8]) -> (r: (Vec<u8>, Vec<u8>))
    ensures
        (r.0@, r.1@) == pref_kv(seg@),
{
    match split_once_bytes(seg, 0x3d) {
        None => (trim_bytes(seg), Vec::new()),
        Some(kv) => {
            let name = trim_bytes(kv.0.as_slice());
            let tv = trim_bytes(kv.1.as_slice());
            (name, strip_quotes_bytes(tv.as_slice()))
        },
    }
}

/// Model of a [`Preference`]: the honored preference as plain data.
pub enum PreferenceModel {
    /// `respond-async`
    RespondAsync,
    /// `return=representation`
    ReturnRepresentation,
    /// `return=minimal`
    ReturnMinimal,
    /// `wait=<seconds>`
    Wait(u32),
    /// Any other preference: name, value, and further parameters.
    Extension(Seq<char>, Seq<char>, Seq<(Seq<char>, Seq<char>)>),
}

/// A preference token that a server may honor.
#[derive(Clone, Debug, PartialEq)]
pub enum Preference {
    /// `respond-async`
    RespondAsync,
    /// `return=representation`
    ReturnRepresentation,
    /// `return=minimal`
    ReturnMinimal,
    /// `wait=<seconds>`
    Wait(u32),
    /// Any other preference: name, value, and further parameters.
    Extension(String, String, Vec<(String, String)>),
}

impl View for Preference {
    type V = PreferenceModel;

    open spec fn view(&self) -> PreferenceModel {
        match self {
            Preference::RespondAsync => PreferenceModel::RespondAsync,
            Preference::ReturnRepresentation => PreferenceModel::ReturnRepresentation,
            Preference::ReturnMinimal => PreferenceModel::ReturnMinimal,
            Preference::Wait(n) => PreferenceModel::Wait(*n),
            Preference::Extension(n, v, ps) => PreferenceModel::Extension(
                n@,
                v@,
                crate::cookie::pairs_view(ps@),
            ),
        }
    }
}

/// The decoded parameters of the remaining segments, in order; absent
/// when one holds text that is not UTF-8.
pub open spec fn pref_params(segs: Seq<Seq<u8>>) -> Option<Seq<(Seq<char>, Seq<char>)>>
    decreases segs.len(),
{
    if segs.len() == 0 {
        Some(Seq::empty())
    } else {
        let kv = pref_kv(segs.first());
        if valid_utf8(kv.0) && valid_utf8(kv.1) {
            match pref_params(segs.drop_first()) {
                Some(rest) => Some(seq![(decode_utf8(kv.0), decode_utf8(kv.1))] + rest),
                None => None,
            }
        } else {
            None
        }
    }
}

/// The canonical text of one name/value pair: the name, and `=` and the
/// value when the value is nonempty.
pub open spec fn pref_kv_bytes_of(name: Seq<char>, value: Seq<char>) -> Seq<u8> {
    encode_utf8(name) + if value.len() > 0 {
        seq![0x3du8] + encode_utf8(value)
    } else {
        Seq::empty()
    }
}

/// The canonical text of an extension's parameters, each preceded by
/// `; `.
pub open spec fn pref_params_bytes(ps: Seq<(Seq<char>, Seq<char>)>) -> Seq<u8>
    decreases ps.len(),
{
    if ps.len() == 0 {
        Seq::empty()
    } else {
        pref_params_bytes(ps.drop_last()) + seq![0x3bu8, 0x20u8] + pref_kv_bytes_of(
            ps.last().0,
            ps.last().1,
        )
    }
}

impl HeaderItem for Preference {
    /// The item splits at top-level semicolons; the first segment names
    /// the preference, and `respond-async`, `return=representation`,
    /// `return=minimal` and `wait=<seconds>` are recognized, their
    /// further parameters ignored.  Anything else is an extension that
    /// keeps its parameters.  A `wait` without a plain number fails the
    /// item, as does text that is not UTF-8.
    open spec fn spec_parse_item(s: Seq<u8>) -> Option<PreferenceModel> {
        let segs = split_top(s, 0x3b);
        let head = pref_kv(segs[0]);
        if head.0 == "respond-async".spec_bytes() && head.1.len() == 0 {
            Some(PreferenceModel::RespondAsync)
        } else if head.0 == "return".spec_bytes() && head.1 == "representation".spec_bytes() {
            Some(PreferenceModel::ReturnRepresentation)
        } else if head.0 == "return".spec_bytes() && head.1 == "minimal".spec_bytes() {
            Some(PreferenceModel::ReturnMinimal)
        } else if head.0 == "wait".spec_bytes() {
            if head.1.len() > 0 && crate::parsing::all_digits(head.1)
                && crate::parsing::digits_val(head.1) <= 0xffffffff {
                Some(PreferenceModel::Wait(crate::parsing::digits_val(head.1) as u32))
            } else {
                None
            }
        } else if valid_utf8(head.0) && valid_utf8(head.1) {
            match pref_params(segs.drop_first()) {
                Some(ps) => Some(
                    PreferenceModel::Extension(decode_utf8(head.0), decode_utf8(head.1), ps),
                ),
                None => None,
            }
        } else {
            None
        }
    }

    open spec fn spec_encode_item(v: PreferenceModel) -> Seq<u8> {
        match v {
            PreferenceModel::RespondAsync => "respond-async".spec_bytes(),
            PreferenceModel::ReturnRepresentation => "return=representation".spec_bytes(),
            PreferenceModel::ReturnMinimal => "return=minimal".spec_bytes(),
            PreferenceModel::Wait(n) => "wait=".spec_bytes() + dec_bytes(n as int),
            PreferenceModel::Extension(n, val, ps) => pref_kv_bytes_of(n, val) + pref_params_bytes(
                ps,
            ),
        }
    }

    fn parse_item(s: &[u8]) -> (r: Option<Self>) {
        let segs = split_line(s, 0x3b);
        proof {
            crate::parsing::lemma_split_top_nonempty(s@, 0x3b);
        }
        let head = pref_kv_bytes(segs[0].as_slice());
        let name = head.0;
        let value = head.1;
        if bytes_eq(name.as_slice(), "respond-async".as_bytes()) && value.len() == 0 {
            Some(Preference::RespondAsync)
        } else if bytes_eq(name.as_slice(), "return".as_bytes()) && bytes_eq(
            value.as_slice(),
            "representation".as_bytes(),
        ) {
            Some(Preference::ReturnRepresentation)
        } else if bytes_eq(name.as_slice(), "return".as_bytes()) && bytes_eq(
            value.as_slice(),
            "minimal".as_bytes(),
        ) {
            Some(Preference::ReturnMinimal)
        } else if bytes_eq(name.as_slice(), "wait".as_bytes()) {
            match parse_u32(value.as_slice()) {
                Some(n) => Some(Preference::Wait(n)),
                None => None,
            }
        } else {
            let ns = match bytes_to_string(name.as_slice()) {
                Ok(t) => t,
                Err(_) => {
                    return None;
                },
            };
            let vs = match bytes_to_string(value.as_slice()) {
                Ok(t) => t,
                Err(_) => {
                    return None;
                },
            };
            let ghost all = views_of(segs@);
            let mut params: Vec<(String, String)> = Vec::new();
            let m = segs.len();
            let mut i: usize = 1;
            proof {
                assert(all.skip(1) =~= all.drop_first());
            }
            while i < m
                invariant
                    1 <= i <= m,
                    m == segs@.len(),
                    all == views_of(segs@),
                    pref_params(all.drop_first()) is None ==> Self::spec_parse_item(s@) is None,
                    pref_params(all.drop_first()) matches Some(ps2) ==> Self::spec_parse_item(s@)
                        == Some(PreferenceModel::Extension(ns@, vs@, ps2)),
                    pref_params(all.drop_first()) matches Some(ps) ==> ps =~= crate::cookie::pairs_view(params@)
                        + (match pref_params(all.skip(i as int)) {
                        Some(rest) => rest,
                        None => Seq::empty(),
                    }),
                    pref_params(all.drop_first()) is Some ==> pref_params(
                        all.skip(i as int),
                    ) is Some,
                    pref_params(all.skip(i as int)) is Some ==> pref_params(
                        all.drop_first(),
                    ) is Some,
                decreases m - i,
            {
                proof {
                    assert(all.skip(i as int).first() == all[i as int]);
                    assert(all.skip(i as int).drop_first() =~= all.skip(i + 1));
                }
                let kv = pref_kv_bytes(segs[i].as_slice());
                let ks = match bytes_to_string(kv.0.as_slice()) {
                    Ok(t) => t,
                    Err(_) => {
                        return None;
                    },
                };
                let vs2 = match bytes_to_string(kv.1.as_slice()) {
                    Ok(t) => t,
                    Err(_) => {
                        return None;
                    },
                };
                let ghost old_params = crate::cookie::pairs_view(params@);
                params.push((ks, vs2));
                proof {
                    assert(crate::cookie::pairs_view(params@) =~= old_params.push(
                        (decode_utf8(pref_kv(all[i as int]).0), decode_utf8(
                            pref_kv(all[i as int]).1,
                        )),
                    ));
                }
                i += 1;
            }
            proof {
                assert(all.skip(m as int) =~= Seq::<Seq<u8>>::empty());
            }
            Some(Preference::Extension(ns, vs, params))
        }
    }

    fn encode_item(&self) -> (r: Vec<u8>) {
        match self {
            Preference::RespondAsync => "respond-async".as_bytes_vec(),
            Preference::ReturnRepresentation => "return=representation".as_bytes_vec(),
            Preference::ReturnMinimal => "return=minimal".as_bytes_vec(),
            Preference::Wait(n) => {
                let mut out = "wait=".as_bytes_vec();
                let mut d = fmt_u32(*n);
                out.append(&mut d);
                out
            },
            Preference::Extension(name, value, ps) => {
                let mut out = name.as_str().as_bytes_vec();
                if !value.as_str().is_empty() {
                    out.push(0x3d);
                    let mut vb = value.as_str().as_bytes_vec();
                    out.append(&mut vb);
                } else {
                    proof {
                        assert(value@.len() == 0 ==> encode_utf8(value@) =~= Seq::<u8>::empty());
                    }
                }
                proof {
                    assert(out@ =~= pref_kv_bytes_of(name@, value@));
                }
                let ghost psv = crate::cookie::pairs_view(ps@);
                let m = ps.len();
                let mut i: usize = 0;
                while i < m
                    invariant
                        i <= m,
                        m == ps@.len(),
                        psv == crate::cookie::pairs_view(ps@),
                        out@ == pref_kv_bytes_of(name@, value@) + pref_params_bytes(
                            psv.take(i as int),
                        ),
                    decreases m - i,
                {
                    proof {
                        assert(psv.take(i + 1).drop_last() =~= psv.take(i as int));
                        assert(psv.take(i + 1).last() == psv[i as int]);
                    }
                    out.push(0x3b);
                    out.push(0x20);
                    let mut kb = ps[i].0.as_str().as_bytes_vec();
                    out.append(&mut kb);
                    if !ps[i].1.as_str().is_empty() {
                        out.push(0x3d);
                        let mut vb = ps[i].1.as_str().as_bytes_vec();
                        out.append(&mut vb);
                    }
                    proof {
                        if ps@[i as int].1@.len() == 0 {
                            assert(encode_utf8(ps@[i as int].1@) =~= Seq::<u8>::empty());
                        }
                        assert(out@ =~= pref_kv_bytes_of(name@, value@) + pref_params_bytes(
                            psv.take(i + 1),
                        ));
                    }
                    i += 1;
                }
                proof {
                    assert(psv.take(m as int) =~= psv);
                }
                out
            },
        }
    }
}

/// Stripping marginal quotes leaves a quote-free-margined string
/// unchanged.
proof fn lemma_strip_quotes_id(s: Seq<u8>)
    requires
        s.len() > 0 ==> s[0] != 0x22 && s.last() != 0x22,
    ensures
        strip_quotes(s) == s,
{
    assert(strip_q_start(s) == s);
    assert(strip_q_end(s) == s);
}

/// A preference in canonical wire form: a recognized preference, or an
/// extension without parameters whose name is a clean token that spells
/// no recognized preference and whose value is clean text.
pub open spec fn preference_wf(m: PreferenceModel) -> bool {
    match m {
        PreferenceModel::Extension(n, v, ps) => {
            let nb = encode_utf8(n);
            let vb = encode_utf8(v);
            &&& ps.len() == 0
            &&& nb.len() > 0
            &&& !crate::parsing::is_ws(nb[0])
            &&& !crate::parsing::is_ws(nb.last())
            &&& forall|i: int|
                0 <= i < nb.len() ==> nb[i] != 0x3d && nb[i] != 0x3b && nb[i] != 0x2c && nb[i]
                    != 0x22
            &&& forall|i: int| 0 <= i < vb.len() ==> vb[i] != 0x3b && vb[i] != 0x2c && vb[i] != 0x22
            &&& vb.len() > 0 ==> (!crate::parsing::is_ws(vb[0]) && !crate::parsing::is_ws(
                vb.last(),
            ))
            &&& n != "respond-async"@
            &&& n != "wait"@
            &&& !(n == "return"@ && (v == "representation"@ || v == "minimal"@))
        },
        _ => true,
    }
}

proof fn lemma_lit_bytes(s: &str)
    requires
        vstd::utf8::is_ascii_chars(s@),
    ensures
        s.spec_bytes().len() == s@.len(),
        crate::text::is_ascii_bytes(s.spec_bytes()),
        forall|i: int| 0 <= i < s@.len() ==> #[trigger] s.spec_bytes()[i] == s@[i] as u8,
{
    broadcast use vstd::utf8::is_ascii_chars_encode_utf8;
    broadcast use vstd::utf8::is_ascii_chars_nat_bound;

    let b = s.spec_bytes();
    assert forall|i: int| 0 <= i < s@.len() implies #[trigger] b[i] == s@[i] as u8 by {
        assert(s@[i] as u8 == b[i]);
    }
    assert forall|i: int| 0 <= i < b.len() implies b[i] < 0x80 by {
        assert(b[i] == s@[i] as u8);
        assert((s@[i] as nat) < 128);
    }
}

/// A well-formed preference's item text survives the list codec.
#[verifier::rlimit(60)]
pub proof fn lemma_preference_list_safe(m: PreferenceModel)
    requires
        preference_wf(m),
    ensures
        crate::header::item_list_safe::<Preference>(m),
{
    broadcast use vstd::utf8::encode_utf8_valid_utf8;
    broadcast use vstd::utf8::encode_utf8_decode_utf8;
    broadcast use vstd::utf8::valid_utf8_concat;

    reveal_strlit("respond-async");
    reveal_strlit("return=representation");
    reveal_strlit("return=minimal");
    reveal_strlit("wait=");
    reveal_strlit("wait");
    reveal_strlit("return");
    reveal_strlit("representation");
    reveal_strlit("minimal");
    lemma_lit_bytes("respond-async");
    lemma_lit_bytes("return=representation");
    lemma_lit_bytes("return=minimal");
    lemma_lit_bytes("wait=");
    lemma_lit_bytes("wait");
    lemma_lit_bytes("return");
    lemma_lit_bytes("representation");
    lemma_lit_bytes("minimal");
    let b = Preference::spec_encode_item(m);
    match m {
        PreferenceModel::RespondAsync => {
            crate::text::lemma_ascii_decode(b);
            crate::parsing::lemma_split_whole(b, 0x3b);
            assert(split_top(b, 0x3b)[0] == b);
            assert(split_once(b, 0x3d) is None) by {
                lemma_split_once_none(b, 0x3d);
            }
            crate::parsing::lemma_trim_id(b);
        },
        PreferenceModel::ReturnRepresentation => {
            crate::text::lemma_ascii_decode(b);
            crate::parsing::lemma_split_whole(b, 0x3b);
            assert(crate::parsing::split_top(b, 0x3b)[0] == b);
            assert(b[6] == 0x3d && (forall|j: int| 0 <= j < 6 ==> b[j] != 0x3d));
            crate::parsing::lemma_split_once_found(b, 0x3d, 6);
            assert(b.take(6) =~= "return".spec_bytes());
            assert(b.skip(7) =~= "representation".spec_bytes());
            crate::parsing::lemma_trim_id("return".spec_bytes());
            crate::parsing::lemma_trim_id("representation".spec_bytes());
            lemma_strip_quotes_id("representation".spec_bytes());
        },
        PreferenceModel::ReturnMinimal => {
            crate::text::lemma_ascii_decode(b);
            crate::parsing::lemma_split_whole(b, 0x3b);
            assert(crate::parsing::split_top(b, 0x3b)[0] == b);
            assert(b[6] == 0x3d && (forall|j: int| 0 <= j < 6 ==> b[j] != 0x3d));
            crate::parsing::lemma_split_once_found(b, 0x3d, 6);
            assert(b.take(6) =~= "return".spec_bytes());
            assert(b.skip(7) =~= "minimal".spec_bytes());
            crate::parsing::lemma_trim_id("return".spec_bytes());
            crate::parsing::lemma_trim_id("minimal".spec_bytes());
            lemma_strip_quotes_id("minimal".spec_bytes());
        },
        PreferenceModel::Wait(n) => {
            let db = dec_bytes(n as int);
            crate::parsing::lemma_dec_bytes_val(n as int);
            assert(b =~= "wait=".spec_bytes() + db);
            assert(crate::text::is_ascii_bytes(b));
            crate::text::lemma_ascii_decode(b);
            crate::parsing::lemma_split_whole(b, 0x3b);
            assert(crate::parsing::split_top(b, 0x3b)[0] == b);
            assert(b[4] == 0x3d && (forall|j: int| 0 <= j < 4 ==> b[j] != 0x3d));
            crate::parsing::lemma_split_once_found(b, 0x3d, 4);
            assert(b.take(4) =~= "wait".spec_bytes());
            assert(b.skip(5) =~= db);
            crate::parsing::lemma_trim_id("wait".spec_bytes());
            crate::parsing::lemma_trim_id(db);
            lemma_strip_quotes_id(db);
        },
        PreferenceModel::Extension(nm, vl, ps) => {
            let nb = encode_utf8(nm);
            let vb = encode_utf8(vl);
            crate::parsing::lemma_trim_id(nb);
            crate::parsing::lemma_trim_id(vb);
            lemma_strip_quotes_id(vb);
            if vl.len() > 0 {
                crate::text::lemma_ascii_decode(seq![0x3du8]);
                assert(vb.len() > 0) by {
                    assert(encode_utf8(vl).len() > 0) by {
                        assert(decode_utf8(encode_utf8(vl)) == vl);
                        if encode_utf8(vl).len() == 0 {
                            assert(decode_utf8(encode_utf8(vl)).len() == 0);
                        }
                    }
                }
                assert(b =~= nb + seq![0x3du8] + vb);
                assert(valid_utf8(nb + seq![0x3du8]));
                assert(valid_utf8((nb + seq![0x3du8]) + vb));
                assert(b =~= (nb + seq![0x3du8]) + vb);
                crate::parsing::lemma_split_whole(b, 0x3b);
                assert(crate::parsing::split_top(b, 0x3b)[0] == b);
                crate::parsing::lemma_split_once_found(b, 0x3d, nb.len() as int);
                assert(b.take(nb.len() as int) =~= nb);
                assert(b.skip((nb.len() + 1) as int) =~= vb);
                lemma_pref_head_extension(nm, vl, nb, vb);
            } else {
                assert(vb =~= Seq::<u8>::empty()) by {
                    assert(encode_utf8(vl) =~= Seq::<u8>::empty());
                }
                assert(b =~= nb);
                crate::parsing::lemma_split_whole(b, 0x3b);
                assert(crate::parsing::split_top(b, 0x3b)[0] == b);
                lemma_split_once_none(b, 0x3d);
                lemma_pref_head_extension(nm, vl, nb, Seq::empty());
            }
            assert(crate::parsing::split_top(b, 0x3b).drop_first() =~= Seq::<Seq<u8>>::empty());
            assert(ps =~= Seq::<(Seq<char>, Seq<char>)>::empty());
        },
    }
}

/// A string without the separator splits once into nothing.
proof fn lemma_split_once_none(s: Seq<u8>, sep: u8)
    requires
        forall|j: int| 0 <= j < s.len() ==> s[j] != sep,
    ensures
        split_once(s, sep) is None,
{
    lemma_split_once_none_from(s, sep, 0);
}

proof fn lemma_split_once_none_from(s: Seq<u8>, sep: u8, i: int)
    requires
        0 <= i <= s.len(),
        forall|j: int| i <= j < s.len() ==> s[j] != sep,
    ensures
        crate::parsing::split_once_from(s, sep, i) is None,
    decreases s.len() - i,
{
    if i < s.len() {
        lemma_split_once_none_from(s, sep, i + 1);
    }
}

/// A well-formed extension's head matches none of the recognized
/// preferences.
proof fn lemma_pref_head_extension(nm: Seq<char>, vl: Seq<char>, nb: Seq<u8>, vb: Seq<u8>)
    requires
        nb == encode_utf8(nm),
        vb == encode_utf8(vl),
        nm != "respond-async"@,
        nm != "wait"@,
        !(nm == "return"@ && (vl == "representation"@ || vl == "minimal"@)),
    ensures
        !(nb == "respond-async".spec_bytes() && vb.len() == 0),
        nb != "wait".spec_bytes(),
        !(nb == "return".spec_bytes() && vb == "representation".spec_bytes()),
        !(nb == "return".spec_bytes() && vb == "minimal".spec_bytes()),
{
    broadcast use vstd::utf8::encode_utf8_decode_utf8;

    if nb == "respond-async".spec_bytes() {
        assert(decode_utf8(encode_utf8(nm)) == decode_utf8(encode_utf8("respond-async"@)));
    }
    if nb == "wait".spec_bytes() {
        assert(decode_utf8(encode_utf8(nm)) == decode_utf8(encode_utf8("wait"@)));
    }
    if nb == "return".spec_bytes() {
        assert(decode_utf8(encode_utf8(nm)) == decode_utf8(encode_utf8("return"@)));
        if vb == "representation".spec_bytes() {
            assert(decode_utf8(encode_utf8(vl)) == decode_utf8(encode_utf8("representation"@)));
        }
        if vb == "minimal".spec_bytes() {
            assert(decode_utf8(encode_utf8(vl)) == decode_utf8(encode_utf8("minimal"@)));
        }
    }
}

/// Round trip: a nonempty list of well-formed preferences decodes from
/// its canonical wire line to the same preferences, in the same order.
pub proof fn lemma_preference_applied_round_trip(v: Seq<PreferenceModel>)
    requires
        v.len() > 0,
        forall|i: int| 0 <= i < v.len() ==> preference_wf(#[trigger] v[i]),
    ensures
        PreferenceApplied::spec_parse(seq![PreferenceApplied::spec_encode(v)]) == Ok::<
            Seq<PreferenceModel>,
            Error,
        >(v),
{
    assert forall|i: int| 0 <= i < v.len() implies strip_params(#[trigger] v[i]) == v[i] by {
        match v[i] {
            PreferenceModel::Extension(n2, v2, ps2) => {
                assert(ps2 =~= Seq::<(Seq<char>, Seq<char>)>::empty());
            },
            _ => {},
        }
    }
    assert(v.map_values(|m: PreferenceModel| strip_params(m)) =~= v);
    assert forall|i: int| 0 <= i < v.len() implies crate::header::item_list_safe::<Preference>(
        #[trigger] v[i],
    ) by {
        lemma_preference_list_safe(v[i]);
    }
    crate::header::lemma_list_round_trip::<Preference>(v);
}

/// Whether a preference is an extension.
pub open spec fn is_extension(m: PreferenceModel) -> bool {
    m is Extension
}

/// The preference with an extension's parameters dropped; recognized
/// preferences are unchanged.
pub open spec fn strip_params(m: PreferenceModel) -> PreferenceModel {
    match m {
        PreferenceModel::Extension(n, v, _) => PreferenceModel::Extension(n, v, Seq::empty()),
        other => other,
    }
}

/// `Preference-Applied` header: the preference tokens the server
/// honored.
#[derive(Clone, Debug, PartialEq)]
pub struct PreferenceApplied(pub Vec<Preference>);

impl View for PreferenceApplied {
    type V = Seq<PreferenceModel>;

    open spec fn view(&self) -> Seq<PreferenceModel> {
        items_view(self.0@)
    }
}

impl Header for PreferenceApplied {
    open spec fn spec_name() -> Seq<char> {
        "Preference-Applied"@
    }

    /// A comma-delimited list of preferences; a field yielding none at
    /// all is malformed.
    open spec fn spec_parse(raw: Seq<Seq<u8>>) -> Result<Seq<PreferenceModel>, Error> {
        match spec_list_parse::<Preference>(raw) {
            Ok(items) => if items.len() > 0 {
                Ok(items)
            } else {
                Err(Error::Header)
            },
            Err(e) => Err(e),
        }
    }

    /// This header strips the parameters of extension preferences when
    /// formatting.
    open spec fn spec_encode(v: Seq<PreferenceModel>) -> Seq<u8> {
        spec_list_encode::<Preference>(v.map_values(|m: PreferenceModel| strip_params(m)))
    }

    fn header_name() -> (n: &'static str) {
        "Preference-Applied"
    }

    fn parse_header(raw: &Raw) -> (r: Result<Self, Error>) {
        match from_comma_delimited::<Preference>(raw) {
            Ok(items) => if items.len() > 0 {
                Ok(PreferenceApplied(items))
            } else {
                Err(Error::Header)
            },
            Err(e) => Err(e),
        }
    }

    fn fmt_header(&self) -> (line: Vec<u8>) {
        let mut stripped: Vec<Preference> = Vec::new();
        let n = self.0.len();
        let mut i: usize = 0;
        while i < n
            invariant
                i <= n,
                n == self.0@.len(),
                items_view(stripped@) =~= self@.map_values(
                    |m: PreferenceModel| strip_params(m),
                ).take(i as int),
            decreases n - i,
        {
            let p = match &self.0[i] {
                Preference::RespondAsync => Preference::RespondAsync,
                Preference::ReturnRepresentation => Preference::ReturnRepresentation,
                Preference::ReturnMinimal => Preference::ReturnMinimal,
                Preference::Wait(n2) => Preference::Wait(*n2),
                Preference::Extension(name, value, _) => Preference::Extension(
                    name.clone(),
                    value.clone(),
                    Vec::new(),
                ),
            };
            let ghost old_s = items_view(stripped@);
            stripped.push(p);
            proof {
                assert(crate::cookie::pairs_view(Seq::<(String, String)>::empty()) =~= Seq::<
                    (Seq<char>, Seq<char>),
                >::empty());
                assert(items_view(stripped@) =~= old_s.push(stripped@.last()@));
                let mapped = self@.map_values(|m: PreferenceModel| strip_params(m));
                assert(stripped@.last()@ == strip_params(self@[i as int]));
                assert(mapped.take(i + 1).drop_last() =~= mapped.take(i as int));
                assert(items_view(stripped@) =~= mapped.take(i + 1));
            }
            i += 1;
        }
        proof {
            let mapped = self@.map_values(|m: PreferenceModel| strip_params(m));
            assert(mapped.take(n as int) =~= mapped);
        }
        fmt_comma_delimited::<Preference>(&stripped)
    }
}

/// The reverse round trip: a raw line that is itself a canonical
/// encoding of a nonempty list of preferences decodes and re-encodes to
/// the same line.
pub proof fn lemma_preference_applied_reencode(raw: Seq<u8>)
    requires
        exists|v: Seq<PreferenceModel>|
            v.len() > 0 && (forall|i: int| 0 <= i < v.len() ==> preference_wf(#[trigger] v[i]))
                && raw == PreferenceApplied::spec_encode(v),
    ensures
        PreferenceApplied::spec_parse(seq![raw]) matches Ok(m) && PreferenceApplied::spec_encode(
            m,
        ) == raw,
{
    let v = choose|v: Seq<PreferenceModel>|
        v.len() > 0 && (forall|i: int| 0 <= i < v.len() ==> preference_wf(#[trigger] v[i]))
            && raw == PreferenceApplied::spec_encode(v);
    lemma_preference_applied_round_trip(v);
}

} // verus!
