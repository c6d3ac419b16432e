//! `Referrer-Policy` header: a token list resolved rightmost-wins, since
//! intermediaries may append tokens and the latest recognized one is the
//! current directive.

use vstd::prelude::*;
use vstd::string::{StrSliceExecFns, StringSliceAdditionalSpecFns};
use crate::Error;
use crate::header::{Header, lines_utf8};
use crate::parsing::{comma_items, field_items, lemma_single_item, views_of};
use crate::raw::Raw;
use crate::text::{bytes_eq, bytes_to_string, is_ascii_bytes, lemma_ascii_decode, lower_bytes, lower_vec};

verus! {

/// `Referrer-Policy` header: the referrer policy a user agent applies
/// when deciding what referrer information to send.
#[derive(Clone, Copy, Debug, PartialEq, Eq, Structural)]
pub enum ReferrerPolicy {
    /// `no-referrer`
    NoReferrer,
    /// `no-referrer-when-downgrade`
    NoReferrerWhenDowngrade,
    /// `same-origin`
    SameOrigin,
    /// `origin`
    Origin,
    /// `origin-when-cross-origin`
    OriginWhenCrossOrigin,
    /// `unsafe-url`
    UnsafeUrl,
    /// `strict-origin`
    StrictOrigin,
    /// `strict-origin-when-cross-origin`
    StrictOriginWhenCrossOrigin,
}

impl View for ReferrerPolicy {
    type V = ReferrerPolicy;

    open spec fn view(&self) -> ReferrerPolicy {
        *self
    }
}

/// The policy that one list token names, matched ignoring ASCII letter
/// case; unknown tokens name none and are skipped.
pub open spec fn policy_of_token(t: Seq<u8>) -> Option<ReferrerPolicy> {
    let l = lower_bytes(t);
    if l == "no-referrer".spec_bytes() || l == "never".spec_bytes() {
        Some(ReferrerPolicy::NoReferrer)
    } else if l == "no-referrer-when-downgrade".spec_bytes() || l == "default".spec_bytes() {
        Some(ReferrerPolicy::NoReferrerWhenDowngrade)
    } else if l == "same-origin".spec_bytes() {
        Some(ReferrerPolicy::SameOrigin)
    } else if l == "origin".spec_bytes() {
        Some(ReferrerPolicy::Origin)
    } else if l == "origin-when-cross-origin".spec_bytes() {
        Some(ReferrerPolicy::OriginWhenCrossOrigin)
    } else if l == "strict-origin".spec_bytes() {
        Some(ReferrerPolicy::StrictOrigin)
    } else if l == "strict-origin-when-cross-origin".spec_bytes() {
        Some(ReferrerPolicy::StrictOriginWhenCrossOrigin)
    } else if l == "unsafe-url".spec_bytes() || l == "always".spec_bytes() {
        Some(ReferrerPolicy::UnsafeUrl)
    } else {
        None
    }
}

/// The rightmost recognized token of the list, scanning from the end.
pub open spec fn rightmost_policy(items: Seq<Seq<u8>>) -> Option<ReferrerPolicy>
    decreases items.len(),
{
    if items.len() == 0 {
        None
    } else {
        match policy_of_token(items.last()) {
            Some(p) => Some(p),
            None => rightmost_policy(items.drop_last()),
        }
    }
}

impl Header for ReferrerPolicy {
    open spec fn spec_name() -> Seq<char> {
        "Referrer-Policy"@
    }

    /// The items of the field are scanned from the end; the first
    /// recognized token decides.  A field whose tokens are all unknown
    /// is malformed, and so is text that is not UTF-8.
    open spec fn spec_parse(raw: Seq<Seq<u8>>) -> Result<ReferrerPolicy, Error> {
        if !lines_utf8(raw) {
            Err(Error::Utf8)
        } else {
            match rightmost_policy(field_items(raw)) {
                Some(p) => Ok(p),
                None => Err(Error::Header),
            }
        }
    }

    open spec fn spec_encode(v: ReferrerPolicy) -> Seq<u8> {
        match v {
            ReferrerPolicy::NoReferrer => "no-referrer".spec_bytes(),
            ReferrerPolicy::NoReferrerWhenDowngrade => "no-referrer-when-downgrade".spec_bytes(),
            ReferrerPolicy::SameOrigin => "same-origin".spec_bytes(),
            ReferrerPolicy::Origin => "origin".spec_bytes(),
            ReferrerPolicy::OriginWhenCrossOrigin => "origin-when-cross-origin".spec_bytes(),
            ReferrerPolicy::UnsafeUrl => "unsafe-url".spec_bytes(),
            ReferrerPolicy::StrictOrigin => "strict-origin".spec_bytes(),
            ReferrerPolicy::StrictOriginWhenCrossOrigin
                => "strict-origin-when-cross-origin".spec_bytes(),
        }
    }

    fn header_name() -> (n: &'static str) {
        "Referrer-Policy"
    }

    fn parse_header(raw: &Raw) -> (r: Result<Self, Error>) {
        let n = raw.len();
        let mut i: usize = 0;
        while i < n
            invariant
                i <= n,
                n == raw@.len(),
                forall|j: int| 0 <= j < i ==> vstd::utf8::valid_utf8(raw@[j]),
            decreases n - i,
        {
            match bytes_to_string(raw.line(i).as_slice()) {
                Ok(_) => {},
                Err(_) => {
                    return Err(Error::Utf8);
                },
            }
            i += 1;
        }
        let items = comma_items(raw);
        let ghost all = views_of(items@);
        let mut k = items.len();
        proof {
            assert(all.take(k as int) =~= all);
        }
        while k > 0
            invariant
                k <= items@.len(),
                all == views_of(items@),
                lines_utf8(raw@),
                all == field_items(raw@),
                rightmost_policy(all) == rightmost_policy(all.take(k as int)),
            decreases k,
        {
            k -= 1;
            let ghost pref = all.take(k + 1);
            proof {
                assert(pref.last() == all[k as int]);
                assert(pref.drop_last() =~= all.take(k as int));
            }
            let l = lower_vec(items[k].as_slice());
            if bytes_eq(l.as_slice(), "no-referrer".as_bytes()) || bytes_eq(
                l.as_slice(),
                "never".as_bytes(),
            ) {
                return Ok(ReferrerPolicy::NoReferrer);
            } else if bytes_eq(l.as_slice(), "no-referrer-when-downgrade".as_bytes()) || bytes_eq(
                l.as_slice(),
                "default".as_bytes(),
            ) {
                return Ok(ReferrerPolicy::NoReferrerWhenDowngrade);
            } else if bytes_eq(l.as_slice(), "same-origin".as_bytes()) {
                return Ok(ReferrerPolicy::SameOrigin);
            } else if bytes_eq(l.as_slice(), "origin".as_bytes()) {
                return Ok(ReferrerPolicy::Origin);
            } else if bytes_eq(l.as_slice(), "origin-when-cross-origin".as_bytes()) {
                return Ok(ReferrerPolicy::OriginWhenCrossOrigin);
            } else if bytes_eq(l.as_slice(), "strict-origin".as_bytes()) {
                return Ok(ReferrerPolicy::StrictOrigin);
            } else if bytes_eq(l.as_slice(), "strict-origin-when-cross-origin".as_bytes()) {
                return Ok(ReferrerPolicy::StrictOriginWhenCrossOrigin);
            } else if bytes_eq(l.as_slice(), "unsafe-url".as_bytes()) || bytes_eq(
                l.as_slice(),
                "always".as_bytes(),
            ) {
                return Ok(ReferrerPolicy::UnsafeUrl);
            }
        }
        proof {
            assert(all.take(0) =~= Seq::<Seq<u8>>::empty());
        }
        Err(Error::Header)
    }

    fn fmt_header(&self) -> (line: Vec<u8>) {
        match self {
            ReferrerPolicy::NoReferrer => "no-referrer".as_bytes_vec(),
            ReferrerPolicy::NoReferrerWhenDowngrade => "no-referrer-when-downgrade".as_bytes_vec(),
            ReferrerPolicy::SameOrigin => "same-origin".as_bytes_vec(),
            ReferrerPolicy::Origin => "origin".as_bytes_vec(),
            ReferrerPolicy::OriginWhenCrossOrigin => "origin-when-cross-origin".as_bytes_vec(),
            ReferrerPolicy::UnsafeUrl => "unsafe-url".as_bytes_vec(),
            ReferrerPolicy::StrictOrigin => "strict-origin".as_bytes_vec(),
            ReferrerPolicy::StrictOriginWhenCrossOrigin
                => "strict-origin-when-cross-origin".as_bytes_vec(),
        }
    }
}

/// The canonical tokens are lowercase ASCII words: their bytes survive
/// lowering unchanged, hold no comma, quote or whitespace, and are
/// nonempty.
proof fn lemma_plain_lower_token(s: &str)
    requires
        vstd::utf8::is_ascii_chars(s@),
        s@.len() > 0,
        forall|i: int|
            0 <= i < s@.len() ==> (0x61 <= #[trigger] (s@[i] as u32) <= 0x7a || s@[i] as u32
                == 0x2d),
    ensures
        s.spec_bytes().len() == s@.len(),
        forall|i: int|
            0 <= i < s.spec_bytes().len() ==> (0x61 <= #[trigger] s.spec_bytes()[i] <= 0x7a
                || s.spec_bytes()[i] == 0x2d),
        lower_bytes(s.spec_bytes()) =~= s.spec_bytes(),
        is_ascii_bytes(s.spec_bytes()),
        forall|i: int| 0 <= i < s@.len() ==> #[trigger] s.spec_bytes()[i] == s@[i] as u8,
{
    broadcast use vstd::utf8::is_ascii_chars_encode_utf8;

    let b = s.spec_bytes();
    assert forall|i: int| 0 <= i < b.len() implies (0x61 <= #[trigger] b[i] <= 0x7a || b[i]
        == 0x2d) by {
        assert(b[i] == s@[i] as u8);
        assert(s@[i] as u8 == (s@[i] as u32) as u8);
    }
    assert forall|i: int| 0 <= i < b.len() implies lower_bytes(b)[i] == b[i] by {
        assert(lower_bytes(b)[i] == crate::text::lower_byte(b[i]));
    }
}

/// Round trip: decoding the canonical encoding of any policy returns
/// that policy.
pub proof fn lemma_referrer_policy_round_trip(v: ReferrerPolicy)
    ensures
        ReferrerPolicy::spec_parse(seq![ReferrerPolicy::spec_encode(v)]) == Ok::<
            ReferrerPolicy,
            Error,
        >(v),
{
    reveal_strlit("no-referrer");
    reveal_strlit("never");
    reveal_strlit("no-referrer-when-downgrade");
    reveal_strlit("default");
    reveal_strlit("same-origin");
    reveal_strlit("origin");
    reveal_strlit("origin-when-cross-origin");
    reveal_strlit("strict-origin");
    reveal_strlit("strict-origin-when-cross-origin");
    reveal_strlit("unsafe-url");
    reveal_strlit("always");
    lemma_plain_lower_token("no-referrer");
    lemma_plain_lower_token("never");
    lemma_plain_lower_token("no-referrer-when-downgrade");
    lemma_plain_lower_token("default");
    lemma_plain_lower_token("same-origin");
    lemma_plain_lower_token("origin");
    lemma_plain_lower_token("origin-when-cross-origin");
    lemma_plain_lower_token("strict-origin");
    lemma_plain_lower_token("strict-origin-when-cross-origin");
    lemma_plain_lower_token("unsafe-url");
    lemma_plain_lower_token("always");
    broadcast use vstd::utf8::is_ascii_chars_encode_utf8;

    let t = ReferrerPolicy::spec_encode(v);
    assert(is_ascii_bytes(t));
    lemma_ascii_decode(t);
    assert(lines_utf8(seq![t]));
    lemma_single_item(t);
    assert(field_items(seq![t]) =~= seq![t]);
    assert(seq![t].drop_last() =~= Seq::<Seq<u8>>::empty());
    assert(rightmost_policy(seq![t]) == policy_of_token(t));
    if v is SameOrigin {
        assert("same-origin".spec_bytes()[0] == 's' as u8);
        assert("no-referrer".spec_bytes()[0] == 'n' as u8);
        assert("same-origin".spec_bytes() != "no-referrer".spec_bytes());
    }
    assert(policy_of_token(t) == Some(v));
}

/// The reverse round trip: a raw line that is itself a canonical
/// policy token decodes and re-encodes to the same line.
pub proof fn lemma_referrer_policy_reencode(raw: Seq<u8>)
    requires
        exists|v: ReferrerPolicy| raw == ReferrerPolicy::spec_encode(v),
    ensures
        ReferrerPolicy::spec_parse(seq![raw]) matches Ok(m) && ReferrerPolicy::spec_encode(m)
            == raw,
{
    let v = choose|v: ReferrerPolicy| raw == ReferrerPolicy::spec_encode(v);
    lemma_referrer_policy_round_trip(v);
}

} // verus!
