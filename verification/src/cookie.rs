//! `Cookie` header: an ordered list of `name=value` pairs sent as one
//! `; `-separated line.

use vstd::prelude::*;
use vstd::string::{StrSliceExecFns, StringSliceAdditionalSpecFns};
use vstd::utf8::{decode_utf8, encode_utf8, valid_utf8};
use crate::Error;
use crate::header::Header;
use crate::parsing::{plain_split, plain_split_line, split_once, split_once_bytes, trim, trim_bytes, views_of};
use crate::raw::Raw;
use crate::text::{bytes_to_string, str_eq};

verus! {

/// The pairs that a vector of owned strings denotes.
pub open spec fn pairs_view(ps: Seq<(String, String)>) -> Seq<(Seq<char>, Seq<char>)> {
    Seq::new(ps.len(), |i: int| (ps[i].0@, ps[i].1@))
}

/// The value of the first pair with the given name.
pub open spec fn cookie_get(ps: Seq<(Seq<char>, Seq<char>)>, k: Seq<char>) -> Option<Seq<char>>
    decreases ps.len(),
{
    if ps.len() == 0 {
        None
    } else if ps.first().0 == k {
        Some(ps.first().1)
    } else {
        cookie_get(ps.drop_first(), k)
    }
}

/// The pairs with a name's value replaced in place, or the new pair
/// appended when the name is absent.
pub open spec fn cookie_insert(
    ps: Seq<(Seq<char>, Seq<char>)>,
    k: Seq<char>,
    v: Seq<char>,
) -> Seq<(Seq<char>, Seq<char>)>
    decreases ps.len(),
{
    if ps.len() == 0 {
        seq![(k, v)]
    } else if ps.first().0 == k {
        seq![(k, v)] + ps.drop_first()
    } else {
        seq![ps.first()] + cookie_insert(ps.drop_first(), k, v)
    }
}

/// The pairs without every pair of the given name.
pub open spec fn remove_key(ps: Seq<(Seq<char>, Seq<char>)>, k: Seq<char>) -> Seq<
    (Seq<char>, Seq<char>),
>
    decreases ps.len(),
{
    if ps.len() == 0 {
        Seq::empty()
    } else if ps.first().0 == k {
        remove_key(ps.drop_first(), k)
    } else {
        seq![ps.first()] + remove_key(ps.drop_first(), k)
    }
}

/// The pairs after reading one line's `;`-separated segments, in order.
/// A segment without `=` is skipped; otherwise the text before the
/// first `=` is the name and the text after it the value, both trimmed,
/// and text that is not UTF-8 is a malformed field.
pub open spec fn cookie_line(
    ps: Seq<(Seq<char>, Seq<char>)>,
    segs: Seq<Seq<u8>>,
) -> Result<Seq<(Seq<char>, Seq<char>)>, Error>
    decreases segs.len(),
{
    if segs.len() == 0 {
        Ok(ps)
    } else {
        match split_once(segs.first(), 0x3d) {
            None => cookie_line(ps, segs.drop_first()),
            Some(kv) => {
                let kt = trim(kv.0);
                let vt = trim(kv.1);
                if valid_utf8(kt) && valid_utf8(vt) {
                    cookie_line(
                        cookie_insert(ps, decode_utf8(kt), decode_utf8(vt)),
                        segs.drop_first(),
                    )
                } else {
                    Err(Error::Utf8)
                }
            },
        }
    }
}

/// The pairs after reading every raw line in order.
pub open spec fn cookie_lines(
    ps: Seq<(Seq<char>, Seq<char>)>,
    lines: Seq<Seq<u8>>,
) -> Result<Seq<(Seq<char>, Seq<char>)>, Error>
    decreases lines.len(),
{
    if lines.len() == 0 {
        Ok(ps)
    } else if !valid_utf8(lines.first()) {
        Err(Error::Utf8)
    } else {
        match cookie_line(ps, plain_split(lines.first(), 0x3b)) {
            Ok(ps2) => cookie_lines(ps2, lines.drop_first()),
            Err(e) => Err(e),
        }
    }
}

/// The canonical line of one pair: `name=value`.
pub open spec fn cookie_pair_bytes(p: (Seq<char>, Seq<char>)) -> Seq<u8> {
    encode_utf8(p.0) + seq![0x3du8] + encode_utf8(p.1)
}

/// The canonical line of the pairs: `name=value` joined by `; `.
pub open spec fn cookie_encode_bytes(ps: Seq<(Seq<char>, Seq<char>)>) -> Seq<u8>
    decreases ps.len(),
{
    if ps.len() == 0 {
        Seq::empty()
    } else if ps.len() == 1 {
        cookie_pair_bytes(ps[0])
    } else {
        cookie_encode_bytes(ps.drop_last()) + seq![0x3bu8, 0x20u8] + cookie_pair_bytes(ps.last())
    }
}

/// Two cookies are equal when they hold the same number of pairs and
/// every pair of the first is the first-found value of its name in the
/// second.
pub open spec fn cookie_eq_spec(
    a: Seq<(Seq<char>, Seq<char>)>,
    b: Seq<(Seq<char>, Seq<char>)>,
) -> bool {
    a.len() == b.len() && forall|i: int|
        0 <= i < a.len() ==> cookie_get(b, (#[trigger] a[i]).0) == Some(a[i].1)
}

/// `Cookie` header: the ordered `name=value` pairs of a request's
/// cookie string.  Names may repeat; lookup finds the first.
#[derive(Clone, Debug)]
pub struct Cookie {
    pairs: Vec<(String, String)>,
}

impl View for Cookie {
    type V = Seq<(Seq<char>, Seq<char>)>;

    closed spec fn view(&self) -> Seq<(Seq<char>, Seq<char>)> {
        pairs_view(self.pairs@)
    }
}

proof fn lemma_cookie_insert_found(
    ps: Seq<(Seq<char>, Seq<char>)>,
    k: Seq<char>,
    v: Seq<char>,
    i: int,
)
    requires
        0 <= i < ps.len(),
        ps[i].0 == k,
        forall|j: int| 0 <= j < i ==> ps[j].0 != k,
    ensures
        cookie_insert(ps, k, v) =~= ps.update(i, (k, v)),
    decreases i,
{
    if i == 0 {
        assert(cookie_insert(ps, k, v) =~= seq![(k, v)] + ps.drop_first());
    } else {
        assert(ps.drop_first()[i - 1].0 == k);
        lemma_cookie_insert_found(ps.drop_first(), k, v, i - 1);
        assert(seq![ps.first()] + ps.drop_first().update(i - 1, (k, v)) =~= ps.update(i, (k, v)));
    }
}

proof fn lemma_cookie_insert_absent(ps: Seq<(Seq<char>, Seq<char>)>, k: Seq<char>, v: Seq<char>)
    requires
        forall|j: int| 0 <= j < ps.len() ==> (#[trigger] ps[j]).0 != k,
    ensures
        cookie_insert(ps, k, v) =~= ps.push((k, v)),
    decreases ps.len(),
{
    if ps.len() > 0 {
        assert(ps.first() == ps[0]);
        lemma_cookie_insert_absent(ps.drop_first(), k, v);
        assert(seq![ps.first()] + ps.drop_first().push((k, v)) =~= ps.push((k, v)));
    }
}

/// Replaces the first pair named `k` in place, or appends the new pair.
fn insert_pair(pairs: &mut Vec<(String, String)>, k: String, v: String)
    ensures
        pairs_view(final (pairs)@) == cookie_insert(pairs_view(old(pairs)@), k@, v@),
{
    let ghost orig = pairs_view(pairs@);
    let ghost kk = k@;
    let ghost vv = v@;
    let n = pairs.len();
    let mut i: usize = 0;
    while i < n
        invariant
            i <= n,
            n == pairs@.len(),
            pairs@ == old(pairs)@,
            orig == pairs_view(pairs@),
            kk == k@,
            vv == v@,
            forall|j: int| 0 <= j < i ==> (#[trigger] orig[j]).0 != kk,
        decreases n - i,
    {
        if str_eq(pairs[i].0.as_str(), k.as_str()) {
            proof {
                lemma_cookie_insert_found(orig, kk, vv, i as int);
            }
            let ghost before = pairs@;
            pairs.remove(i);
            pairs.insert(i, (k, v));
            proof {
                assert(pairs@ =~= before.update(i as int, pairs@[i as int]));
                assert(pairs@[i as int].0@ == kk && pairs@[i as int].1@ == vv);
                assert(pairs_view(pairs@) =~= orig.update(i as int, (kk, vv)));
            }
            return;
        }
        i += 1;
    }
    proof {
        lemma_cookie_insert_absent(orig, kk, vv);
    }
    pairs.push((k, v));
    proof {
        assert(pairs_view(pairs@) =~= orig.push((kk, vv)));
    }
}

impl Cookie {
    /// Creates an empty `Cookie` header.
    pub fn new() -> (c: Cookie)
        ensures
            c@ =~= Seq::<(Seq<char>, Seq<char>)>::empty(),
    {
        Cookie { pairs: Vec::new() }
    }

    /// Sets a name to one value, removing every other pair of that name
    /// and appending the new pair.
    pub fn set(&mut self, key: &str, value: &str)
        ensures
            final (self)@ == remove_key(old(self)@, key@).push((key@, value@)),
    {
        let ghost orig = self@;
        let n = self.pairs.len();
        let mut kept: Vec<(String, String)> = Vec::new();
        let mut i: usize = 0;
        proof {
            assert(orig.skip(0) =~= orig);
            assert(pairs_view(kept@) + remove_key(orig, key@) =~= remove_key(orig, key@));
        }
        while i < n
            invariant
                i <= n,
                n == self.pairs@.len(),
                orig == pairs_view(self.pairs@),
                remove_key(orig, key@) == pairs_view(kept@) + remove_key(
                    orig.skip(i as int),
                    key@,
                ),
            decreases n - i,
        {
            proof {
                assert(orig.skip(i as int).first() == orig[i as int]);
                assert(orig.skip(i as int).drop_first() =~= orig.skip(i + 1));
            }
            if !str_eq(self.pairs[i].0.as_str(), key) {
                let ghost old_kept = pairs_view(kept@);
                let pair = (self.pairs[i].0.clone(), self.pairs[i].1.clone());
                kept.push(pair);
                proof {
                    assert(pairs_view(kept@) =~= old_kept.push(orig[i as int]));
                    assert(old_kept.push(orig[i as int]) + remove_key(orig.skip(i + 1), key@)
                        =~= old_kept + (seq![orig[i as int]] + remove_key(
                        orig.skip(i + 1),
                        key@,
                    )));
                }
            }
            i += 1;
        }
        proof {
            assert(orig.skip(n as int) =~= Seq::<(Seq<char>, Seq<char>)>::empty());
            assert(pairs_view(kept@) + Seq::<(Seq<char>, Seq<char>)>::empty() =~= pairs_view(
                kept@,
            ));
        }
        kept.push((key.to_owned(), value.to_owned()));
        self.pairs = kept;
        proof {
            assert(pairs_view(self.pairs@) =~= remove_key(orig, key@).push((key@, value@)));
        }
    }

    /// Appends a pair, keeping any earlier pairs of the same name.
    pub fn append(&mut self, key: &str, value: &str)
        ensures
            final (self)@ == old(self)@.push((key@, value@)),
    {
        self.pairs.push((key.to_owned(), value.to_owned()));
        proof {
            assert(pairs_view(self.pairs@) =~= pairs_view(old(self).pairs@).push((key@, value@)));
        }
    }

    /// The value of the first pair with this name, if any.
    pub fn get(&self, key: &str) -> (r: Option<&str>)
        ensures
            match r {
                Some(v) => cookie_get(self@, key@) == Some(v@),
                None => cookie_get(self@, key@) is None,
            },
    {
        let n = self.pairs.len();
        let mut i: usize = 0;
        proof {
            assert(self@.skip(0) =~= self@);
        }
        while i < n
            invariant
                i <= n,
                n == self.pairs@.len(),
                cookie_get(self@, key@) == cookie_get(self@.skip(i as int), key@),
            decreases n - i,
        {
            proof {
                assert(self@.skip(i as int).first() == self@[i as int]);
                assert(self@.skip(i as int).drop_first() =~= self@.skip(i + 1));
            }
            if str_eq(self.pairs[i].0.as_str(), key) {
                return Some(self.pairs[i].1.as_str());
            }
            i += 1;
        }
        proof {
            assert(self@.skip(n as int) =~= Seq::<(Seq<char>, Seq<char>)>::empty());
        }
        None
    }

    /// Iterates the pairs in insertion order.
    pub fn iter(&self) -> (it: CookieIter<'_>)
        ensures
            it@ == (self@, 0int),
    {
        CookieIter { cookie: self, pos: 0 }
    }
}

impl Default for Cookie {
    fn default() -> (c: Cookie)
        ensures
            c@ =~= Seq::<(Seq<char>, Seq<char>)>::empty(),
    {
        Cookie::new()
    }
}

/// Iterator over a cookie's pairs, in insertion order.
#[derive(Debug)]
pub struct CookieIter<'a> {
    cookie: &'a Cookie,
    pos: usize,
}

impl<'a> View for CookieIter<'a> {
    type V = (Seq<(Seq<char>, Seq<char>)>, int);

    closed spec fn view(&self) -> (Seq<(Seq<char>, Seq<char>)>, int) {
        (self.cookie@, self.pos as int)
    }
}

impl<'a> CookieIter<'a> {
    /// The next pair, or nothing once every pair has been seen.
    pub fn next(&mut self) -> (r: Option<(&'a str, &'a str)>)
        ensures
            final (self)@.0 == old(self)@.0,
            match r {
                Some(kv) => old(self)@.1 < old(self)@.0.len() && final (self)@.1 == old(self)@.1
                    + 1 && old(self)@.0[old(self)@.1] == (kv.0@, kv.1@),
                None => old(self)@.1 >= old(self)@.0.len() && final (self)@.1 == old(self)@.1,
            },
    {
        if self.pos < self.cookie.pairs.len() {
            let k = self.cookie.pairs[self.pos].0.as_str();
            let v = self.cookie.pairs[self.pos].1.as_str();
            self.pos = self.pos + 1;
            Some((k, v))
        } else {
            None
        }
    }
}

impl Header for Cookie {
    open spec fn spec_name() -> Seq<char> {
        "Cookie"@
    }

    /// Every raw line is read as `;`-separated `name=value` segments; a
    /// field yielding no pair at all is malformed.
    open spec fn spec_parse(raw: Seq<Seq<u8>>) -> Result<Seq<(Seq<char>, Seq<char>)>, Error> {
        match cookie_lines(Seq::empty(), raw) {
            Ok(ps) => if ps.len() != 0 {
                Ok(ps)
            } else {
                Err(Error::Header)
            },
            Err(e) => Err(e),
        }
    }

    open spec fn spec_encode(v: Seq<(Seq<char>, Seq<char>)>) -> Seq<u8> {
        cookie_encode_bytes(v)
    }

    fn header_name() -> (n: &'static str) {
        "Cookie"
    }

    fn parse_header(raw: &Raw) -> (r: Result<Self, Error>) {
        let mut pairs: Vec<(String, String)> = Vec::new();
        let n = raw.len();
        let mut li: usize = 0;
        proof {
            assert(raw@.skip(0) =~= raw@);
            assert(pairs_view(pairs@) =~= Seq::<(Seq<char>, Seq<char>)>::empty());
        }
        while li < n
            invariant
                li <= n,
                n == raw@.len(),
                cookie_lines(Seq::empty(), raw@) == cookie_lines(
                    pairs_view(pairs@),
                    raw@.skip(li as int),
                ),
            decreases n - li,
        {
            proof {
                assert(raw@.skip(li as int).first() == raw@[li as int]);
                assert(raw@.skip(li as int).drop_first() =~= raw@.skip(li + 1));
            }
            let line = raw.line(li);
            match bytes_to_string(line.as_slice()) {
                Ok(_) => {},
                Err(_) => {
                    return Err(Error::Utf8);
                },
            }
            let segs = plain_split_line(line.as_slice(), 0x3b);
            let ghost segsv = views_of(segs@);
            let m = segs.len();
            let mut si: usize = 0;
            proof {
                assert(segsv.skip(0) =~= segsv);
            }
            while si < m
                invariant
                    si <= m,
                    m == segs@.len(),
                    segsv == views_of(segs@),
                    cookie_lines(Seq::empty(), raw@) == match cookie_line(
                        pairs_view(pairs@),
                        segsv.skip(si as int),
                    ) {
                        Ok(ps2) => cookie_lines(ps2, raw@.skip(li + 1)),
                        Err(e) => Err(e),
                    },
                decreases m - si,
            {
                proof {
                    assert(segsv.skip(si as int).first() == segsv[si as int]);
                    assert(segsv.skip(si as int).drop_first() =~= segsv.skip(si + 1));
                }
                match split_once_bytes(segs[si].as_slice(), 0x3d) {
                    None => {},
                    Some(kv) => {
                        let kt = trim_bytes(kv.0.as_slice());
                        let vt = trim_bytes(kv.1.as_slice());
                        let ks = match bytes_to_string(kt.as_slice()) {
                            Ok(s) => s,
                            Err(_) => {
                                return Err(Error::Utf8);
                            },
                        };
                        let vs = match bytes_to_string(vt.as_slice()) {
                            Ok(s) => s,
                            Err(_) => {
                                return Err(Error::Utf8);
                            },
                        };
                        insert_pair(&mut pairs, ks, vs);
                    },
                }
                si += 1;
            }
            proof {
                assert(segsv.skip(m as int) =~= Seq::<Seq<u8>>::empty());
            }
            li += 1;
        }
        proof {
            assert(raw@.skip(n as int) =~= Seq::<Seq<u8>>::empty());
        }
        if pairs.len() != 0 {
            Ok(Cookie { pairs })
        } else {
            Err(Error::Header)
        }
    }

    fn fmt_header(&self) -> (line: Vec<u8>) {
        let mut out: Vec<u8> = Vec::new();
        let n = self.pairs.len();
        let mut i: usize = 0;
        while i < n
            invariant
                i <= n,
                n == self.pairs@.len(),
                out@ == cookie_encode_bytes(self@.take(i as int)),
            decreases n - i,
        {
            proof {
                assert(self@.take(i + 1).drop_last() =~= self@.take(i as int));
                assert(self@.take(i + 1).last() == self@[i as int]);
            }
            if i > 0 {
                out.push(0x3b);
                out.push(0x20);
            }
            let mut kb = self.pairs[i].0.as_str().as_bytes_vec();
            out.append(&mut kb);
            out.push(0x3d);
            let mut vb = self.pairs[i].1.as_str().as_bytes_vec();
            out.append(&mut vb);
            proof {
                assert(out@ =~= cookie_encode_bytes(self@.take(i + 1)));
            }
            i += 1;
        }
        proof {
            assert(self@.take(n as int) =~= self@);
        }
        out
    }
}

impl PartialEq for Cookie {
    fn eq(&self, other: &Cookie) -> (r: bool) {
        let n = self.pairs.len();
        if n != other.pairs.len() {
            return false;
        }
        let mut i: usize = 0;
        while i < n
            invariant
                i <= n,
                n == self.pairs@.len(),
                n == other.pairs@.len(),
                forall|j: int|
                    0 <= j < i ==> cookie_get(other@, (#[trigger] self@[j]).0) == Some(
                        self@[j].1,
                    ),
            decreases n - i,
        {
            match other.get(self.pairs[i].0.as_str()) {
                Some(v) => {
                    if !str_eq(v, self.pairs[i].1.as_str()) {
                        proof {
                            assert(cookie_get(other@, self@[i as int].0) == Some(v@));
                            assert(!cookie_eq_spec(self@, other@));
                        }
                        return false;
                    }
                },
                None => {
                    proof {
                        assert(cookie_get(other@, self@[i as int].0) is None);
                        assert(!cookie_eq_spec(self@, other@));
                    }
                    return false;
                },
            }
            i += 1;
        }
        true
    }
}

impl vstd::std_specs::cmp::PartialEqSpecImpl for Cookie {
    open spec fn obeys_eq_spec() -> bool {
        true
    }

    open spec fn eq_spec(&self, other: &Cookie) -> bool {
        cookie_eq_spec(self@, other@)
    }
}

/// One pair in canonical wire form: the name is a nonempty token
/// without `;`, `=` or marginal whitespace, and the value holds no `;`
/// and no marginal whitespace.
pub open spec fn cookie_pair_wf(p: (Seq<char>, Seq<char>)) -> bool {
    let kb = encode_utf8(p.0);
    let vb = encode_utf8(p.1);
    &&& kb.len() > 0
    &&& !crate::parsing::is_ws(kb[0])
    &&& !crate::parsing::is_ws(kb.last())
    &&& forall|i: int| 0 <= i < kb.len() ==> kb[i] != 0x3b && kb[i] != 0x3d
    &&& forall|i: int| 0 <= i < vb.len() ==> vb[i] != 0x3b
    &&& vb.len() > 0 ==> (!crate::parsing::is_ws(vb[0]) && !crate::parsing::is_ws(vb.last()))
}

/// A cookie value in canonical wire form: at least one pair, names
/// pairwise distinct, every pair wire clean.
pub open spec fn cookie_wf(ps: Seq<(Seq<char>, Seq<char>)>) -> bool {
    &&& ps.len() > 0
    &&& forall|i: int, j: int| 0 <= i < j < ps.len() ==> ps[i].0 != ps[j].0
    &&& forall|i: int| 0 <= i < ps.len() ==> cookie_pair_wf(#[trigger] ps[i])
}

proof fn lemma_cookie_encode_front(ps: Seq<(Seq<char>, Seq<char>)>)
    requires
        ps.len() >= 2,
    ensures
        cookie_encode_bytes(ps) == cookie_pair_bytes(ps[0]) + seq![0x3bu8, 0x20u8]
            + cookie_encode_bytes(ps.drop_first()),
    decreases ps.len(),
{
    if ps.len() == 2 {
        assert(ps.drop_last() =~= seq![ps[0]]);
        assert(ps.drop_first() =~= seq![ps[1]]);
        assert(cookie_encode_bytes(seq![ps[0]]) == cookie_pair_bytes(ps[0]));
        assert(cookie_encode_bytes(seq![ps[1]]) == cookie_pair_bytes(ps[1]));
        assert(cookie_encode_bytes(ps) =~= cookie_pair_bytes(ps[0]) + seq![0x3bu8, 0x20u8]
            + cookie_pair_bytes(ps[1]));
    } else {
        lemma_cookie_encode_front(ps.drop_last());
        assert(ps.drop_last()[0] == ps[0]);
        assert(ps.drop_last().drop_first() =~= ps.drop_first().drop_last());
        assert(ps.drop_first().last() == ps.last());
        assert((cookie_pair_bytes(ps[0]) + seq![0x3bu8, 0x20u8] + cookie_encode_bytes(
            ps.drop_first().drop_last(),
        )) + seq![0x3bu8, 0x20u8] + cookie_pair_bytes(ps.last()) =~= cookie_pair_bytes(ps[0])
            + seq![0x3bu8, 0x20u8] + (cookie_encode_bytes(ps.drop_first().drop_last())
            + seq![0x3bu8, 0x20u8] + cookie_pair_bytes(ps.last())));
    }
}

proof fn lemma_cookie_encode_utf8(ps: Seq<(Seq<char>, Seq<char>)>)
    ensures
        valid_utf8(cookie_encode_bytes(ps)),
    decreases ps.len(),
{
    broadcast use vstd::utf8::valid_utf8_concat;
    broadcast use vstd::utf8::encode_utf8_valid_utf8;

    if ps.len() == 0 {
        assert(valid_utf8(Seq::<u8>::empty()));
    } else if ps.len() == 1 {
        crate::text::lemma_ascii_decode(seq![0x3du8]);
        let p = ps[0];
        assert(valid_utf8(encode_utf8(p.0) + seq![0x3du8]));
        assert(valid_utf8((encode_utf8(p.0) + seq![0x3du8]) + encode_utf8(p.1)));
        assert(cookie_encode_bytes(ps) =~= (encode_utf8(p.0) + seq![0x3du8]) + encode_utf8(p.1));
    } else {
        lemma_cookie_encode_utf8(ps.drop_last());
        lemma_cookie_encode_utf8(seq![ps.last()]);
        crate::text::lemma_ascii_decode(seq![0x3bu8, 0x20u8]);
        assert(cookie_encode_bytes(seq![ps.last()]) == cookie_pair_bytes(ps.last()));
        let a = cookie_encode_bytes(ps.drop_last());
        assert(valid_utf8(a + seq![0x3bu8, 0x20u8]));
        assert(valid_utf8((a + seq![0x3bu8, 0x20u8]) + cookie_pair_bytes(ps.last())));
        assert(cookie_encode_bytes(ps) =~= (a + seq![0x3bu8, 0x20u8]) + cookie_pair_bytes(
            ps.last(),
        ));
    }
}

proof fn lemma_cookie_parse_pairs(
    acc: Seq<(Seq<char>, Seq<char>)>,
    ps: Seq<(Seq<char>, Seq<char>)>,
    pad: Seq<u8>,
)
    requires
        ps.len() >= 1,
        forall|i: int, j: int| 0 <= i < j < ps.len() ==> ps[i].0 != ps[j].0,
        forall|i: int| 0 <= i < ps.len() ==> cookie_pair_wf(#[trigger] ps[i]),
        forall|i: int, j: int|
            0 <= i < acc.len() && 0 <= j < ps.len() ==> (#[trigger] acc[i]).0 != (
            #[trigger] ps[j]).0,
        forall|i: int| 0 <= i < pad.len() ==> crate::parsing::is_ws(#[trigger] pad[i]),
    ensures
        cookie_line(acc, plain_split(pad + cookie_encode_bytes(ps), 0x3b)) == Ok::<
            Seq<(Seq<char>, Seq<char>)>,
            Error,
        >(acc + ps),
    decreases ps.len(),
{
    broadcast use vstd::utf8::encode_utf8_valid_utf8;
    broadcast use vstd::utf8::encode_utf8_decode_utf8;

    let kb = encode_utf8(ps[0].0);
    let vb = encode_utf8(ps[0].1);
    let p0 = cookie_pair_bytes(ps[0]);
    assert(p0 =~= kb + seq![0x3du8] + vb);
    if ps.len() == 1 {
        let s = pad + cookie_encode_bytes(ps);
        assert(cookie_encode_bytes(ps) == p0);
        crate::parsing::lemma_plain_split_whole(s, 0x3b);
        crate::parsing::lemma_split_once_found(s, 0x3d, (pad.len() + kb.len()) as int);
        assert(s.take((pad.len() + kb.len()) as int) =~= pad + kb);
        assert(s.skip((pad.len() + kb.len() + 1) as int) =~= vb);
        crate::parsing::lemma_trim_ws_prefix(pad, kb);
        crate::parsing::lemma_trim_id(kb);
        crate::parsing::lemma_trim_id(vb);
        lemma_cookie_insert_absent(acc, ps[0].0, ps[0].1);
        assert(seq![s].drop_first() =~= Seq::<Seq<u8>>::empty());
        assert(cookie_line(acc.push(ps[0]), Seq::<Seq<u8>>::empty()) == Ok::<
            Seq<(Seq<char>, Seq<char>)>,
            Error,
        >(acc.push(ps[0])));
        assert(acc.push(ps[0]) =~= acc + ps);
    } else {
        lemma_cookie_encode_front(ps);
        let rest = cookie_encode_bytes(ps.drop_first());
        let s = pad + cookie_encode_bytes(ps);
        let cut = pad.len() + p0.len();
        assert(s =~= pad + p0 + seq![0x3bu8, 0x20u8] + rest);
        assert(s[cut as int] == 0x3b);
        assert(forall|j: int| 0 <= j < cut ==> s[j] != 0x3b);
        crate::parsing::lemma_plain_split_first(s, 0x3b, cut as int);
        assert(s.take(cut as int) =~= pad + p0);
        assert(s.skip(cut as int + 1) =~= seq![0x20u8] + rest);
        let seg0 = pad + p0;
        crate::parsing::lemma_split_once_found(seg0, 0x3d, (pad.len() + kb.len()) as int);
        assert(seg0.take((pad.len() + kb.len()) as int) =~= pad + kb);
        assert(seg0.skip((pad.len() + kb.len() + 1) as int) =~= vb);
        crate::parsing::lemma_trim_ws_prefix(pad, kb);
        crate::parsing::lemma_trim_id(kb);
        crate::parsing::lemma_trim_id(vb);
        lemma_cookie_insert_absent(acc, ps[0].0, ps[0].1);
        let segs = plain_split(s, 0x3b);
        assert(segs.first() == seg0);
        assert(segs.drop_first() =~= plain_split(seq![0x20u8] + rest, 0x3b));
        lemma_cookie_parse_pairs(acc.push(ps[0]), ps.drop_first(), seq![0x20u8]);
        assert(acc.push(ps[0]) + ps.drop_first() =~= acc + ps);
    }
}

/// Round trip: a well-formed cookie decodes from its canonical wire
/// line to the same pairs, in the same order.
pub proof fn lemma_cookie_round_trip(ps: Seq<(Seq<char>, Seq<char>)>)
    requires
        cookie_wf(ps),
    ensures
        Cookie::spec_parse(seq![Cookie::spec_encode(ps)]) == Ok::<
            Seq<(Seq<char>, Seq<char>)>,
            Error,
        >(ps),
{
    let line = cookie_encode_bytes(ps);
    lemma_cookie_encode_utf8(ps);
    lemma_cookie_parse_pairs(Seq::empty(), ps, Seq::empty());
    assert(Seq::<u8>::empty() + line =~= line);
    assert(Seq::<(Seq<char>, Seq<char>)>::empty() + ps =~= ps);
    assert(seq![line].first() == line);
    assert(seq![line].drop_first() =~= Seq::<Seq<u8>>::empty());
    assert(cookie_lines(ps, Seq::<Seq<u8>>::empty()) == Ok::<
        Seq<(Seq<char>, Seq<char>)>,
        Error,
    >(ps));
}

/// The reverse round trip: a raw line that is itself a canonical
/// cookie encoding decodes and re-encodes to the same line.
pub proof fn lemma_cookie_reencode(raw: Seq<u8>)
    requires
        exists|ps: Seq<(Seq<char>, Seq<char>)>| cookie_wf(ps) && raw == Cookie::spec_encode(ps),
    ensures
        Cookie::spec_parse(seq![raw]) matches Ok(m) && Cookie::spec_encode(m) == raw,
{
    let ps = choose|ps: Seq<(Seq<char>, Seq<char>)>|
        cookie_wf(ps) && raw == Cookie::spec_encode(ps);
    lemma_cookie_round_trip(ps);
}

} // verus!
