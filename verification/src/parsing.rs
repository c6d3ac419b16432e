//! The comma-delimited list / quoted-string codec: splitting a raw line
//! at top-level commas (commas inside quoted strings are literal),
//! trimming whitespace, and decimal number parsing and formatting.

use vstd::prelude::*;
use crate::raw::Raw;

verus! {

/// ASCII whitespace trimmed around list items.
pub open spec fn is_ws(b: u8) -> bool {
    b == 0x20 || 0x09 <= b <= 0x0d
}

/// `s` without its leading whitespace.
pub open spec fn trim_start(s: Seq<u8>) -> Seq<u8>
    decreases s.len(),
{
    if s.len() > 0 && is_ws(s[0]) {
        trim_start(s.drop_first())
    } else {
        s
    }
}

/// `s` without its trailing whitespace.
pub open spec fn trim_end(s: Seq<u8>) -> Seq<u8>
    decreases s.len(),
{
    if s.len() > 0 && is_ws(s.last()) {
        trim_end(s.drop_last())
    } else {
        s
    }
}

/// `s` without leading and trailing whitespace.
pub open spec fn trim(s: Seq<u8>) -> Seq<u8> {
    trim_end(trim_start(s))
}

/// Trimming leaves a string without marginal whitespace unchanged.
pub proof fn lemma_trim_id(s: Seq<u8>)
    requires
        s.len() > 0 ==> !is_ws(s[0]) && !is_ws(s.last()),
    ensures
        trim(s) == s,
{
    assert(trim_start(s) == s);
    assert(trim_end(s) == s);
}

/// The views of a vector of byte vectors.
pub open spec fn views_of(vs: Seq<Vec<u8>>) -> Seq<Seq<u8>> {
    Seq::new(vs.len(), |i: int| vs[i]@)
}

/// One step of the quoted-string scanner: `q` is true inside a quoted
/// string, `e` is true right after a backslash inside one.
pub open spec fn qstep(q: bool, e: bool, c: u8) -> (bool, bool) {
    if e {
        (q, false)
    } else if q {
        if c == 0x5c {
            (true, true)
        } else if c == 0x22 {
            (false, false)
        } else {
            (true, false)
        }
    } else {
        if c == 0x22 {
            (true, false)
        } else {
            (false, false)
        }
    }
}

/// The remaining segments of `s` from position `i` on, split at the
/// separator `sep` at top level, the current segment being `seg` and the
/// quoted-string state `(q, e)`.
pub open spec fn split_scan(s: Seq<u8>, sep: u8, i: int, seg: Seq<u8>, q: bool, e: bool) -> Seq<
    Seq<u8>,
>
    decreases s.len() - i,
    when 0 <= i <= s.len()
{
    if i >= s.len() {
        seq![seg]
    } else {
        let c = s[i];
        if !q && c == sep {
            seq![seg] + split_scan(s, sep, i + 1, Seq::empty(), false, false)
        } else {
            let st = qstep(q, e, c);
            split_scan(s, sep, i + 1, seg.push(c), st.0, st.1)
        }
    }
}

/// The segments of `s` split at top-level occurrences of `sep`; a
/// separator inside a quoted string does not split.
pub open spec fn split_top(s: Seq<u8>, sep: u8) -> Seq<Seq<u8>> {
    split_scan(s, sep, 0, Seq::empty(), false, false)
}

/// The segments of `s` split at top-level commas; a comma inside a
/// quoted string does not split.
pub open spec fn split_commas(s: Seq<u8>) -> Seq<Seq<u8>> {
    split_top(s, 0x2c)
}

/// The segments trimmed, empty ones dropped.
pub open spec fn kept_items(segs: Seq<Seq<u8>>) -> Seq<Seq<u8>>
    decreases segs.len(),
{
    if segs.len() == 0 {
        Seq::empty()
    } else {
        let rest = kept_items(segs.drop_last());
        let t = trim(segs.last());
        if t.len() > 0 {
            rest.push(t)
        } else {
            rest
        }
    }
}

/// The items of one raw line: comma-separated segments, trimmed, empty
/// segments skipped.  An empty line yields no items.
pub open spec fn line_items(s: Seq<u8>) -> Seq<Seq<u8>> {
    kept_items(split_commas(s))
}

/// The items of a whole raw field: every line contributes its items in
/// order.
pub open spec fn field_items(lines: Seq<Seq<u8>>) -> Seq<Seq<u8>>
    decreases lines.len(),
{
    if lines.len() == 0 {
        Seq::empty()
    } else {
        field_items(lines.drop_last()) + line_items(lines.last())
    }
}

/// Whether `b` is whitespace; see [`is_ws`].
pub fn ws(b: u8) -> (r: bool)
    ensures
        r == is_ws(b),
{
    b == 0x20 || (0x09 <= b && b <= 0x0d)
}

/// Trims leading and trailing whitespace from `s`.
pub fn trim_bytes(s: &[u8]) -> (r: Vec<u8>)
    ensures
        r@ == trim(s@),
{
    let n = s.len();
    let mut start: usize = 0;
    proof {
        assert(s@.skip(0) =~= s@);
    }
    while start < n && ws(*vstd::slice::slice_index_get(s, start))
        invariant
            start <= n,
            n == s@.len(),
            trim_start(s@) == trim_start(s@.skip(start as int)),
        decreases n - start,
    {
        proof {
            assert(s@.skip(start as int).drop_first() =~= s@.skip(start + 1));
        }
        start += 1;
    }
    proof {
        assert(trim_start(s@) == s@.skip(start as int));
    }
    let mut end: usize = n;
    while end > start && ws(*vstd::slice::slice_index_get(s, end - 1))
        invariant
            start <= end <= n,
            n == s@.len(),
            trim_start(s@) == s@.skip(start as int),
            trim_end(s@.skip(start as int)) == trim_end(s@.subrange(start as int, end as int)),
        decreases end,
    {
        proof {
            assert(s@.subrange(start as int, end as int).drop_last() =~= s@.subrange(
                start as int,
                end - 1,
            ));
            assert(s@.subrange(start as int, end as int).last() == s@[end - 1]);
        }
        end -= 1;
    }
    proof {
        let t = s@.subrange(start as int, end as int);
        if t.len() > 0 {
            assert(!is_ws(t.last()));
        }
        assert(trim_end(t) == t);
    }
    let sub = vstd::slice::slice_subrange(s, start, end);
    vstd::slice::slice_to_vec(sub)
}

/// Splits one raw line at top-level occurrences of `sep`.
pub fn split_line(s: &[u8], sep: u8) -> (r: Vec<Vec<u8>>)
    requires
        sep != 0x22,
        sep != 0x5c,
    ensures
        views_of(r@) == split_top(s@, sep),
{
    let n = s.len();
    let mut acc: Vec<Vec<u8>> = Vec::new();
    let mut seg: Vec<u8> = Vec::new();
    let mut q = false;
    let mut e = false;
    let mut i: usize = 0;
    while i < n
        invariant
            i <= n,
            n == s@.len(),
            sep != 0x22 && sep != 0x5c,
            split_top(s@, sep) == views_of(acc@) + split_scan(s@, sep, i as int, seg@, q, e),
        decreases n - i,
    {
        let c = *vstd::slice::slice_index_get(s, i);
        if !q && c == sep {
            let ghost old_acc = acc@;
            acc.push(seg);
            seg = Vec::new();
            e = false;
            proof {
                assert(views_of(acc@) =~= views_of(old_acc).push(acc@.last()@));
                assert(views_of(old_acc) + split_scan(s@, sep, i as int, acc@.last()@, false, e)
                    =~= views_of(acc@) + split_scan(s@, sep, i + 1, Seq::empty(), false, false));
            }
        } else {
            if e {
                e = false;
            } else if q {
                if c == 0x5c {
                    e = true;
                } else if c == 0x22 {
                    q = false;
                }
            } else {
                if c == 0x22 {
                    q = true;
                }
            }
            seg.push(c);
        }
        i += 1;
    }
    let ghost old_acc = acc@;
    acc.push(seg);
    proof {
        assert(views_of(acc@) =~= views_of(old_acc).push(acc@.last()@));
        assert(views_of(old_acc) + seq![acc@.last()@] =~= views_of(acc@));
    }
    acc
}

/// The items of one raw line: split, trimmed, empties skipped.
pub fn line_items_vec(s: &[u8]) -> (r: Vec<Vec<u8>>)
    ensures
        views_of(r@) == line_items(s@),
{
    let segs = split_line(s, 0x2c);
    let mut out: Vec<Vec<u8>> = Vec::new();
    let n = segs.len();
    let mut i: usize = 0;
    while i < n
        invariant
            i <= n,
            n == segs@.len(),
            views_of(segs@) == split_commas(s@),
            views_of(out@) == kept_items(views_of(segs@).take(i as int)),
        decreases n - i,
    {
        let t = trim_bytes(segs[i].as_slice());
        let ghost old_out = out@;
        let ghost pref = views_of(segs@).take(i as int);
        proof {
            assert(views_of(segs@).take(i + 1).drop_last() =~= pref);
            assert(views_of(segs@).take(i + 1).last() == segs@[i as int]@);
        }
        if t.len() > 0 {
            out.push(t);
            proof {
                assert(views_of(out@) =~= views_of(old_out).push(out@.last()@));
            }
        }
        i += 1;
    }
    proof {
        assert(views_of(segs@).take(n as int) =~= views_of(segs@));
    }
    out
}

/// The items of a whole raw field; see [`field_items`].
pub fn comma_items(raw: &Raw) -> (r: Vec<Vec<u8>>)
    ensures
        views_of(r@) == field_items(raw@),
{
    let mut out: Vec<Vec<u8>> = Vec::new();
    let n = raw.len();
    let mut i: usize = 0;
    while i < n
        invariant
            i <= n,
            n == raw@.len(),
            views_of(out@) == field_items(raw@.take(i as int)),
        decreases n - i,
    {
        let mut items = line_items_vec(raw.line(i).as_slice());
        let ghost old_out = out@;
        let ghost old_items = items@;
        out.append(&mut items);
        proof {
            assert(raw@.take(i + 1).drop_last() =~= raw@.take(i as int));
            assert(raw@.take(i + 1).last() == raw@[i as int]);
            assert(views_of(out@) =~= views_of(old_out) + views_of(old_items));
        }
        i += 1;
    }
    proof {
        assert(raw@.take(n as int) =~= raw@);
    }
    out
}

proof fn lemma_split_scan_plain(s: Seq<u8>, sep: u8, i: int, seg: Seq<u8>)
    requires
        0 <= i <= s.len(),
        forall|j: int| i <= j < s.len() ==> s[j] != sep && s[j] != 0x22,
    ensures
        split_scan(s, sep, i, seg, false, false) =~= seq![seg + s.skip(i)],
    decreases s.len() - i,
{
    if i < s.len() {
        lemma_split_scan_plain(s, sep, i + 1, seg.push(s[i]));
        assert(seg.push(s[i]) + s.skip(i + 1) =~= seg + s.skip(i));
    } else {
        assert(seg + s.skip(i) =~= seg);
    }
}

proof fn lemma_split_scan_len(s: Seq<u8>, sep: u8, i: int, seg: Seq<u8>, q: bool, e: bool)
    requires
        0 <= i <= s.len(),
    ensures
        split_scan(s, sep, i, seg, q, e).len() >= 1,
    decreases s.len() - i,
{
    if i < s.len() {
        let c = s[i];
        if !q && c == sep {
            lemma_split_scan_len(s, sep, i + 1, Seq::empty(), false, false);
        } else {
            let st = qstep(q, e, c);
            lemma_split_scan_len(s, sep, i + 1, seg.push(c), st.0, st.1);
        }
    }
}

/// A split always yields at least one segment.
pub proof fn lemma_split_top_nonempty(s: Seq<u8>, sep: u8)
    ensures
        split_top(s, sep).len() >= 1,
{
    lemma_split_scan_len(s, sep, 0, Seq::empty(), false, false);
}

/// A string without top-level separators splits into itself alone.
pub proof fn lemma_split_whole(s: Seq<u8>, sep: u8)
    requires
        forall|i: int| 0 <= i < s.len() ==> s[i] != sep && s[i] != 0x22,
    ensures
        split_top(s, sep) =~= seq![s],
{
    lemma_split_scan_plain(s, sep, 0, Seq::empty());
    assert(Seq::<u8>::empty() + s.skip(0) =~= s);
}

/// Splitting cuts at the first top-level separator: if nothing before
/// position `k` is a separator or a quote and `s[k]` is the separator,
/// the first segment is everything before `k` and the rest is the split
/// of everything after it.
pub proof fn lemma_split_first(s: Seq<u8>, sep: u8, k: int)
    requires
        0 <= k < s.len(),
        s[k] == sep,
        forall|j: int| 0 <= j < k ==> s[j] != sep && s[j] != 0x22,
    ensures
        split_top(s, sep) =~= seq![s.take(k)] + split_top(s.skip(k + 1), sep),
{
    lemma_split_scan_until(s, sep, 0, Seq::empty(), k);
    assert(Seq::<u8>::empty() + s.subrange(0, k) =~= s.take(k));
    lemma_split_scan_shift(s, sep, k + 1);
}

proof fn lemma_split_scan_until(s: Seq<u8>, sep: u8, i: int, seg: Seq<u8>, k: int)
    requires
        0 <= i <= k < s.len(),
        s[k] == sep,
        forall|j: int| i <= j < k ==> s[j] != sep && s[j] != 0x22,
    ensures
        split_scan(s, sep, i, seg, false, false) =~= seq![seg + s.subrange(i, k)] + split_scan(
            s,
            sep,
            k + 1,
            Seq::empty(),
            false,
            false,
        ),
    decreases k - i,
{
    if i < k {
        lemma_split_scan_until(s, sep, i + 1, seg.push(s[i]), k);
        assert(seg.push(s[i]) + s.subrange(i + 1, k) =~= seg + s.subrange(i, k));
    } else {
        assert(seg + s.subrange(i, k) =~= seg);
    }
}

/// Scanning from position `i` is scanning the tail that starts there.
proof fn lemma_split_scan_shift(s: Seq<u8>, sep: u8, i: int)
    requires
        0 <= i <= s.len(),
    ensures
        split_scan(s, sep, i, Seq::empty(), false, false) =~~= split_top(s.skip(i), sep),
{
    lemma_split_scan_shift_gen(s, sep, i, i, Seq::empty(), false, false);
}

proof fn lemma_split_scan_shift_gen(s: Seq<u8>, sep: u8, base: int, i: int, seg: Seq<u8>, q: bool, e: bool)
    requires
        0 <= base <= i <= s.len(),
    ensures
        split_scan(s, sep, i, seg, q, e) =~~= split_scan(
            s.skip(base),
            sep,
            i - base,
            seg,
            q,
            e,
        ),
    decreases s.len() - i,
{
    let t = s.skip(base);
    if i >= s.len() {
    } else {
        assert(t[i - base] == s[i]);
        let c = s[i];
        if !q && c == sep {
            lemma_split_scan_shift_gen(s, sep, base, i + 1, Seq::empty(), false, false);
        } else {
            let st = qstep(q, e, c);
            lemma_split_scan_shift_gen(s, sep, base, i + 1, seg.push(c), st.0, st.1);
        }
    }
}

/// Trimming ignores an all-whitespace prefix.
pub proof fn lemma_trim_ws_prefix(p: Seq<u8>, b: Seq<u8>)
    requires
        forall|i: int| 0 <= i < p.len() ==> is_ws(#[trigger] p[i]),
    ensures
        trim(p + b) == trim(b),
    decreases p.len(),
{
    if p.len() == 0 {
        assert(p + b =~= b);
    } else {
        assert((p + b)[0] == p[0]);
        assert((p + b).drop_first() =~= p.drop_first() + b);
        lemma_trim_ws_prefix(p.drop_first(), b);
        assert(trim_start(p + b) == trim_start(p.drop_first() + b));
    }
}

/// Keeping the nonempty trimmed segments distributes over
/// concatenation.
pub proof fn lemma_kept_concat(a: Seq<Seq<u8>>, b: Seq<Seq<u8>>)
    ensures
        kept_items(a + b) == kept_items(a) + kept_items(b),
    decreases b.len(),
{
    if b.len() == 0 {
        assert(a + b =~= a);
        assert(kept_items(b) =~= Seq::<Seq<u8>>::empty());
        assert(kept_items(a) + kept_items(b) =~= kept_items(a));
    } else {
        assert((a + b).drop_last() =~= a + b.drop_last());
        assert((a + b).last() == b.last());
        lemma_kept_concat(a, b.drop_last());
        let t = trim(b.last());
        if t.len() > 0 {
            assert((kept_items(a) + kept_items(b.drop_last())).push(t) =~= kept_items(a) + (
            kept_items(b.drop_last()).push(t)));
        }
    }
}

/// A line holding a single token, with no commas or quotes and no
/// marginal whitespace, is a one-item list.
pub proof fn lemma_single_item(s: Seq<u8>)
    requires
        forall|i: int| 0 <= i < s.len() ==> s[i] != 0x2c && s[i] != 0x22,
        s.len() > 0,
        !is_ws(s[0]),
        !is_ws(s.last()),
    ensures
        line_items(s) =~= seq![s],
        field_items(seq![s]) =~= seq![s],
{
    lemma_split_whole(s, 0x2c);
    assert(split_commas(s) =~= seq![s]);
    lemma_trim_id(s);
    assert(seq![s].drop_last() =~= Seq::<Seq<u8>>::empty());
    assert(kept_items(Seq::<Seq<u8>>::empty()) =~= Seq::<Seq<u8>>::empty());
    assert(kept_items(seq![s]) =~= Seq::<Seq<u8>>::empty().push(trim(seq![s].last())));
    assert(kept_items(seq![s]) =~= seq![s]);
    assert(field_items(seq![s]) =~= field_items(Seq::empty()) + line_items(s));
}

/// The remaining segments of `s` from position `i` on, split at every
/// occurrence of `sep`, the current segment being `seg`.
pub open spec fn plain_scan(s: Seq<u8>, sep: u8, i: int, seg: Seq<u8>) -> Seq<Seq<u8>>
    decreases s.len() - i,
    when 0 <= i <= s.len()
{
    if i >= s.len() {
        seq![seg]
    } else if s[i] == sep {
        seq![seg] + plain_scan(s, sep, i + 1, Seq::empty())
    } else {
        plain_scan(s, sep, i + 1, seg.push(s[i]))
    }
}

/// The segments of `s` split at every occurrence of `sep`, quotes not
/// considered.
pub open spec fn plain_split(s: Seq<u8>, sep: u8) -> Seq<Seq<u8>> {
    plain_scan(s, sep, 0, Seq::empty())
}

/// Splits at every occurrence of `sep`; see [`plain_split`].
pub fn plain_split_line(s: &[u8], sep: u8) -> (r: Vec<Vec<u8>>)
    ensures
        views_of(r@) == plain_split(s@, sep),
{
    let n = s.len();
    let mut acc: Vec<Vec<u8>> = Vec::new();
    let mut seg: Vec<u8> = Vec::new();
    let mut i: usize = 0;
    while i < n
        invariant
            i <= n,
            n == s@.len(),
            plain_split(s@, sep) == views_of(acc@) + plain_scan(s@, sep, i as int, seg@),
        decreases n - i,
    {
        let c = *vstd::slice::slice_index_get(s, i);
        if c == sep {
            let ghost old_acc = acc@;
            acc.push(seg);
            seg = Vec::new();
            proof {
                assert(views_of(acc@) =~= views_of(old_acc).push(acc@.last()@));
                assert(views_of(old_acc) + (seq![acc@.last()@] + plain_scan(
                    s@,
                    sep,
                    i + 1,
                    Seq::empty(),
                )) =~= views_of(acc@) + plain_scan(s@, sep, i + 1, Seq::empty()));
            }
        } else {
            seg.push(c);
        }
        i += 1;
    }
    let ghost old_acc = acc@;
    acc.push(seg);
    proof {
        assert(views_of(acc@) =~= views_of(old_acc).push(acc@.last()@));
        assert(views_of(old_acc) + seq![acc@.last()@] =~= views_of(acc@));
    }
    acc
}

/// The remaining segments of `s` from position `i` on, split at every
/// whitespace byte, the current segment being `seg`.
pub open spec fn ws_scan(s: Seq<u8>, i: int, seg: Seq<u8>) -> Seq<Seq<u8>>
    decreases s.len() - i,
    when 0 <= i <= s.len()
{
    if i >= s.len() {
        seq![seg]
    } else if is_ws(s[i]) {
        seq![seg] + ws_scan(s, i + 1, Seq::empty())
    } else {
        ws_scan(s, i + 1, seg.push(s[i]))
    }
}

/// The nonempty segments, in order.
pub open spec fn drop_empties(segs: Seq<Seq<u8>>) -> Seq<Seq<u8>>
    decreases segs.len(),
{
    if segs.len() == 0 {
        Seq::empty()
    } else {
        let rest = drop_empties(segs.drop_last());
        if segs.last().len() > 0 {
            rest.push(segs.last())
        } else {
            rest
        }
    }
}

/// The whitespace-separated words of `s`.
pub open spec fn ws_tokens(s: Seq<u8>) -> Seq<Seq<u8>> {
    drop_empties(ws_scan(s, 0, Seq::empty()))
}

/// A string without whitespace word-splits into itself alone.
pub proof fn lemma_ws_split_whole(s: Seq<u8>)
    requires
        forall|i: int| 0 <= i < s.len() ==> !is_ws(#[trigger] s[i]),
    ensures
        ws_scan(s, 0, Seq::empty()) =~= seq![s],
{
    lemma_ws_scan_plain(s, 0, Seq::empty());
    assert(Seq::<u8>::empty() + s.skip(0) =~= s);
}

proof fn lemma_ws_scan_plain(s: Seq<u8>, i: int, seg: Seq<u8>)
    requires
        0 <= i <= s.len(),
        forall|j: int| i <= j < s.len() ==> !is_ws(#[trigger] s[j]),
    ensures
        ws_scan(s, i, seg) =~= seq![seg + s.skip(i)],
    decreases s.len() - i,
{
    if i < s.len() {
        lemma_ws_scan_plain(s, i + 1, seg.push(s[i]));
        assert(seg.push(s[i]) + s.skip(i + 1) =~= seg + s.skip(i));
    } else {
        assert(seg + s.skip(i) =~= seg);
    }
}

/// Word splitting cuts at the first whitespace byte.
pub proof fn lemma_ws_split_first(s: Seq<u8>, k: int)
    requires
        0 <= k < s.len(),
        is_ws(s[k]),
        forall|j: int| 0 <= j < k ==> !is_ws(#[trigger] s[j]),
    ensures
        ws_scan(s, 0, Seq::empty()) =~= seq![s.take(k)] + ws_scan(s.skip(k + 1), 0, Seq::empty()),
{
    lemma_ws_scan_until(s, 0, Seq::empty(), k);
    assert(Seq::<u8>::empty() + s.subrange(0, k) =~= s.take(k));
    lemma_ws_scan_shift(s, k + 1, k + 1, Seq::empty());
}

proof fn lemma_ws_scan_until(s: Seq<u8>, i: int, seg: Seq<u8>, k: int)
    requires
        0 <= i <= k < s.len(),
        is_ws(s[k]),
        forall|j: int| i <= j < k ==> !is_ws(#[trigger] s[j]),
    ensures
        ws_scan(s, i, seg) =~= seq![seg + s.subrange(i, k)] + ws_scan(s, k + 1, Seq::empty()),
    decreases k - i,
{
    if i < k {
        lemma_ws_scan_until(s, i + 1, seg.push(s[i]), k);
        assert(seg.push(s[i]) + s.subrange(i + 1, k) =~= seg + s.subrange(i, k));
    } else {
        assert(seg + s.subrange(i, k) =~= seg);
    }
}

proof fn lemma_ws_scan_shift(s: Seq<u8>, base: int, i: int, seg: Seq<u8>)
    requires
        0 <= base <= i <= s.len(),
    ensures
        ws_scan(s, i, seg) =~~= ws_scan(s.skip(base), i - base, seg),
    decreases s.len() - i,
{
    let t = s.skip(base);
    if i < s.len() {
        assert(t[i - base] == s[i]);
        if is_ws(s[i]) {
            lemma_ws_scan_shift(s, base, i + 1, Seq::empty());
        } else {
            lemma_ws_scan_shift(s, base, i + 1, seg.push(s[i]));
        }
    }
}

/// Dropping empty segments distributes over concatenation.
pub proof fn lemma_drop_empties_concat(a: Seq<Seq<u8>>, b: Seq<Seq<u8>>)
    ensures
        drop_empties(a + b) == drop_empties(a) + drop_empties(b),
    decreases b.len(),
{
    if b.len() == 0 {
        assert(a + b =~= a);
        assert(drop_empties(b) =~= Seq::<Seq<u8>>::empty());
        assert(drop_empties(a) + drop_empties(b) =~= drop_empties(a));
    } else {
        assert((a + b).drop_last() =~= a + b.drop_last());
        assert((a + b).last() == b.last());
        lemma_drop_empties_concat(a, b.drop_last());
        if b.last().len() > 0 {
            assert((drop_empties(a) + drop_empties(b.drop_last())).push(b.last()) =~= drop_empties(
                a,
            ) + (drop_empties(b.drop_last()).push(b.last())));
        }
    }
}

/// Leading zeros do not change the number a digit string denotes.
pub proof fn lemma_digits_val_leading_zero(s: Seq<u8>)
    ensures
        digits_val(seq![0x30u8] + s) == digits_val(s),
    decreases s.len(),
{
    if s.len() == 0 {
        assert(seq![0x30u8] + s =~= seq![0x30u8]);
        assert(seq![0x30u8].drop_last() =~= Seq::<u8>::empty());
        assert(digits_val(Seq::<u8>::empty()) == 0);
    } else {
        assert((seq![0x30u8] + s).drop_last() =~= seq![0x30u8] + s.drop_last());
        assert((seq![0x30u8] + s).last() == s.last());
        lemma_digits_val_leading_zero(s.drop_last());
    }
}

/// The whitespace-separated words of `s`; see [`ws_tokens`].
pub fn ws_tokens_vec(s: &[u8]) -> (r: Vec<Vec<u8>>)
    ensures
        views_of(r@) == ws_tokens(s@),
{
    let n = s.len();
    let mut segs: Vec<Vec<u8>> = Vec::new();
    let mut seg: Vec<u8> = Vec::new();
    let mut i: usize = 0;
    while i < n
        invariant
            i <= n,
            n == s@.len(),
            ws_scan(s@, 0, Seq::empty()) == views_of(segs@) + ws_scan(s@, i as int, seg@),
        decreases n - i,
    {
        let c = *vstd::slice::slice_index_get(s, i);
        if ws(c) {
            let ghost old_segs = segs@;
            segs.push(seg);
            seg = Vec::new();
            proof {
                assert(views_of(segs@) =~= views_of(old_segs).push(segs@.last()@));
                assert(views_of(old_segs) + (seq![segs@.last()@] + ws_scan(
                    s@,
                    i + 1,
                    Seq::empty(),
                )) =~= views_of(segs@) + ws_scan(s@, i + 1, Seq::empty()));
            }
        } else {
            seg.push(c);
        }
        i += 1;
    }
    let ghost old_segs = segs@;
    segs.push(seg);
    proof {
        assert(views_of(segs@) =~= views_of(old_segs).push(segs@.last()@));
        assert(views_of(old_segs) + seq![segs@.last()@] =~= views_of(segs@));
    }
    let ghost allsegs = views_of(segs@);
    let mut out: Vec<Vec<u8>> = Vec::new();
    let m = segs.len();
    let mut k: usize = 0;
    while k < m
        invariant
            k <= m,
            m == segs@.len(),
            allsegs == views_of(segs@),
            allsegs == ws_scan(s@, 0, Seq::empty()),
            views_of(out@) == drop_empties(allsegs.take(k as int)),
        decreases m - k,
    {
        proof {
            assert(allsegs.take(k + 1).drop_last() =~= allsegs.take(k as int));
            assert(allsegs.take(k + 1).last() == allsegs[k as int]);
        }
        if segs[k].len() > 0 {
            let ghost old_out = out@;
            let t = vstd::slice::slice_to_vec(segs[k].as_slice());
            out.push(t);
            proof {
                assert(out@.last()@ == allsegs[k as int]);
                assert(views_of(out@) =~= views_of(old_out).push(out@.last()@));
            }
        }
        k += 1;
    }
    proof {
        assert(allsegs.take(m as int) =~= allsegs);
    }
    out
}

/// A string without the separator splits, plainly, into itself alone.
pub proof fn lemma_plain_split_whole(s: Seq<u8>, sep: u8)
    requires
        forall|i: int| 0 <= i < s.len() ==> s[i] != sep,
    ensures
        plain_split(s, sep) =~= seq![s],
{
    lemma_plain_scan_plain(s, sep, 0, Seq::empty());
    assert(Seq::<u8>::empty() + s.skip(0) =~= s);
}

proof fn lemma_plain_scan_plain(s: Seq<u8>, sep: u8, i: int, seg: Seq<u8>)
    requires
        0 <= i <= s.len(),
        forall|j: int| i <= j < s.len() ==> s[j] != sep,
    ensures
        plain_scan(s, sep, i, seg) =~= seq![seg + s.skip(i)],
    decreases s.len() - i,
{
    if i < s.len() {
        lemma_plain_scan_plain(s, sep, i + 1, seg.push(s[i]));
        assert(seg.push(s[i]) + s.skip(i + 1) =~= seg + s.skip(i));
    } else {
        assert(seg + s.skip(i) =~= seg);
    }
}

/// Plain splitting cuts at the first separator: the first segment is
/// everything before it, the rest the split of everything after it.
pub proof fn lemma_plain_split_first(s: Seq<u8>, sep: u8, k: int)
    requires
        0 <= k < s.len(),
        s[k] == sep,
        forall|j: int| 0 <= j < k ==> s[j] != sep,
    ensures
        plain_split(s, sep) =~= seq![s.take(k)] + plain_split(s.skip(k + 1), sep),
{
    lemma_plain_scan_until(s, sep, 0, Seq::empty(), k);
    assert(Seq::<u8>::empty() + s.subrange(0, k) =~= s.take(k));
    lemma_plain_scan_shift(s, sep, k + 1, k + 1, Seq::empty());
}

proof fn lemma_plain_scan_until(s: Seq<u8>, sep: u8, i: int, seg: Seq<u8>, k: int)
    requires
        0 <= i <= k < s.len(),
        s[k] == sep,
        forall|j: int| i <= j < k ==> s[j] != sep,
    ensures
        plain_scan(s, sep, i, seg) =~= seq![seg + s.subrange(i, k)] + plain_scan(
            s,
            sep,
            k + 1,
            Seq::empty(),
        ),
    decreases k - i,
{
    if i < k {
        lemma_plain_scan_until(s, sep, i + 1, seg.push(s[i]), k);
        assert(seg.push(s[i]) + s.subrange(i + 1, k) =~= seg + s.subrange(i, k));
    } else {
        assert(seg + s.subrange(i, k) =~= seg);
    }
}

proof fn lemma_plain_scan_shift(s: Seq<u8>, sep: u8, base: int, i: int, seg: Seq<u8>)
    requires
        0 <= base <= i <= s.len(),
    ensures
        plain_scan(s, sep, i, seg) =~~= plain_scan(s.skip(base), sep, i - base, seg),
    decreases s.len() - i,
{
    let t = s.skip(base);
    if i < s.len() {
        assert(t[i - base] == s[i]);
        if s[i] == sep {
            lemma_plain_scan_shift(s, sep, base, i + 1, Seq::empty());
        } else {
            lemma_plain_scan_shift(s, sep, base, i + 1, seg.push(s[i]));
        }
    }
}

/// Splitting once cuts exactly at the first occurrence of `sep`.
pub proof fn lemma_split_once_found(s: Seq<u8>, sep: u8, k: int)
    requires
        0 <= k < s.len(),
        s[k] == sep,
        forall|j: int| 0 <= j < k ==> s[j] != sep,
    ensures
        split_once(s, sep) == Some((s.take(k), s.skip(k + 1))),
{
    lemma_split_once_from(s, sep, 0, k);
}

proof fn lemma_split_once_from(s: Seq<u8>, sep: u8, i: int, k: int)
    requires
        0 <= i <= k < s.len(),
        s[k] == sep,
        forall|j: int| i <= j < k ==> s[j] != sep,
    ensures
        split_once_from(s, sep, i) == Some((s.take(k), s.skip(k + 1))),
    decreases k - i,
{
    if i < k {
        lemma_split_once_from(s, sep, i + 1, k);
    }
}

/// The text before and after the first occurrence of `sep` from
/// position `i` on; absent when `sep` does not occur.
pub open spec fn split_once_from(s: Seq<u8>, sep: u8, i: int) -> Option<(Seq<u8>, Seq<u8>)>
    decreases s.len() - i,
    when 0 <= i <= s.len()
{
    if i >= s.len() {
        None
    } else if s[i] == sep {
        Some((s.take(i), s.skip(i + 1)))
    } else {
        split_once_from(s, sep, i + 1)
    }
}

/// The text before and after the first occurrence of `sep`.
pub open spec fn split_once(s: Seq<u8>, sep: u8) -> Option<(Seq<u8>, Seq<u8>)> {
    split_once_from(s, sep, 0)
}

/// Splits at the first occurrence of `sep`; see [`split_once`].
pub fn split_once_bytes(s: &[u8], sep: u8) -> (r: Option<(Vec<u8>, Vec<u8>)>)
    ensures
        match r {
            Some(kv) => split_once(s@, sep) == Some((kv.0@, kv.1@)),
            None => split_once(s@, sep) is None,
        },
{
    let n = s.len();
    let mut i: usize = 0;
    while i < n
        invariant
            i <= n,
            n == s@.len(),
            split_once(s@, sep) == split_once_from(s@, sep, i as int),
        decreases n - i,
    {
        if *vstd::slice::slice_index_get(s, i) == sep {
            let before = vstd::slice::slice_to_vec(vstd::slice::slice_subrange(s, 0, i));
            let after = vstd::slice::slice_to_vec(vstd::slice::slice_subrange(s, i + 1, n));
            proof {
                assert(before@ =~= s@.take(i as int));
                assert(after@ =~= s@.skip(i + 1));
            }
            return Some((before, after));
        }
        i += 1;
    }
    None
}

/// ASCII decimal digit.
pub open spec fn is_digit(b: u8) -> bool {
    0x30 <= b <= 0x39
}

/// Every byte of `s` is a decimal digit.
pub open spec fn all_digits(s: Seq<u8>) -> bool {
    forall|i: int| 0 <= i < s.len() ==> is_digit(s[i])
}

/// The number that a digit string denotes.
pub open spec fn digits_val(s: Seq<u8>) -> int
    decreases s.len(),
{
    if s.len() == 0 {
        0
    } else {
        digits_val(s.drop_last()) * 10 + (s.last() - 0x30)
    }
}

/// Powers of ten.
pub open spec fn pow10(n: int) -> int
    decreases n,
{
    if n <= 0 {
        1
    } else {
        10 * pow10(n - 1)
    }
}

/// A digit string of length `n` denotes a number below ten to the `n`.
pub proof fn lemma_digits_val_bound(s: Seq<u8>)
    requires
        all_digits(s),
    ensures
        0 <= digits_val(s) < pow10(s.len() as int),
    decreases s.len(),
{
    if s.len() > 0 {
        lemma_digits_val_bound(s.drop_last());
    }
}

proof fn lemma_digits_val_nonneg(s: Seq<u8>)
    requires
        all_digits(s),
    ensures
        digits_val(s) >= 0,
    decreases s.len(),
{
    if s.len() > 0 {
        lemma_digits_val_nonneg(s.drop_last());
    }
}

/// The decimal digit string of a number.
pub open spec fn dec_bytes(v: int) -> Seq<u8>
    recommends
        v >= 0,
    decreases v,
{
    if v < 10 {
        seq![(0x30 + v) as u8]
    } else {
        dec_bytes(v / 10).push((0x30 + v % 10) as u8)
    }
}

/// Formatting a number and reading the digits back give the number again.
pub proof fn lemma_dec_bytes_val(v: int)
    requires
        v >= 0,
    ensures
        all_digits(dec_bytes(v)),
        dec_bytes(v).len() > 0,
        digits_val(dec_bytes(v)) == v,
    decreases v,
{
    if v < 10 {
        let s = dec_bytes(v);
        assert(s.drop_last() =~= Seq::<u8>::empty());
        assert(digits_val(Seq::<u8>::empty()) == 0);
        assert((0x30 + v) as u8 == 0x30 + v);
        assert(digits_val(s) == v);
    } else {
        lemma_dec_bytes_val(v / 10);
        assert(dec_bytes(v).drop_last() =~= dec_bytes(v / 10));
        assert(0 <= v % 10 < 10 && v / 10 * 10 + v % 10 == v) by (nonlinear_arith)
            requires
                v >= 10,
        ;
        assert(dec_bytes(v).last() == (0x30 + v % 10) as u8);
        assert((0x30 + v % 10) as u8 == 0x30 + v % 10);
        assert(digits_val(dec_bytes(v)) == digits_val(dec_bytes(v / 10)) * 10 + (0x30 + v % 10
            - 0x30));
    }
}

/// Parses a decimal number of at most sixteen bits: succeeds exactly on a
/// nonempty all-digit string whose value fits.
pub fn parse_u16(s: &[u8]) -> (r: Option<u16>)
    ensures
        match r {
            Some(v) => s@.len() > 0 && all_digits(s@) && digits_val(s@) == v,
            None => s@.len() == 0 || !all_digits(s@) || digits_val(s@) > 0xffff,
        },
{
    let n = s.len();
    if n == 0 {
        return None;
    }
    let mut acc: u32 = 0;
    let mut i: usize = 0;
    while i < n
        invariant
            i <= n,
            n == s@.len(),
            all_digits(s@.take(i as int)),
            acc <= 0x10000,
            digits_val(s@.take(i as int)) <= 0xffff ==> acc == digits_val(s@.take(i as int)),
            digits_val(s@.take(i as int)) > 0xffff ==> acc == 0x10000,
        decreases n - i,
    {
        let c = *vstd::slice::slice_index_get(s, i);
        if c < 0x30 || c > 0x39 {
            return None;
        }
        proof {
            assert(s@.take(i + 1).drop_last() =~= s@.take(i as int));
            assert(s@.take(i + 1).last() == s@[i as int]);
            lemma_digits_val_nonneg(s@.take(i as int));
        }
        if acc > 0xffff {
            acc = 0x10000;
        } else {
            acc = acc * 10 + (c - 0x30) as u32;
            if acc > 0xffff {
                acc = 0x10000;
            }
        }
        i += 1;
    }
    proof {
        assert(s@.take(n as int) =~= s@);
    }
    if acc > 0xffff {
        None
    } else {
        Some(acc as u16)
    }
}

/// Parses a decimal number of at most thirty-two bits: succeeds exactly
/// on a nonempty all-digit string whose value fits.
pub fn parse_u32(s: &[u8]) -> (r: Option<u32>)
    ensures
        match r {
            Some(v) => s@.len() > 0 && all_digits(s@) && digits_val(s@) == v,
            None => s@.len() == 0 || !all_digits(s@) || digits_val(s@) > 0xffffffff,
        },
{
    let n = s.len();
    if n == 0 {
        return None;
    }
    let mut acc: u64 = 0;
    let mut i: usize = 0;
    while i < n
        invariant
            i <= n,
            n == s@.len(),
            all_digits(s@.take(i as int)),
            acc <= 0x100000000,
            digits_val(s@.take(i as int)) <= 0xffffffff ==> acc == digits_val(s@.take(i as int)),
            digits_val(s@.take(i as int)) > 0xffffffff ==> acc == 0x100000000,
        decreases n - i,
    {
        let c = *vstd::slice::slice_index_get(s, i);
        if c < 0x30 || c > 0x39 {
            return None;
        }
        proof {
            assert(s@.take(i + 1).drop_last() =~= s@.take(i as int));
            assert(s@.take(i + 1).last() == s@[i as int]);
            lemma_digits_val_nonneg(s@.take(i as int));
        }
        if acc > 0xffffffff {
            acc = 0x100000000;
        } else {
            acc = acc * 10 + (c - 0x30) as u64;
            if acc > 0xffffffff {
                acc = 0x100000000;
            }
        }
        i += 1;
    }
    proof {
        assert(s@.take(n as int) =~= s@);
    }
    if acc > 0xffffffff {
        None
    } else {
        Some(acc as u32)
    }
}

/// The digit string of a number, left-padded with zeros to three digits.
pub open spec fn dec_bytes_pad3(v: int) -> Seq<u8>
    recommends
        v >= 0,
{
    if v < 10 {
        seq![0x30u8, 0x30u8] + dec_bytes(v)
    } else if v < 100 {
        seq![0x30u8] + dec_bytes(v)
    } else {
        dec_bytes(v)
    }
}

/// Formats a number in decimal.
pub fn fmt_u32(v: u32) -> (r: Vec<u8>)
    ensures
        r@ == dec_bytes(v as int),
    decreases v,
{
    if v < 10 {
        let mut r: Vec<u8> = Vec::new();
        r.push(0x30 + v as u8);
        proof {
            assert(r@ =~= dec_bytes(v as int));
        }
        r
    } else {
        let mut r = fmt_u32(v / 10);
        r.push(0x30 + (v % 10) as u8);
        r
    }
}

/// Formats a number in decimal, left-padded with zeros to three digits.
pub fn fmt_u16_pad3(v: u16) -> (r: Vec<u8>)
    ensures
        r@ == dec_bytes_pad3(v as int),
{
    let mut r: Vec<u8> = Vec::new();
    if v < 10 {
        r.push(0x30);
        r.push(0x30);
    } else if v < 100 {
        r.push(0x30);
    }
    let mut d = fmt_u32(v as u32);
    r.append(&mut d);
    proof {
        assert(r@ =~= dec_bytes_pad3(v as int));
    }
    r
}

} // verus!
