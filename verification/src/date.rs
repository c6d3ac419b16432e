//! HTTP dates: a moment in seconds since the Unix epoch, read from and
//! written to the three textual date formats of HTTP headers.  The
//! textual forms themselves are handled by the `httpdate` crate; this
//! module holds the moment as a plain number.

use vstd::prelude::*;

verus! {

/// Moments this far from the epoch (the year 10000) and beyond have no
/// HTTP date text.
pub const HTTP_DATE_LIMIT: u64 = 253402300800;

/// The seconds since the epoch that an HTTP date string denotes, when
/// it is written in one of the three accepted date formats between the
/// years 1970 and 9999.
pub uninterp spec fn http_date_parse(s: Seq<char>) -> Option<u64>;

/// The IMF-fixdate text of a moment.
pub uninterp spec fn http_date_format(secs: u64) -> Seq<char>;

/// Relies on `httpdate::parse_http_date`: reads the three HTTP date
/// formats, accepting exactly the moments between 1970 and the year
/// 10000, counted here in whole seconds since the epoch.
#[verifier::external_body]
fn parse_http_date_str(s: &str) -> (r: Option<u64>)
    ensures
        r == http_date_parse(s@),
        r matches Some(d) ==> d < HTTP_DATE_LIMIT,
{
    match httpdate::parse_http_date(s) {
        Ok(t) => match t.duration_since(std::time::UNIX_EPOCH) {
            Ok(d) => Some(d.as_secs()),
            Err(_) => None,
        },
        Err(_) => None,
    }
}

/// Relies on `httpdate::fmt_http_date`: writes a moment as a 29
/// character ASCII IMF-fixdate line without quote characters, which
/// `httpdate::parse_http_date` reads back to the same moment.
#[verifier::external_body]
fn fmt_http_date_secs(d: u64) -> (r: String)
    requires
        d < HTTP_DATE_LIMIT,
    ensures
        r@ == http_date_format(d),
        http_date_parse(r@) == Some(d),
        r@.len() == 29,
        vstd::utf8::is_ascii_chars(r@),
        forall|i: int| 0 <= i < r@.len() ==> r@[i] != '"',
{
    httpdate::fmt_http_date(std::time::UNIX_EPOCH + core::time::Duration::from_secs(d))
}

/// A moment that HTTP date text can carry: whole seconds since the Unix
/// epoch, before the year 10000.
#[derive(Clone, Copy, Debug, PartialEq, Eq, Structural)]
pub struct HttpDate {
    secs: u64,
}

impl View for HttpDate {
    type V = u64;

    closed spec fn view(&self) -> u64 {
        self.secs
    }
}

impl HttpDate {
    #[verifier::type_invariant]
    closed spec fn inv(self) -> bool {
        self.secs < HTTP_DATE_LIMIT
    }

    /// A moment this many seconds after the epoch; absent from the year
    /// 10000 on.
    pub fn from_secs(secs: u64) -> (r: Option<HttpDate>)
        ensures
            match r {
                Some(d) => secs < HTTP_DATE_LIMIT && d@ == secs,
                None => secs >= HTTP_DATE_LIMIT,
            },
    {
        if secs < HTTP_DATE_LIMIT {
            Some(HttpDate { secs })
        } else {
            None
        }
    }

    /// The seconds since the epoch.
    pub fn secs(&self) -> (r: u64)
        ensures
            r == self@,
            r < HTTP_DATE_LIMIT,
    {
        proof {
            use_type_invariant(self);
        }
        self.secs
    }

    /// Reads any of the three HTTP date formats.
    pub fn parse(s: &str) -> (r: Option<HttpDate>)
        ensures
            match r {
                Some(d) => http_date_parse(s@) == Some(d@),
                None => http_date_parse(s@) is None,
            },
    {
        match parse_http_date_str(s) {
            Some(d) => Some(HttpDate { secs: d }),
            None => None,
        }
    }

    /// Writes the moment as IMF-fixdate text.
    pub fn format(&self) -> (r: String)
        ensures
            r@ == http_date_format(self@),
            http_date_parse(r@) == Some(self@),
            r@.len() == 29,
            vstd::utf8::is_ascii_chars(r@),
            forall|i: int| 0 <= i < r@.len() ==> r@[i] != '"',
    {
        proof {
            use_type_invariant(self);
        }
        fmt_http_date_secs(self.secs)
    }
}

} // verus!
