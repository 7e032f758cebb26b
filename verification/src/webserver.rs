//! Request dispatch: what each inbound request does to the store and what
//! it answers.
//!
//! A GET or HEAD of `/` or `/hi` is the read path: it fetches a
//! rendering-ready view of the counter and the host snapshot, negotiated to
//! HTML exactly when the request's Accept header names `text/html` among its
//! media types. A POST to `/hi` is the mutate path: it registers a hello
//! from the caller's address and answers with the caller's ordinal rank.
//! Anything else is not found. Each request is one self-contained call;
//! the transport that carries requests and the templates that render pages
//! live outside the library.

use vstd::prelude::*;
use vstd::string::StringExecFns;

use crate::digits::dec_chars;
use crate::digits::dec_string;
use crate::state::State;
use crate::state::hello_step;
use crate::system::HostSnapshot;

verus! {

/// The path bytes of the root page, `/`.
pub open spec fn root_path() -> Seq<u8> {
    seq![47u8]
}

/// The path bytes of the hello page, `/hi`.
pub open spec fn hi_path() -> Seq<u8> {
    seq![47u8, 104u8, 105u8]
}

/// An inbound request's method, as far as dispatch distinguishes methods.
#[derive(Clone, Copy, PartialEq, Eq, Structural, Debug)]
pub enum Method {
    Get,
    Head,
    Post,
    Other,
}

/// The dispatcher's decision for a request: serve the counter page, count a
/// hello, or answer not-found.
#[derive(Clone, Copy, PartialEq, Eq, Structural, Debug)]
pub enum Action {
    ReadPage,
    SayHello,
    NotFound,
}

/// Routing: GET or HEAD of `/` or `/hi` reads, POST to `/hi` mutates, and
/// every other method or path is not found.
pub open spec fn route_spec(method: Method, path: Seq<u8>) -> Action {
    if (method is Get || method is Head) && (path == root_path() || path == hi_path()) {
        Action::ReadPage
    } else if method is Post && path == hi_path() {
        Action::SayHello
    } else {
        Action::NotFound
    }
}

/// Decides what a request with this method and path does.
pub fn route(method: &Method, path: &[u8]) -> (r: Action)
    ensures
        r == route_spec(*method, path@),
{
    let reads = match method {
        Method::Get | Method::Head => true,
        _ => false,
    };
    let posts = match method {
        Method::Post => true,
        _ => false,
    };
    let root = is_root_path(path);
    let hi = is_hi_path(path);
    if reads && (root || hi) {
        Action::ReadPage
    } else if posts && hi {
        Action::SayHello
    } else {
        Action::NotFound
    }
}

/// Whether `p` is the root path `/`.
fn is_root_path(p: &[u8]) -> (r: bool)
    ensures
        r == (p@ == root_path()),
{
    let r = p.len() == 1 && p[0] == 47;
    proof {
        if r {
            assert(p@ =~= root_path());
        } else if p@ == root_path() {
            assert(p@.len() == 1);
            assert(p@[0] == 47);
        }
    }
    r
}

/// Whether `p` is the hello path `/hi`.
fn is_hi_path(p: &[u8]) -> (r: bool)
    ensures
        r == (p@ == hi_path()),
{
    let r = p.len() == 3 && p[0] == 47 && p[1] == 104 && p[2] == 105;
    proof {
        if r {
            assert(p@ =~= hi_path());
        } else if p@ == hi_path() {
            assert(p@.len() == 3);
            assert(p@[0] == 47 && p@[1] == 104 && p@[2] == 105);
        }
    }
    r
}

/// Whether `b` is optional whitespace around a list member: space or tab.
pub open spec fn is_ows(b: u8) -> bool {
    b == 32 || b == 9
}

/// ASCII lowercase of a byte.
pub open spec fn lower(b: u8) -> u8 {
    if 65 <= b <= 90 {
        (b + 32) as u8
    } else {
        b
    }
}

/// The bytes of the media type `text/html`.
pub open spec fn html_type() -> Seq<u8> {
    seq![116u8, 101u8, 120u8, 116u8, 47u8, 104u8, 116u8, 109u8, 108u8]
}

/// The prefix of a list member before its parameters: everything up to the
/// first semicolon.
pub open spec fn before_semi(t: Seq<u8>) -> Seq<u8>
    decreases t.len(),
{
    if t.len() == 0 || t[0] == 59 {
        Seq::<u8>::empty()
    } else {
        seq![t[0]] + before_semi(t.drop_first())
    }
}

/// `s` with leading optional whitespace removed.
pub open spec fn ows_front(s: Seq<u8>) -> Seq<u8>
    decreases s.len(),
{
    if s.len() > 0 && is_ows(s.first()) {
        ows_front(s.drop_first())
    } else {
        s
    }
}

/// `s` with trailing optional whitespace removed.
pub open spec fn ows_back(s: Seq<u8>) -> Seq<u8>
    decreases s.len(),
{
    if s.len() > 0 && is_ows(s.last()) {
        ows_back(s.drop_last())
    } else {
        s
    }
}

/// The media type one member `t` of an Accept list names: the bytes before
/// its parameters, stripped of surrounding spaces and tabs and lowered to
/// ASCII lower case.
pub open spec fn member_media_type(t: Seq<u8>) -> Seq<u8> {
    ows_back(ows_front(before_semi(t))).map_values(|b: u8| lower(b))
}

/// Whether the range `[i, j)` spans one comma-separated member of `s`.
pub open spec fn is_member(s: Seq<u8>, i: int, j: int) -> bool {
    &&& 0 <= i <= j <= s.len()
    &&& (i == 0 || s[i - 1] == 44)
    &&& (j == s.len() || s[j] == 44)
    &&& forall|k: int| i <= k < j ==> s[k] != 44
}

/// Whether the Accept header value `s` names `text/html` among the media
/// types of its comma-separated members.
pub open spec fn names_html(s: Seq<u8>) -> bool {
    exists|i: int, j: int|
        is_member(s, i, j) && member_media_type(s.subrange(i, j)) == html_type()
}

/// Whether a request carrying Accept header `accept` (`None`: no header)
/// asks for an HTML page.
pub open spec fn wants_html(accept: Option<Seq<u8>>) -> bool {
    match accept {
        None => false,
        Some(s) => names_html(s),
    }
}

/// If no byte of `t` below `k` is a semicolon and `t[k]` is one (or `k` is
/// the end), the parameter-free prefix is exactly the first `k` bytes.
proof fn lemma_before_semi_range(t: Seq<u8>, k: int)
    requires
        0 <= k <= t.len(),
        forall|i: int| 0 <= i < k ==> t[i] != 59,
        k == t.len() || t[k] == 59,
    ensures
        before_semi(t) =~= t.take(k),
    decreases k,
{
    if k == 0 {
        assert(before_semi(t) =~= t.take(0));
    } else {
        let rest = t.drop_first();
        assert(forall|i: int| 0 <= i < k - 1 ==> rest[i] != 59);
        lemma_before_semi_range(rest, k - 1);
        assert(seq![t[0]] + rest.take(k - 1) =~= t.take(k));
    }
}

/// If every byte of `s` below `lo` is optional whitespace and `s[lo]` is
/// not (or `lo` is the end), trimming the front removes exactly those bytes.
proof fn lemma_ows_front_range(s: Seq<u8>, lo: int)
    requires
        0 <= lo <= s.len(),
        forall|i: int| 0 <= i < lo ==> is_ows(#[trigger] s[i]),
        lo == s.len() || !is_ows(s[lo]),
    ensures
        ows_front(s) =~= s.subrange(lo, s.len() as int),
    decreases lo,
{
    if lo == 0 {
        assert(ows_front(s) =~= s.subrange(0, s.len() as int));
    } else {
        let rest = s.drop_first();
        assert(forall|i: int| 0 <= i < lo - 1 ==> is_ows(#[trigger] rest[i]));
        lemma_ows_front_range(rest, lo - 1);
        assert(rest.subrange(lo - 1, rest.len() as int) =~= s.subrange(lo, s.len() as int));
    }
}

/// If every byte of `s` from `hi` on is optional whitespace and `s[hi - 1]`
/// is not (or `hi` is zero), trimming the back removes exactly those bytes.
proof fn lemma_ows_back_range(s: Seq<u8>, hi: int)
    requires
        0 <= hi <= s.len(),
        forall|i: int| hi <= i < s.len() ==> is_ows(#[trigger] s[i]),
        hi == 0 || !is_ows(s[hi - 1]),
    ensures
        ows_back(s) =~= s.subrange(0, hi),
    decreases s.len(),
{
    if hi == s.len() {
        assert(ows_back(s) =~= s.subrange(0, hi));
    } else {
        let rest = s.drop_last();
        assert(forall|i: int| hi <= i < rest.len() ==> is_ows(#[trigger] rest[i]));
        lemma_ows_back_range(rest, hi);
    }
}

/// Whether `b` is a space or tab.
fn is_ows_byte(b: u8) -> (r: bool)
    ensures
        r == is_ows(b),
{
    b == 32 || b == 9
}

/// ASCII lowercase of a byte.
fn lower_byte(b: u8) -> (r: u8)
    ensures
        r == lower(b),
{
    if 65 <= b && b <= 90 {
        b + 32
    } else {
        b
    }
}

/// The `k`-th byte of the media type `text/html`.
fn html_byte(k: usize) -> (r: u8)
    requires
        k < 9,
    ensures
        r == html_type()[k as int],
{
    match k {
        0 => 116,
        1 => 101,
        2 => 120,
        3 => 116,
        4 => 47,
        5 => 104,
        6 => 116,
        7 => 109,
        _ => 108,
    }
}

/// Whether the member of `s` spanning `[i, j)` names `text/html`.
fn member_matches(s: &[u8], i: usize, j: usize) -> (r: bool)
    requires
        i <= j <= s@.len(),
    ensures
        r == (member_media_type(s@.subrange(i as int, j as int)) == html_type()),
{
    let ghost t = s@.subrange(i as int, j as int);
    let mut m = i;
    while m < j && s[m] != 59
        invariant
            i <= m <= j <= s@.len(),
            forall|k: int| i <= k < m ==> s@[k] != 59,
        decreases j - m,
    {
        m = m + 1;
    }
    proof {
        assert(forall|k: int| 0 <= k < m - i ==> t[k] != 59);
        assert(m - i == t.len() || t[m - i] == 59);
        lemma_before_semi_range(t, m - i);
        assert(before_semi(t) =~= s@.subrange(i as int, m as int));
    }
    let mut lo = i;
    while lo < m && is_ows_byte(s[lo])
        invariant
            i <= lo <= m <= s@.len(),
            forall|k: int| i <= k < lo ==> is_ows(#[trigger] s@[k]),
        decreases m - lo,
    {
        lo = lo + 1;
    }
    let mut hi = m;
    while hi > lo && is_ows_byte(s[hi - 1])
        invariant
            lo <= hi <= m <= s@.len(),
            forall|k: int| hi <= k < m ==> is_ows(#[trigger] s@[k]),
        decreases hi,
    {
        hi = hi - 1;
    }
    let ghost trimmed = s@.subrange(lo as int, hi as int);
    proof {
        let bs = s@.subrange(i as int, m as int);
        assert(forall|k: int| 0 <= k < lo - i ==> is_ows(#[trigger] bs[k]));
        lemma_ows_front_range(bs, lo - i);
        let fs = bs.subrange(lo - i, bs.len() as int);
        assert(fs =~= s@.subrange(lo as int, m as int));
        assert(forall|k: int| hi - lo <= k < fs.len() ==> is_ows(#[trigger] fs[k]));
        lemma_ows_back_range(fs, hi - lo);
        assert(fs.subrange(0, hi - lo) =~= trimmed);
        assert(ows_back(ows_front(before_semi(t))) =~= trimmed);
        assert(member_media_type(t) =~= trimmed.map_values(|b: u8| lower(b)));
        assert(member_media_type(t).len() == hi - lo);
    }
    if hi - lo != 9 {
        proof {
            assert(html_type().len() == 9);
            assert(member_media_type(t).len() != html_type().len());
            assert(member_media_type(t) != html_type());
        }
        return false;
    }
    let mut k: usize = 0;
    while k < 9
        invariant
            lo + 9 == hi,
            hi <= s@.len(),
            0 <= k <= 9,
            t == s@.subrange(i as int, j as int),
            member_media_type(t) =~= trimmed.map_values(|b: u8| lower(b)),
            trimmed == s@.subrange(lo as int, hi as int),
            member_media_type(t).len() == 9,
            forall|q: int| 0 <= q < k ==> member_media_type(t)[q] == html_type()[q],
        decreases 9 - k,
    {
        let expect = html_byte(k);
        let got = lower_byte(s[lo + k]);
        proof {
            assert(trimmed[k as int] == s@[lo + k]);
            assert(member_media_type(t)[k as int] == lower(s@[lo + k]));
        }
        if got != expect {
            proof {
                assert(member_media_type(t)[k as int] != html_type()[k as int]);
            }
            return false;
        }
        k = k + 1;
    }
    proof {
        assert(member_media_type(t) =~= html_type());
    }
    true
}

/// If no comma stands in `[start, j)` and a comma (or the start of `s`)
/// stands just before `start`, a member ending at `j` begins at `start`.
proof fn lemma_member_begins(s: Seq<u8>, start: int, i: int, j: int)
    requires
        0 <= start <= j <= s.len(),
        start == 0 || s[start - 1] == 44,
        forall|k: int| start <= k < j ==> s[k] != 44,
        is_member(s, i, j),
    ensures
        i == start,
{
    if i < start {
        assert(s[start - 1] != 44);
    }
    if i > start {
        assert(s[i - 1] != 44);
    }
}

/// Whether the request's Accept header names `text/html`: a structured walk
/// over the header's comma-separated media-type list. Absent header: no.
pub fn accepts_html(accept: Option<&[u8]>) -> (r: bool)
    ensures
        r == wants_html(
            match accept {
                Some(a) => Some(a@),
                None => None,
            },
        ),
{
    match accept {
        Some(s) => header_names_html(s),
        None => false,
    }
}

/// Whether the header value `s` names `text/html` among its members.
fn header_names_html(s: &[u8]) -> (r: bool)
    ensures
        r == names_html(s@),
{
    let n = s.len();
    let mut start: usize = 0;
    loop
        invariant
            n == s@.len(),
            start <= n,
            start == 0 || s@[start - 1] == 44,
            forall|i2: int, j2: int|
                is_member(s@, i2, j2) && j2 < start ==> member_media_type(
                    s@.subrange(i2, j2),
                ) != html_type(),
        decreases n - start,
    {
        let mut j = start;
        while j < n && s[j] != 44
            invariant
                start <= j <= n,
                n == s@.len(),
                forall|k: int| start <= k < j ==> s@[k] != 44,
            decreases n - j,
        {
            j = j + 1;
        }
        proof {
            assert(is_member(s@, start as int, j as int));
        }
        if member_matches(s, start, j) {
            proof {
                assert(names_html(s@)) by {
                    assert(is_member(s@, start as int, j as int) && member_media_type(
                        s@.subrange(start as int, j as int),
                    ) == html_type());
                }
            }
            return true;
        }
        if j == n {
            proof {
                assert forall|i2: int, j2: int| is_member(s@, i2, j2) implies member_media_type(
                    s@.subrange(i2, j2),
                ) != html_type() by {
                    if j2 < start {
                    } else if j2 < n {
                        assert(s@[j2] == 44);
                        assert(s@[j2] != 44);
                    } else {
                        lemma_member_begins(s@, start as int, i2, j2);
                    }
                }
                assert(!names_html(s@));
            }
            return false;
        }
        proof {
            assert forall|i2: int, j2: int|
                is_member(s@, i2, j2) && j2 < j + 1 implies member_media_type(
                s@.subrange(i2, j2),
            ) != html_type() by {
                if j2 < start {
                } else if j2 < j {
                    assert(s@[j2] == 44);
                    assert(s@[j2] != 44);
                } else {
                    lemma_member_begins(s@, start as int, i2, j2);
                }
            }
        }
        start = j + 1;
    }
}

/// The ordinal suffix for a rank `n`: ranks whose last two digits lie in
/// 11..=13 take "th"; otherwise the last digit picks "st", "nd" or "rd",
/// and anything else takes "th".
pub open spec fn ordinal_suffix(n: nat) -> Seq<char> {
    if 11 <= n % 100 <= 13 {
        "th"@
    } else if n % 10 == 1 {
        "st"@
    } else if n % 10 == 2 {
        "nd"@
    } else if n % 10 == 3 {
        "rd"@
    } else {
        "th"@
    }
}

/// A rank rendered as an ordinal: its decimal digits and its suffix.
pub open spec fn ordinal_chars(n: nat) -> Seq<char> {
    dec_chars(n) + ordinal_suffix(n)
}

/// A counter value presented as the visitor's rank.
#[derive(Clone, Copy, PartialEq, Eq, Structural, Debug)]
pub struct Ordinal(pub usize);

impl Ordinal {
    /// Renders the rank with its ordinal suffix ("1st", "11th", "1533rd").
    pub fn to_string(&self) -> (r: String)
        ensures
            r@ == ordinal_chars(self.0 as nat),
    {
        let n = self.0;
        let mut r = dec_string(n as u64);
        let tens = n % 100;
        let suffix = if 11 <= tens && tens <= 13 {
            "th"
        } else if n % 10 == 1 {
            "st"
        } else if n % 10 == 2 {
            "nd"
        } else if n % 10 == 3 {
            "rd"
        } else {
            "th"
        };
        r.append(suffix);
        proof {
            assert(r@ =~= ordinal_chars(n as nat));
        }
        r
    }
}

/// The confirmation sent for a POST to the hello path when the counter
/// stands at `count` after the call.
pub open spec fn hello_body_chars(count: nat) -> Seq<char> {
    "Hello! You're the "@ + ordinal_chars(count) + " person to say hi.\n"@
}

/// The body of a not-found reply.
pub open spec fn not_found_chars() -> Seq<char> {
    "Not found\n"@
}

/// Builds the confirmation body naming the caller's rank.
fn hello_body(count: usize) -> (r: String)
    ensures
        r@ == hello_body_chars(count as nat),
{
    let mut r = String::from_str("Hello! You're the ");
    r.append(Ordinal(count).to_string().as_str());
    r.append(" person to say hi.\n");
    r
}

/// What a request produces: the data to render the counter page, the
/// confirmation body of a hello, or a not-found reply.
pub enum WebResponse {
    Page { html: bool, hi_count: usize, snapshot: HostSnapshot },
    Hello { body: String },
    NotFound { body: String },
}

impl WebResponse {
    /// The HTTP status this response carries: 404 for a not-found reply,
    /// 200 for everything else.
    pub fn status(&self) -> (r: u16)
        ensures
            r == (if self is NotFound {
                404int
            } else {
                200int
            }),
    {
        match self {
            WebResponse::NotFound { .. } => 404,
            _ => 200,
        }
    }
}

/// Serves one request against the store. A read of `/` or `/hi` leaves the
/// store untouched and yields the counter and snapshot to render, as HTML
/// exactly when the Accept header names `text/html`. A POST to `/hi` puts
/// the caller's hello through the deduplication rule and, counted or not,
/// reports the counter after the call as the caller's rank. Anything else
/// is answered not-found, untouched.
pub fn handle_request(
    state: &mut State,
    method: &Method,
    path: &[u8],
    accept: Option<&[u8]>,
    from: u128,
    now: u64,
) -> (r: WebResponse)
    requires
        old(state).count() < usize::MAX,
    ensures
        final(state).window() == old(state).window(),
        final(state).facts() == old(state).facts(),
        route_spec(*method, path@) is ReadPage ==> {
            &&& final(state).count() == old(state).count()
            &&& final(state).seen() == old(state).seen()
            &&& (r matches WebResponse::Page { html, hi_count, snapshot }
                && html == wants_html(
                match accept {
                    Some(a) => Some(a@),
                    None => None,
                },
            ) && hi_count == old(state).count() && snapshot == old(state).facts())
        },
        route_spec(*method, path@) is SayHello ==> {
            &&& (final(state).seen(), final(state).count() as nat) == hello_step(
                old(state).seen(),
                old(state).count() as nat,
                old(state).window(),
                from,
                now,
            )
            &&& (r matches WebResponse::Hello { body }
                && body@ == hello_body_chars(final(state).count() as nat))
        },
        route_spec(*method, path@) is NotFound ==> {
            &&& final(state).count() == old(state).count()
            &&& final(state).seen() == old(state).seen()
            &&& (r matches WebResponse::NotFound { body } && body@ == not_found_chars())
        },
{
    match route(method, path) {
        Action::ReadPage => {
            let html = accepts_html(accept);
            WebResponse::Page { html, hi_count: state.hi_count(), snapshot: state.snapshot() }
        },
        Action::SayHello => {
            state.inc_hi_count(from, now);
            let body = hello_body(state.hi_count());
            WebResponse::Hello { body }
        },
        Action::NotFound => {
            WebResponse::NotFound { body: String::from_str("Not found\n") }
        },
    }
}

} // verus!
