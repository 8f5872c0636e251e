//! The decisions the poison route makes for each request: admission under
//! the in-flight limit, gzip negotiation from `Accept-Encoding`, and the
//! crawl depth taken from the query string.

use std::sync::Arc;
use tokio::sync::{OwnedSemaphorePermit, Semaphore, TryAcquireError};
use vstd::prelude::*;

verus! {

/// `tokio::sync::Semaphore`, the in-flight limiter, as an opaque value.
#[verifier::external_type_specification]
#[verifier::external_body]
pub struct ExSemaphore(Semaphore);

/// `tokio::sync::OwnedSemaphorePermit`, held while a page streams.
#[verifier::external_type_specification]
#[verifier::external_body]
pub struct ExOwnedSemaphorePermit(OwnedSemaphorePermit);

/// The query parameters of a poison page request.
pub struct QueryParams {
    /// We use 'page' instead of depth to look more convincing to scrapers
    pub page: Option<u32>,
}

impl QueryParams {
    pub const CURRENT_DEPTH_QUERY_PARAM: &'static str = "page";
}

/// Why the in-flight limiter refused a permit.
#[derive(Debug, Clone, Copy, PartialEq, Eq)]
pub enum AcquireRefusal {
    /// Every permit is in use.
    NoPermits,
    /// The limiter has been closed.
    Closed,
}

/// What the route does with a request.
pub enum RequestPlan {
    /// Answer at once with an empty response: `status`, and a
    /// `Retry-After` header of `retry_after_secs` seconds where given.
    Rejected { status: u16, retry_after_secs: Option<u32> },
    /// Serve a poison page, holding `permit` for as long as it streams.
    Serve { permit: OwnedSemaphorePermit, gzip: bool, depth: u32 },
}

/// `429 Too Many Requests`.
pub const TOO_MANY_REQUESTS: u16 = 429;

/// `500 Internal Server Error`.
pub const INTERNAL_SERVER_ERROR: u16 = 500;

/// Seconds a client turned away by the in-flight limit is asked to wait.
pub const RETRY_AFTER_SECS: u32 = 5;

/// A byte that `http::HeaderValue::to_str` accepts: visible ASCII or tab.
pub open spec fn is_visible_ascii(b: u8) -> bool {
    (32 <= b && b < 127) || b == 9
}

/// A header value that reads as text.
pub open spec fn is_header_text(s: Seq<u8>) -> bool {
    forall|j: int| 0 <= j < s.len() ==> is_visible_ascii(#[trigger] s[j])
}

/// The whitespace that `str::trim` can meet in header text: space and tab.
pub open spec fn is_space(b: u8) -> bool {
    b == 32 || b == 9
}

/// ASCII lower case.
pub open spec fn ascii_lower(b: u8) -> u8 {
    if 65 <= b <= 90 {
        (b + 32) as u8
    } else {
        b
    }
}

/// A list element that, trimmed, is `gzip` in any letter case.
pub open spec fn is_gzip_token(t: Seq<u8>) -> bool {
    exists|i: int|
        #![trigger t[i]]
        0 <= i && i + 4 <= t.len() && (forall|j: int| 0 <= j < i ==> is_space(#[trigger] t[j]))
            && (forall|j: int| i + 4 <= j < t.len() ==> is_space(#[trigger] t[j])) && ascii_lower(
            t[i],
        ) == 103 && ascii_lower(t[i + 1]) == 122 && ascii_lower(t[i + 2]) == 105 && ascii_lower(
            t[i + 3],
        ) == 112
}

/// The index of the first `,` in `s`, or its length when there is none.
pub open spec fn comma_index(s: Seq<u8>) -> int
    decreases s.len(),
{
    if s.len() == 0 {
        0
    } else if s[0] == 44 {
        0
    } else {
        1 + comma_index(s.drop_first())
    }
}

/// Some element of the comma-separated list `s` is a gzip token.
pub open spec fn has_gzip_element(s: Seq<u8>) -> bool
    decreases s.len(),
{
    let k = comma_index(s);
    if 0 <= k < s.len() {
        is_gzip_token(s.take(k)) || has_gzip_element(s.skip(k + 1))
    } else {
        is_gzip_token(s)
    }
}

/// An `Accept-Encoding` value that offers gzip: it reads as text and one of
/// its comma-separated elements is `gzip`.
pub open spec fn offers_gzip(accept_encoding: Seq<u8>) -> bool {
    is_header_text(accept_encoding) && has_gzip_element(accept_encoding)
}

/// The response is gzipped when the configuration forces it or the request
/// offers gzip.
pub open spec fn wants_gzip(force_gzip: bool, accept_encoding: Option<Seq<u8>>) -> bool {
    force_gzip || match accept_encoding {
        Some(v) => offers_gzip(v),
        None => false,
    }
}

/// The crawl depth a request asks for: its `page` parameter, or 1.
pub open spec fn requested_depth(query: Option<QueryParams>) -> u32 {
    match query {
        Some(q) => match q.page {
            Some(p) => p,
            None => 1,
        },
        None => 1,
    }
}

proof fn lemma_comma_index(s: Seq<u8>, k: int)
    requires
        0 <= k <= s.len(),
        forall|j: int| 0 <= j < k ==> #[trigger] s[j] != 44,
        k == s.len() || s[k] == 44,
    ensures
        comma_index(s) == k,
    decreases s.len(),
{
    if s.len() > 0 && k > 0 {
        assert(s[0] != 44);
        assert forall|j: int| 0 <= j < k - 1 implies #[trigger] s.drop_first()[j] != 44 by {
            assert(s.drop_first()[j] == s[j + 1]);
        }
        lemma_comma_index(s.drop_first(), k - 1);
    }
}

/// Bytes `a..b` of `s` form one element of the comma-separated list (it
/// starts at the beginning or just after a `,`, and ends at the end or just
/// before a `,`), and that element is `gzip` in any letter case at
/// `i..i + 4`, with nothing but spaces and tabs around it.
pub open spec fn gzip_element_at(s: Seq<u8>, a: int, i: int, b: int) -> bool {
    &&& 0 <= a <= i
    &&& i + 4 <= b <= s.len()
    &&& (a == 0 || s[a - 1] == 44)
    &&& (b == s.len() || s[b] == 44)
    &&& forall|j: int| a <= j < i ==> (s[j] == 32 || s[j] == 9)
    &&& forall|j: int| i + 4 <= j < b ==> (s[j] == 32 || s[j] == 9)
    &&& (s[i] == 103 || s[i] == 71)
    &&& (s[i + 1] == 122 || s[i + 1] == 90)
    &&& (s[i + 2] == 105 || s[i + 2] == 73)
    &&& (s[i + 3] == 112 || s[i + 3] == 80)
}

proof fn lemma_comma_index_props(s: Seq<u8>)
    ensures
        0 <= comma_index(s) <= s.len(),
        forall|j: int| 0 <= j < comma_index(s) ==> #[trigger] s[j] != 44,
        comma_index(s) < s.len() ==> s[comma_index(s)] == 44,
    decreases s.len(),
{
    if s.len() > 0 && s[0] != 44 {
        let t = s.drop_first();
        lemma_comma_index_props(t);
        assert forall|j: int| 0 <= j < comma_index(s) implies #[trigger] s[j] != 44 by {
            if j > 0 {
                assert(s[j] == t[j - 1]);
            }
        }
        if comma_index(s) < s.len() {
            assert(s[comma_index(s)] == t[comma_index(t)]);
        }
    }
}

/// An element that spans the whole of `s` is exactly a gzip token.
proof fn lemma_token_is_whole_element(t: Seq<u8>)
    requires
        forall|j: int| 0 <= j < t.len() ==> #[trigger] t[j] != 44,
    ensures
        is_gzip_token(t) <==> exists|a: int, i: int, b: int| gzip_element_at(t, a, i, b),
{
    if is_gzip_token(t) {
        let i = choose|i: int|
            #![trigger t[i]]
            0 <= i && i + 4 <= t.len() && (forall|j: int| 0 <= j < i ==> is_space(#[trigger] t[j]))
                && (forall|j: int| i + 4 <= j < t.len() ==> is_space(#[trigger] t[j]))
                && ascii_lower(t[i]) == 103 && ascii_lower(t[i + 1]) == 122 && ascii_lower(t[i + 2])
                == 105 && ascii_lower(t[i + 3]) == 112;
        assert(gzip_element_at(t, 0, i, t.len() as int));
    }
    if exists|a: int, i: int, b: int| gzip_element_at(t, a, i, b) {
        let (a, i, b) = choose|a: int, i: int, b: int| gzip_element_at(t, a, i, b);
        assert(a == 0) by {
            if a > 0 {
                assert(t[a - 1] != 44);
            }
        }
        assert(b == t.len()) by {
            if b < t.len() {
                assert(t[b] != 44);
            }
        }
        assert(ascii_lower(t[i]) == 103 && ascii_lower(t[i + 1]) == 122 && ascii_lower(t[i + 2])
            == 105 && ascii_lower(t[i + 3]) == 112);
        assert forall|j: int| 0 <= j < i implies is_space(#[trigger] t[j]) by {}
        assert forall|j: int| i + 4 <= j < t.len() implies is_space(#[trigger] t[j]) by {}
        assert(is_gzip_token(t));
    }
}

/// Inside an element no byte is a comma.
proof fn lemma_element_has_no_comma(s: Seq<u8>, a: int, i: int, b: int, k: int)
    requires
        gzip_element_at(s, a, i, b),
        a <= k < b,
    ensures
        s[k] != 44,
{
    if k < i {
        assert(s[k] == 32 || s[k] == 9);
    } else if k >= i + 4 {
        assert(s[k] == 32 || s[k] == 9);
    }
}

/// An element of `s.take(k)`, the part before the first comma, is one of `s`.
proof fn lemma_head_element(s: Seq<u8>, k: int, a: int, i: int, b: int)
    requires
        k == comma_index(s),
        k < s.len(),
        gzip_element_at(s.take(k), a, i, b),
    ensures
        gzip_element_at(s, a, i, b),
{
    lemma_comma_index_props(s);
    let head = s.take(k);
    assert(a == 0) by {
        if a > 0 {
            assert(head[a - 1] == s[a - 1]);
        }
    }
    assert(b == k) by {
        if b < k {
            assert(head[b] == s[b]);
        }
    }
    assert forall|j: int| a <= j < i implies (s[j] == 32 || s[j] == 9) by {
        assert(head[j] == s[j]);
    }
    assert forall|j: int| i + 4 <= j < b implies (s[j] == 32 || s[j] == 9) by {
        assert(head[j] == s[j]);
    }
    assert(head[i] == s[i] && head[i + 1] == s[i + 1] && head[i + 2] == s[i + 2] && head[i + 3]
        == s[i + 3]);
}

/// An element of `s.skip(d)`, where `s[d - 1]` is a comma, is one of `s`,
/// shifted by `d`.
proof fn lemma_tail_element(s: Seq<u8>, d: int, a: int, i: int, b: int)
    requires
        0 < d <= s.len(),
        s[d - 1] == 44,
        gzip_element_at(s.skip(d), a, i, b),
    ensures
        gzip_element_at(s, a + d, i + d, b + d),
{
    let t = s.skip(d);
    if a > 0 {
        assert(t[a - 1] == s[a - 1 + d]);
    }
    if b < t.len() {
        assert(t[b] == s[b + d]);
    }
    assert(t[i] == s[i + d]);
    assert(t[i + 1] == s[i + d + 1]);
    assert(t[i + 2] == s[i + d + 2]);
    assert(t[i + 3] == s[i + d + 3]);
    assert forall|j: int| a + d <= j < i + d implies (s[j] == 32 || s[j] == 9) by {
        assert(t[j - d] == s[j]);
    }
    assert forall|j: int| i + d + 4 <= j < b + d implies (s[j] == 32 || s[j] == 9) by {
        assert(t[j - d] == s[j]);
    }
}

/// An element of `s` that starts before the first comma ends at it: it is
/// the whole of `s.take(k)`.
proof fn lemma_element_in_head(s: Seq<u8>, k: int, a: int, i: int, b: int)
    requires
        k == comma_index(s),
        gzip_element_at(s, a, i, b),
        a <= k,
    ensures
        gzip_element_at(s.take(k), a, i, b),
{
    lemma_comma_index_props(s);
    let head = s.take(k);
    assert(a == 0) by {
        if a > 0 {
            assert(s[a - 1] != 44);
        }
    }
    assert(b <= k) by {
        if b > k {
            lemma_element_has_no_comma(s, a, i, b, k);
        }
    }
    assert(b == k) by {
        if b < k {
            assert(s[b] != 44);
        }
    }
    assert forall|j: int| a <= j < i implies (head[j] == 32 || head[j] == 9) by {
        assert(head[j] == s[j]);
    }
    assert forall|j: int| i + 4 <= j < b implies (head[j] == 32 || head[j] == 9) by {
        assert(head[j] == s[j]);
    }
    assert(head[i] == s[i] && head[i + 1] == s[i + 1] && head[i + 2] == s[i + 2] && head[i + 3]
        == s[i + 3]);
}

/// An element of `s` that starts after position `d - 1`, where `s[d - 1]`
/// is a comma, is one of `s.skip(d)`, shifted back by `d`.
proof fn lemma_element_in_tail(s: Seq<u8>, d: int, a: int, i: int, b: int)
    requires
        0 < d <= s.len(),
        s[d - 1] == 44,
        gzip_element_at(s, a, i, b),
        a >= d,
    ensures
        gzip_element_at(s.skip(d), a - d, i - d, b - d),
{
    let t = s.skip(d);
    if a - d > 0 {
        assert(t[a - d - 1] == s[a - 1]);
    }
    if b - d < t.len() {
        assert(t[b - d] == s[b]);
    }
    assert(t[i - d] == s[i]);
    assert(t[i - d + 1] == s[i + 1]);
    assert(t[i - d + 2] == s[i + 2]);
    assert(t[i - d + 3] == s[i + 3]);
    assert forall|j: int| a - d <= j < i - d implies (t[j] == 32 || t[j] == 9) by {
        assert(t[j] == s[j + d]);
    }
    assert forall|j: int| i - d + 4 <= j < b - d implies (t[j] == 32 || t[j] == 9) by {
        assert(t[j] == s[j + d]);
    }
}

/// The list holds a gzip element exactly when some span of it is one:
/// every element counts, wherever it stands and however long the list is.
pub proof fn lemma_has_gzip_element_iff(s: Seq<u8>)
    ensures
        has_gzip_element(s) <==> exists|a: int, i: int, b: int| gzip_element_at(s, a, i, b),
    decreases s.len(),
{
    lemma_comma_index_props(s);
    let k = comma_index(s);
    let head = s.take(k);
    assert forall|j: int| 0 <= j < head.len() implies #[trigger] head[j] != 44 by {
        assert(head[j] == s[j]);
    }
    lemma_token_is_whole_element(head);
    if k < s.len() {
        let t = s.skip(k + 1);
        lemma_has_gzip_element_iff(t);
        if is_gzip_token(head) {
            let (a, i, b) = choose|a: int, i: int, b: int| gzip_element_at(head, a, i, b);
            lemma_head_element(s, k, a, i, b);
        }
        if has_gzip_element(t) {
            let (a, i, b) = choose|a: int, i: int, b: int| gzip_element_at(t, a, i, b);
            lemma_tail_element(s, k + 1, a, i, b);
        }
        if exists|a: int, i: int, b: int| gzip_element_at(s, a, i, b) {
            let (a, i, b) = choose|a: int, i: int, b: int| gzip_element_at(s, a, i, b);
            if a <= k {
                lemma_element_in_head(s, k, a, i, b);
            } else {
                lemma_element_in_tail(s, k + 1, a, i, b);
            }
        }
    } else {
        assert(head =~= s);
    }
}

/// The declarative reading of `offers_gzip`: the value is header text and
/// some span of it is a gzip element.
pub proof fn lemma_offers_gzip_iff(s: Seq<u8>)
    ensures
        offers_gzip(s) <==> ((forall|j: int| 0 <= j < s.len() ==> (s[j] == 9 || (32 <= s[j]
            && s[j] < 127))) && exists|a: int, i: int, b: int| gzip_element_at(s, a, i, b)),
{
    lemma_has_gzip_element_iff(s);
}

/// The first element counts: a list whose first element is `gzip` offers
/// gzip, whatever follows it.
pub proof fn lemma_first_element_counts(first: Seq<u8>, rest: Seq<u8>)
    requires
        is_gzip_token(first),
        is_header_text(first + seq![44u8] + rest),
    ensures
        offers_gzip(first + seq![44u8] + rest),
{
    let s = first + seq![44u8] + rest;
    let i = choose|i: int|
        #![trigger first[i]]
        0 <= i && i + 4 <= first.len() && (forall|j: int| 0 <= j < i ==> is_space(#[trigger] first[j]))
            && (forall|j: int| i + 4 <= j < first.len() ==> is_space(#[trigger] first[j]))
            && ascii_lower(first[i]) == 103 && ascii_lower(first[i + 1]) == 122 && ascii_lower(first[i + 2])
            == 105 && ascii_lower(first[i + 3]) == 112;
    assert forall|j: int| 0 <= j < first.len() implies #[trigger] s[j] == first[j] by {}
    assert(s[first.len() as int] == 44);
    assert(gzip_element_at(s, 0, i, first.len() as int)) by {
        assert forall|j: int| 0 <= j < i implies (s[j] == 32 || s[j] == 9) by {
            assert(is_space(first[j]));
        }
        assert forall|j: int| i + 4 <= j < first.len() implies (s[j] == 32 || s[j] == 9) by {
            assert(is_space(first[j]));
        }
    }
    lemma_offers_gzip_iff(s);
}

/// Adding elements before or after a list that offers gzip keeps it
/// offering gzip: the answer depends neither on the list's length nor on
/// where the gzip element stands.
pub proof fn lemma_more_elements_keep_gzip(s: Seq<u8>, t: Seq<u8>)
    requires
        offers_gzip(s),
        is_header_text(t),
    ensures
        offers_gzip(s + seq![44u8] + t),
        offers_gzip(t + seq![44u8] + s),
{
    lemma_offers_gzip_iff(s);
    let (a, i, b) = choose|a: int, i: int, b: int| gzip_element_at(s, a, i, b);
    let after = s + seq![44u8] + t;
    assert forall|j: int| 0 <= j < s.len() implies #[trigger] after[j] == s[j] by {}
    assert(after[s.len() as int] == 44);
    assert(gzip_element_at(after, a, i, b));
    assert forall|j: int| 0 <= j < after.len() implies (after[j] == 9 || (32 <= after[j]
        && after[j] < 127)) by {
        if j < s.len() {
        } else if j > s.len() {
            assert(after[j] == t[j - s.len() - 1]);
            assert(is_visible_ascii(t[j - s.len() - 1]));
        }
    }
    lemma_offers_gzip_iff(after);
    let before = t + seq![44u8] + s;
    let d = t.len() + 1;
    assert forall|j: int| 0 <= j < s.len() implies #[trigger] before[j + d] == s[j] by {}
    assert(before[t.len() as int] == 44);
    if a > 0 {
        assert(before[a + d - 1] == s[a - 1]);
    }
    if b < s.len() {
        assert(before[b + d] == s[b]);
    }
    assert(before[i + d] == s[i]);
    assert(before[i + d + 1] == s[i + 1]);
    assert(before[i + d + 2] == s[i + 2]);
    assert(before[i + d + 3] == s[i + 3]);
    assert(gzip_element_at(before, a + d, i + d, b + d));
    assert forall|j: int| 0 <= j < before.len() implies (before[j] == 9 || (32 <= before[j]
        && before[j] < 127)) by {
        if j < t.len() {
            assert(before[j] == t[j]);
            assert(is_visible_ascii(t[j]));
        } else if j > t.len() {
            assert(before[j] == s[j - d]);
        }
    }
    lemma_offers_gzip_iff(before);
}

/// A value with no `g` or `G` in it never offers gzip.
pub proof fn lemma_no_g_no_gzip(s: Seq<u8>)
    requires
        forall|j: int| 0 <= j < s.len() ==> s[j] != 103 && s[j] != 71,
    ensures
        !offers_gzip(s),
{
    lemma_offers_gzip_iff(s);
    if exists|a: int, i: int, b: int| gzip_element_at(s, a, i, b) {
        let (a, i, b) = choose|a: int, i: int, b: int| gzip_element_at(s, a, i, b);
        assert(s[i] != 103 && s[i] != 71);
    }
}

fn ascii_lower_exec(b: u8) -> (r: u8)
    ensures
        r == ascii_lower(b),
{
    if 65 <= b && b <= 90 {
        b + 32
    } else {
        b
    }
}

/// Whether `value[start..end]`, trimmed of spaces and tabs, is `gzip` in
/// any letter case.
fn element_is_gzip(value: &[u8], start: usize, end: usize) -> (r: bool)
    requires
        start <= end <= value@.len(),
    ensures
        r == is_gzip_token(value@.subrange(start as int, end as int)),
{
    let ghost t = value@.subrange(start as int, end as int);
    let mut a: usize = start;
    while a < end && (value[a] == 32u8 || value[a] == 9u8)
        invariant
            start <= a <= end <= value@.len(),
            forall|j: int| start <= j < a ==> is_space(#[trigger] value@[j]),
        decreases end - a,
    {
        a = a + 1;
    }
    let mut b: usize = end;
    while b > a && (value[b - 1] == 32u8 || value[b - 1] == 9u8)
        invariant
            start <= a <= b <= end <= value@.len(),
            forall|j: int| b <= j < end ==> is_space(#[trigger] value@[j]),
        decreases b - a,
    {
        b = b - 1;
    }
    let r = b - a == 4 && ascii_lower_exec(value[a]) == 103u8 && ascii_lower_exec(value[a + 1])
        == 122u8 && ascii_lower_exec(value[a + 2]) == 105u8 && ascii_lower_exec(value[a + 3])
        == 112u8;
    proof {
        assert forall|j: int| 0 <= j < t.len() implies #[trigger] t[j] == value@[start + j] by {}
        if r {
            let i = a - start;
            assert(t[i] == value@[a as int]);
            assert(t[i + 1] == value@[a + 1]);
            assert(t[i + 2] == value@[a + 2]);
            assert(t[i + 3] == value@[a + 3]);
            assert forall|j: int| 0 <= j < i implies is_space(#[trigger] t[j]) by {
                assert(t[j] == value@[start + j]);
            }
            assert forall|j: int| i + 4 <= j < t.len() implies is_space(#[trigger] t[j]) by {
                assert(t[j] == value@[start + j]);
            }
        }
        if is_gzip_token(t) {
            let i = choose|i: int|
                #![trigger t[i]]
                0 <= i && i + 4 <= t.len() && (forall|j: int| 0 <= j < i ==> is_space(#[trigger] t[j]))
                    && (forall|j: int| i + 4 <= j < t.len() ==> is_space(#[trigger] t[j]))
                    && ascii_lower(t[i]) == 103 && ascii_lower(t[i + 1]) == 122 && ascii_lower(
                    t[i + 2],
                ) == 105 && ascii_lower(t[i + 3]) == 112;
            assert(t[i] == value@[start + i]);
            assert(t[i + 3] == value@[start + i + 3]);
            // the leading scan stops exactly at the `g`
            if a < start + i {
                assert(t[a - start] == value@[a as int]);
                assert(is_space(t[a - start]));
            }
            assert(a == start + i);
            // the trailing scan stops exactly after the `p`
            if b > start + i + 4 {
                assert(t[b - 1 - start] == value@[b - 1]);
                assert(is_space(t[b - 1 - start]));
            }
            assert(b == start + i + 4);
            assert(t[i + 1] == value@[a + 1]);
            assert(t[i + 2] == value@[a + 2]);
        }
    }
    r
}

/// Whether an `Accept-Encoding` header value offers gzip: the value must
/// read as text (else it counts as empty) and one of its comma-separated
/// elements must be `gzip`, ignoring surrounding spaces and letter case.
/// Every element counts, the first and the last included, however long
/// the value is.
pub fn accept_encoding_offers_gzip(accept_encoding: &[u8]) -> (r: bool)
    ensures
        r == offers_gzip(accept_encoding@),
        r <==> ((forall|j: int|
            0 <= j < accept_encoding@.len() ==> (accept_encoding@[j] == 9 || (32
                <= accept_encoding@[j] && accept_encoding@[j] < 127))) && exists|a: int, i: int, b: int|
            gzip_element_at(accept_encoding@, a, i, b)),
{
    let r = scan_accept_encoding(accept_encoding);
    proof {
        lemma_offers_gzip_iff(accept_encoding@);
    }
    r
}

/// The scan behind `accept_encoding_offers_gzip`: the text check, then one
/// element at a time.
fn scan_accept_encoding(accept_encoding: &[u8]) -> (r: bool)
    ensures
        r == offers_gzip(accept_encoding@),
{
    let n = accept_encoding.len();
    let mut i: usize = 0;
    while i < n
        invariant
            n == accept_encoding@.len(),
            i <= n,
            forall|j: int| 0 <= j < i ==> is_visible_ascii(#[trigger] accept_encoding@[j]),
        decreases n - i,
    {
        let c = accept_encoding[i];
        if !((32u8 <= c && c < 127u8) || c == 9u8) {
            return false;
        }
        i = i + 1;
    }
    let ghost s = accept_encoding@;
    assert(is_header_text(s));
    let mut start: usize = 0;
    assert(s.skip(0) =~= s);
    loop
        invariant
            n == s.len(),
            s == accept_encoding@,
            is_header_text(s),
            start <= n,
            has_gzip_element(s) == has_gzip_element(s.skip(start as int)),
        decreases n - start,
    {
        let mut end: usize = start;
        while end < n && accept_encoding[end] != 44u8
            invariant
                start <= end <= n,
                n == s.len(),
                s == accept_encoding@,
                forall|j: int| start <= j < end ==> #[trigger] s[j] != 44,
            decreases n - end,
        {
            end = end + 1;
        }
        let ghost rest = s.skip(start as int);
        proof {
            assert forall|j: int| 0 <= j < end - start implies #[trigger] rest[j] != 44 by {
                assert(rest[j] == s[start + j]);
            }
            if end < n {
                assert(rest[end - start] == s[end as int]);
            }
            lemma_comma_index(rest, end - start);
            assert(rest.take(end - start) =~= s.subrange(start as int, end as int));
            if end < n {
                assert(rest.skip(end - start + 1) =~= s.skip(end + 1));
            } else {
                assert(rest =~= s.subrange(start as int, end as int));
            }
        }
        if element_is_gzip(accept_encoding, start, end) {
            return true;
        }
        if end == n {
            return false;
        }
        start = end + 1;
    }
}

/// Whether the response is to be gzipped.
pub fn negotiate_gzip(force_gzip: bool, accept_encoding: Option<&[u8]>) -> (r: bool)
    ensures
        force_gzip ==> r,
        !force_gzip ==> (r <==> (accept_encoding matches Some(v) && (forall|j: int|
            0 <= j < v@.len() ==> (v@[j] == 9 || (32 <= v@[j] && v@[j] < 127))) && exists|
            a: int,
            i: int,
            b: int,
        | gzip_element_at(v@, a, i, b))),
        r == wants_gzip(
            force_gzip,
            match accept_encoding {
                Some(v) => Some(v@),
                None => None,
            },
        ),
{
    if force_gzip {
        return true;
    }
    match accept_encoding {
        Some(v) => accept_encoding_offers_gzip(v),
        None => false,
    }
}

/// `Semaphore::try_acquire_owned`: takes one permit if one is free. Which
/// outcome comes back depends on the other requests in flight, so nothing
/// is claimed of it; the two `TryAcquireError` variants are told apart.
#[verifier::external_body]
fn try_acquire_permit(limiter: Arc<Semaphore>) -> Result<OwnedSemaphorePermit, AcquireRefusal> {
    match limiter.try_acquire_owned() {
        Ok(permit) => Ok(permit),
        Err(TryAcquireError::NoPermits) => Err(AcquireRefusal::NoPermits),
        Err(TryAcquireError::Closed) => Err(AcquireRefusal::Closed),
    }
}

/// Decides what to do with a request, given how the in-flight limiter
/// answered, the configuration's `force_gzip`, the request's
/// `Accept-Encoding` value and its parsed query (`None` when it did not
/// parse).
pub fn plan_request(
    admission: Result<OwnedSemaphorePermit, AcquireRefusal>,
    force_gzip: bool,
    accept_encoding: Option<&[u8]>,
    query: Option<QueryParams>,
) -> (plan: RequestPlan)
    ensures
        admission is Ok ==> (plan matches RequestPlan::Serve { gzip, depth, .. } && gzip == (
        force_gzip || (accept_encoding matches Some(v) && offers_gzip(v@))) && depth == match query {
            Some(QueryParams { page: Some(p) }) => p,
            _ => 1u32,
        }),
        admission is Err ==> plan is Rejected,
        match admission {
            Err(AcquireRefusal::NoPermits) => plan == (RequestPlan::Rejected {
                status: TOO_MANY_REQUESTS,
                retry_after_secs: Some(RETRY_AFTER_SECS),
            }),
            Err(AcquireRefusal::Closed) => plan == (RequestPlan::Rejected {
                status: INTERNAL_SERVER_ERROR,
                retry_after_secs: None,
            }),
            Ok(permit) => plan == (RequestPlan::Serve {
                permit,
                gzip: wants_gzip(
                    force_gzip,
                    match accept_encoding {
                        Some(v) => Some(v@),
                        None => None,
                    },
                ),
                depth: requested_depth(query),
            }),
        },
{
    let permit = match admission {
        Ok(p) => p,
        Err(AcquireRefusal::NoPermits) => {
            return RequestPlan::Rejected {
                status: TOO_MANY_REQUESTS,
                retry_after_secs: Some(RETRY_AFTER_SECS),
            };
        },
        Err(AcquireRefusal::Closed) => {
            return RequestPlan::Rejected { status: INTERNAL_SERVER_ERROR, retry_after_secs: None };
        },
    };
    let gzip = negotiate_gzip(force_gzip, accept_encoding);
    let depth = match query {
        Some(q) => match q.page {
            Some(p) => p,
            None => 1,
        },
        None => 1,
    };
    RequestPlan::Serve { permit, gzip, depth }
}

/// Takes a permit from the in-flight limiter and plans the request. Whether
/// a permit is free depends on the requests already in flight; whatever the
/// limiter answers, a refusal becomes a `429` with `Retry-After` (no permit)
/// or a `500` (limiter closed), and a granted request is served with the
/// negotiated encoding and the requested depth.
pub fn handle_request(
    limiter: &Arc<Semaphore>,
    force_gzip: bool,
    accept_encoding: Option<&[u8]>,
    query: Option<QueryParams>,
) -> (plan: RequestPlan)
    ensures
        match plan {
            RequestPlan::Rejected { status, retry_after_secs } => (status == TOO_MANY_REQUESTS
                && retry_after_secs == Some(RETRY_AFTER_SECS)) || (status == INTERNAL_SERVER_ERROR
                && retry_after_secs is None),
            RequestPlan::Serve { permit, gzip, depth } => gzip == wants_gzip(
                force_gzip,
                match accept_encoding {
                    Some(v) => Some(v@),
                    None => None,
                },
            ) && depth == requested_depth(query),
        },
        plan matches RequestPlan::Serve { gzip, depth, .. } ==> gzip == (force_gzip || (
        accept_encoding matches Some(v) && offers_gzip(v@))) && depth == match query {
            Some(QueryParams { page: Some(p) }) => p,
            _ => 1u32,
        },
{
    let admission = try_acquire_permit(limiter.clone());
    plan_request(admission, force_gzip, accept_encoding, query)
}

/// The headers of a poison page response, in order: `Content-Type:
/// text/html`, then `Content-Encoding: gzip` when the body is gzipped.
pub fn poison_response_headers(gzip_response: bool) -> (headers: Vec<(&'static str, &'static str)>)
    ensures
        headers@.len() == (if gzip_response { 2int } else { 1int }),
        headers@[0].0@ == "content-type"@,
        headers@[0].1@ == "text/html"@,
        gzip_response ==> headers@[1].0@ == "content-encoding"@ && headers@[1].1@ == "gzip"@,
{
    let mut headers: Vec<(&'static str, &'static str)> = Vec::new();
    headers.push(("content-type", "text/html"));
    if gzip_response {
        headers.push(("content-encoding", "gzip"));
    }
    headers
}

} // verus!
