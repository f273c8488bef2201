//! The request-routing and handler rules of the HTTP layer: which verb
//! and path reach which data-access operation, how an id segment is
//! read, and which status and body answer each outcome.

use vstd::prelude::*;
use vstd::string::StrSliceExecFns;
use vstd::string::StringExecFns;
use vstd::utf8::encode_utf8;
use crate::acronym::Acronym;
use crate::store::{AcronymStore, StoreError, has_id, matching_entries, with_updated, without_id};

verus! {

/// A decimal digit.
pub open spec fn is_dec_digit(c: char) -> bool {
    48 <= c as u32 <= 57
}

/// The value of one decimal digit.
pub open spec fn digit_val(c: char) -> int {
    c as u32 - 48
}

/// Every character is a decimal digit.
pub open spec fn all_digits(s: Seq<char>) -> bool {
    forall|i: int| 0 <= i < s.len() ==> is_dec_digit(#[trigger] s[i])
}

/// The number the digit string denotes, most significant digit first.
pub open spec fn dec_value(s: Seq<char>) -> int
    decreases s.len(),
{
    if s.len() == 0 {
        0
    } else {
        dec_value(s.drop_last()) * 10 + digit_val(s.last())
    }
}

/// The id an `{id}` path segment denotes: an optional single sign, then
/// at least one digit (leading zeros allowed), rejected when the value
/// leaves the i32 range.
pub open spec fn i32_of_segment(s: Seq<char>) -> Option<i32> {
    let neg = s.len() > 0 && s[0] == '-';
    let signed = s.len() > 0 && (s[0] == '-' || s[0] == '+');
    let digits = if signed {
        s.drop_first()
    } else {
        s
    };
    if digits.len() == 0 || !all_digits(digits) {
        None
    } else if neg {
        if dec_value(digits) <= 2147483648 {
            Some((-dec_value(digits)) as i32)
        } else {
            None
        }
    } else {
        if dec_value(digits) <= 2147483647 {
            Some(dec_value(digits) as i32)
        } else {
            None
        }
    }
}

/// A digit string denotes a non-negative number.
proof fn lemma_dec_value_nonneg(s: Seq<char>)
    requires
        all_digits(s),
    ensures
        dec_value(s) >= 0,
    decreases s.len(),
{
    if s.len() > 0 {
        assert forall|i: int| 0 <= i < s.drop_last().len() implies is_dec_digit(
            #[trigger] s.drop_last()[i],
        ) by {
            assert(s.drop_last()[i] == s[i]);
        }
        lemma_dec_value_nonneg(s.drop_last());
    }
}

/// A prefix of a digit string never denotes more than the whole string.
proof fn lemma_dec_value_monotone(s: Seq<char>, j: int)
    requires
        all_digits(s),
        0 <= j <= s.len(),
    ensures
        dec_value(s.take(j)) <= dec_value(s),
    decreases s.len() - j,
{
    if j < s.len() {
        assert forall|i: int| 0 <= i < s.take(j).len() implies is_dec_digit(
            #[trigger] s.take(j)[i],
        ) by {
            assert(s.take(j)[i] == s[i]);
        }
        lemma_dec_value_nonneg(s.take(j));
        assert(s.take(j + 1).drop_last() =~= s.take(j));
        assert(s.take(j + 1).last() == s[j]);
        assert(dec_value(s.take(j + 1)) == dec_value(s.take(j)) * 10 + digit_val(s[j]));
        lemma_dec_value_monotone(s, j + 1);
    } else {
        assert(s.take(j) =~= s);
    }
}

/// Read an `{id}` path segment as the store's id type, exactly as
/// [`i32_of_segment`] describes it.
pub fn parse_i32_segment(s: &str) -> (r: Option<i32>)
    ensures
        r == i32_of_segment(s@),
{
    let len = s.unicode_len();
    if len == 0 {
        return None;
    }
    let c0 = s.get_char(0);
    let neg = c0 == '-';
    let signed = c0 == '-' || c0 == '+';
    let start: usize = if signed {
        1
    } else {
        0
    };
    if len == start {
        return None;
    }
    let ghost digits: Seq<char> = if signed {
        s@.drop_first()
    } else {
        s@
    };
    proof {
        assert(digits =~= s@.subrange(start as int, len as int));
    }
    let mut acc: i64 = 0;
    let mut i: usize = start;
    while i < len
        invariant
            len == s@.len(),
            start <= i <= len,
            start <= 1,
            len > start,
            neg == (s@.len() > 0 && s@[0] == '-'),
            signed == (s@.len() > 0 && (s@[0] == '-' || s@[0] == '+')),
            signed ==> start == 1,
            !signed ==> start == 0,
            digits == (if signed {
                s@.drop_first()
            } else {
                s@
            }),
            digits =~= s@.subrange(start as int, len as int),
            digits.len() == len - start,
            all_digits(digits.take(i - start)),
            acc == dec_value(digits.take(i - start)),
            0 <= acc <= 2147483648,
        decreases len - i,
    {
        let c = s.get_char(i);
        let cu = c as u32;
        proof {
            assert(digits[i - start] == s@[i as int]);
        }
        if cu < 48 || cu > 57 {
            proof {
                assert(!is_dec_digit(digits[i - start]));
                assert(!all_digits(digits));
            }
            return None;
        }
        let d: i64 = (cu - 48) as i64;
        let next: i64 = acc * 10 + d;
        proof {
            let jj = i - start;
            assert(digits.take(jj + 1).drop_last() =~= digits.take(jj as int));
            assert(digits.take(jj + 1).last() == digits[jj as int]);
            assert(dec_value(digits.take(jj + 1)) == acc * 10 + digit_val(digits[jj as int]));
            assert forall|k: int| 0 <= k < digits.take(jj + 1).len() implies is_dec_digit(
                #[trigger] digits.take(jj + 1)[k],
            ) by {
                assert(digits.take(jj + 1)[k] == digits[k]);
                if k < jj {
                    assert(digits.take(jj as int)[k] == digits[k]);
                }
            }
        }
        if next > 2147483648 {
            proof {
                if all_digits(digits) {
                    lemma_dec_value_monotone(digits, i - start + 1);
                }
            }
            return None;
        }
        acc = next;
        i = i + 1;
    }
    proof {
        assert(digits.take((len - start) as int) =~= digits);
    }
    if neg {
        let v: i64 = -acc;
        Some(v as i32)
    } else {
        if acc > 2147483647 {
            return None;
        }
        Some(acc as i32)
    }
}

/// Whether two strings hold the same characters.
fn str_equal(a: &str, b: &str) -> (r: bool)
    ensures
        r == (a@ == b@),
{
    let la = a.unicode_len();
    let lb = b.unicode_len();
    if la != lb {
        proof {
            assert(a@ != b@);
        }
        return false;
    }
    let mut i: usize = 0;
    while i < la
        invariant
            la == a@.len(),
            la == b@.len(),
            i <= la,
            forall|k: int| 0 <= k < i ==> a@[k] == #[trigger] b@[k],
        decreases la - i,
    {
        if a.get_char(i) != b.get_char(i) {
            return false;
        }
        i = i + 1;
    }
    proof {
        assert(a@ =~= b@);
    }
    true
}

/// Whether the string begins with the prefix.
pub open spec fn starts_with(p: Seq<char>, prefix: Seq<char>) -> bool {
    prefix.len() <= p.len() && p.take(prefix.len() as int) == prefix
}

/// Whether `s` begins with `prefix`.
fn str_starts_with(s: &str, prefix: &str) -> (r: bool)
    ensures
        r == starts_with(s@, prefix@),
{
    let ls = s.unicode_len();
    let lp = prefix.unicode_len();
    if lp > ls {
        return false;
    }
    let mut i: usize = 0;
    while i < lp
        invariant
            ls == s@.len(),
            lp == prefix@.len(),
            lp <= ls,
            i <= lp,
            forall|k: int| 0 <= k < i ==> s@[k] == #[trigger] prefix@[k],
        decreases lp - i,
    {
        if s.get_char(i) != prefix.get_char(i) {
            proof {
                assert(s@.take(lp as int)[i as int] == s@[i as int]);
            }
            return false;
        }
        i = i + 1;
    }
    proof {
        assert(s@.take(lp as int) =~= prefix@);
    }
    true
}

/// Whether the character occurs in the string.
fn str_has_char(s: &str, c: char) -> (r: bool)
    ensures
        r == s@.contains(c),
{
    let len = s.unicode_len();
    let mut i: usize = 0;
    while i < len
        invariant
            len == s@.len(),
            i <= len,
            forall|k: int| 0 <= k < i ==> s@[k] != c,
        decreases len - i,
    {
        if s.get_char(i) == c {
            return true;
        }
        i = i + 1;
    }
    false
}

/// The verb of an inbound request.
#[derive(Debug, Clone, Copy, PartialEq, Eq, Structural)]
pub enum Method {
    Get,
    Post,
    Put,
    Delete,
}

/// The operation a request was routed to, one per data-access
/// operation, with the values its path carried.
#[derive(Debug)]
pub enum Route {
    ListAll,
    GetById(i32),
    Add,
    Update,
    DeleteById(i32),
    Search(String),
}

/// The ghost image of a routed request: the search term as its
/// character sequence.
pub enum RouteView {
    ListAll,
    GetById(i32),
    Add,
    Update,
    DeleteById(i32),
    Search(Seq<char>),
}

impl View for Route {
    type V = RouteView;

    open spec fn view(&self) -> RouteView {
        match self {
            Route::ListAll => RouteView::ListAll,
            Route::GetById(id) => RouteView::GetById(*id),
            Route::Add => RouteView::Add,
            Route::Update => RouteView::Update,
            Route::DeleteById(id) => RouteView::DeleteById(*id),
            Route::Search(term) => RouteView::Search(term@),
        }
    }
}

/// The route table: which verb and path, under the service's prefix,
/// reach which operation. A path that matches no row of the table, an
/// empty or slash-carrying `{term}` or `{id}` segment, and an `{id}`
/// segment that is no well-formed id, reach none.
pub open spec fn route_of(m: Method, p: Seq<char>) -> Option<RouteView> {
    match m {
        Method::Get => {
            if p == "/"@ {
                Some(RouteView::ListAll)
            } else if starts_with(p, "/search/"@) {
                let term = p.skip(8);
                if term.len() > 0 && !term.contains('/') {
                    Some(RouteView::Search(term))
                } else {
                    None
                }
            } else if starts_with(p, "/"@) && p.skip(1).len() > 0 && !p.skip(1).contains('/') {
                match i32_of_segment(p.skip(1)) {
                    Some(id) => Some(RouteView::GetById(id)),
                    None => None,
                }
            } else {
                None
            }
        },
        Method::Post => if p == "/add"@ {
            Some(RouteView::Add)
        } else {
            None
        },
        Method::Put => if p == "/update"@ {
            Some(RouteView::Update)
        } else {
            None
        },
        Method::Delete => {
            if starts_with(p, "/delete/"@) {
                let seg = p.skip(8);
                if seg.len() > 0 && !seg.contains('/') {
                    match i32_of_segment(seg) {
                        Some(id) => Some(RouteView::DeleteById(id)),
                        None => None,
                    }
                } else {
                    None
                }
            } else {
                None
            }
        },
    }
}

/// Route a request: the verb and the path below the service's prefix,
/// exactly as [`route_of`] describes the table.
pub fn parse_route(m: Method, path: &str) -> (r: Option<Route>)
    ensures
        match r {
            Some(rt) => route_of(m, path@) == Some(rt@),
            None => route_of(m, path@) is None,
        },
{
    let len = path.unicode_len();
    match m {
        Method::Get => {
            if str_equal(path, "/") {
                return Some(Route::ListAll);
            }
            if str_starts_with(path, "/search/") {
                proof {
                    reveal_strlit("/search/");
                }
                let term = path.substring_char(8, len);
                proof {
                    assert(term@ =~= path@.skip(8));
                }
                if term.unicode_len() > 0 && !str_has_char(term, '/') {
                    return Some(Route::Search(String::from_str(term)));
                }
                return None;
            }
            if str_starts_with(path, "/") {
                proof {
                    reveal_strlit("/");
                }
                let seg = path.substring_char(1, len);
                proof {
                    assert(seg@ =~= path@.skip(1));
                }
                if seg.unicode_len() == 0 || str_has_char(seg, '/') {
                    return None;
                }
                return match parse_i32_segment(seg) {
                    Some(id) => Some(Route::GetById(id)),
                    None => None,
                };
            }
            None
        },
        Method::Post => {
            if str_equal(path, "/add") {
                Some(Route::Add)
            } else {
                None
            }
        },
        Method::Put => {
            if str_equal(path, "/update") {
                Some(Route::Update)
            } else {
                None
            }
        },
        Method::Delete => {
            if str_starts_with(path, "/delete/") {
                proof {
                    reveal_strlit("/delete/");
                }
                let seg = path.substring_char(8, len);
                proof {
                    assert(seg@ =~= path@.skip(8));
                }
                if seg.unicode_len() == 0 || str_has_char(seg, '/') {
                    return None;
                }
                match parse_i32_segment(seg) {
                    Some(id) => Some(Route::DeleteById(id)),
                    None => None,
                }
            } else {
                None
            }
        },
    }
}

/// A failure report the service sends instead of a result body.
#[derive(Debug)]
pub struct ApiError {
    cause: String,
}

impl ApiError {
    /// The recorded cause, as its character sequence.
    pub closed spec fn cause_view(&self) -> Seq<char> {
        self.cause@
    }

    /// Wrap a diagnostic cause.
    pub fn new(cause: String) -> (e: ApiError)
        ensures
            e.cause_view() == cause@,
    {
        ApiError { cause }
    }

    /// The status a failure report is sent under.
    pub fn status(&self) -> (s: u16)
        ensures
            s == 503,
    {
        503
    }

    /// The body text of the report: the cause behind a fixed marker,
    /// never the store's internals.
    pub fn message(&self) -> (m: String)
        ensures
            m@ == "Error: "@ + self.cause_view(),
    {
        let mut m = String::from_str("Error: ");
        m.append(self.cause.as_str());
        m
    }
}

/// The status that reports a failed operation: a miss is told apart
/// from an unreachable store.
pub open spec fn spec_status_for_error(e: StoreError) -> u16 {
    match e {
        StoreError::NotFound => 404,
        StoreError::Unavailable => 503,
    }
}

/// The status that reports a failed operation: 404 for a miss, 503
/// when the store cannot carry the operation out.
pub fn status_for_error(e: &StoreError) -> (s: u16)
    ensures
        s == spec_status_for_error(*e),
{
    match e {
        StoreError::NotFound => 404,
        StoreError::Unavailable => 503,
    }
}

/// The payload of a response.
#[derive(Debug)]
pub enum Body {
    /// A sequence of entries, for list and search.
    Rows(Vec<Acronym>),
    /// A single entry, for get-by-id.
    Row(Acronym),
    /// The id a successful insert assigned.
    Id(i32),
    /// No payload.
    Empty,
    /// A diagnostic message.
    Message(String),
}

/// What a handler answers: a status code and a payload.
#[derive(Debug)]
pub struct Response {
    pub status: u16,
    pub body: Body,
}

/// Carry one routed request out against the store and answer it:
/// invoke the data-access operation and map its outcome onto a status
/// and a body. Every path ends in a concrete status; no failure
/// escapes.
pub fn handle_request(store: &mut AcronymStore, route: &Route, body: Option<&Acronym>) -> (r:
    Response)
    requires
        old(store).wf(),
    ensures
        final(store).wf(),
        final(store).fresh_id() >= old(store).fresh_id(),
        match route {
            Route::ListAll => {
                &&& final(store).entries() == old(store).entries()
                &&& final(store).fresh_id() == old(store).fresh_id()
                &&& r.status == 200
                &&& r.body matches Body::Rows(v) && v@ == old(store).entries()
            },
            Route::GetById(id) => {
                &&& final(store).entries() == old(store).entries()
                &&& final(store).fresh_id() == old(store).fresh_id()
                &&& if has_id(old(store).entries(), *id as int) {
                    &&& r.status == 200
                    &&& r.body matches Body::Row(a) && a.id == *id && old(store).entries().contains(
                        a,
                    )
                } else {
                    r.status == 404 && r.body is Empty
                }
            },
            Route::Search(term) => {
                &&& final(store).entries() == old(store).entries()
                &&& final(store).fresh_id() == old(store).fresh_id()
                &&& r.status == 200
                &&& r.body matches Body::Rows(v) && v@ == matching_entries(
                    old(store).entries(),
                    encode_utf8(term@),
                )
            },
            Route::Add => match body {
                None => {
                    &&& final(store).entries() == old(store).entries()
                    &&& final(store).fresh_id() == old(store).fresh_id()
                    &&& r.status == 400 && r.body is Empty
                },
                Some(a) => {
                    if old(store).fresh_id() < i32::MAX as int {
                        &&& r.status == 200
                        &&& r.body matches Body::Id(id) && id as int == old(store).fresh_id()
                            && final(store).entries() == old(store).entries().push(
                            (Acronym { id, acronym: a.acronym, definition: a.definition }),
                        ) && final(store).fresh_id() == old(store).fresh_id() + 1
                    } else {
                        &&& final(store).entries() == old(store).entries()
                        &&& final(store).fresh_id() == old(store).fresh_id()
                        &&& r.status == 503 && r.body is Empty
                    }
                },
            },
            Route::Update => match body {
                None => {
                    &&& final(store).entries() == old(store).entries()
                    &&& final(store).fresh_id() == old(store).fresh_id()
                    &&& r.status == 400 && r.body is Empty
                },
                Some(a) => {
                    &&& final(store).fresh_id() == old(store).fresh_id()
                    &&& if has_id(old(store).entries(), a.id as int) {
                        &&& r.status == 200 && r.body is Empty
                        &&& final(store).entries() == with_updated(old(store).entries(), *a)
                    } else {
                        &&& r.status == 404
                        &&& r.body matches Body::Message(m) && m@ == "Error: "@
                            + "no row matches the id"@
                        &&& final(store).entries() == old(store).entries()
                    }
                },
            },
            Route::DeleteById(id) => {
                &&& final(store).fresh_id() == old(store).fresh_id()
                &&& r.status == 200 && r.body is Empty
                &&& final(store).entries() == without_id(old(store).entries(), *id as int)
            },
        },
{
    match route {
        Route::ListAll => {
            let rows = store.list();
            Response { status: 200, body: Body::Rows(rows) }
        },
        Route::GetById(id) => {
            match store.get_by_id(*id) {
                Ok(a) => Response { status: 200, body: Body::Row(a) },
                Err(e) => Response { status: status_for_error(&e), body: Body::Empty },
            }
        },
        Route::Search(term) => {
            let rows = store.search(term.as_str());
            Response { status: 200, body: Body::Rows(rows) }
        },
        Route::Add => {
            match body {
                None => Response { status: 400, body: Body::Empty },
                Some(a) => {
                    match store.insert(a.acronym.clone(), a.definition.clone()) {
                        Ok(id) => Response { status: 200, body: Body::Id(id) },
                        Err(e) => Response {
                            status: status_for_error(&e),
                            body: Body::Empty,
                        },
                    }
                },
            }
        },
        Route::Update => {
            match body {
                None => Response { status: 400, body: Body::Empty },
                Some(a) => {
                    match store.update(a) {
                        Ok(_) => Response { status: 200, body: Body::Empty },
                        Err(e) => {
                            let report = ApiError::new(String::from_str("no row matches the id"));
                            Response {
                                status: status_for_error(&e),
                                body: Body::Message(report.message()),
                            }
                        },
                    }
                },
            }
        },
        Route::DeleteById(id) => {
            let _outcome = store.delete(*id);
            Response { status: 200, body: Body::Empty }
        },
    }
}

} // verus!
