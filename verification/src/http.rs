//! HTTP/1.x request and response parsing with RFC 7230 framing
//! disambiguation.
//!
//! Raw tokenization of the request line, status line and header block
//! is delegated to the `httparse` crate behind trusted wrappers; the
//! framing policy — Content-Length validation, chunked detection and
//! precedence, body presence and connection persistence — is verified
//! here against its specification.

use crate::util::{eq_ignore_case, eq_ignore_case_exec};
use vstd::prelude::*;

verus! {

/// The largest Content-Length the policy accepts: 100 MiB.
pub const MAX_CONTENT_LENGTH: i64 = 104857600;

/// At most this many headers are tokenized; more is a grammar error.
pub const MAX_HEADERS: usize = 64;

/// An owned copy of a span of the caller's input buffer.
pub struct IrisSlice {
    pub data: Vec<u8>,
}

impl View for IrisSlice {
    type V = Seq<u8>;

    open spec fn view(&self) -> Seq<u8> {
        self.data@
    }
}

impl IrisSlice {
    /// Captures the given bytes.
    pub fn from_bytes(b: &[u8]) -> (r: Self)
        ensures
            r@ == b@,
    {
        let mut data: Vec<u8> = Vec::new();
        data.extend_from_slice(b);
        proof {
            assert(data@ =~= b@);
        }
        IrisSlice { data }
    }
}

/// One header: a name and a value.
pub struct IrisHttpHeader {
    pub name: IrisSlice,
    pub value: IrisSlice,
}

/// Mathematical model of a header.
pub struct HttpHeaderSpec {
    pub name: Seq<u8>,
    pub value: Seq<u8>,
}

impl DeepView for IrisHttpHeader {
    type V = HttpHeaderSpec;

    open spec fn deep_view(&self) -> HttpHeaderSpec {
        HttpHeaderSpec { name: self.name@, value: self.value@ }
    }
}

// ---------------------------------------------------------------------
// Framing policy: Content-Length
// ---------------------------------------------------------------------
/// The header name `content-length`.
pub open spec fn content_length_name() -> Seq<u8> {
    seq![99u8, 111u8, 110u8, 116u8, 101u8, 110u8, 116u8, 45u8, 108u8, 101u8, 110u8, 103u8, 116u8, 104u8]
}

/// The header name `transfer-encoding`.
pub open spec fn transfer_encoding_name() -> Seq<u8> {
    seq![
        116u8,
        114u8,
        97u8,
        110u8,
        115u8,
        102u8,
        101u8,
        114u8,
        45u8,
        101u8,
        110u8,
        99u8,
        111u8,
        100u8,
        105u8,
        110u8,
        103u8,
    ]
}

/// The token `chunked`.
pub open spec fn chunked_token() -> Seq<u8> {
    seq![99u8, 104u8, 117u8, 110u8, 107u8, 101u8, 100u8]
}

/// The header name `connection`.
pub open spec fn connection_name() -> Seq<u8> {
    seq![99u8, 111u8, 110u8, 110u8, 101u8, 99u8, 116u8, 105u8, 111u8, 110u8]
}

/// The value `close`.
pub open spec fn close_value() -> Seq<u8> {
    seq![99u8, 108u8, 111u8, 115u8, 101u8]
}

/// The value `keep-alive`.
pub open spec fn keep_alive_value() -> Seq<u8> {
    seq![107u8, 101u8, 101u8, 112u8, 45u8, 97u8, 108u8, 105u8, 118u8, 101u8]
}

/// ASCII whitespace, as trimmed around a header value.
pub open spec fn is_ws(c: u8) -> bool {
    c == 32 || (9 <= c <= 13)
}

/// `s` without leading ASCII whitespace.
pub open spec fn trim_left(s: Seq<u8>) -> Seq<u8>
    decreases s.len(),
{
    if s.len() > 0 && is_ws(s[0]) {
        trim_left(s.drop_first())
    } else {
        s
    }
}

/// `s` without trailing ASCII whitespace.
pub open spec fn trim_right(s: Seq<u8>) -> Seq<u8>
    decreases s.len(),
{
    if s.len() > 0 && is_ws(s.last()) {
        trim_right(s.drop_last())
    } else {
        s
    }
}

/// `s` without surrounding ASCII whitespace.
pub open spec fn trim_ws(s: Seq<u8>) -> Seq<u8> {
    trim_right(trim_left(s))
}

/// Every byte is an ASCII digit.
pub open spec fn all_digits(s: Seq<u8>) -> bool {
    forall|i: int| 0 <= i < s.len() ==> 48 <= #[trigger] s[i] <= 57
}

/// The value of an ASCII digit string.
pub open spec fn dec_val(s: Seq<u8>) -> int
    decreases s.len(),
{
    if s.len() == 0 {
        0
    } else {
        dec_val(s.drop_last()) * 10 + (s.last() - 48)
    }
}

/// The number a Content-Length value carries: its bytes, trimmed,
/// must be one or more ASCII digits. Anything else does not parse and
/// the header is ignored.
pub open spec fn cl_value(v: Seq<u8>) -> Option<int> {
    let t = trim_ws(v);
    if t.len() > 0 && all_digits(t) {
        Some(dec_val(t))
    } else {
        None
    }
}

/// The distinct parsed Content-Length values among the first `n`
/// headers, in order of first appearance; `None` if any parsed value
/// exceeds the 100 MiB cap.
pub open spec fn cl_collect(hs: Seq<HttpHeaderSpec>, n: int) -> Option<Seq<int>>
    decreases n,
{
    if n <= 0 {
        Some(Seq::empty())
    } else {
        match cl_collect(hs, n - 1) {
            None => None,
            Some(vs) => {
                let h = hs[n - 1];
                if eq_ignore_case(h.name, content_length_name()) {
                    match cl_value(h.value) {
                        None => Some(vs),
                        Some(v) => {
                            if v > MAX_CONTENT_LENGTH as int {
                                None
                            } else if vs.contains(v) {
                                Some(vs)
                            } else {
                                Some(vs.push(v))
                            }
                        },
                    }
                } else {
                    Some(vs)
                }
            },
        }
    }
}

/// The effective Content-Length before the chunked override:
/// `None` rejects the message (an oversized value, or two distinct
/// values — a smuggling signal); `Some(None)` is absence; duplicate
/// identical values are tolerated.
pub open spec fn content_length_of(hs: Seq<HttpHeaderSpec>) -> Option<Option<int>> {
    match cl_collect(hs, hs.len() as int) {
        None => None,
        Some(vs) => {
            if vs.len() > 1 {
                None
            } else if vs.len() == 1 {
                Some(Some(vs[0]))
            } else {
                Some(None)
            }
        },
    }
}

// ---------------------------------------------------------------------
// Framing policy: Transfer-Encoding and Connection
// ---------------------------------------------------------------------
/// The value contains `chunked` as a case-insensitive substring.
pub open spec fn value_has_chunked(v: Seq<u8>) -> bool {
    exists|i: int| 0 <= i && i + 7 <= v.len() && eq_ignore_case(#[trigger] v.subrange(i, i + 7), chunked_token())
}

/// Some `transfer-encoding` header marks the message chunked.
pub open spec fn headers_chunked(hs: Seq<HttpHeaderSpec>) -> bool {
    exists|i: int|
        0 <= i < hs.len() && eq_ignore_case(#[trigger] hs[i].name, transfer_encoding_name())
            && value_has_chunked(hs[i].value)
}

/// The value of the first `connection` header at or after `i`.
pub open spec fn connection_from(hs: Seq<HttpHeaderSpec>, i: int) -> Option<Seq<u8>>
    decreases hs.len() - i,
{
    if i < 0 || i >= hs.len() {
        None
    } else if eq_ignore_case(hs[i].name, connection_name()) {
        Some(hs[i].value)
    } else {
        connection_from(hs, i + 1)
    }
}

/// The value of the first `connection` header, if any.
pub open spec fn connection_value(hs: Seq<HttpHeaderSpec>) -> Option<Seq<u8>> {
    connection_from(hs, 0)
}

/// Whether the connection is to be closed after this message:
/// `connection: close` closes, `connection: keep-alive` keeps, and any
/// other or absent value closes exactly when the minor version is 0.
pub open spec fn should_close_of(hs: Seq<HttpHeaderSpec>, version_minor: u8) -> bool {
    match connection_value(hs) {
        Some(v) => {
            if eq_ignore_case(v, close_value()) {
                true
            } else if eq_ignore_case(v, keep_alive_value()) {
                false
            } else {
                version_minor == 0
            }
        },
        None => version_minor == 0,
    }
}

proof fn lemma_trim_left_skip(s: Seq<u8>, i: int)
    requires
        0 <= i <= s.len(),
        forall|k: int| 0 <= k < i ==> is_ws(#[trigger] s[k]),
        i < s.len() ==> !is_ws(s[i]),
    ensures
        trim_left(s) == s.skip(i),
    decreases i,
{
    if i == 0 {
        assert(s.skip(0) =~= s);
    } else {
        let dl = s.drop_first();
        assert(is_ws(s[0]));
        assert forall|k: int| 0 <= k < i - 1 implies is_ws(#[trigger] dl[k]) by {
            assert(dl[k] == s[k + 1]);
        }
        if i - 1 < dl.len() {
            assert(dl[i - 1] == s[i]);
        }
        lemma_trim_left_skip(dl, i - 1);
        assert(dl.skip(i - 1) =~= s.skip(i));
    }
}

proof fn lemma_trim_right_take(s: Seq<u8>, j: int)
    requires
        0 <= j <= s.len(),
        forall|k: int| j <= k < s.len() ==> is_ws(#[trigger] s[k]),
        j > 0 ==> !is_ws(s[j - 1]),
    ensures
        trim_right(s) == s.take(j),
    decreases s.len(),
{
    if j == s.len() {
        assert(s.take(j) =~= s);
    } else {
        assert(is_ws(s.last()));
        let dl = s.drop_last();
        assert forall|k: int| j <= k < dl.len() implies is_ws(#[trigger] dl[k]) by {
            assert(dl[k] == s[k]);
        }
        if j > 0 {
            assert(dl[j - 1] == s[j - 1]);
        }
        lemma_trim_right_take(dl, j);
        assert(dl.take(j) =~= s.take(j));
    }
}

fn is_ws_exec(c: u8) -> (r: bool)
    ensures
        r == is_ws(c),
{
    c == 32 || (9 <= c && c <= 13)
}

/// Parses a Content-Length value, saturating just above the 100 MiB
/// cap: the result is the parsed number when it is within the cap,
/// and some number above the cap when the true value exceeds it.
fn content_length_value(v: &[u8]) -> (r: Option<u64>)
    ensures
        match cl_value(v@) {
            None => r is None,
            Some(nv) => {
                &&& r is Some
                &&& nv > MAX_CONTENT_LENGTH as int <==> r.unwrap() > MAX_CONTENT_LENGTH as u64
                &&& nv <= MAX_CONTENT_LENGTH as int ==> r.unwrap() == nv
            },
        },
{
    let n = v.len();
    let mut a: usize = 0;
    while a < n && is_ws_exec(v[a])
        invariant
            0 <= a <= n,
            n == v@.len(),
            forall|k: int| 0 <= k < a ==> is_ws(#[trigger] v@[k]),
        decreases n - a,
    {
        a += 1;
    }
    proof {
        lemma_trim_left_skip(v@, a as int);
    }
    let mut b: usize = n;
    while b > a && is_ws_exec(v[b - 1])
        invariant
            a <= b <= n,
            n == v@.len(),
            forall|k: int| b <= k < n ==> is_ws(#[trigger] v@[k]),
        decreases b,
    {
        b -= 1;
    }
    let ghost t = trim_ws(v@);
    proof {
        let sk = v@.skip(a as int);
        assert forall|k: int| b - a <= k < sk.len() implies is_ws(#[trigger] sk[k]) by {
            assert(sk[k] == v@[a + k]);
        }
        if b > a {
            assert(sk[b - a - 1] == v@[b - 1]);
        }
        lemma_trim_right_take(sk, b - a);
        assert(t =~= v@.subrange(a as int, b as int));
    }
    if b == a {
        return None;
    }
    let mut acc: u64 = 0;
    let mut i: usize = a;
    while i < b
        invariant
            a <= i <= b,
            b <= n,
            n == v@.len(),
            t == trim_ws(v@),
            t =~= v@.subrange(a as int, b as int),
            forall|k: int| a <= k < i ==> 48 <= #[trigger] v@[k] <= 57,
            acc <= 104857601,
            dec_val(t.take(i - a)) >= 0,
            ({
                let sv = dec_val(t.take(i - a));
                &&& (sv <= MAX_CONTENT_LENGTH as int ==> acc == sv)
                &&& (sv > MAX_CONTENT_LENGTH as int ==> acc == 104857601)
            }),
        decreases b - i,
    {
        let c = v[i];
        if c < 48 || c > 57 {
            proof {
                assert(t[i - a] == v@[i as int]);
                assert(!all_digits(t));
            }
            return None;
        }
        let d = (c - 48) as u64;
        let t0 = acc * 10 + d;
        let new_acc: u64 = if t0 > 104857600 {
            104857601
        } else {
            t0
        };
        proof {
            let pre = t.take(i - a);
            let post = t.take(i - a + 1);
            assert(post.drop_last() =~= pre);
            assert(post.last() == t[i - a]);
            assert(t[i - a] == v@[i as int]);
            assert(dec_val(post) == dec_val(pre) * 10 + (c - 48));
        }
        acc = new_acc;
        i += 1;
    }
    proof {
        assert(t.take(b - a) =~= t);
        assert forall|k: int| 0 <= k < t.len() implies 48 <= #[trigger] t[k] <= 57 by {
            assert(t[k] == v@[a + k]);
        }
        assert(all_digits(t));
        assert(t.len() > 0);
    }
    Some(acc)
}

proof fn lemma_cl_collect_none_sticky(hs: Seq<HttpHeaderSpec>, m: int, n: int)
    requires
        m <= n,
        cl_collect(hs, m) is None,
    ensures
        cl_collect(hs, n) is None,
    decreases n - m,
{
    if m < n {
        lemma_cl_collect_none_sticky(hs, m, n - 1);
    }
}

/// Validates the Content-Length headers, exactly as `content_length_of`
/// states: `Err` rejects the message (a value over 100 MiB, or two
/// distinct values); `Ok(None)` is absence; `Ok(Some(v))` is the one
/// surviving value. Duplicate identical values are tolerated.
pub fn parse_content_length(headers: &Vec<IrisHttpHeader>) -> (r: Result<Option<i64>, ()>)
    ensures
        match content_length_of(headers.deep_view()) {
            None => r is Err,
            Some(opt) => {
                &&& r is Ok
                &&& match opt {
                    None => r.unwrap() is None,
                    Some(v) => r.unwrap() is Some && r.unwrap().unwrap() == v,
                }
            },
        },
{
    let ghost hs = headers.deep_view();
    let cl_name: Vec<u8> = vec![99u8, 111u8, 110u8, 116u8, 101u8, 110u8, 116u8, 45u8, 108u8, 101u8, 110u8, 103u8, 116u8, 104u8];
    proof {
        assert(cl_name@ =~= content_length_name());
    }
    let mut values: Vec<i64> = Vec::new();
    let mut i: usize = 0;
    while i < headers.len()
        invariant
            0 <= i <= headers@.len(),
            hs == headers.deep_view(),
            hs.len() == headers@.len(),
            cl_name@ == content_length_name(),
            ({
                match cl_collect(hs, i as int) {
                    None => false,
                    Some(vs) => {
                        &&& vs.len() == values@.len()
                        &&& forall|k: int| 0 <= k < vs.len() ==> vs[k] == #[trigger] values@[k]
                        &&& forall|k: int|
                            0 <= k < vs.len() ==> 0 <= #[trigger] vs[k]
                                <= MAX_CONTENT_LENGTH as int
                    },
                }
            }),
        decreases headers@.len() - i,
    {
        let ghost vs_pre = cl_collect(hs, i as int).unwrap();
        let h = &headers[i];
        if eq_ignore_case_exec(h.name.data.as_slice(), cl_name.as_slice()) {
            match content_length_value(h.value.data.as_slice()) {
                None => {},
                Some(raw) => {
                    if raw > 104857600 {
                        proof {
                            assert(cl_collect(hs, i + 1) is None);
                            lemma_cl_collect_none_sticky(hs, i + 1, hs.len() as int);
                        }
                        return Err(());
                    }
                    let val = raw as i64;
                    let mut seen = false;
                    let mut k: usize = 0;
                    while k < values.len()
                        invariant
                            0 <= k <= values@.len(),
                            seen == exists|j: int| 0 <= j < k && values@[j] == val,
                        decreases values@.len() - k,
                    {
                        if values[k] == val {
                            seen = true;
                        }
                        k += 1;
                    }
                    proof {
                        let sv = cl_value(hs[i as int].value).unwrap();
                        assert(sv == raw as int);
                        if vs_pre.contains(sv) {
                            let j = choose|j: int| 0 <= j < vs_pre.len() && vs_pre[j] == sv;
                            assert(values@[j] == val);
                            assert(seen);
                        } else {
                            if seen {
                                let j = choose|j: int| 0 <= j < values@.len() && values@[j] == val;
                                assert(vs_pre[j] == sv);
                                assert(vs_pre.contains(sv));
                            }
                            assert(!seen);
                        }
                    }
                    if !seen {
                        values.push(val);
                    }
                },
            }
        }
        i += 1;
    }
    proof {
        assert(cl_collect(hs, hs.len() as int) == cl_collect(hs, i as int));
    }
    if values.len() > 1 {
        return Err(());
    }
    if values.len() == 1 {
        return Ok(Some(values[0]));
    }
    Ok(None)
}

/// Detects `transfer-encoding: … chunked …`, exactly as
/// `headers_chunked` states: a case-insensitive substring match of the
/// token, not the full encoding-list grammar.
pub fn is_chunked(headers: &Vec<IrisHttpHeader>) -> (r: bool)
    ensures
        r == headers_chunked(headers.deep_view()),
{
    let ghost hs = headers.deep_view();
    let te_name: Vec<u8> = vec![116u8, 114u8, 97u8, 110u8, 115u8, 102u8, 101u8, 114u8, 45u8, 101u8, 110u8, 99u8, 111u8, 100u8, 105u8, 110u8, 103u8];
    let token: Vec<u8> = vec![99u8, 104u8, 117u8, 110u8, 107u8, 101u8, 100u8];
    proof {
        assert(te_name@ =~= transfer_encoding_name());
        assert(token@ =~= chunked_token());
    }
    let mut i: usize = 0;
    while i < headers.len()
        invariant
            0 <= i <= headers@.len(),
            hs == headers.deep_view(),
            hs.len() == headers@.len(),
            te_name@ == transfer_encoding_name(),
            token@ == chunked_token(),
            forall|j: int|
                0 <= j < i ==> !(eq_ignore_case(#[trigger] hs[j].name, transfer_encoding_name())
                    && value_has_chunked(hs[j].value)),
        decreases headers@.len() - i,
    {
        let h = &headers[i];
        if eq_ignore_case_exec(h.name.data.as_slice(), te_name.as_slice()) {
            let v = h.value.data.as_slice();
            if v.len() >= 7 {
                let mut j: usize = 0;
                while j <= v.len() - 7
                    invariant
                        0 <= j <= v@.len() - 7 + 1,
                        v@.len() >= 7,
                        hs == headers.deep_view(),
                        v@ == hs[i as int].value,
                        0 <= i < hs.len(),
                        eq_ignore_case(hs[i as int].name, transfer_encoding_name()),
                        token@ == chunked_token(),
                        forall|m: int|
                            0 <= m < j ==> !eq_ignore_case(
                                #[trigger] v@.subrange(m, m + 7),
                                chunked_token(),
                            ),
                    decreases v@.len() - j,
                {
                    let w = vstd::slice::slice_subrange(v, j, j + 7);
                    if eq_ignore_case_exec(w, token.as_slice()) {
                        proof {
                            assert(value_has_chunked(hs[i as int].value));
                            assert(eq_ignore_case(hs[i as int].name, transfer_encoding_name()));
                            assert(headers_chunked(hs));
                        }
                        return true;
                    }
                    j += 1;
                }
                proof {
                    assert(!value_has_chunked(hs[i as int].value));
                }
            } else {
                proof {
                    assert(!value_has_chunked(hs[i as int].value));
                }
            }
        }
        i += 1;
    }
    false
}

/// Applies the connection-persistence rule, exactly as
/// `should_close_of` states.
fn compute_should_close(headers: &Vec<IrisHttpHeader>, version_minor: u8) -> (r: bool)
    ensures
        r == should_close_of(headers.deep_view(), version_minor),
{
    let ghost hs = headers.deep_view();
    let conn_name: Vec<u8> = vec![99u8, 111u8, 110u8, 110u8, 101u8, 99u8, 116u8, 105u8, 111u8, 110u8];
    let close_v: Vec<u8> = vec![99u8, 108u8, 111u8, 115u8, 101u8];
    let ka_v: Vec<u8> = vec![107u8, 101u8, 101u8, 112u8, 45u8, 97u8, 108u8, 105u8, 118u8, 101u8];
    proof {
        assert(conn_name@ =~= connection_name());
        assert(close_v@ =~= close_value());
        assert(ka_v@ =~= keep_alive_value());
    }
    let mut i: usize = 0;
    while i < headers.len()
        invariant
            0 <= i <= headers@.len(),
            hs == headers.deep_view(),
            hs.len() == headers@.len(),
            conn_name@ == connection_name(),
            close_v@ == close_value(),
            ka_v@ == keep_alive_value(),
            connection_value(hs) == connection_from(hs, i as int),
        decreases headers@.len() - i,
    {
        let h = &headers[i];
        if eq_ignore_case_exec(h.name.data.as_slice(), conn_name.as_slice()) {
            let v = h.value.data.as_slice();
            if eq_ignore_case_exec(v, close_v.as_slice()) {
                return true;
            }
            if eq_ignore_case_exec(v, ka_v.as_slice()) {
                return false;
            }
            return version_minor == 0;
        }
        i += 1;
    }
    version_minor == 0
}

// ---------------------------------------------------------------------
// Parsed messages
// ---------------------------------------------------------------------
/// A parsed request. `content_length` is `-1` when absent or when
/// chunked framing overrides it; chunked and a non-negative
/// `content_length` never coexist.
pub struct IrisHttpRequest {
    pub method: IrisSlice,
    pub path: IrisSlice,
    pub version_minor: u8,
    pub header_end_index: usize,
    pub content_length: i64,
    pub is_chunked: bool,
    pub headers: Vec<IrisHttpHeader>,
}

/// Mathematical model of a parsed request.
pub struct HttpRequestSpec {
    pub method: Seq<u8>,
    pub path: Seq<u8>,
    pub version_minor: u8,
    pub header_end_index: int,
    pub content_length: int,
    pub is_chunked: bool,
    pub headers: Seq<HttpHeaderSpec>,
}

impl View for IrisHttpRequest {
    type V = HttpRequestSpec;

    open spec fn view(&self) -> HttpRequestSpec {
        HttpRequestSpec {
            method: self.method@,
            path: self.path@,
            version_minor: self.version_minor,
            header_end_index: self.header_end_index as int,
            content_length: self.content_length as int,
            is_chunked: self.is_chunked,
            headers: self.headers.deep_view(),
        }
    }
}

/// A parsed response, with its three framing verdicts computed once
/// at parse time.
pub struct IrisHttpResponse {
    pub status_code: u16,
    pub reason: IrisSlice,
    pub version_minor: u8,
    pub header_end_index: usize,
    pub content_length: i64,
    pub is_chunked: bool,
    pub has_body: bool,
    pub has_framing: bool,
    pub should_close: bool,
    pub headers: Vec<IrisHttpHeader>,
}

/// Mathematical model of a parsed response.
pub struct HttpResponseSpec {
    pub status_code: u16,
    pub reason: Seq<u8>,
    pub version_minor: u8,
    pub header_end_index: int,
    pub content_length: int,
    pub is_chunked: bool,
    pub has_body: bool,
    pub has_framing: bool,
    pub should_close: bool,
    pub headers: Seq<HttpHeaderSpec>,
}

impl View for IrisHttpResponse {
    type V = HttpResponseSpec;

    open spec fn view(&self) -> HttpResponseSpec {
        HttpResponseSpec {
            status_code: self.status_code,
            reason: self.reason@,
            version_minor: self.version_minor,
            header_end_index: self.header_end_index as int,
            content_length: self.content_length as int,
            is_chunked: self.is_chunked,
            has_body: self.has_body,
            has_framing: self.has_framing,
            should_close: self.should_close,
            headers: self.headers.deep_view(),
        }
    }
}

// ---------------------------------------------------------------------
// The header lexer (httparse), behind trusted wrappers
// ---------------------------------------------------------------------
/// The raw tokens of a complete request head.
pub struct RequestTokens {
    pub method: Vec<u8>,
    pub path: Vec<u8>,
    pub version_minor: u8,
    pub header_end: usize,
    pub headers: Vec<IrisHttpHeader>,
}

/// Mathematical model of request tokens.
pub struct RequestTokensSpec {
    pub method: Seq<u8>,
    pub path: Seq<u8>,
    pub version_minor: u8,
    pub header_end: int,
    pub headers: Seq<HttpHeaderSpec>,
}

impl View for RequestTokens {
    type V = RequestTokensSpec;

    open spec fn view(&self) -> RequestTokensSpec {
        RequestTokensSpec {
            method: self.method@,
            path: self.path@,
            version_minor: self.version_minor,
            header_end: self.header_end as int,
            headers: self.headers.deep_view(),
        }
    }
}

/// What the request lexer reports for a buffer.
pub enum ReqLex {
    Complete(RequestTokens),
    Partial,
    Invalid,
}

/// Mathematical model of the request lexer's report.
pub enum ReqLexSpec {
    Complete(RequestTokensSpec),
    Partial,
    Invalid,
}

impl View for ReqLex {
    type V = ReqLexSpec;

    open spec fn view(&self) -> ReqLexSpec {
        match self {
            ReqLex::Complete(t) => ReqLexSpec::Complete(t@),
            ReqLex::Partial => ReqLexSpec::Partial,
            ReqLex::Invalid => ReqLexSpec::Invalid,
        }
    }
}

/// The raw tokens of a complete response head.
pub struct ResponseTokens {
    pub status: u16,
    pub reason: Vec<u8>,
    pub version_minor: u8,
    pub header_end: usize,
    pub headers: Vec<IrisHttpHeader>,
}

/// Mathematical model of response tokens.
pub struct ResponseTokensSpec {
    pub status: u16,
    pub reason: Seq<u8>,
    pub version_minor: u8,
    pub header_end: int,
    pub headers: Seq<HttpHeaderSpec>,
}

impl View for ResponseTokens {
    type V = ResponseTokensSpec;

    open spec fn view(&self) -> ResponseTokensSpec {
        ResponseTokensSpec {
            status: self.status,
            reason: self.reason@,
            version_minor: self.version_minor,
            header_end: self.header_end as int,
            headers: self.headers.deep_view(),
        }
    }
}

/// What the response lexer reports for a buffer.
pub enum RespLex {
    Complete(ResponseTokens),
    Partial,
    Invalid,
}

/// Mathematical model of the response lexer's report.
pub enum RespLexSpec {
    Complete(ResponseTokensSpec),
    Partial,
    Invalid,
}

impl View for RespLex {
    type V = RespLexSpec;

    open spec fn view(&self) -> RespLexSpec {
        match self {
            RespLex::Complete(t) => RespLexSpec::Complete(t@),
            RespLex::Partial => RespLexSpec::Partial,
            RespLex::Invalid => RespLexSpec::Invalid,
        }
    }
}

/// What the request lexer returns for given bytes. The tokenization is
/// a function of the input alone; its full grammar is not restated
/// here.
pub uninterp spec fn req_lex(b: Seq<u8>) -> ReqLexSpec;

/// What the response lexer returns for given bytes.
pub uninterp spec fn resp_lex(b: Seq<u8>) -> RespLexSpec;

/// Relies on httparse::Request::parse (1.10): it tokenizes the request
/// line and header block into method, path, minor version (0 or 1) and
/// at most 64 name/value header pairs, reporting Partial for a buffer
/// that ends before the blank line and an error for a grammar
/// violation; on success the returned offset — the start of the body —
/// lies within the buffer. The result depends on the bytes alone.
#[verifier::external_body]
fn lex_request(buf: &[u8]) -> (r: ReqLex)
    ensures
        r@ == req_lex(buf@),
        match r {
            ReqLex::Complete(t) => {
                &&& t.header_end as int <= buf@.len()
                &&& t.version_minor <= 1
                &&& t.headers@.len() <= MAX_HEADERS as int
            },
            _ => true,
        },
{
    let mut hdrs = [httparse::EMPTY_HEADER; MAX_HEADERS];
    let mut req = httparse::Request::new(&mut hdrs);
    match req.parse(buf) {
        Ok(httparse::Status::Complete(end)) => ReqLex::Complete(RequestTokens {
            method: req.method.unwrap_or("").as_bytes().to_vec(),
            path: req.path.unwrap_or("").as_bytes().to_vec(),
            version_minor: req.version.unwrap_or(1),
            header_end: end,
            headers: req.headers.iter().map(|h| IrisHttpHeader {
                name: IrisSlice { data: h.name.as_bytes().to_vec() },
                value: IrisSlice { data: h.value.to_vec() } }).collect(),
        }),
        Ok(httparse::Status::Partial) => ReqLex::Partial,
        Err(_) => ReqLex::Invalid,
    }
}

/// Relies on httparse::Response::parse (1.10): it tokenizes the status
/// line and header block into minor version (0 or 1), status code,
/// reason phrase (empty when missing) and at most 64 header pairs,
/// reporting Partial for a buffer that ends before the blank line and
/// an error for a grammar violation; on success the returned offset —
/// the start of the body — lies within the buffer. The result depends
/// on the bytes alone.
#[verifier::external_body]
fn lex_response(buf: &[u8]) -> (r: RespLex)
    ensures
        r@ == resp_lex(buf@),
        match r {
            RespLex::Complete(t) => {
                &&& t.header_end as int <= buf@.len()
                &&& t.version_minor <= 1
                &&& t.headers@.len() <= MAX_HEADERS as int
            },
            _ => true,
        },
{
    let mut hdrs = [httparse::EMPTY_HEADER; MAX_HEADERS];
    let mut resp = httparse::Response::new(&mut hdrs);
    match resp.parse(buf) {
        Ok(httparse::Status::Complete(end)) => RespLex::Complete(ResponseTokens {
            status: resp.code.unwrap_or(0),
            reason: resp.reason.unwrap_or("").as_bytes().to_vec(),
            version_minor: resp.version.unwrap_or(1),
            header_end: end,
            headers: resp.headers.iter().map(|h| IrisHttpHeader {
                name: IrisSlice { data: h.name.as_bytes().to_vec() },
                value: IrisSlice { data: h.value.to_vec() } }).collect(),
        }),
        Ok(httparse::Status::Partial) => RespLex::Partial,
        Err(_) => RespLex::Invalid,
    }
}

// ---------------------------------------------------------------------
// Assembly: framing policy applied to lexer tokens
// ---------------------------------------------------------------------
/// The request built from complete tokens, or `None` when the
/// Content-Length check rejects the message. The conflict check runs
/// first; chunked framing then forces the effective length to `-1`.
pub open spec fn request_of_tokens(t: RequestTokensSpec) -> Option<HttpRequestSpec> {
    match content_length_of(t.headers) {
        None => None,
        Some(cl_opt) => {
            let chunked = headers_chunked(t.headers);
            let cl: int = if chunked {
                -1
            } else {
                match cl_opt {
                    Some(v) => v,
                    None => -1,
                }
            };
            Some(
                HttpRequestSpec {
                    method: t.method,
                    path: t.path,
                    version_minor: t.version_minor,
                    header_end_index: t.header_end,
                    content_length: cl,
                    is_chunked: chunked,
                    headers: t.headers,
                },
            )
        },
    }
}

/// The response built from complete tokens, or `None` when the
/// Content-Length check rejects the message. Besides the request
/// fields it fixes the three body verdicts: a 1xx, 204 or 304 status
/// has no body; framing is present when a length survives or the
/// message is chunked; otherwise closure delimits the body.
pub open spec fn response_of_tokens(t: ResponseTokensSpec) -> Option<HttpResponseSpec> {
    match content_length_of(t.headers) {
        None => None,
        Some(cl_opt) => {
            let chunked = headers_chunked(t.headers);
            let cl: int = if chunked {
                -1
            } else {
                match cl_opt {
                    Some(v) => v,
                    None => -1,
                }
            };
            Some(
                HttpResponseSpec {
                    status_code: t.status,
                    reason: t.reason,
                    version_minor: t.version_minor,
                    header_end_index: t.header_end,
                    content_length: cl,
                    is_chunked: chunked,
                    has_body: t.status >= 200 && t.status != 204 && t.status != 304,
                    has_framing: cl >= 0 || chunked,
                    should_close: should_close_of(t.headers, t.version_minor),
                    headers: t.headers,
                },
            )
        },
    }
}

/// Applies the framing policy to complete request tokens, exactly as
/// `request_of_tokens` states.
pub fn request_from_tokens(t: RequestTokens) -> (r: Option<IrisHttpRequest>)
    ensures
        match request_of_tokens(t@) {
            None => r is None,
            Some(m) => r is Some && r.unwrap()@ == m,
        },
{
    let chunked = is_chunked(&t.headers);
    let cl: i64 = match parse_content_length(&t.headers) {
        Err(()) => {
            return None;
        },
        Ok(Some(v)) => {
            if chunked {
                -1
            } else {
                v
            }
        },
        Ok(None) => -1,
    };
    Some(
        IrisHttpRequest {
            method: IrisSlice { data: t.method },
            path: IrisSlice { data: t.path },
            version_minor: t.version_minor,
            header_end_index: t.header_end,
            content_length: cl,
            is_chunked: chunked,
            headers: t.headers,
        },
    )
}

/// Applies the framing policy to complete response tokens, exactly as
/// `response_of_tokens` states.
pub fn response_from_tokens(t: ResponseTokens) -> (r: Option<IrisHttpResponse>)
    ensures
        match response_of_tokens(t@) {
            None => r is None,
            Some(m) => r is Some && r.unwrap()@ == m,
        },
{
    let chunked = is_chunked(&t.headers);
    let cl: i64 = match parse_content_length(&t.headers) {
        Err(()) => {
            return None;
        },
        Ok(Some(v)) => {
            if chunked {
                -1
            } else {
                v
            }
        },
        Ok(None) => -1,
    };
    let has_body = t.status >= 200 && t.status != 204 && t.status != 304;
    let has_framing = cl >= 0 || chunked;
    let should_close = compute_should_close(&t.headers, t.version_minor);
    Some(
        IrisHttpResponse {
            status_code: t.status,
            reason: IrisSlice { data: t.reason },
            version_minor: t.version_minor,
            header_end_index: t.header_end,
            content_length: cl,
            is_chunked: chunked,
            has_body,
            has_framing,
            should_close,
            headers: t.headers,
        },
    )
}

/// The outcome of a parse attempt: a complete message, a buffer that
/// needs more bytes, or a malformed message.
pub enum HttpParse<T> {
    Complete(T),
    Incomplete,
    Malformed,
}

/// Parses a request head. An empty buffer is malformed; otherwise the
/// lexer's report decides: an incomplete head stays incomplete, a
/// grammar violation is malformed, and a complete head gets the
/// framing policy applied, whose Content-Length check may still reject
/// it.
pub fn parse_request(buf: &[u8]) -> (r: HttpParse<IrisHttpRequest>)
    ensures
        buf@.len() == 0 ==> r is Malformed,
        buf@.len() > 0 ==> match req_lex(buf@) {
            ReqLexSpec::Partial => r is Incomplete,
            ReqLexSpec::Invalid => r is Malformed,
            ReqLexSpec::Complete(t) => match request_of_tokens(t) {
                None => r is Malformed,
                Some(m) => match r {
                    HttpParse::Complete(q) => q@ == m,
                    _ => false,
                },
            },
        },
{
    if buf.len() == 0 {
        return HttpParse::Malformed;
    }
    match lex_request(buf) {
        ReqLex::Partial => HttpParse::Incomplete,
        ReqLex::Invalid => HttpParse::Malformed,
        ReqLex::Complete(t) => match request_from_tokens(t) {
            None => HttpParse::Malformed,
            Some(q) => HttpParse::Complete(q),
        },
    }
}

/// Parses a response head; the counterpart of `parse_request`.
pub fn parse_response(buf: &[u8]) -> (r: HttpParse<IrisHttpResponse>)
    ensures
        buf@.len() == 0 ==> r is Malformed,
        buf@.len() > 0 ==> match resp_lex(buf@) {
            RespLexSpec::Partial => r is Incomplete,
            RespLexSpec::Invalid => r is Malformed,
            RespLexSpec::Complete(t) => match response_of_tokens(t) {
                None => r is Malformed,
                Some(m) => match r {
                    HttpParse::Complete(q) => q@ == m,
                    _ => false,
                },
            },
        },
{
    if buf.len() == 0 {
        return HttpParse::Malformed;
    }
    match lex_response(buf) {
        RespLex::Partial => HttpParse::Incomplete,
        RespLex::Invalid => HttpParse::Malformed,
        RespLex::Complete(t) => match response_from_tokens(t) {
            None => HttpParse::Malformed,
            Some(q) => HttpParse::Complete(q),
        },
    }
}

// ---------------------------------------------------------------------
// Framing laws
// ---------------------------------------------------------------------
proof fn lemma_cl_collect_oversize(hs: Seq<HttpHeaderSpec>, n: int, i: int)
    requires
        0 <= i < n <= hs.len(),
        eq_ignore_case(hs[i].name, content_length_name()),
        cl_value(hs[i].value) is Some,
        cl_value(hs[i].value).unwrap() > MAX_CONTENT_LENGTH as int,
    ensures
        cl_collect(hs, n) is None,
    decreases n,
{
    if i < n - 1 {
        lemma_cl_collect_oversize(hs, n - 1, i);
    }
}

proof fn lemma_cl_collect_contains(hs: Seq<HttpHeaderSpec>, n: int, i: int)
    requires
        0 <= i < n <= hs.len(),
        eq_ignore_case(hs[i].name, content_length_name()),
        cl_value(hs[i].value) is Some,
        cl_value(hs[i].value).unwrap() <= MAX_CONTENT_LENGTH as int,
    ensures
        cl_collect(hs, n) is None || cl_collect(hs, n).unwrap().contains(
            cl_value(hs[i].value).unwrap(),
        ),
    decreases n,
{
    let v = cl_value(hs[i].value).unwrap();
    if i == n - 1 {
        match cl_collect(hs, n - 1) {
            None => {},
            Some(vs) => {
                if !vs.contains(v) {
                    assert(vs.push(v)[vs.len() as int] == v);
                }
            },
        }
    } else {
        lemma_cl_collect_contains(hs, n - 1, i);
        match cl_collect(hs, n - 1) {
            None => {},
            Some(vs) => {
                if vs.contains(v) {
                    let k = choose|k: int| 0 <= k < vs.len() && vs[k] == v;
                    match cl_collect(hs, n) {
                        None => {},
                        Some(vs2) => {
                            assert(vs2[k] == v);
                        },
                    }
                }
            },
        }
    }
}

/// Two Content-Length headers that carry different parsed values
/// reject the message — for requests and responses alike, and whether
/// or not the message is also chunked, since the conflict check runs
/// before the chunked override.
pub proof fn lemma_conflicting_content_length_rejected(hs: Seq<HttpHeaderSpec>, i: int, j: int)
    requires
        0 <= i < hs.len(),
        0 <= j < hs.len(),
        eq_ignore_case(hs[i].name, content_length_name()),
        eq_ignore_case(hs[j].name, content_length_name()),
        cl_value(hs[i].value) is Some,
        cl_value(hs[j].value) is Some,
        cl_value(hs[i].value).unwrap() != cl_value(hs[j].value).unwrap(),
    ensures
        content_length_of(hs) is None,
        forall|t: RequestTokensSpec| t.headers == hs ==> (#[trigger] request_of_tokens(t)) is None,
        forall|t: ResponseTokensSpec|
            t.headers == hs ==> (#[trigger] response_of_tokens(t)) is None,
{
    let n = hs.len() as int;
    let v1 = cl_value(hs[i].value).unwrap();
    let v2 = cl_value(hs[j].value).unwrap();
    if v1 > MAX_CONTENT_LENGTH as int {
        lemma_cl_collect_oversize(hs, n, i);
    } else if v2 > MAX_CONTENT_LENGTH as int {
        lemma_cl_collect_oversize(hs, n, j);
    } else {
        lemma_cl_collect_contains(hs, n, i);
        lemma_cl_collect_contains(hs, n, j);
        match cl_collect(hs, n) {
            None => {},
            Some(vs) => {
                let k1 = choose|k: int| 0 <= k < vs.len() && vs[k] == v1;
                let k2 = choose|k: int| 0 <= k < vs.len() && vs[k] == v2;
                assert(k1 != k2);
                assert(vs.len() > 1);
            },
        }
    }
}

/// Chunked transfer coding wins over a surviving Content-Length: when
/// the message is not rejected by the conflict check, a chunked
/// message always carries the absent-length sentinel.
pub proof fn lemma_chunked_overrides_content_length(hs: Seq<HttpHeaderSpec>)
    requires
        headers_chunked(hs),
    ensures
        forall|t: RequestTokensSpec|
            t.headers == hs && (#[trigger] request_of_tokens(t)) is Some ==> {
                let m = request_of_tokens(t).unwrap();
                m.is_chunked && m.content_length == -1
            },
        forall|t: ResponseTokensSpec|
            t.headers == hs && (#[trigger] response_of_tokens(t)) is Some ==> {
                let m = response_of_tokens(t).unwrap();
                m.is_chunked && m.content_length == -1 && m.has_framing
            },
{
}

/// A 1xx, 204 or 304 response has no body, whatever length or coding
/// its headers declare.
pub proof fn lemma_no_body_statuses(t: ResponseTokensSpec)
    requires
        t.status < 200 || t.status == 204 || t.status == 304,
        response_of_tokens(t) is Some,
    ensures
        !response_of_tokens(t).unwrap().has_body,
{
}

/// An HTTP/1.0 response closes the connection unless a `connection`
/// header says otherwise; `connection: keep-alive` keeps it open on
/// any version.
pub proof fn lemma_connection_close_rules(t: ResponseTokensSpec)
    requires
        response_of_tokens(t) is Some,
    ensures
        t.version_minor == 0 && connection_value(t.headers) is None ==> response_of_tokens(
            t,
        ).unwrap().should_close,
        connection_value(t.headers) is Some && eq_ignore_case(
            connection_value(t.headers).unwrap(),
            keep_alive_value(),
        ) ==> !response_of_tokens(t).unwrap().should_close,
        connection_value(t.headers) is Some && eq_ignore_case(
            connection_value(t.headers).unwrap(),
            close_value(),
        ) ==> response_of_tokens(t).unwrap().should_close,
{
    match connection_value(t.headers) {
        Some(v) => {
            if eq_ignore_case(v, keep_alive_value()) {
                assert(v.len() == 10);
                assert(!eq_ignore_case(v, close_value()));
            }
        },
        None => {},
    }
}

} // verus!
