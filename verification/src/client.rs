//! What the HTTP handler decides, apart from the HTTP itself: where each
//! surface lives, how a path segment is escaped, how the envelopes and the
//! error bodies read, and when paging stops.

use vstd::prelude::*;
use vstd::string::StringSliceAdditionalSpecFns;
use crate::config::{host_of, normalize_host, HostError, Mode, Profile, ProfileError};
use crate::json::{jget, jtext, Json, JsonV, member};
use crate::registry::Surface;
use crate::text::{
    all_ascii, chars_of, decimal, decimal_string, find_chars, find_from, lower_all, parse_u64,
    parsed_unsigned, string_of, strip_trailing, strip_trailing_chars, to_lowercase,
    unicode_lower,
};

verus! {

/// Default page size when walking every page.
pub const PAGE_SIZE: u32 = 200;

/// A byte that a path segment may carry as it is.
pub open spec fn unreserved(b: u8) -> bool {
    (65 <= b <= 90) || (97 <= b <= 122) || (48 <= b <= 57) || b == 45 || b == 95 || b == 46
        || b == 126
}

/// An uppercase hexadecimal digit, for `d < 16`.
pub open spec fn hex_digit(d: u8) -> char {
    if d < 10 {
        (48 + d) as char
    } else {
        (55 + d) as char
    }
}

/// One byte of a segment, escaped.
pub open spec fn escaped_byte(b: u8) -> Seq<char> {
    if unreserved(b) {
        seq![b as char]
    } else {
        seq!['%', hex_digit(b / 16), hex_digit(b % 16)]
    }
}

/// A run of bytes, escaped.
pub open spec fn escaped(bytes: Seq<u8>) -> Seq<char>
    decreases bytes.len(),
{
    if bytes.len() == 0 {
        Seq::empty()
    } else {
        escaped(bytes.drop_last()) + escaped_byte(bytes.last())
    }
}

/// The value of an uppercase hexadecimal digit (zero for anything else).
pub open spec fn hex_value(c: char) -> int {
    if '0' <= c <= '9' {
        c as int - 48
    } else if 'A' <= c <= 'F' {
        c as int - 55
    } else {
        0
    }
}

/// Percent-decoding: each `%` and the two hex digits after it stand for one
/// byte, any other character for itself.
pub open spec fn percent_decoded(s: Seq<char>) -> Seq<u8>
    decreases s.len(),
{
    if s.len() == 0 {
        Seq::empty()
    } else if s[0] == '%' && s.len() >= 3 {
        seq![(hex_value(s[1]) * 16 + hex_value(s[2])) as u8] + percent_decoded(s.skip(3))
    } else {
        seq![s[0] as u8] + percent_decoded(s.drop_first())
    }
}

proof fn lemma_escaped_front(bytes: Seq<u8>)
    requires
        bytes.len() > 0,
    ensures
        escaped(bytes) == escaped_byte(bytes[0]) + escaped(bytes.drop_first()),
    decreases bytes.len(),
{
    if bytes.len() == 1 {
        assert(bytes.drop_last() =~= Seq::<u8>::empty());
        assert(bytes.drop_first() =~= Seq::<u8>::empty());
        assert(escaped(bytes) =~= escaped_byte(bytes[0]) + escaped(bytes.drop_first()));
    } else {
        lemma_escaped_front(bytes.drop_last());
        assert(bytes.drop_last().drop_first() =~= bytes.drop_first().drop_last());
        assert(bytes.drop_first().last() == bytes.last());
        assert(bytes.drop_last()[0] == bytes[0]);
        assert(escaped(bytes) =~= escaped_byte(bytes[0]) + escaped(bytes.drop_first()));
    }
}

proof fn lemma_decode_unit(b: u8, rest: Seq<char>)
    ensures
        percent_decoded(escaped_byte(b) + rest) == seq![b] + percent_decoded(rest),
{
    let e = escaped_byte(b);
    let s = e + rest;
    if unreserved(b) {
        assert(s[0] == b as char);
        assert((b as char) as u8 == b);
        assert(s.drop_first() =~= rest);
        assert(s[0] != '%');
    } else {
        assert(s[0] == '%');
        assert(s.skip(3) =~= rest);
        let hi = b / 16;
        let lo = b % 16;
        assert(hex_value(hex_digit(hi)) == hi);
        assert(hex_value(hex_digit(lo)) == lo);
        assert(hi * 16 + lo == b);
    }
}

/// Percent-decoding an escaped segment gives its bytes back: escaping loses
/// nothing.
pub proof fn law_escaping_decodes_back(bytes: Seq<u8>)
    ensures
        percent_decoded(escaped(bytes)) == bytes,
    decreases bytes.len(),
{
    if bytes.len() == 0 {
        assert(percent_decoded(escaped(bytes)) =~= bytes);
    } else {
        lemma_escaped_front(bytes);
        lemma_decode_unit(bytes[0], escaped(bytes.drop_first()));
        law_escaping_decodes_back(bytes.drop_first());
        assert(seq![bytes[0]] + bytes.drop_first() =~= bytes);
    }
}

/// Escaping leaves a segment of unreserved bytes as it is, and marks any
/// other byte with a `%`.
pub proof fn law_escaping_keeps_only_unreserved(bytes: Seq<u8>)
    ensures
        (forall|i: int| 0 <= i < bytes.len() ==> unreserved(#[trigger] bytes[i])) ==> escaped(bytes)
            == bytes.map_values(|b: u8| b as char),
        (exists|i: int| 0 <= i < bytes.len() && !unreserved(#[trigger] bytes[i])) ==> escaped(
            bytes,
        ).contains('%'),
    decreases bytes.len(),
{
    if bytes.len() > 0 {
        let p = bytes.drop_last();
        law_escaping_keeps_only_unreserved(p);
        let e = escaped(p);
        let u = escaped_byte(bytes.last());
        if forall|i: int| 0 <= i < bytes.len() ==> unreserved(#[trigger] bytes[i]) {
            assert forall|i: int| 0 <= i < p.len() implies unreserved(#[trigger] p[i]) by {
                assert(p[i] == bytes[i]);
            }
            assert(unreserved(bytes[bytes.len() - 1]));
            assert(escaped(bytes) =~= bytes.map_values(|b: u8| b as char));
        }
        if exists|i: int| 0 <= i < bytes.len() && !unreserved(#[trigger] bytes[i]) {
            let i = choose|i: int| 0 <= i < bytes.len() && !unreserved(#[trigger] bytes[i]);
            if i < p.len() {
                assert(!unreserved(p[i]));
                let j = choose|j: int| 0 <= j < e.len() && e[j] == '%';
                assert((e + u)[j] == '%');
            } else {
                assert((e + u)[e.len() as int] == '%');
            }
        }
    } else {
        assert(escaped(bytes) =~= bytes.map_values(|b: u8| b as char));
    }
}

/// A character an escaped segment may hold: an ASCII letter or digit, one of
/// `- _ . ~`, or the `%` that opens an escape.
pub open spec fn escape_output_char(c: char) -> bool {
    ('0' <= c <= '9') || ('A' <= c <= 'Z') || ('a' <= c <= 'z') || c == '-' || c == '_' || c
        == '.' || c == '~' || c == '%'
}

/// An uppercase hexadecimal digit.
pub open spec fn upper_hex_char(c: char) -> bool {
    ('0' <= c <= '9') || ('A' <= c <= 'F')
}

/// Whether text has the shape of an escaped segment: only the characters
/// escaping writes, and every `%` followed by two uppercase hex digits.
pub open spec fn escape_shaped(e: Seq<char>) -> bool {
    &&& forall|i: int| 0 <= i < e.len() ==> escape_output_char(#[trigger] e[i])
    &&& forall|i: int|
        0 <= i < e.len() && #[trigger] e[i] == '%' ==> i + 2 < e.len() && upper_hex_char(e[i + 1])
            && upper_hex_char(e[i + 2])
}

/// Escaped text has the shape of an escaped segment.
pub proof fn law_escaping_writes_only_unreserved_and_escapes(bytes: Seq<u8>)
    ensures
        escape_shaped(escaped(bytes)),
    decreases bytes.len(),
{
    if bytes.len() > 0 {
        let p = bytes.drop_last();
        law_escaping_writes_only_unreserved_and_escapes(p);
        let e = escaped(p);
        let b = bytes.last();
        let u = escaped_byte(b);
        let t = e + u;
        assert(escaped(bytes) == t);
        if !unreserved(b) {
            assert(upper_hex_char(hex_digit(b / 16)));
            assert(upper_hex_char(hex_digit(b % 16)));
        }
        assert forall|i: int| 0 <= i < t.len() implies escape_output_char(#[trigger] t[i]) by {
            if i < e.len() {
                assert(t[i] == e[i]);
            } else {
                assert(t[i] == u[i - e.len()]);
            }
        }
        assert forall|i: int| 0 <= i < t.len() && #[trigger] t[i] == '%' implies i + 2 < t.len()
            && upper_hex_char(t[i + 1]) && upper_hex_char(t[i + 2]) by {
            if i < e.len() {
                assert(t[i] == e[i]);
                assert(t[i + 1] == e[i + 1]);
                assert(t[i + 2] == e[i + 2]);
            } else {
                assert(t[i] == u[i - e.len()]);
                assert(i == e.len());
                assert(!unreserved(b));
            }
        }
    }
}

/// How many bytes escaping has to write as `%XY`.
pub open spec fn reserved_count(bytes: Seq<u8>) -> nat
    decreases bytes.len(),
{
    if bytes.len() == 0 {
        0
    } else {
        reserved_count(bytes.drop_last()) + if unreserved(bytes.last()) {
            0nat
        } else {
            1nat
        }
    }
}

proof fn lemma_escaped_len(bytes: Seq<u8>)
    ensures
        escaped(bytes).len() == bytes.len() + 2 * reserved_count(bytes),
    decreases bytes.len(),
{
    if bytes.len() > 0 {
        lemma_escaped_len(bytes.drop_last());
    }
}

proof fn lemma_no_reserved(bytes: Seq<u8>)
    requires
        reserved_count(bytes) == 0,
    ensures
        forall|i: int| 0 <= i < bytes.len() ==> unreserved(#[trigger] bytes[i]),
    decreases bytes.len(),
{
    if bytes.len() > 0 {
        lemma_no_reserved(bytes.drop_last());
        assert forall|i: int| 0 <= i < bytes.len() implies unreserved(#[trigger] bytes[i]) by {
            if i < bytes.len() - 1 {
                assert(bytes[i] == bytes.drop_last()[i]);
            }
        }
    }
}

/// A character a path segment carries as it is.
pub open spec fn unreserved_char(c: char) -> bool {
    ('0' <= c <= '9') || ('A' <= c <= 'Z') || ('a' <= c <= 'z') || c == '-' || c == '_' || c == '.'
        || c == '~'
}

/// Escaping leaves a segment unchanged exactly when every character in it is
/// unreserved.
pub proof fn law_escaping_changes_exactly_reserved(segment: &str)
    ensures
        escaped(segment.spec_bytes()) == segment@ <==> forall|i: int|
            0 <= i < segment@.len() ==> unreserved_char(#[trigger] segment@[i]),
{
    let s = segment@;
    let bytes = segment.spec_bytes();
    if forall|i: int| 0 <= i < s.len() ==> unreserved_char(#[trigger] s[i]) {
        assert(vstd::utf8::is_ascii_chars(s)) by {
            assert forall|i: int| 0 <= i < s.len() implies '\0' <= #[trigger] s[i] <= '\u{7f}' by {
                assert(unreserved_char(s[i]));
            }
        }
        vstd::utf8::is_ascii_chars_encode_utf8(s);
        assert forall|i: int| 0 <= i < bytes.len() implies unreserved(#[trigger] bytes[i]) by {
            assert(bytes[i] == s[i] as u8);
            assert(unreserved_char(s[i]));
        }
        law_escaping_keeps_only_unreserved(bytes);
        assert forall|i: int| 0 <= i < s.len() implies bytes.map_values(|b: u8| b as char)[i] == s[i] by {
            assert(bytes[i] == s[i] as u8);
            assert(unreserved_char(s[i]));
        }
        assert(bytes.map_values(|b: u8| b as char) =~= s);
    }
    if escaped(bytes) == s {
        law_escaping_writes_only_unreserved_and_escapes(bytes);
        assert(vstd::utf8::is_ascii_chars(s)) by {
            assert forall|i: int| 0 <= i < s.len() implies '\0' <= #[trigger] s[i] <= '\u{7f}' by {
                assert(escaped(bytes)[i] == s[i]);
                assert(escape_output_char(s[i]));
            }
        }
        vstd::utf8::is_ascii_chars_encode_utf8(s);
        lemma_escaped_len(bytes);
        lemma_no_reserved(bytes);
        assert forall|i: int| 0 <= i < s.len() implies unreserved_char(#[trigger] s[i]) by {
            assert(bytes[i] == s[i] as u8);
            assert(unreserved(bytes[i]));
            vstd::utf8::is_ascii_chars_nat_bound(s);
        }
    }
}

fn hex_char(d: u8) -> (c: char)
    requires
        d < 16,
    ensures
        c == hex_digit(d),
{
    if d < 10 {
        (48 + d) as char
    } else {
        (55 + d) as char
    }
}

/// Percent-escape one path segment, byte by byte of its UTF-8 encoding.
pub fn esc(segment: &str) -> (r: String)
    ensures
        r@ == escaped(segment.spec_bytes()),
{
    let bytes = segment.as_bytes();
    let mut out: Vec<char> = Vec::new();
    let mut i: usize = 0;
    while i < bytes.len()
        invariant
            i <= bytes@.len(),
            bytes@ == segment.spec_bytes(),
            out@ == escaped(bytes@.take(i as int)),
        decreases bytes@.len() - i,
    {
        let b = bytes[i];
        let ghost before = out@;
        if (65 <= b && b <= 90) || (97 <= b && b <= 122) || (48 <= b && b <= 57) || b == 45 || b
            == 95 || b == 46 || b == 126 {
            out.push(b as char);
        } else {
            out.push('%');
            out.push(hex_char(b / 16));
            out.push(hex_char(b % 16));
        }
        assert(bytes@.take(i + 1).drop_last() =~= bytes@.take(i as int));
        assert(out@ =~= before + escaped_byte(b));
        i += 1;
    }
    assert(bytes@.take(bytes@.len() as int) =~= bytes@);
    string_of(&out)
}

/// The body of a single-object response, with the cloud's `{"data": ...}`
/// envelope removed when there is one.
pub open spec fn unwrapped(v: JsonV) -> JsonV {
    match v {
        JsonV::Obj(m) => if member(m, "data"@) is Some && m.len() <= 2 {
            member(m, "data"@).unwrap()
        } else {
            v
        },
        _ => v,
    }
}

/// Return the inner `data` of a single-object response, or the body as-is.
pub fn unwrap_data(v: Json) -> (r: Json)
    ensures
        r@ == unwrapped(v@),
{
    let unwrap = match &v {
        Json::Obj(m) => m.len() <= 2,
        _ => false,
    };
    proof {
        if let Json::Obj(ref m) = v {
            crate::json::lemma_members_view(m@);
        }
    }
    if unwrap {
        match v.get("data") {
            Some(d) => {
                return d.deep_clone();
            },
            None => {},
        }
    }
    v
}

/// A value as a list: arrays pass through, `null` is empty, anything else is
/// a list of one.
pub open spec fn listed(v: JsonV) -> Seq<JsonV> {
    match v {
        JsonV::Arr(a) => a,
        JsonV::Null => Seq::empty(),
        _ => seq![v],
    }
}

/// A JSON value as a vector: arrays pass through, `null` is empty.
pub fn array_of(v: &Json) -> (r: Vec<Json>)
    ensures
        Json::items_view(r@) == listed(v@),
{
    match v.deep_clone() {
        Json::Arr(a) => a,
        Json::Null => Vec::new(),
        other => {
            let mut out = Vec::new();
            out.push(other);
            proof {
                crate::json::lemma_items_view(out@);
                assert(Json::items_view(out@) =~= seq![v@]);
            }
            out
        },
    }
}

/// A refusal reported inside a legacy envelope; holds the console's message.
#[derive(Debug, PartialEq, Eq)]
pub struct LegacyRefusal {
    pub message: String,
}

/// What a legacy `{meta:{rc,msg},data:[...]}` envelope stands for.
pub open spec fn legacy_payload(v: JsonV) -> Result<JsonV, Seq<char>> {
    match jget(v, "meta"@) {
        None => Ok(v),
        Some(meta) => if jget(meta, "rc"@) == Some(JsonV::Str("error"@)) {
            Err(
                match jget(meta, "msg"@) {
                    Some(JsonV::Str(m)) => m,
                    _ => "unknown error"@,
                },
            )
        } else {
            Ok(
                match jget(v, "data"@) {
                    Some(d) => d,
                    None => JsonV::Null,
                },
            )
        },
    }
}

/// Check and strip the legacy envelope. The legacy API answers 200 with
/// `rc: "error"` for a refusal, so the status code alone would let a failure
/// through as an empty list.
pub fn unwrap_legacy(v: Json) -> (r: Result<Json, LegacyRefusal>)
    ensures
        match r {
            Ok(x) => legacy_payload(v@) == Ok::<JsonV, Seq<char>>(x@),
            Err(e) => legacy_payload(v@) == Err::<JsonV, Seq<char>>(e.message@),
        },
{
    let meta = match v.get("meta") {
        None => {
            return Ok(v);
        },
        Some(m) => m,
    };
    let refused = match meta.get("rc") {
        Some(Json::Str(s)) => crate::text::str_eq(s.as_str(), "error"),
        _ => false,
    };
    if refused {
        let message = match meta.get("msg") {
            Some(Json::Str(m)) => m.clone(),
            _ => String::from_str("unknown error"),
        };
        return Err(LegacyRefusal { message });
    }
    match v.get("data") {
        Some(d) => Ok(d.deep_clone()),
        None => Ok(Json::Null),
    }
}

/// A non-2xx response from either API.
#[derive(Debug)]
pub struct ApiError {
    pub status: u16,
    pub code: String,
    pub message: String,
    pub retry_after: Option<u64>,
}

/// The code an error body carries: `code`, or `statusName` when there is no
/// `code` at all.
pub open spec fn error_code(v: JsonV) -> Seq<char> {
    let found = match jget(v, "code"@) {
        Some(c) => Some(c),
        None => jget(v, "statusName"@),
    };
    match found {
        Some(JsonV::Str(s)) => s,
        _ => Seq::empty(),
    }
}

/// Turn an error response into a typed error. `body` is the body decoded as
/// text, `parsed` the body read as JSON when it is JSON.
pub fn parse_error(status: u16, body: &str, parsed: Option<&Json>, retry_after: Option<u64>) -> (r:
    ApiError)
    ensures
        r.status == status,
        r.retry_after == retry_after,
        match parsed {
            Some(v) => r.code@ == error_code(v@) && r.message@ == match jget(v@, "message"@) {
                Some(JsonV::Str(m)) => m,
                _ => crate::text::trim(body@),
            },
            None => r.code@.len() == 0 && r.message@ == crate::text::trim(body@),
        },
{
    let text = string_of(&crate::text::trim_str(body));
    match parsed {
        Some(v) => {
            let found = match v.get("code") {
                Some(c) => Some(c),
                None => v.get("statusName"),
            };
            let code = match found {
                Some(Json::Str(s)) => s.clone(),
                _ => String::new(),
            };
            let message = match v.get("message") {
                Some(Json::Str(m)) => m.clone(),
                _ => text,
            };
            ApiError { status, code, message, retry_after }
        },
        None => ApiError { status, code: String::new(), message: text, retry_after },
    }
}

/// How an API error reads.
pub open spec fn api_error_text(e: ApiError) -> Seq<char> {
    "API error "@ + decimal(e.status as nat) + (if e.code@.len() > 0 {
        " ["@ + e.code@ + "]"@
    } else {
        Seq::empty()
    }) + (if e.message@.len() > 0 {
        ": "@ + e.message@
    } else {
        Seq::empty()
    }) + (match e.retry_after {
        Some(ra) => " (retry after "@ + decimal(ra as nat) + "s)"@,
        None => Seq::empty(),
    }) + (if e.status == 401 || e.status == 403 {
        "\nhint: check the API key, and that it belongs to this console"@
    } else {
        Seq::empty()
    })
}

impl ApiError {
    /// The error as the user reads it.
    pub fn describe(&self) -> (r: String)
        ensures
            r@ == api_error_text(*self),
    {
        let mut out = String::from_str("API error ");
        out.append(decimal_string(self.status as u64).as_str());
        if !self.code.as_str().is_empty() {
            out.append(" [");
            out.append(self.code.as_str());
            out.append("]");
        }
        if !self.message.as_str().is_empty() {
            out.append(": ");
            out.append(self.message.as_str());
        }
        match self.retry_after {
            Some(ra) => {
                out.append(" (retry after ");
                out.append(decimal_string(ra).as_str());
                out.append("s)");
            },
            None => {},
        }
        if self.status == 401 || self.status == 403 {
            out.append("\nhint: check the API key, and that it belongs to this console");
        }
        assert(out@ =~= api_error_text(*self));
        out
    }
}

/// Cloud base URL, when no override is set.
pub open spec fn cloud_default() -> Seq<char> {
    "https://api.ui.com"@
}

/// Why no endpoint could be built from a profile.
#[derive(Debug, PartialEq, Eq)]
pub enum EndpointError {
    Profile(ProfileError),
}

/// Where one profile's requests go.
#[derive(Debug)]
pub struct Endpoints {
    /// Base URL of the documented surface.
    pub base: String,
    /// `https://<host>`, the root the other surfaces hang off. Empty in cloud
    /// mode, which has only one surface.
    pub root: String,
    pub mode: Mode,
}

/// The base URL of the documented surface for a profile.
pub open spec fn base_for(p: Profile, cloud_override: Option<Seq<char>>) -> Seq<char> {
    match p.mode {
        Mode::Local => "https://"@ + host_of(p.host@) + "/proxy/network/integration/v1"@,
        Mode::Cloud => strip_trailing(
            match cloud_override {
                Some(o) => if o.len() > 0 {
                    o
                } else {
                    cloud_default()
                },
                None => cloud_default(),
            },
            '/',
        ),
    }
}

/// The view of an optional string slice.
pub open spec fn opt_str(o: Option<&str>) -> Option<Seq<char>> {
    match o {
        Some(s) => Some(s@),
        None => None,
    }
}

impl Endpoints {
    /// The endpoints of a profile; `cloud_override` is the Site Manager URL
    /// set in the environment, if any.
    pub fn new(profile: &Profile, cloud_override: Option<&str>) -> (r: Result<
        Endpoints,
        EndpointError,
    >)
        ensures
            match r {
                Ok(e) => profile.validate_ok() && e.mode == profile.mode && e.base@ == base_for(
                    *profile,
                    opt_str(cloud_override),
                ) && e.root@ == match profile.mode {
                    Mode::Local => "https://"@ + host_of(profile.host@),
                    Mode::Cloud => Seq::empty(),
                },
                Err(EndpointError::Profile(_)) => !profile.validate_ok(),
            },
    {
        match profile.validate() {
            Ok(()) => {},
            Err(e) => {
                return Err(EndpointError::Profile(e));
            },
        }
        match profile.mode {
            Mode::Local => {
                let host = match normalize_host(profile.host.as_str()) {
                    Ok(h) => h,
                    Err(_) => {
                        return Err(EndpointError::Profile(ProfileError::MissingHost));
                    },
                };
                let mut root = String::from_str("https://");
                root.append(host.as_str());
                let mut base = root.clone();
                base.append("/proxy/network/integration/v1");
                Ok(Endpoints { base, root, mode: Mode::Local })
            },
            Mode::Cloud => {
                let chosen = match cloud_override {
                    Some(o) => if o.is_empty() {
                        chars_of("https://api.ui.com")
                    } else {
                        chars_of(o)
                    },
                    None => chars_of("https://api.ui.com"),
                };
                let base = string_of(&strip_trailing_chars(&chosen, '/'));
                Ok(Endpoints { base, root: String::new(), mode: Mode::Cloud })
            },
        }
    }

    /// Base URL of one surface. Only the documented one exists in cloud mode.
    pub fn surface_base(&self, surface: Surface) -> (r: Option<String>)
        ensures
            match r {
                Some(u) => (self.mode == Mode::Cloud ==> surface == Surface::Integration) && u@
                    == match surface {
                    Surface::Integration => self.base@,
                    Surface::Legacy => self.root@ + "/proxy/network/api"@,
                    Surface::V2 => self.root@ + "/proxy/network/v2/api"@,
                },
                None => self.mode == Mode::Cloud && surface != Surface::Integration,
            },
    {
        if self.mode == Mode::Cloud && surface != Surface::Integration {
            return None;
        }
        match surface {
            Surface::Integration => Some(self.base.clone()),
            Surface::Legacy => {
                let mut u = self.root.clone();
                u.append("/proxy/network/api");
                Some(u)
            },
            Surface::V2 => {
                let mut u = self.root.clone();
                u.append("/proxy/network/v2/api");
                Some(u)
            },
        }
    }
}

impl Profile {
    /// Whether [`Profile::validate`] accepts the profile.
    pub open spec fn validate_ok(&self) -> bool {
        &&& self.api_key@.len() > 0
        &&& self.mode == Mode::Local ==> (self.host@.len() > 0 && host_of(self.host@).len() > 0
            && forall|i: int|
            0 <= i < host_of(self.host@).len() ==> !crate::config::host_forbidden(
                #[trigger] host_of(self.host@)[i],
            ))
    }
}

/// What a list request learned from one page in offset paging.
pub struct OffsetPage {
    pub items: Vec<Json>,
    /// Where the next page starts, or `None` when the walk is over.
    pub next: Option<u32>,
}

/// The number a JSON value holds as an unsigned integer, if any.
pub open spec fn json_u64(v: Option<JsonV>) -> Option<nat> {
    match v {
        Some(JsonV::Int(n)) => if n >= 0 {
            Some(n as nat)
        } else {
            None
        },
        Some(JsonV::Num(t)) => parsed_unsigned(t, 10, u64::MAX as nat),
        _ => None,
    }
}

/// The page items of a list response: its `data`, as a list.
pub open spec fn page_items(page: JsonV) -> Seq<JsonV> {
    match jget(page, "data"@) {
        Some(d) => listed(d),
        None => Seq::empty(),
    }
}

pub(crate) fn as_u64(v: Option<&Json>) -> (r: Option<u64>)
    ensures
        match r {
            Some(n) => json_u64(
                match v {
                    Some(x) => Some(x@),
                    None => None,
                },
            ) == Some(n as nat),
            None => json_u64(
                match v {
                    Some(x) => Some(x@),
                    None => None,
                },
            ) is None,
        },
{
    match v {
        Some(Json::Int(n)) => if *n >= 0 {
            Some(*n as u64)
        } else {
            None
        },
        Some(Json::Num(t)) => parse_u64(t.as_str()),
        _ => None,
    }
}

/// Read one page of an offset walk that started at `at`. The walk stops when
/// a page size was asked for (one page only), when a page is empty, or once
/// `totalCount` is covered.
pub fn offset_page(page: &Json, limit_given: bool, at: u32) -> (r: OffsetPage)
    requires
        page_items(page@).len() + at <= u32::MAX,
    ensures
        Json::items_view(r.items@) == page_items(page@),
        ({
            let got = page_items(page@).len();
            let total = match json_u64(jget(page@, "totalCount"@)) {
                Some(t) => t,
                None => 0,
            };
            r.next == if limit_given || got == 0 || at + got >= total {
                None::<u32>
            } else {
                Some((at + got) as u32)
            }
        }),
{
    let items = match page.get("data") {
        Some(d) => array_of(d),
        None => Vec::new(),
    };
    proof {
        crate::json::lemma_items_view(items@);
    }
    let total = match as_u64(page.get("totalCount")) {
        Some(t) => t,
        None => 0,
    };
    let got = items.len() as u32;
    let next = if limit_given || got == 0 || (at as u64 + got as u64) >= total {
        None
    } else {
        Some(at + got)
    };
    OffsetPage { items, next }
}

/// What a list request learned from one page in cursor paging.
pub struct CursorPage {
    pub items: Vec<Json>,
    /// The token of the next page, or `None` when the walk is over.
    pub next: Option<String>,
}

/// Read one page of a cursor walk. The walk stops when a page size was asked
/// for, or when the page carries no `nextToken`.
pub fn cursor_page(page: &Json, limit_given: bool) -> (r: CursorPage)
    ensures
        Json::items_view(r.items@) == page_items(page@),
        match r.next {
            Some(t) => !limit_given && jget(page@, "nextToken"@) == Some(JsonV::Str(t@)) && t@.len()
                > 0,
            None => limit_given || !(jget(page@, "nextToken"@) matches Some(JsonV::Str(t)) && t.len()
                > 0),
        },
{
    let items = match page.get("data") {
        Some(d) => array_of(d),
        None => Vec::new(),
    };
    let next = match page.get("nextToken") {
        Some(Json::Str(t)) => if t.as_str().is_empty() || limit_given {
            None
        } else {
            Some(t.clone())
        },
        _ => None,
    };
    CursorPage { items, next }
}

/// The query of one page in offset paging.
pub fn offset_query(query: &Vec<(String, String)>, at: u32, page_size: u32) -> (r: Vec<
    (String, String),
>)
    ensures
        r@.len() == query@.len() + 2,
        forall|i: int| 0 <= i < query@.len() ==> #[trigger] r@[i] == query@[i],
        r@[query@.len() as int].0@ == "offset"@ && r@[query@.len() as int].1@ == decimal(
            at as nat,
        ),
        r@[query@.len() as int + 1].0@ == "limit"@ && r@[query@.len() as int + 1].1@ == decimal(
            page_size as nat,
        ),
{
    let mut q: Vec<(String, String)> = Vec::new();
    let mut i: usize = 0;
    while i < query.len()
        invariant
            i <= query.len(),
            q@.len() == i,
            forall|k: int| 0 <= k < i ==> #[trigger] q@[k] == query@[k],
        decreases query.len() - i,
    {
        q.push((query[i].0.clone(), query[i].1.clone()));
        i += 1;
    }
    q.push((String::from_str("offset"), decimal_string(at as u64)));
    q.push((String::from_str("limit"), decimal_string(page_size as u64)));
    q
}

/// The query of one page in cursor paging.
pub fn cursor_query(query: &Vec<(String, String)>, limit: Option<u32>, next: Option<&str>) -> (r:
    Vec<(String, String)>)
    ensures
        r@.len() == query@.len() + (if limit is Some {
            1int
        } else {
            0
        }) + (if next is Some {
            1int
        } else {
            0
        }),
        forall|i: int| 0 <= i < query@.len() ==> #[trigger] r@[i] == query@[i],
        match limit {
            Some(n) => r@[query@.len() as int].0@ == "pageSize"@ && r@[query@.len() as int].1@
                == decimal(n as nat),
            None => true,
        },
        match next {
            Some(t) => r@[r@.len() - 1].0@ == "nextToken"@ && r@[r@.len() - 1].1@ == t@,
            None => true,
        },
{
    let mut q: Vec<(String, String)> = Vec::new();
    let mut i: usize = 0;
    while i < query.len()
        invariant
            i <= query.len(),
            q@.len() == i,
            forall|k: int| 0 <= k < i ==> #[trigger] q@[k] == query@[k],
        decreases query.len() - i,
    {
        q.push((query[i].0.clone(), query[i].1.clone()));
        i += 1;
    }
    match limit {
        Some(n) => q.push((String::from_str("pageSize"), decimal_string(n as u64))),
        None => {},
    }
    match next {
        Some(t) => q.push((String::from_str("nextToken"), string_of(&chars_of(t)))),
        None => {},
    }
    q
}

/// The hint added to a failed connection.
pub open spec fn transport_hint_for(cause: Seq<char>, is_timeout: bool, is_connect: bool, mode: Mode) -> Option<Seq<char>> {
    let lower = unicode_lower(cause);
    if crate::text::contains_seq(lower, "certificate"@) || crate::text::contains_seq(lower, "unknownissuer"@)
        || crate::text::contains_seq(lower, "tls"@) {
        Some("hint: consoles serve a self-signed certificate; drop --secure, or pass --insecure"@)
    } else if is_timeout {
        Some("hint: raise --timeout"@)
    } else if is_connect && mode == Mode::Local {
        Some("hint: is the console reachable, and is it UniFi Network 9.x+ with the Integration API turned on?"@)
    } else {
        None
    }
}

fn contains_lit(v: &Vec<char>, lit: &str) -> (r: bool)
    ensures
        r == crate::text::contains_seq(v@, lit@),
{
    match find_chars(v, &chars_of(lit)) {
        Some(_) => true,
        None => false,
    }
}

/// What to add to a request that failed before any answer, given the error
/// chain flattened into one line.
pub fn transport_hint(cause: &str, is_timeout: bool, is_connect: bool, mode: Mode) -> (r: Option<&'static str>)
    ensures
        match r {
            Some(h) => transport_hint_for(cause@, is_timeout, is_connect, mode) == Some(h@),
            None => transport_hint_for(cause@, is_timeout, is_connect, mode) is None,
        },
{
    let lower = chars_of(to_lowercase(cause).as_str());
    if contains_lit(&lower, "certificate") || contains_lit(&lower, "unknownissuer") || contains_lit(&lower, "tls") {
        Some("hint: consoles serve a self-signed certificate; drop --secure, or pass --insecure")
    } else if is_timeout {
        Some("hint: raise --timeout")
    } else if is_connect && mode == Mode::Local {
        Some("hint: is the console reachable, and is it UniFi Network 9.x+ with the Integration API turned on?")
    } else {
        None
    }
}

} // verus!
