//! The render server's routing and payload decisions: which handler a
//! request goes to, what a render payload decodes to, and which response
//! each failure gets.

use vstd::prelude::*;

use crate::format::ImageFormat;
use crate::html::elements::chars_are;
use crate::http::{Request, RequestError};
use crate::text::{chars_of, string_from, utf8_string};
use vstd::string::StringSliceAdditionalSpecFns;
use vstd::utf8::{decode_utf8, valid_utf8};
use base64::Engine;

verus! {

/// The largest render payload accepted, once decoded.
pub const MAX_DECODED_SIZE: usize = 64 * 1024;

/// The largest request read, request line and headers together.
pub const MAX_REQUEST_SIZE: usize = 96 * 1024;

/// Where a request goes.
#[derive(Debug, PartialEq, Eq)]
pub enum Route {
    /// Anything but `GET`.
    MethodNotAllowed,
    /// `/presets`: the list of connector presets.
    Presets,
    /// `/r/PAYLOAD`: a render of the payload.
    Render(String),
    /// Anything else: a static asset, by its path without a trailing `/`.
    Static(String),
}

/// The route of a request with method `method` and path `path`.
pub open spec fn route_of(method: Seq<char>, path: Seq<char>) -> (Seq<char>, int) {
    if method != "GET"@ {
        (Seq::empty(), 0)
    } else if path == "/presets"@ {
        (Seq::empty(), 1)
    } else if path.len() >= 3 && path.take(3) == "/r/"@ {
        (path.skip(3), 2)
    } else if path.len() > 1 && path.last() == '/' {
        (path.drop_last(), 3)
    } else {
        (path, 3)
    }
}

/// Picks the handler for `request`.
pub fn route(request: &Request) -> (r: Route)
    ensures
        ({
            let (arg, kind) = route_of(request.method@, request.path@);
            &&& kind == 0 ==> r == Route::MethodNotAllowed
            &&& kind == 1 ==> r == Route::Presets
            &&& kind == 2 ==> (r matches Route::Render(p) && p@ == arg)
            &&& kind == 3 ==> (r matches Route::Static(p) && p@ == arg)
        }),
        (r == Route::Presets) <==> (request.method@ == "GET"@ && request.path@ == "/presets"@),
{
    proof {
        reveal_strlit("/r/");
    }
    let method = chars_of(request.method.as_str());
    if !chars_are(&method, "GET") {
        return Route::MethodNotAllowed;
    }
    let path = chars_of(request.path.as_str());
    if chars_are(&path, "/presets") {
        return Route::Presets;
    }
    if path.len() >= 3 && path[0] == '/' && path[1] == 'r' && path[2] == '/' {
        let mut rest: Vec<char> = Vec::new();
        let mut i: usize = 3;
        while i < path.len()
            invariant
                3 <= i <= path.len(),
                rest@ == path@.subrange(3, i as int),
            decreases path.len() - i,
        {
            rest.push(path[i]);
            i += 1;
            assert(rest@ =~= path@.subrange(3, i as int));
        }
        assert(path@.take(3) =~= "/r/"@);
        assert(rest@ =~= path@.skip(3));
        return Route::Render(string_from(&rest));
    }
    proof {
        if path@.len() >= 3 {
            assert(path@.take(3) != "/r/"@ || (path@[0] == '/' && path@[1] == 'r' && path@[2] == '/')) by {
                if path@.take(3) == "/r/"@ {
                    assert(path@.take(3)[0] == '/');
                    assert(path@.take(3)[1] == 'r');
                    assert(path@.take(3)[2] == '/');
                }
            }
        }
    }
    if path.len() > 1 && path[path.len() - 1] == '/' {
        let mut trimmed = path;
        trimmed.pop();
        return Route::Static(string_from(&trimmed));
    }
    Route::Static(string_from(&path))
}

/// The status, reason and body answering a request that could not be read.
pub fn request_error_response(e: RequestError) -> (r: (u16, &'static str, &'static str))
    ensures
        e == RequestError::TooLarge ==> r.0 == 413 && r.1@ == "Payload Too Large"@ && r.2@
            == "request too large"@,
        e == RequestError::TimedOut ==> r.0 == 408 && r.1@ == "Request Timeout"@ && r.2@
            == "request took too long to send"@,
        (e == RequestError::ConnectionClosed || e == RequestError::Malformed) ==> r.0 == 400
            && r.1@ == "Bad Request"@ && r.2@ == "malformed request"@,
{
    match e {
        RequestError::TooLarge => (413, "Payload Too Large", "request too large"),
        RequestError::TimedOut => (408, "Request Timeout", "request took too long to send"),
        _ => (400, "Bad Request", "malformed request"),
    }
}

/// The format a render payload asks for by its suffix, and the payload
/// without it.
pub fn split_format(payload: &str) -> (r: (ImageFormat, String))
    ensures
        ({
            let p = payload@;
            &&& p.len() >= 5 && p.skip(p.len() - 5) == ".webp"@ ==> r.0 == ImageFormat::Webp && r.1@
                == p.take(p.len() - 5)
            &&& !(p.len() >= 5 && p.skip(p.len() - 5) == ".webp"@) && p.len() >= 4 && p.skip(
                p.len() - 4,
            ) == ".png"@ ==> r.0 == ImageFormat::Png && r.1@ == p.take(p.len() - 4)
            &&& !(p.len() >= 5 && p.skip(p.len() - 5) == ".webp"@) && !(p.len() >= 4 && p.skip(
                p.len() - 4,
            ) == ".png"@) ==> r.0 == ImageFormat::DEFAULT && r.1@ == p
        }),
{
    proof {
        reveal_strlit(".webp");
        reveal_strlit(".png");
    }
    let cs = chars_of(payload);
    let n = cs.len();
    let webp = chars_of(".webp");
    let png = chars_of(".png");
    if ends_with(&cs, &webp) {
        return (ImageFormat::Webp, prefix_string(&cs, n - 5, Ghost(payload@)));
    }
    if ends_with(&cs, &png) {
        return (ImageFormat::Png, prefix_string(&cs, n - 4, Ghost(payload@)));
    }
    (ImageFormat::DEFAULT, string_from(&cs))
}

fn ends_with(s: &Vec<char>, suffix: &Vec<char>) -> (r: bool)
    ensures
        r == (s@.len() >= suffix@.len() && s@.skip(s@.len() - suffix@.len()) == suffix@),
{
    if s.len() < suffix.len() {
        return false;
    }
    let off = s.len() - suffix.len();
    let mut i: usize = 0;
    while i < suffix.len()
        invariant
            off + suffix.len() == s.len(),
            i <= suffix.len(),
            forall|j: int| 0 <= j < i ==> s@[off + j] == suffix@[j],
        decreases suffix.len() - i,
    {
        if s[off + i] != suffix[i] {
            assert(s@.skip(off as int)[i as int] != suffix@[i as int]);
            return false;
        }
        i += 1;
    }
    assert(s@.skip(off as int) =~= suffix@);
    true
}

fn prefix_string(s: &Vec<char>, n: usize, Ghost(p): Ghost<Seq<char>>) -> (r: String)
    requires
        n <= s.len(),
        s@ == p,
    ensures
        r@ == p.take(n as int),
{
    let mut v: Vec<char> = Vec::new();
    let mut i: usize = 0;
    while i < n
        invariant
            i <= n <= s.len(),
            v@ == s@.take(i as int),
        decreases n - i,
    {
        v.push(s[i]);
        i += 1;
        assert(v@ =~= s@.take(i as int));
    }
    string_from(&v)
}

/// Why a render payload could not be decoded.
#[derive(Debug, Clone, Copy, PartialEq, Eq, Structural)]
pub enum PayloadError {
    InvalidBase64,
    TooLarge,
    NotUtf8,
}

impl PayloadError {
    /// The status, reason and body answering the request.
    pub fn response(&self) -> (r: (u16, &'static str, &'static str))
        ensures
            *self == PayloadError::InvalidBase64 ==> r.0 == 400 && r.1@ == "Bad Request"@ && r.2@
                == "invalid base64url payload"@,
            *self == PayloadError::TooLarge ==> r.0 == 413 && r.1@ == "Payload Too Large"@ && r.2@
                == "decoded payload too large"@,
            *self == PayloadError::NotUtf8 ==> r.0 == 400 && r.1@ == "Bad Request"@ && r.2@
                == "payload is not valid UTF-8"@,
    {
        match self {
            PayloadError::InvalidBase64 => (400, "Bad Request", "invalid base64url payload"),
            PayloadError::TooLarge => (413, "Payload Too Large", "decoded payload too large"),
            PayloadError::NotUtf8 => (400, "Bad Request", "payload is not valid UTF-8"),
        }
    }
}

/// What the URL-safe, unpadded base64 decoding of `input` gives (`None`
/// when it is not valid base64).
pub uninterp spec fn base64_url_decoded(input: Seq<u8>) -> Option<Seq<u8>>;

/// `base64::engine::general_purpose::URL_SAFE_NO_PAD.decode`: the bytes
/// `input` encodes, or `None` when it is not URL-safe unpadded base64.
/// What the decoding is stays named, not stated.
#[verifier::external_body]
fn base64_url_decode(input: &[u8]) -> (r: Option<Vec<u8>>)
    ensures
        match r {
            Some(v) => base64_url_decoded(input@) == Some(v@),
            None => base64_url_decoded(input@) is None,
        },
{
    base64::engine::general_purpose::URL_SAFE_NO_PAD.decode(input).ok()
}

/// What a decoded payload gives: an error for invalid base64, for more
/// than `MAX_DECODED_SIZE` bytes, or for bytes that are not UTF-8; else
/// the text.
pub open spec fn payload_text(decoded: Option<Seq<u8>>) -> Result<Seq<char>, PayloadError> {
    match decoded {
        None => Err(PayloadError::InvalidBase64),
        Some(bytes) => if bytes.len() > MAX_DECODED_SIZE {
            Err(PayloadError::TooLarge)
        } else if !valid_utf8(bytes) {
            Err(PayloadError::NotUtf8)
        } else {
            Ok(decode_utf8(bytes))
        },
    }
}

/// The text of a payload whose base64 decoding gave `decoded`.
pub fn checked_payload(decoded: Option<Vec<u8>>) -> (r: Result<String, PayloadError>)
    ensures
        match payload_text(
            match decoded {
                Some(v) => Some(v@),
                None => None,
            },
        ) {
            Ok(t) => r matches Ok(s) && s@ == t,
            Err(e) => r == Err::<String, PayloadError>(e),
        },
{
    match decoded {
        None => Err(PayloadError::InvalidBase64),
        Some(bytes) => {
            if bytes.len() > MAX_DECODED_SIZE {
                return Err(PayloadError::TooLarge);
            }
            match utf8_string(bytes) {
                Some(s) => Ok(s),
                None => Err(PayloadError::NotUtf8),
            }
        },
    }
}

/// Decodes a render payload: URL-safe unpadded base64 of at most
/// `MAX_DECODED_SIZE` bytes of UTF-8 HTML.
pub fn decode_payload(payload: &str) -> (r: Result<String, PayloadError>)
    ensures
        match payload_text(base64_url_decoded(payload.spec_bytes())) {
            Ok(t) => r matches Ok(s) && s@ == t,
            Err(e) => r == Err::<String, PayloadError>(e),
        },
{
    let decoded = base64_url_decode(payload.as_bytes());
    checked_payload(decoded)
}

/// The largest width, in pixels, a render may come out at.
pub const MAX_RENDER_WIDTH: u32 = 2000;

/// The status and reason answering a failed render: 503 when it failed
/// because the memory budget had no room (`at_capacity`), else 422.
pub fn render_error_status(at_capacity: bool) -> (r: (u16, &'static str))
    ensures
        at_capacity ==> r.0 == 503 && r.1@ == "Service Unavailable"@,
        !at_capacity ==> r.0 == 422 && r.1@ == "Unprocessable Entity"@,
{
    if at_capacity {
        (503, "Service Unavailable")
    } else {
        (422, "Unprocessable Entity")
    }
}

/// The static asset served at `path`: its content type and its file under
/// the site's `routes` directory.
pub open spec fn static_asset_of(path: Seq<char>) -> Option<(Seq<char>, Seq<char>)> {
    if path == "/"@ {
        Some(("text/html; charset=utf-8"@, "index.html"@))
    } else if path == "/style.css"@ {
        Some(("text/css; charset=utf-8"@, "style.css"@))
    } else if path == "/favicon.svg"@ {
        Some(("image/svg+xml"@, "favicon.svg"@))
    } else if path == "/assets/theme.css"@ {
        Some(("text/css; charset=utf-8"@, "assets/theme.css"@))
    } else if path == "/assets/theme.js"@ {
        Some(("text/javascript; charset=utf-8"@, "assets/theme.js"@))
    } else if path == "/assets/geist-sans.woff2"@ {
        Some(("font/woff2"@, "assets/geist-sans.woff2"@))
    } else if path == "/assets/geist-mono.woff2"@ {
        Some(("font/woff2"@, "assets/geist-mono.woff2"@))
    } else if path == "/connectors"@ {
        Some(("text/html; charset=utf-8"@, "connectors/index.html"@))
    } else if path == "/connectors/style.css"@ {
        Some(("text/css; charset=utf-8"@, "connectors/style.css"@))
    } else if path == "/connectors/script.js"@ {
        Some(("text/javascript; charset=utf-8"@, "connectors/script.js"@))
    } else if path == "/sandbox"@ {
        Some(("text/html; charset=utf-8"@, "sandbox/index.html"@))
    } else if path == "/sandbox/style.css"@ {
        Some(("text/css; charset=utf-8"@, "sandbox/style.css"@))
    } else if path == "/sandbox/script.js"@ {
        Some(("text/javascript; charset=utf-8"@, "sandbox/script.js"@))
    } else if path == "/sandbox/editor.js"@ {
        Some(("text/javascript; charset=utf-8"@, "sandbox/editor.js"@))
    } else {
        None
    }
}

/// The static asset served at `path` (a request path without its trailing
/// `/`): its content type and its file under the site's `routes`
/// directory, or `None` where there is none.
pub fn static_asset(path: &str) -> (r: Option<(&'static str, &'static str)>)
    ensures
        match r {
            Some((content_type, file)) => static_asset_of(path@) == Some((content_type@, file@)),
            None => static_asset_of(path@) is None,
        },
{
    let p = chars_of(path);
    if chars_are(&p, "/") {
        return Some(("text/html; charset=utf-8", "index.html"));
    }
    if chars_are(&p, "/style.css") {
        return Some(("text/css; charset=utf-8", "style.css"));
    }
    if chars_are(&p, "/favicon.svg") {
        return Some(("image/svg+xml", "favicon.svg"));
    }
    if chars_are(&p, "/assets/theme.css") {
        return Some(("text/css; charset=utf-8", "assets/theme.css"));
    }
    if chars_are(&p, "/assets/theme.js") {
        return Some(("text/javascript; charset=utf-8", "assets/theme.js"));
    }
    if chars_are(&p, "/assets/geist-sans.woff2") {
        return Some(("font/woff2", "assets/geist-sans.woff2"));
    }
    if chars_are(&p, "/assets/geist-mono.woff2") {
        return Some(("font/woff2", "assets/geist-mono.woff2"));
    }
    if chars_are(&p, "/connectors") {
        return Some(("text/html; charset=utf-8", "connectors/index.html"));
    }
    if chars_are(&p, "/connectors/style.css") {
        return Some(("text/css; charset=utf-8", "connectors/style.css"));
    }
    if chars_are(&p, "/connectors/script.js") {
        return Some(("text/javascript; charset=utf-8", "connectors/script.js"));
    }
    if chars_are(&p, "/sandbox") {
        return Some(("text/html; charset=utf-8", "sandbox/index.html"));
    }
    if chars_are(&p, "/sandbox/style.css") {
        return Some(("text/css; charset=utf-8", "sandbox/style.css"));
    }
    if chars_are(&p, "/sandbox/script.js") {
        return Some(("text/javascript; charset=utf-8", "sandbox/script.js"));
    }
    if chars_are(&p, "/sandbox/editor.js") {
        return Some(("text/javascript; charset=utf-8", "sandbox/editor.js"));
    }
    None
}

/// How a request is routed, read off its method and path: anything but
/// `GET` is refused; a `GET` of exactly `/presets` gets the presets and
/// nothing else does; a path under `/r/` is a render of what follows that
/// prefix; every other path is a static asset, named by the path with at
/// most one trailing `/` taken off.
pub proof fn law_route_cases(method: Seq<char>, path: Seq<char>)
    ensures
        (route_of(method, path).1 == 0) <==> method != "GET"@,
        (route_of(method, path).1 == 1) <==> (method == "GET"@ && path == "/presets"@),
        route_of(method, path).1 == 2 ==> method == "GET"@ && path == "/r/"@ + route_of(method, path).0,
        route_of(method, path).1 == 3 ==> {
            &&& method == "GET"@
            &&& path != "/presets"@
            &&& !(path.len() >= 3 && path.take(3) == "/r/"@)
            &&& (path.len() > 1 && path.last() == '/') ==> path == route_of(method, path).0.push('/')
            &&& !(path.len() > 1 && path.last() == '/') ==> path == route_of(method, path).0
        },
        0 <= route_of(method, path).1 <= 3,
{
    if method == "GET"@ && path != "/presets"@ {
        if path.len() >= 3 && path.take(3) == "/r/"@ {
            assert(path =~= path.take(3) + path.skip(3));
        } else if path.len() > 1 && path.last() == '/' {
            assert(path =~= path.drop_last().push('/'));
        }
    }
}

} // verus!
