use vstd::prelude::*;
use vstd::string::StringExecFns;
use vstd::utf8::encode_utf8;
use crate::text::str_eq;
use crate::ipv4::{Ipv4Octets, ipv4_text, parse_ipv4, format_ipv4};
use crate::capture::{NewCapture, is_claim_of};

verus! {

/// Whether `urlencoding` leaves a byte as it is: ASCII letters, digits and `-._~`.
pub open spec fn url_safe_byte(b: u8) -> bool {
    (48 <= b <= 57) || (65 <= b <= 90) || (97 <= b <= 122) || b == 45 || b == 46 || b == 95 || b == 126
}

/// The upper-case hexadecimal digit of a number below 16.
pub open spec fn hex_digit(d: u8) -> char {
    if d < 10 {
        (d + 48) as char
    } else {
        (d + 55) as char
    }
}

/// The percent-encoding of bytes that `urlencoding::encode` writes: safe
/// bytes as they are, every other byte as `%` and two upper-case hex digits.
pub open spec fn percent_encoded(bytes: Seq<u8>) -> Seq<char>
    decreases bytes.len(),
{
    if bytes.len() == 0 {
        Seq::empty()
    } else {
        let b = bytes.last();
        let p = percent_encoded(bytes.drop_last());
        if url_safe_byte(b) {
            p.push(b as char)
        } else {
            p + seq!['%', hex_digit(b / 16), hex_digit(b % 16)]
        }
    }
}

/// Calls `urlencoding::encode`, which percent-encodes the UTF-8 bytes of the
/// text: every byte but ASCII letters, digits and `-._~` becomes `%XX` with
/// upper-case hex digits.
#[verifier::external_body]
fn url_encode(s: &str) -> (r: String)
    ensures
        r@ == percent_encoded(encode_utf8(s@)),
{
    urlencoding::encode(s).into_owned()
}

/// The nicknames whose claims are turned away. None are at present.
pub open spec fn spec_calm_down_please() -> Seq<Seq<char>> {
    Seq::empty()
}

/// The nicknames whose claims are turned away.
fn calm_down_please() -> (names: Vec<&'static str>)
    ensures
        names@.map_values(|n: &str| n@) == spec_calm_down_please(),
{
    let names: Vec<&'static str> = Vec::new();
    assert(names@.map_values(|n: &str| n@) =~= spec_calm_down_please());
    names
}

/// Whether claims for `nick` are turned away.
pub open spec fn calm_down_listed(nick: Seq<char>) -> bool {
    spec_calm_down_please().contains(nick)
}

/// No nickname is on the calm-down list: every claim is taken.
pub proof fn law_no_nickname_turned_away(nick: Seq<char>)
    ensures
        !calm_down_listed(nick),
{
}

/// The page that confirms a claim, given the address text, the nickname and
/// the nickname's URL encoding. The nickname goes into it as it is.
pub open spec fn claim_page(ip: Seq<char>, nick: Seq<char>, unick: Seq<char>) -> Seq<char> {
    "<!doctype html>\n<title>The IP "@ + ip + " was claimed for "@ + nick
        + ".</title>\n<meta name=\"viewport\" content=\"width=device-width, initial-scale=1\">\n<link rel=\"stylesheet\" href=\"/cti.css\">\n<p>The IP "@
        + ip + " was claimed for <a href=\"/users.html?name="@ + unick + "\">"@ + nick
        + "</a>.\n<p><a href=\"/\">Back to homepage</a>\n"@
}

/// The page that confirms that `ip` was claimed for `nick`, with a link to
/// the nickname's ranking page.
pub fn claim_page_html(ip: Ipv4Octets, nick: &str) -> (page: String)
    ensures
        page@ == claim_page(ipv4_text(ip), nick@, percent_encoded(encode_utf8(nick@))),
{
    let ip_text = format_ipv4(ip);
    let unick = url_encode(nick);
    let mut page = String::from_str("<!doctype html>\n<title>The IP ");
    page.append(ip_text.as_str());
    page.append(" was claimed for ");
    page.append(nick);
    page.append(
        ".</title>\n<meta name=\"viewport\" content=\"width=device-width, initial-scale=1\">\n<link rel=\"stylesheet\" href=\"/cti.css\">\n<p>The IP ",
    );
    page.append(ip_text.as_str());
    page.append(" was claimed for <a href=\"/users.html?name=");
    page.append(unick.as_str());
    page.append("\">");
    page.append(nick);
    page.append("</a>.\n<p><a href=\"/\">Back to homepage</a>\n");
    page
}

/// An HTTP error answer: status code and message.
pub struct HttpError {
    pub status: u16,
    pub message: String,
}

/// A claim that was taken: the claim to hand to the claim writer, and the
/// page to answer with.
pub struct AcceptedClaim {
    pub claim: NewCapture,
    pub page: String,
}

/// Decides a claim request of `ip` for `nick`: turned away with status 429
/// where the nickname is on the calm-down list, taken otherwise. The list
/// is empty, so every claim is taken.
pub fn claim_ip(ip: Ipv4Octets, nick: String) -> (r: Result<AcceptedClaim, HttpError>)
    ensures
        r is Ok,
        r is Err <==> calm_down_listed(nick@),
        r matches Err(e) ==> e.status == 429 && e.message@ == "Calm it down and be fair, please"@,
        r matches Ok(a) ==> is_claim_of(a.claim, ip, nick@) && a.page@ == claim_page(
            ipv4_text(ip),
            nick@,
            percent_encoded(encode_utf8(nick@)),
        ),
{
    let names = calm_down_please();
    let mut i: usize = 0;
    while i < names.len()
        invariant
            i <= names@.len(),
            names@.map_values(|n: &str| n@) == spec_calm_down_please(),
            forall|j: int| 0 <= j < i ==> names@[j]@ != nick@,
        decreases names@.len() - i,
    {
        if str_eq(names[i], nick.as_str()) {
            proof {
                assert(names@.map_values(|n: &str| n@)[i as int] == nick@);
                assert(spec_calm_down_please().contains(nick@));
            }
            return Err(HttpError { status: 429, message: String::from_str("Calm it down and be fair, please") });
        }
        i = i + 1;
    }
    proof {
        if calm_down_listed(nick@) {
            let k = choose|k: int| 0 <= k < spec_calm_down_please().len() && spec_calm_down_please()[k] == nick@;
            assert(names@.map_values(|n: &str| n@)[k] == names@[k]@);
        }
    }
    let page = claim_page_html(ip, nick.as_str());
    let claim = NewCapture::create_from_ip_and_nick_now(ip, nick);
    Ok(AcceptedClaim { claim, page })
}

/// The message with which requests without a usable IPv4 client address are
/// turned away.
pub open spec fn bad_client_ip_message() -> Seq<char> {
    "Bad Request; only IPv4 addresses are supported"@
}

/// The IPv4 address in the `fly-client-ip` header value, if there is one and
/// it is an IPv4 address in dotted-decimal form.
pub fn get_fly_client_ip(header: Option<&str>) -> (ip: Option<Ipv4Octets>)
    ensures
        match header {
            None => ip is None,
            Some(h) => match ip {
                Some(a) => h@ == ipv4_text(a),
                None => forall|a: Ipv4Octets| h@ != ipv4_text(a),
            },
        },
{
    match header {
        Some(h) => parse_ipv4(h),
        None => None,
    }
}

/// The client's IPv4 address from the `fly-client-ip` header value, or a
/// 400 answer where there is none.
pub fn client_ip_v4(header: Option<&str>) -> (r: Result<Ipv4Octets, HttpError>)
    ensures
        match r {
            Ok(a) => header matches Some(h) && h@ == ipv4_text(a),
            Err(e) => {
                &&& e.status == 400
                &&& e.message@ == bad_client_ip_message()
                &&& forall|a: Ipv4Octets| !(header matches Some(h) && h@ == #[trigger] ipv4_text(a))
            },
        },
{
    match get_fly_client_ip(header) {
        Some(ip) => Ok(ip),
        None => Err(HttpError { status: 400, message: String::from_str("Bad Request; only IPv4 addresses are supported") }),
    }
}

/// Whether a request's headers are written to the log: when the `debug`
/// header value equals the configured debug code, where a missing header
/// equals a missing code.
pub fn log_request_headers(debug_code: Option<&str>, debug_header: Option<&str>) -> (r: bool)
    ensures
        r == (debug_code.deep_view() == debug_header.deep_view()),
{
    match (debug_code, debug_header) {
        (Some(c), Some(h)) => str_eq(c, h),
        (None, None) => true,
        _ => false,
    }
}

} // verus!
