use vstd::prelude::*;
use vstd::string::StringExecFns;
use crate::text::{decimal, push_decimal, str_eq};

verus! {

/// The port a database scheme listens on by default, or 0 for an unknown scheme.
pub open spec fn spec_default_port(scheme: Seq<char>) -> u16 {
    if scheme == "postgres"@ {
        5432
    } else if scheme == "mysql"@ {
        3306
    } else {
        0
    }
}

/// The port a database scheme listens on by default: 5432 for `postgres`,
/// 3306 for `mysql`, 0 otherwise.
pub fn db_default_port_for(db_scheme: &str) -> (port: u16)
    ensures
        port == spec_default_port(db_scheme@),
{
    if str_eq(db_scheme, "postgres") {
        5432
    } else if str_eq(db_scheme, "mysql") {
        3306
    } else {
        0
    }
}

/// The database URL to connect with: the administrator's at home, the
/// ordinary one elsewhere.
pub fn database_url_for(home: bool, admin_url: String, url: String) -> (chosen: String)
    ensures
        chosen@ == (if home { admin_url@ } else { url@ }),
{
    if home {
        admin_url
    } else {
        url
    }
}

/// What `url::Url::parse` reads from a text: its scheme, user name, host
/// text and port (given, or the scheme's default where the `url` crate knows
/// one), or `None` where it refuses the text.
pub uninterp spec fn url_parts(text: Seq<char>) -> Option<(Seq<char>, Seq<char>, Option<Seq<char>>, Option<u16>)>;

/// Calls `url::Url::parse` and reads `scheme`, `username`, `host_str` and
/// `port_or_known_default` from the result. The contract names the result
/// (`url_parts`) and says nothing more of it: the URL grammar is the `url`
/// crate's.
#[verifier::external_body]
fn parse_url_parts(text: &str) -> (r: Option<(String, String, Option<String>, Option<u16>)>)
    ensures
        r.deep_view() == url_parts(text@),
{
    match url::Url::parse(text) {
        Ok(u) => {
            let host = match u.host_str() {
                Some(h) => Some(h.to_string()),
                None => None,
            };
            Some((u.scheme().to_string(), u.username().to_string(), host, u.port_or_known_default()))
        },
        Err(_) => None,
    }
}

/// The text `scheme://user@host:port` that names a database server in the
/// log, where a missing host reads `(unknown)` and a missing port is the
/// scheme's default.
pub open spec fn spec_db_origin(
    scheme: Seq<char>,
    user: Seq<char>,
    host: Option<Seq<char>>,
    port: Option<u16>,
) -> Seq<char> {
    let h = match host {
        Some(h) => h,
        None => "(unknown)"@,
    };
    let p = match port {
        Some(p) => p,
        None => spec_default_port(scheme),
    };
    scheme + "://"@ + user + "@"@ + h + ":"@ + decimal(p as nat)
}

/// The text that names a database server in the log, from the parts of its URL.
pub fn db_origin_from_parts(scheme: &str, user: &str, host: Option<&str>, port: Option<u16>) -> (origin:
    String)
    ensures
        origin@ == spec_db_origin(scheme@, user@, host.deep_view(), port),
{
    let mut origin = String::from_str(scheme);
    origin.append("://");
    origin.append(user);
    origin.append("@");
    match host {
        Some(h) => origin.append(h),
        None => origin.append("(unknown)"),
    }
    origin.append(":");
    let p = match port {
        Some(p) => p,
        None => db_default_port_for(scheme),
    };
    push_decimal(&mut origin, p as u64);
    origin
}

/// The text that names the database server of a URL in the log, or `None`
/// where the URL cannot be parsed.
pub fn db_origin(database_url: &str) -> (origin: Option<String>)
    ensures
        origin.deep_view() == (match url_parts(database_url@) {
            Some(p) => Some(spec_db_origin(p.0, p.1, p.2, p.3)),
            None => None,
        }),
{
    match parse_url_parts(database_url) {
        Some(parts) => {
            let host = match &parts.2 {
                Some(h) => Some(h.as_str()),
                None => None,
            };
            Some(db_origin_from_parts(parts.0.as_str(), parts.1.as_str(), host, parts.3))
        },
        None => None,
    }
}

/// For each section that `rustls_pemfile::read_all` reads from PEM text: its
/// DER bytes where it is an X.509 certificate, `None` where it is another
/// kind of item or a section the crate refuses.
pub uninterp spec fn pem_x509_items(pem: Seq<u8>) -> Seq<Option<Seq<u8>>>;

/// Calls `rustls_pemfile::read_all` on the bytes and keeps, for each item
/// read, the DER bytes of an X.509 certificate. The contract names the result
/// (`pem_x509_items`): the PEM grammar is the crate's.
#[verifier::external_body]
fn read_pem_items(pem: &[u8]) -> (r: Vec<Option<Vec<u8>>>)
    ensures
        r.deep_view() == pem_x509_items(pem@),
{
    let mut rd: &[u8] = pem;
    rustls_pemfile::read_all(&mut rd).map(|item| match item {
        Ok(rustls_pemfile::Item::X509Certificate(der)) => Some(der.as_ref().to_vec()),
        _ => None,
    }).collect()
}

/// The present items of a sequence, in order.
pub open spec fn somes(items: Seq<Option<Seq<u8>>>) -> Seq<Seq<u8>>
    decreases items.len(),
{
    if items.len() == 0 {
        Seq::empty()
    } else {
        somes(items.drop_last()) + match items.last() {
            Some(x) => seq![x],
            None => Seq::empty(),
        }
    }
}

/// The DER bytes of the X.509 certificates of a PEM bundle, in file order.
pub fn x509_certificates(pem: &[u8]) -> (certs: Vec<Vec<u8>>)
    ensures
        certs.deep_view() == somes(pem_x509_items(pem@)),
{
    let items = read_pem_items(pem);
    let ghost its = items.deep_view();
    let mut certs: Vec<Vec<u8>> = Vec::new();
    let mut i: usize = 0;
    while i < items.len()
        invariant
            i <= items@.len(),
            its == items.deep_view(),
            certs.deep_view() == somes(its.take(i as int)),
        decreases items@.len() - i,
    {
        proof {
            assert(its.take(i + 1).drop_last() =~= its.take(i as int));
            assert(its.take(i + 1).last() == its[i as int]);
            assert(its[i as int] == items@[i as int].deep_view());
        }
        let ghost before = certs.deep_view();
        match &items[i] {
            Some(der) => {
                let copy = der.clone();
                assert(copy.deep_view() =~= der.deep_view());
                certs.push(copy);
                assert(certs.deep_view() =~= before + seq![der.deep_view()]);
            },
            None => {
                assert(certs.deep_view() =~= before + Seq::<Seq<u8>>::empty());
            },
        }
        i = i + 1;
    }
    assert(its.take(items@.len() as int) =~= its);
    certs
}

} // verus!
