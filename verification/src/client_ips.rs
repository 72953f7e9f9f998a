use vstd::prelude::*;
use indexmap::IndexSet;
use forwarded_header_value::ForwardedHeaderValue;
use crate::ipv4::{Ipv4Octets, ipv4_number, ipv4_text, parse_ipv4, lemma_ipv4_text_injective};
use crate::ipv6::{ipv6_value, parse_ipv6, law_ipv4_text_is_no_ipv6_text};
use crate::text::{chars_of, trim, trimmed, split_on_commas, split_commas, split_on, split_on_char};

verus! {

/// An insertion-ordered set of the `indexmap` crate.
#[verifier::external_type_specification]
#[verifier::external_body]
#[verifier::reject_recursive_types(T)]
#[verifier::reject_recursive_types(S)]
pub struct ExIndexSet<T, S>(IndexSet<T, S>);

/// The items of a set of addresses, in insertion order.
pub uninterp spec fn index_set_items(s: IndexSet<u128>) -> Seq<u128>;

/// Calls `IndexSet::new`, which makes an empty set.
#[verifier::external_body]
fn index_set_new() -> (s: IndexSet<u128>)
    ensures
        index_set_items(s) == Seq::<u128>::empty(),
        index_set_items(s).no_duplicates(),
{
    IndexSet::new()
}

/// Calls `IndexSet::insert`: an item not in the set is appended and `true`
/// returned; otherwise the set is left as it is and `false` returned. A set
/// never holds an item twice.
#[verifier::external_body]
fn index_set_insert(s: &mut IndexSet<u128>, v: u128) -> (added: bool)
    ensures
        added == !index_set_items(*old(s)).contains(v),
        index_set_items(*final(s)) == (if added {
            index_set_items(*old(s)).push(v)
        } else {
            index_set_items(*old(s))
        }),
        index_set_items(*final(s)).no_duplicates(),
{
    s.insert(v)
}

/// Calls `IndexSet::iter`, which yields the items in insertion order, each
/// once, and collects them.
#[verifier::external_body]
fn index_set_to_vec(s: &IndexSet<u128>) -> (v: Vec<u128>)
    ensures
        v@ == index_set_items(*s),
        v@.no_duplicates(),
{
    s.iter().copied().collect()
}

/// A client address found in a request, of either IP version; an IPv6
/// address is its 128-bit number.
#[derive(Clone, Copy, Debug)]
pub enum IpAddress {
    V4(Ipv4Octets),
    V6(u128),
}

/// The client addresses of a request, each version in its own set, in the
/// order in which they were found, without repetition. An IPv4 address is
/// kept as its 32-bit number.
pub struct ClientIps {
    pub ipv4: IndexSet<u128>,
    pub ipv6: IndexSet<u128>,
}

/// `items` with `v` appended unless it is there already.
pub open spec fn add_unique(items: Seq<u128>, v: u128) -> Seq<u128> {
    if items.contains(v) {
        items
    } else {
        items.push(v)
    }
}

/// The IPv4 and IPv6 sets after adding `addrs` in order to `v4` and `v6`.
pub open spec fn sets_after(v4: Seq<u128>, v6: Seq<u128>, addrs: Seq<IpAddress>) -> (Seq<u128>, Seq<u128>)
    decreases addrs.len(),
{
    if addrs.len() == 0 {
        (v4, v6)
    } else {
        let (a, b) = sets_after(v4, v6, addrs.drop_last());
        match addrs.last() {
            IpAddress::V4(ip) => (add_unique(a, ipv4_number(ip) as u128), b),
            IpAddress::V6(n) => (a, add_unique(b, n)),
        }
    }
}

/// The number an address is kept as in its set.
pub open spec fn address_key(a: IpAddress) -> u128 {
    match a {
        IpAddress::V4(ip) => ipv4_number(ip) as u128,
        IpAddress::V6(n) => n,
    }
}

/// Adding one more address is adding it to the sets reached so far.
proof fn lemma_sets_after_push(v4: Seq<u128>, v6: Seq<u128>, s: Seq<IpAddress>, x: IpAddress)
    ensures
        sets_after(v4, v6, s.push(x)) == sets_after(sets_after(v4, v6, s).0, sets_after(v4, v6, s).1, seq![x]),
{
    let p = sets_after(v4, v6, s);
    assert(s.push(x).drop_last() =~= s);
    assert(seq![x].drop_last() =~= Seq::<IpAddress>::empty());
    assert(sets_after(p.0, p.1, Seq::<IpAddress>::empty()) == p);
}

/// Gathering addresses repeats none in either set, puts every address into
/// the set of its version, and puts nothing else there.
pub proof fn lemma_sets_after_props(v4: Seq<u128>, v6: Seq<u128>, addrs: Seq<IpAddress>)
    ensures
        v4.no_duplicates() ==> sets_after(v4, v6, addrs).0.no_duplicates(),
        v6.no_duplicates() ==> sets_after(v4, v6, addrs).1.no_duplicates(),
        forall|i: int|
            0 <= i < addrs.len() ==> (if (#[trigger] addrs[i]) is V4 {
                sets_after(v4, v6, addrs).0.contains(address_key(addrs[i]))
            } else {
                sets_after(v4, v6, addrs).1.contains(address_key(addrs[i]))
            }),
        forall|x: u128|
            sets_after(v4, v6, addrs).0.contains(x) ==> v4.contains(x) || exists|i: int|
                0 <= i < addrs.len() && (#[trigger] addrs[i]) is V4 && address_key(addrs[i]) == x,
        forall|x: u128|
            sets_after(v4, v6, addrs).1.contains(x) ==> v6.contains(x) || exists|i: int|
                0 <= i < addrs.len() && (#[trigger] addrs[i]) is V6 && address_key(addrs[i]) == x,
    decreases addrs.len(),
{
    if addrs.len() > 0 {
        let p = addrs.drop_last();
        lemma_sets_after_props(v4, v6, p);
        let (a, b) = sets_after(v4, v6, p);
        let r = sets_after(v4, v6, addrs);
        let last = addrs.last();
        assert forall|x: u128| a.contains(x) implies r.0.contains(x) by {
            let k = choose|k: int| 0 <= k < a.len() && a[k] == x;
            if !(last is V4) || a.contains(address_key(last)) {
            } else {
                assert(r.0[k] == x);
            }
        }
        assert forall|x: u128| b.contains(x) implies r.1.contains(x) by {
            let k = choose|k: int| 0 <= k < b.len() && b[k] == x;
            if !(last is V6) || b.contains(address_key(last)) {
            } else {
                assert(r.1[k] == x);
            }
        }
        assert forall|i: int| 0 <= i < addrs.len() implies (if (#[trigger] addrs[i]) is V4 {
            r.0.contains(address_key(addrs[i]))
        } else {
            r.1.contains(address_key(addrs[i]))
        }) by {
            if i < p.len() {
                assert(addrs[i] == p[i]);
            } else {
                if last is V4 {
                    if !a.contains(address_key(last)) {
                        assert(r.0[r.0.len() - 1] == address_key(last));
                    }
                } else {
                    if !b.contains(address_key(last)) {
                        assert(r.1[r.1.len() - 1] == address_key(last));
                    }
                }
            }
        }
        assert forall|x: u128| r.0.contains(x) implies v4.contains(x) || exists|i: int|
            0 <= i < addrs.len() && (#[trigger] addrs[i]) is V4 && address_key(addrs[i]) == x by {
            if a.contains(x) {
                if !v4.contains(x) {
                    let i = choose|i: int| 0 <= i < p.len() && (#[trigger] p[i]) is V4 && address_key(p[i]) == x;
                    assert(addrs[i] == p[i]);
                }
            } else {
                assert(addrs[addrs.len() - 1] == last);
            }
        }
        assert forall|x: u128| r.1.contains(x) implies v6.contains(x) || exists|i: int|
            0 <= i < addrs.len() && (#[trigger] addrs[i]) is V6 && address_key(addrs[i]) == x by {
            if b.contains(x) {
                if !v6.contains(x) {
                    let i = choose|i: int| 0 <= i < p.len() && (#[trigger] p[i]) is V6 && address_key(p[i]) == x;
                    assert(addrs[i] == p[i]);
                }
            } else {
                assert(addrs[addrs.len() - 1] == last);
            }
        }
    }
}

impl ClientIps {
    /// No addresses yet.
    pub fn new() -> (ips: Self)
        ensures
            index_set_items(ips.ipv4) == Seq::<u128>::empty(),
            index_set_items(ips.ipv6) == Seq::<u128>::empty(),
            index_set_items(ips.ipv4).no_duplicates(),
            index_set_items(ips.ipv6).no_duplicates(),
    {
        ClientIps { ipv4: index_set_new(), ipv6: index_set_new() }
    }

    /// Adds one address to the set of its version.
    pub fn insert(&mut self, addr: IpAddress)
        ensures
            (index_set_items(final(self).ipv4), index_set_items(final(self).ipv6)) == sets_after(
                index_set_items(old(self).ipv4),
                index_set_items(old(self).ipv6),
                seq![addr],
            ),
            index_set_items(old(self).ipv4).no_duplicates() ==> index_set_items(final(self).ipv4).no_duplicates(),
            index_set_items(old(self).ipv6).no_duplicates() ==> index_set_items(final(self).ipv6).no_duplicates(),
    {
        proof {
            assert(seq![addr].drop_last() =~= Seq::<IpAddress>::empty());
            let v4 = index_set_items(self.ipv4);
            let v6 = index_set_items(self.ipv6);
            assert(sets_after(v4, v6, Seq::<IpAddress>::empty()) == (v4, v6));
        }
        match addr {
            IpAddress::V4(ip) => {
                let n = ip[0] as u128 * 16777216 + ip[1] as u128 * 65536 + ip[2] as u128 * 256 + ip[3] as u128;
                assert(n == ipv4_number(ip));
                index_set_insert(&mut self.ipv4, n);
            },
            IpAddress::V6(n) => {
                index_set_insert(&mut self.ipv6, n);
            },
        }
    }

    /// Adds addresses in order, each to the set of its version.
    pub fn insert_all(&mut self, addrs: &Vec<IpAddress>)
        ensures
            (index_set_items(final(self).ipv4), index_set_items(final(self).ipv6)) == sets_after(
                index_set_items(old(self).ipv4),
                index_set_items(old(self).ipv6),
                addrs@,
            ),
            index_set_items(old(self).ipv4).no_duplicates() ==> index_set_items(final(self).ipv4).no_duplicates(),
            index_set_items(old(self).ipv6).no_duplicates() ==> index_set_items(final(self).ipv6).no_duplicates(),
    {
        let ghost v4 = index_set_items(self.ipv4);
        let ghost v6 = index_set_items(self.ipv6);
        let mut i: usize = 0;
        while i < addrs.len()
            invariant
                i <= addrs@.len(),
                v4 == index_set_items(old(self).ipv4),
                v6 == index_set_items(old(self).ipv6),
                (index_set_items(self.ipv4), index_set_items(self.ipv6)) == sets_after(v4, v6, addrs@.take(i as int)),
            decreases addrs@.len() - i,
        {
            let ghost before = (index_set_items(self.ipv4), index_set_items(self.ipv6));
            self.insert(addrs[i]);
            proof {
                assert(addrs@.take(i + 1) =~= addrs@.take(i as int).push(addrs@[i as int]));
                lemma_sets_after_push(v4, v6, addrs@.take(i as int), addrs@[i as int]);
            }
            i = i + 1;
        }
        assert(addrs@.take(addrs@.len() as int) =~= addrs@);
        proof {
            lemma_sets_after_props(v4, v6, addrs@);
        }
    }

    /// The IPv4 addresses, as 32-bit numbers, in the order found.
    pub fn ipv4_numbers(&self) -> (v: Vec<u128>)
        ensures
            v@ == index_set_items(self.ipv4),
            v@.no_duplicates(),
    {
        index_set_to_vec(&self.ipv4)
    }

    /// The IPv6 addresses, as 128-bit numbers, in the order found.
    pub fn ipv6_numbers(&self) -> (v: Vec<u128>)
        ensures
            v@ == index_set_items(self.ipv6),
            v@.no_duplicates(),
    {
        index_set_to_vec(&self.ipv6)
    }
}

/// The client addresses of a request, gathered from its sources in this
/// order: the `fly-client-ip` header, the `x-forwarded-for` list, the
/// `x-real-ip` header, the `for` parameters of the `forwarded` headers, and
/// the address of the connection.
pub fn client_ips_from_sources(
    fly_client_ip: Option<IpAddress>,
    x_forwarded_for: Vec<IpAddress>,
    x_real_ip: Option<IpAddress>,
    forwarded: Vec<IpAddress>,
    connection: Option<IpAddress>,
) -> (ips: ClientIps)
    ensures
        (index_set_items(ips.ipv4), index_set_items(ips.ipv6)) == sets_after(
            Seq::empty(),
            Seq::empty(),
            source_order(fly_client_ip, x_forwarded_for@, x_real_ip, forwarded@, connection),
        ),
        index_set_items(ips.ipv4).no_duplicates(),
        index_set_items(ips.ipv6).no_duplicates(),
{
    let mut all: Vec<IpAddress> = Vec::new();
    if let Some(a) = fly_client_ip {
        all.push(a);
    }
    let mut i: usize = 0;
    while i < x_forwarded_for.len()
        invariant
            i <= x_forwarded_for@.len(),
            all@ == option_seq(fly_client_ip) + x_forwarded_for@.take(i as int),
        decreases x_forwarded_for@.len() - i,
    {
        all.push(x_forwarded_for[i]);
        proof {
            assert(x_forwarded_for@.take(i + 1) =~= x_forwarded_for@.take(i as int).push(x_forwarded_for@[i as int]));
        }
        i = i + 1;
    }
    if let Some(a) = x_real_ip {
        all.push(a);
    }
    let ghost mid = all@;
    let mut j: usize = 0;
    while j < forwarded.len()
        invariant
            j <= forwarded@.len(),
            all@ == mid + forwarded@.take(j as int),
        decreases forwarded@.len() - j,
    {
        all.push(forwarded[j]);
        proof {
            assert(forwarded@.take(j + 1) =~= forwarded@.take(j as int).push(forwarded@[j as int]));
        }
        j = j + 1;
    }
    if let Some(a) = connection {
        all.push(a);
    }
    proof {
        assert(x_forwarded_for@.take(x_forwarded_for@.len() as int) =~= x_forwarded_for@);
        assert(forwarded@.take(forwarded@.len() as int) =~= forwarded@);
        assert(all@ =~= source_order(fly_client_ip, x_forwarded_for@, x_real_ip, forwarded@, connection));
    }
    let mut ips = ClientIps::new();
    ips.insert_all(&all);
    ips
}

/// An optional address as a sequence of zero or one addresses.
pub open spec fn option_seq(a: Option<IpAddress>) -> Seq<IpAddress> {
    match a {
        Some(x) => seq![x],
        None => Seq::empty(),
    }
}

/// The addresses of all sources, in the order in which they are gathered.
pub open spec fn source_order(
    fly_client_ip: Option<IpAddress>,
    x_forwarded_for: Seq<IpAddress>,
    x_real_ip: Option<IpAddress>,
    forwarded: Seq<IpAddress>,
    connection: Option<IpAddress>,
) -> Seq<IpAddress> {
    option_seq(fly_client_ip) + x_forwarded_for + option_seq(x_real_ip) + forwarded + option_seq(connection)
}

/// The address a text denotes, read as an IPv4 address in dotted-decimal
/// form first and as an IPv6 address otherwise.
pub open spec fn spec_parse_ip(text: Seq<char>) -> Option<IpAddress> {
    if exists|ip: Ipv4Octets| text == #[trigger] ipv4_text(ip) {
        Some(IpAddress::V4(choose|ip: Ipv4Octets| text == #[trigger] ipv4_text(ip)))
    } else {
        match ipv6_value(text) {
            Some(n) => Some(IpAddress::V6(n)),
            None => None,
        }
    }
}

/// Reads an IP address of either version from a text.
pub fn parse_ip(text: &str) -> (r: Option<IpAddress>)
    ensures
        r == spec_parse_ip(text@),
{
    match parse_ipv4(text) {
        Some(ip) => {
            proof {
                let c = choose|a: Ipv4Octets| text@ == #[trigger] ipv4_text(a);
                lemma_ipv4_text_injective(c, ip);
            }
            Some(IpAddress::V4(ip))
        },
        None => match parse_ipv6(text) {
            Some(n) => Some(IpAddress::V6(n)),
            None => None,
        },
    }
}

/// A text reads as an address of either version exactly as it reads as
/// one version alone: as the IPv4 address `ip` exactly when it is the
/// dotted-decimal text of `ip`, as the IPv6 address `n` exactly when it is
/// an IPv6 text of `n` (eight groups, `::` compression or an embedded IPv4
/// tail alike), and as nothing when it is neither.
pub proof fn law_parse_ip_either_version(text: Seq<char>, ip: Ipv4Octets, n: u128)
    ensures
        spec_parse_ip(text) == Some(IpAddress::V4(ip)) <==> text == ipv4_text(ip),
        spec_parse_ip(text) == Some(IpAddress::V6(n)) <==> ipv6_value(text) == Some(n),
        spec_parse_ip(text) is None <==> (ipv6_value(text) is None && forall|a: Ipv4Octets|
            text != #[trigger] ipv4_text(a)),
{
    if exists|a: Ipv4Octets| text == #[trigger] ipv4_text(a) {
        let c = choose|a: Ipv4Octets| text == #[trigger] ipv4_text(a);
        law_ipv4_text_is_no_ipv6_text(c);
        if text == ipv4_text(ip) {
            lemma_ipv4_text_injective(c, ip);
        }
    }
}

/// The address a header value holds, if it holds one.
pub open spec fn spec_header_address(header: Option<Seq<char>>) -> Option<IpAddress> {
    match header {
        Some(h) => spec_parse_ip(h),
        None => None,
    }
}

/// The address in the `fly-client-ip` header value, of either version.
pub fn get_fly_client_ip(header: Option<&str>) -> (r: Option<IpAddress>)
    ensures
        r == spec_header_address(header.deep_view()),
{
    match header {
        Some(h) => parse_ip(h),
        None => None,
    }
}

/// The address in the `x-real-ip` header value, of either version.
pub fn get_x_real_ip(header: Option<&str>) -> (r: Option<IpAddress>)
    ensures
        r == spec_header_address(header.deep_view()),
{
    match header {
        Some(h) => parse_ip(h),
        None => None,
    }
}

/// The addresses of a list of pieces, each read after trimming white space;
/// pieces that are no address are skipped.
pub open spec fn addresses_of_pieces(pieces: Seq<Seq<char>>) -> Seq<IpAddress>
    decreases pieces.len(),
{
    if pieces.len() == 0 {
        Seq::empty()
    } else {
        addresses_of_pieces(pieces.drop_last()) + match spec_parse_ip(trimmed(pieces.last())) {
            Some(a) => seq![a],
            None => Seq::empty(),
        }
    }
}

/// The addresses of an `x-forwarded-for` header value: its comma-separated
/// pieces, trimmed, that are addresses, in order.
pub open spec fn spec_x_forwarded_for(header: Option<Seq<char>>) -> Seq<IpAddress> {
    match header {
        Some(h) => addresses_of_pieces(split_commas(h)),
        None => Seq::empty(),
    }
}

/// The addresses in the `x-forwarded-for` header value, in order.
pub fn get_x_forwarded_for(header: Option<&str>) -> (addrs: Vec<IpAddress>)
    ensures
        addrs@ == spec_x_forwarded_for(header.deep_view()),
{
    let mut addrs: Vec<IpAddress> = Vec::new();
    match header {
        None => addrs,
        Some(h) => {
            let pieces = split_on_commas(h);
            let ghost ps = pieces@.map_values(|p: &str| p@);
            let mut i: usize = 0;
            while i < pieces.len()
                invariant
                    i <= pieces@.len(),
                    ps == pieces@.map_values(|p: &str| p@),
                    ps == split_commas(h@),
                    addrs@ == addresses_of_pieces(ps.take(i as int)),
                decreases pieces@.len() - i,
            {
                proof {
                    assert(ps.take(i + 1).drop_last() =~= ps.take(i as int));
                    assert(ps.take(i + 1).last() == pieces@[i as int]@);
                }
                let ghost before = addrs@;
                match parse_ip(trim(pieces[i])) {
                    Some(a) => {
                        addrs.push(a);
                        assert(addrs@ =~= before + seq![a]);
                    },
                    None => {
                        assert(addrs@ =~= before + Seq::<IpAddress>::empty());
                    },
                }
                i = i + 1;
            }
            assert(ps.take(pieces@.len() as int) =~= ps);
            addrs
        },
    }
}

/// Whether a `;`-separated part of a `forwarded` element, trimmed, is
/// `host="`: the key `host` in any case of letters and a value that is a
/// single double quote.
pub open spec fn lone_quote_host(part: Seq<char>) -> bool {
    &&& part.len() == 6
    &&& (part[0] == 'h' || part[0] == 'H')
    &&& (part[1] == 'o' || part[1] == 'O')
    &&& (part[2] == 's' || part[2] == 'S')
    &&& (part[3] == 't' || part[3] == 'T')
    &&& part[4] == '='
    &&& part[5] == '"'
}

/// Whether an element of a `forwarded` line, trimmed, has a part that is a
/// lone-quote `host`.
pub open spec fn element_has_lone_quote_host(element: Seq<char>) -> bool {
    exists|p: int|
        0 <= p < split_on(trimmed(element), ';').len() && lone_quote_host(
            trimmed(#[trigger] split_on(trimmed(element), ';')[p]),
        )
}

/// Whether a `forwarded` line has an element with a lone-quote `host` part:
/// `ForwardedHeaderValue::from_forwarded` slices such a value out of range
/// and panics, unless an error earlier in the line ends its reading first.
pub open spec fn has_lone_quote_host(line: Seq<char>) -> bool {
    exists|e: int|
        0 <= e < split_commas(trimmed(line)).len() && element_has_lone_quote_host(
            #[trigger] split_commas(trimmed(line))[e],
        )
}

/// Whether a part is a lone-quote `host` part.
fn is_lone_quote_host(part: &str) -> (r: bool)
    ensures
        r == lone_quote_host(part@),
{
    let v = chars_of(part);
    v.len() == 6 && (v[0] == 'h' || v[0] == 'H') && (v[1] == 'o' || v[1] == 'O') && (v[2] == 's'
        || v[2] == 'S') && (v[3] == 't' || v[3] == 'T') && v[4] == '=' && v[5] == '"'
}

/// Whether an element has a lone-quote `host` part.
fn element_lone_quote_host(element: &str) -> (r: bool)
    ensures
        r == element_has_lone_quote_host(element@),
{
    let parts = split_on_char(trim(element), ';');
    let ghost ps = parts@.map_values(|q: &str| q@);
    let mut p: usize = 0;
    while p < parts.len()
        invariant
            p <= parts@.len(),
            ps == parts@.map_values(|q: &str| q@),
            ps == split_on(trimmed(element@), ';'),
            forall|j: int| 0 <= j < p ==> !lone_quote_host(trimmed(#[trigger] ps[j])),
        decreases parts@.len() - p,
    {
        if is_lone_quote_host(trim(parts[p])) {
            assert(ps[p as int] == parts@[p as int]@);
            return true;
        }
        assert(ps[p as int] == parts@[p as int]@);
        p = p + 1;
    }
    false
}

/// Whether a `forwarded` line has an element with a lone-quote `host` part.
pub fn line_has_lone_quote_host(line: &str) -> (r: bool)
    ensures
        r == has_lone_quote_host(line@),
{
    let elements = split_on_commas(trim(line));
    let ghost es = elements@.map_values(|q: &str| q@);
    let mut e: usize = 0;
    while e < elements.len()
        invariant
            e <= elements@.len(),
            es == elements@.map_values(|q: &str| q@),
            es == split_commas(trimmed(line@)),
            forall|j: int| 0 <= j < e ==> !element_has_lone_quote_host(#[trigger] es[j]),
        decreases elements@.len() - e,
    {
        if element_lone_quote_host(elements[e]) {
            assert(es[e as int] == elements@[e as int]@);
            return true;
        }
        assert(es[e as int] == elements@[e as int]@);
        e = e + 1;
    }
    false
}

/// What `ForwardedHeaderValue::from_forwarded` reads from one `forwarded`
/// header line: for each of its elements the text of the address of its
/// `for` parameter (as `IpAddr`'s `Display` writes it), where that parameter
/// is an IP address or socket address; or `None` where it refuses the line.
pub uninterp spec fn forwarded_for(line: Seq<char>) -> Option<Seq<Option<Seq<char>>>>;

/// Calls `ForwardedHeaderValue::from_forwarded` and, for each element,
/// `forwarded_for_ip`, writing each address as text. The contract names the
/// result (`forwarded_for`): the header grammar is the crate's.
#[verifier::external_body]
fn parse_forwarded_for(line: &str) -> (r: Option<Vec<Option<String>>>)
    requires
        !has_lone_quote_host(line@),
    ensures
        match r {
            Some(v) => forwarded_for(line@) == Some(v.deep_view()),
            None => forwarded_for(line@) is None,
        },
{
    match ForwardedHeaderValue::from_forwarded(line) {
        Ok(f) => Some(f.iter().map(|fs| fs.forwarded_for_ip().map(|ip| ip.to_string())).collect()),
        Err(_) => None,
    }
}

/// The addresses among a line's `for` texts, in order; texts that are no
/// address are skipped.
pub open spec fn present(ids: Seq<Option<Seq<char>>>) -> Seq<IpAddress>
    decreases ids.len(),
{
    if ids.len() == 0 {
        Seq::empty()
    } else {
        present(ids.drop_last()) + match ids.last() {
            Some(t) => match spec_parse_ip(t) {
                Some(a) => seq![a],
                None => Seq::empty(),
            },
            None => Seq::empty(),
        }
    }
}

/// The `for` addresses of `forwarded` header lines, line by line; lines
/// that do not parse, and lines with a lone-quote `host` part, add nothing.
pub open spec fn forwarded_flatten(lines: Seq<Seq<char>>) -> Seq<IpAddress>
    decreases lines.len(),
{
    if lines.len() == 0 {
        Seq::empty()
    } else {
        forwarded_flatten(lines.drop_last()) + if has_lone_quote_host(lines.last()) {
            Seq::empty()
        } else {
            match forwarded_for(lines.last()) {
                Some(ids) => present(ids),
                None => Seq::empty(),
            }
        }
    }
}

/// The addresses of one `forwarded` header line read alone: its `for`
/// addresses, or nothing where it does not parse or has a lone-quote `host`.
pub open spec fn line_addresses(line: Seq<char>) -> Seq<IpAddress> {
    if has_lone_quote_host(line) {
        Seq::empty()
    } else {
        match forwarded_for(line) {
            Some(ids) => present(ids),
            None => Seq::empty(),
        }
    }
}

/// Each `forwarded` line is read on its own: the addresses of two runs of
/// lines, one after the other, are those of the first run followed by those
/// of the second, whatever either holds (a line that does not parse stops
/// no later line from being read).
pub proof fn law_forwarded_lines_concatenate(ls: Seq<Seq<char>>, ms: Seq<Seq<char>>)
    ensures
        forwarded_flatten(ls + ms) == forwarded_flatten(ls) + forwarded_flatten(ms),
    decreases ms.len(),
{
    if ms.len() == 0 {
        assert(ls + ms =~= ls);
        assert(forwarded_flatten(ls) + forwarded_flatten(ms) =~= forwarded_flatten(ls));
    } else {
        law_forwarded_lines_concatenate(ls, ms.drop_last());
        assert((ls + ms).drop_last() =~= ls + ms.drop_last());
        assert((ls + ms).last() == ms.last());
        let tail = line_addresses(ms.last());
        assert(forwarded_flatten(ls + ms) == forwarded_flatten(ls + ms.drop_last()) + tail);
        assert(forwarded_flatten(ms) == forwarded_flatten(ms.drop_last()) + tail);
        assert(forwarded_flatten(ls + ms) =~= forwarded_flatten(ls) + forwarded_flatten(ms));
    }
}

/// A single `forwarded` line gives exactly its own addresses, and a line
/// added after others adds exactly those: the addresses before it are kept
/// and nothing that came earlier changes what it adds.
pub proof fn law_forwarded_line_alone(ls: Seq<Seq<char>>, line: Seq<char>)
    ensures
        forwarded_flatten(seq![line]) == line_addresses(line),
        forwarded_flatten(ls.push(line)) == forwarded_flatten(ls) + line_addresses(line),
{
    let one = seq![line];
    assert(one.drop_last() =~= Seq::<Seq<char>>::empty());
    assert(one.last() == line);
    assert(forwarded_flatten(one.drop_last()) =~= Seq::<IpAddress>::empty());
    assert(forwarded_flatten(one) =~= Seq::<IpAddress>::empty() + line_addresses(line));
    assert(forwarded_flatten(one) =~= line_addresses(line));
    law_forwarded_lines_concatenate(ls, one);
    assert(ls + one =~= ls.push(line));
}

/// The `for` addresses of all `forwarded` header lines, in order.
pub fn get_forwarded(lines: &Vec<&str>) -> (addrs: Vec<IpAddress>)
    ensures
        addrs@ == forwarded_flatten(lines@.map_values(|l: &str| l@)),
{
    let ghost ls = lines@.map_values(|l: &str| l@);
    let mut addrs: Vec<IpAddress> = Vec::new();
    let mut i: usize = 0;
    while i < lines.len()
        invariant
            i <= lines@.len(),
            ls == lines@.map_values(|l: &str| l@),
            addrs@ == forwarded_flatten(ls.take(i as int)),
        decreases lines@.len() - i,
    {
        proof {
            assert(ls.take(i + 1).drop_last() =~= ls.take(i as int));
            assert(ls.take(i + 1).last() == lines@[i as int]@);
        }
        let ghost before = addrs@;
        if line_has_lone_quote_host(lines[i]) {
            assert(addrs@ =~= before + Seq::<IpAddress>::empty());
        } else {
            match parse_forwarded_for(lines[i]) {
                Some(ids) => {
                    let mut k: usize = 0;
                    while k < ids.len()
                        invariant
                            k <= ids@.len(),
                            addrs@ == before + present(ids.deep_view().take(k as int)),
                        decreases ids@.len() - k,
                    {
                        proof {
                            assert(ids.deep_view().take(k + 1).drop_last() =~= ids.deep_view().take(k as int));
                            assert(ids.deep_view().take(k + 1).last() == ids@[k as int].deep_view());
                        }
                        match &ids[k] {
                            Some(t) => match parse_ip(t.as_str()) {
                                Some(a) => {
                                    addrs.push(a);
                                    assert(addrs@ =~= before + present(ids.deep_view().take(k + 1)));
                                },
                                None => {
                                    assert(addrs@ =~= before + present(ids.deep_view().take(k + 1)));
                                },
                            },
                            None => {
                                assert(addrs@ =~= before + present(ids.deep_view().take(k + 1)));
                            },
                        }
                        k = k + 1;
                    }
                    assert(ids.deep_view().take(ids@.len() as int) =~= ids.deep_view());
                },
                None => {
                    assert(addrs@ =~= before + Seq::<IpAddress>::empty());
                },
            }
        }
        i = i + 1;
    }
    assert(ls.take(lines@.len() as int) =~= ls);
    addrs
}

/// The client addresses of a request, read from its header values in this
/// order: `fly-client-ip`, `x-real-ip`, the lines of `forwarded`, and then
/// the address of the connection. The `x-forwarded-for` list adds nothing:
/// its addresses are read (`get_x_forwarded_for`) but never inserted.
pub fn client_ips_from_headers(
    fly_client_ip: Option<&str>,
    x_real_ip: Option<&str>,
    forwarded: &Vec<&str>,
    connection: Option<IpAddress>,
) -> (ips: ClientIps)
    ensures
        (index_set_items(ips.ipv4), index_set_items(ips.ipv6)) == sets_after(
            Seq::empty(),
            Seq::empty(),
            source_order(
                spec_header_address(fly_client_ip.deep_view()),
                Seq::empty(),
                spec_header_address(x_real_ip.deep_view()),
                forwarded_flatten(forwarded@.map_values(|l: &str| l@)),
                connection,
            ),
        ),
        index_set_items(ips.ipv4).no_duplicates(),
        index_set_items(ips.ipv6).no_duplicates(),
{
    client_ips_from_sources(
        get_fly_client_ip(fly_client_ip),
        Vec::new(),
        get_x_real_ip(x_real_ip),
        get_forwarded(forwarded),
        connection,
    )
}

} // verus!
