use vstd::prelude::*;
use crate::text::{chars_of, split_on, split_ranges};
use crate::ipv4::{Ipv4Octets, ipv4_text, ipv4_number, parse_ipv4_chars, lemma_ipv4_text_injective, lemma_ipv4_text_shape};

verus! {

/// Whether a character is a hexadecimal digit, in either case.
pub open spec fn is_hex(c: char) -> bool {
    ('0' <= c <= '9') || ('a' <= c <= 'f') || ('A' <= c <= 'F')
}

/// The value of a hexadecimal digit.
pub open spec fn hex_value(c: char) -> int {
    if '0' <= c <= '9' {
        c as int - 48
    } else if 'a' <= c <= 'f' {
        c as int - 87
    } else {
        c as int - 55
    }
}

/// The number a string of hexadecimal digits denotes.
pub open spec fn hex_digits_value(w: Seq<char>) -> int
    decreases w.len(),
{
    if w.len() == 0 {
        0
    } else {
        16 * hex_digits_value(w.drop_last()) + hex_value(w.last())
    }
}

/// A group of an IPv6 text: one to four hexadecimal digits.
pub open spec fn hex_group(w: Seq<char>) -> Option<u16> {
    if 1 <= w.len() <= 4 && (forall|i: int| 0 <= i < w.len() ==> is_hex(#[trigger] w[i])) {
        Some(hex_digits_value(w) as u16)
    } else {
        None
    }
}

/// The two groups an embedded IPv4 address stands for.
pub open spec fn v4_groups(ip: Ipv4Octets) -> Seq<u16> {
    seq![(ip[0] as int * 256 + ip[1] as int) as u16, (ip[2] as int * 256 + ip[3] as int) as u16]
}

/// The groups of pieces that must all be hexadecimal groups.
pub open spec fn hex_groups(ps: Seq<Seq<char>>) -> Option<Seq<u16>>
    decreases ps.len(),
{
    if ps.len() == 0 {
        Some(Seq::empty())
    } else {
        match (hex_groups(ps.drop_last()), hex_group(ps.last())) {
            (Some(g), Some(x)) => Some(g.push(x)),
            _ => None,
        }
    }
}

/// The groups of a non-empty list of pieces: hexadecimal groups, where the
/// last piece may instead be an IPv4 address in dotted-decimal form if
/// `v4_ok`.
pub open spec fn groups_of(ps: Seq<Seq<char>>, v4_ok: bool) -> Option<Seq<u16>> {
    if ps.len() == 0 {
        None
    } else {
        match hex_groups(ps.drop_last()) {
            None => None,
            Some(g) => match hex_group(ps.last()) {
                Some(x) => Some(g.push(x)),
                None => if v4_ok && exists|ip: Ipv4Octets| ps.last() == #[trigger] ipv4_text(ip) {
                    Some(g + v4_groups(choose|ip: Ipv4Octets| ps.last() == #[trigger] ipv4_text(ip)))
                } else {
                    None
                },
            },
        }
    }
}

/// The position of the first `::` in `t`, or -1.
pub open spec fn dc_index(t: Seq<char>) -> int
    decreases t.len(),
{
    if t.len() < 2 {
        -1
    } else if t[0] == ':' && t[1] == ':' {
        0
    } else {
        let r = dc_index(t.drop_first());
        if r < 0 {
            -1
        } else {
            r + 1
        }
    }
}

/// The groups of a list of pieces, or none for an empty text.
pub open spec fn groups_or_empty(t: Seq<char>, v4_ok: bool) -> Option<Seq<u16>> {
    if t.len() == 0 {
        Some(Seq::empty())
    } else {
        groups_of(split_on(t, ':'), v4_ok)
    }
}

/// The eight groups of an IPv6 text, as `Ipv6Addr`'s `FromStr` reads it:
/// eight `:`-separated groups of one to four hexadecimal digits, the last
/// two of which may be written as an IPv4 address; or, with one `::`
/// standing for at least one zero group, at most seven groups around it, an
/// IPv4 address only at the very end.
pub open spec fn ipv6_groups(t: Seq<char>) -> Option<Seq<u16>> {
    let k = dc_index(t);
    if k >= 0 {
        let hg = groups_or_empty(t.subrange(0, k), false);
        let tg = groups_or_empty(t.subrange(k + 2, t.len() as int), true);
        if hg is Some && tg is Some && hg.unwrap().len() + tg.unwrap().len() <= 7 {
            Some(
                hg.unwrap() + Seq::new((8 - hg.unwrap().len() - tg.unwrap().len()) as nat, |i: int| 0u16)
                    + tg.unwrap(),
            )
        } else {
            None
        }
    } else {
        let g = groups_or_empty(t, true);
        if g is Some && g.unwrap().len() == 8 {
            g
        } else {
            None
        }
    }
}

/// The number of a list of 16-bit groups, most significant first.
pub open spec fn groups_number(g: Seq<u16>) -> int
    decreases g.len(),
{
    if g.len() == 0 {
        0
    } else {
        65536 * groups_number(g.drop_last()) + g.last() as int
    }
}

/// The IPv6 address an IPv6 text denotes, as its 128-bit number.
pub open spec fn ipv6_value(t: Seq<char>) -> Option<u128> {
    match ipv6_groups(t) {
        Some(g) => Some(groups_number(g) as u128),
        None => None,
    }
}

/// Whether a text holds no `::`.
pub open spec fn no_double_colon(t: Seq<char>) -> bool {
    forall|i: int| 0 <= i < t.len() - 1 ==> !(#[trigger] t[i] == ':' && t[i + 1] == ':')
}

/// A text that holds no `::` has no first `::`.
proof fn lemma_dc_index_none(t: Seq<char>)
    requires
        no_double_colon(t),
    ensures
        dc_index(t) < 0,
    decreases t.len(),
{
    if t.len() >= 2 {
        assert(!(t[0] == ':' && t[1] == ':'));
        let r = t.drop_first();
        assert forall|i: int| 0 <= i < r.len() - 1 implies !(#[trigger] r[i] == ':' && r[i + 1] == ':') by {
            assert(r[i] == t[i + 1] && r[i + 1] == t[i + 2]);
            assert(!(t[i + 1] == ':' && t[i + 2] == ':'));
        }
        lemma_dc_index_none(r);
    }
}

/// The first `::` of `h + "::" + x` is the one after `h`, where `h` holds no
/// `::` and does not end in a colon.
proof fn lemma_dc_index_after_head(h: Seq<char>, x: Seq<char>)
    requires
        no_double_colon(h),
        h.len() > 0 ==> h.last() != ':',
    ensures
        dc_index(h + seq![':', ':'] + x) == h.len(),
    decreases h.len(),
{
    let t = h + seq![':', ':'] + x;
    if h.len() == 0 {
        assert(t[0] == ':' && t[1] == ':');
    } else {
        assert(t[0] == h[0]);
        if h.len() == 1 {
            assert(h[0] == h.last());
        } else {
            assert(t[1] == h[1]);
            assert(!(h[0] == ':' && h[1] == ':'));
        }
        let r = h.drop_first();
        assert forall|i: int| 0 <= i < r.len() - 1 implies !(#[trigger] r[i] == ':' && r[i + 1] == ':') by {
            assert(r[i] == h[i + 1] && r[i + 1] == h[i + 2]);
            assert(!(h[i + 1] == ':' && h[i + 2] == ':'));
        }
        if r.len() > 0 {
            assert(r.last() == h.last());
        }
        lemma_dc_index_after_head(r, x);
        assert(t.drop_first() =~= r + seq![':', ':'] + x);
    }
}

/// A text without the separator is a single piece.
proof fn lemma_split_on_without_sep(t: Seq<char>, sep: char)
    requires
        forall|i: int| 0 <= i < t.len() ==> t[i] != sep,
    ensures
        split_on(t, sep) == seq![t],
    decreases t.len(),
{
    if t.len() > 0 {
        let d = t.drop_last();
        assert forall|i: int| 0 <= i < d.len() implies d[i] != sep by {
            assert(d[i] == t[i]);
        }
        lemma_split_on_without_sep(d, sep);
        assert(t.last() == t[t.len() - 1]);
        let p = split_on(d, sep);
        assert(p.len() == 1 && p.last() == d);
        assert(d.push(t.last()) =~= t);
        assert(p.update(p.len() - 1, p.last().push(t.last())) =~= seq![t]);
    } else {
        assert(t =~= Seq::<char>::empty());
    }
}

/// The groups that follow a `::` when they are an IPv4 address in
/// dotted-decimal form: the two groups of that address.
proof fn lemma_v4_tail_groups(ip: Ipv4Octets)
    ensures
        groups_or_empty(ipv4_text(ip), true) == Some(v4_groups(ip)),
        groups_or_empty(ipv4_text(ip), false) is None,
{
    let t = ipv4_text(ip);
    lemma_ipv4_text_shape(ip);
    lemma_split_on_without_sep(t, ':');
    let ps = split_on(t, ':');
    assert(ps.drop_last() =~= Seq::<Seq<char>>::empty());
    assert(ps.last() == t);
    assert(hex_groups(ps.drop_last()) == Some(Seq::<u16>::empty()));
    assert(hex_group(t) is None);
    assert(exists|c: Ipv4Octets| ps.last() == #[trigger] ipv4_text(c));
    let c = choose|c: Ipv4Octets| ps.last() == #[trigger] ipv4_text(c);
    lemma_ipv4_text_injective(c, ip);
    assert(Seq::<u16>::empty() + v4_groups(ip) =~= v4_groups(ip));
}

/// The dotted-decimal text of an IPv4 address is no IPv6 text.
pub proof fn law_ipv4_text_is_no_ipv6_text(ip: Ipv4Octets)
    ensures
        ipv6_value(ipv4_text(ip)) is None,
{
    let t = ipv4_text(ip);
    lemma_ipv4_text_shape(ip);
    assert(no_double_colon(t));
    lemma_dc_index_none(t);
    lemma_v4_tail_groups(ip);
}

/// The number of a list of groups is below 65536 to the power of its length.
proof fn lemma_groups_number_bound(g: Seq<u16>)
    ensures
        0 <= groups_number(g) < pow65536(g.len()),
    decreases g.len(),
{
    if g.len() > 0 {
        lemma_groups_number_bound(g.drop_last());
        let a = groups_number(g.drop_last());
        let p = pow65536(g.drop_last().len());
        let x = g.last() as int;
        assert(0 <= 65536 * a + x < 65536 * p) by (nonlinear_arith)
            requires
                0 <= a < p,
                0 <= x < 65536,
        ;
    }
}

/// Two groups more at the end shift the number by 32 bits.
proof fn lemma_groups_number_two_more(g: Seq<u16>, p: u16, q: u16)
    ensures
        groups_number(g.push(p).push(q)) == groups_number(g) * 4294967296 + p as int * 65536 + q as int,
{
    assert(g.push(p).push(q).drop_last() =~= g.push(p));
    assert(g.push(p).drop_last() =~= g);
    let a = groups_number(g);
    assert(groups_number(g.push(p)) == 65536 * a + p as int);
    assert(groups_number(g.push(p).push(q)) == 65536 * groups_number(g.push(p)) + q as int);
    assert(65536 * (65536 * a + p as int) + q as int == a * 4294967296 + p as int * 65536 + q as int)
        by (nonlinear_arith);
}

/// The pieces `0:0` are two zero groups.
proof fn lemma_zero_pair_groups()
    ensures
        groups_or_empty(seq!['0', ':', '0'], true) == Some(seq![0u16, 0u16]),
{
    let t = seq!['0', ':', '0'];
    let z = seq!['0'];
    let e = Seq::<char>::empty();
    assert(t.drop_last() =~= seq!['0', ':']);
    assert(seq!['0', ':'].drop_last() =~= z);
    assert(z.drop_last() =~= e);
    assert(split_on(e, ':') == seq![e]);
    assert(split_on(z, ':') =~= seq![z]) by {
        assert(e.push('0') =~= z);
    }
    assert(split_on(seq!['0', ':'], ':') =~= seq![z, e]);
    assert(split_on(t, ':') =~= seq![z, z]) by {
        assert(e.push('0') =~= z);
    }
    let ps = seq![z, z];
    assert(hex_digits_value(e) == 0);
    assert(hex_digits_value(z) == 0);
    assert(hex_group(z) == Some(0u16));
    assert(ps.drop_last() =~= seq![z]);
    assert(seq![z].drop_last() =~= Seq::<Seq<char>>::empty());
    assert(seq![z].last() == z);
    assert(hex_groups(Seq::<Seq<char>>::empty()) == Some(Seq::<u16>::empty()));
    assert(Seq::<u16>::empty().push(0u16) =~= seq![0u16]);
    assert(hex_groups(seq![z]) == Some(seq![0u16]));
    assert(seq![0u16].push(0u16) =~= seq![0u16, 0u16]);
}

/// An IPv4 address in dotted-decimal form may end an IPv6 text after any
/// head of groups and `::`, not only after a bare `::`: the text stands for
/// the same groups as with `0:0` in its place, the last two groups then
/// being the address's, so its number is that of `head::0:0` plus the
/// IPv4 address's number; and where `head::0:0` is no IPv6 text, neither
/// is `head::` followed by the address.
pub proof fn law_ipv4_tail_after_any_head(head: Seq<char>, ip: Ipv4Octets)
    requires
        no_double_colon(head),
        head.len() > 0 ==> head.last() != ':',
    ensures
        ipv6_value(head + seq![':', ':'] + ipv4_text(ip)) == match ipv6_value(
            head + seq![':', ':', '0', ':', '0'],
        ) {
            Some(n) => Some((n + ipv4_number(ip)) as u128),
            None => None,
        },
        ipv6_value(head + seq![':', ':', '0', ':', '0']) matches Some(n) ==> n + ipv4_number(ip)
            < 0x1_0000_0000_0000_0000_0000_0000_0000_0000,
{
    let zz = seq!['0', ':', '0'];
    let v4 = ipv4_text(ip);
    let t0 = head + seq![':', ':'] + zz;
    let t1 = head + seq![':', ':'] + v4;
    let k = head.len() as int;
    lemma_dc_index_after_head(head, zz);
    lemma_dc_index_after_head(head, v4);
    assert(t0 == head + seq![':', ':', '0', ':', '0']);
    assert(t0.subrange(0, k) =~= head);
    assert(t1.subrange(0, k) =~= head);
    assert(t0.subrange(k + 2, t0.len() as int) =~= zz);
    assert(t1.subrange(k + 2, t1.len() as int) =~= v4);
    lemma_zero_pair_groups();
    lemma_v4_tail_groups(ip);
    let hg = groups_or_empty(head, false);
    if hg is Some && hg.unwrap().len() + 2 <= 7 {
        let h = hg.unwrap();
        let x = h + Seq::new((8 - h.len() - 2) as nat, |i: int| 0u16);
        let w = v4_groups(ip);
        let g0 = h + Seq::new((8 - h.len() - 2) as nat, |i: int| 0u16) + seq![0u16, 0u16];
        let g1 = h + Seq::new((8 - h.len() - 2) as nat, |i: int| 0u16) + w;
        assert(ipv6_groups(t0) == Some(g0));
        assert(ipv6_groups(t1) == Some(g1));
        assert(g0 =~= x.push(0u16).push(0u16));
        assert(g1 =~= x.push(w[0]).push(w[1]));
        lemma_groups_number_two_more(x, 0u16, 0u16);
        lemma_groups_number_two_more(x, w[0], w[1]);
        lemma_groups_number_bound(x);
        assert(x.len() == 6);
        assert(pow65536(6) == 0x1_0000_0000_0000_0000_0000_0000) by {
            reveal_with_fuel(pow65536, 7);
        }
        assert(w[0] as int == ip[0] as int * 256 + ip[1] as int);
        assert(w[1] as int == ip[2] as int * 256 + ip[3] as int);
        assert(w[0] as int * 65536 + w[1] as int == ipv4_number(ip));
        assert(ipv4_number(ip) < 0x1_0000_0000);
    }
}

/// Joining two texts without `::` by one colon makes none, where the first
/// does not end and the second does not begin with a colon.
proof fn lemma_join_no_double_colon(h: Seq<char>, x: Seq<char>)
    requires
        no_double_colon(h),
        no_double_colon(x),
        h.len() > 0 ==> h.last() != ':',
        x.len() > 0 ==> x[0] != ':',
    ensures
        no_double_colon(h + seq![':'] + x),
{
    let t = h + seq![':'] + x;
    let k = h.len() as int;
    assert forall|i: int| 0 <= i < t.len() - 1 implies !(#[trigger] t[i] == ':' && t[i + 1] == ':') by {
        if i < k - 1 {
            assert(t[i] == h[i] && t[i + 1] == h[i + 1]);
        } else if i == k - 1 {
            assert(t[i] == h.last());
        } else if i == k {
            assert(t[i + 1] == x[0]);
        } else {
            assert(t[i] == x[i - k - 1] && t[i + 1] == x[i - k]);
        }
    }
}

/// Splitting `a`, a separator and a text `b` without it gives the pieces of
/// `a` and then `b`.
proof fn lemma_split_on_join(a: Seq<char>, b: Seq<char>, sep: char)
    requires
        forall|i: int| 0 <= i < b.len() ==> b[i] != sep,
    ensures
        split_on(a + seq![sep] + b, sep) == split_on(a, sep).push(b),
    decreases b.len(),
{
    let t = a + seq![sep] + b;
    if b.len() == 0 {
        assert(t =~= a.push(sep));
        assert(t.drop_last() =~= a);
        assert(b =~= Seq::<char>::empty());
    } else {
        let d = b.drop_last();
        assert forall|i: int| 0 <= i < d.len() implies d[i] != sep by {
            assert(d[i] == b[i]);
        }
        lemma_split_on_join(a, d, sep);
        assert(t.drop_last() =~= a + seq![sep] + d);
        assert(t.last() == b[b.len() - 1]);
        let p = split_on(a, sep).push(d);
        assert(d.push(b.last()) =~= b);
        assert(p.update(p.len() - 1, p.last().push(t.last())) =~= split_on(a, sep).push(b));
    }
}

/// An IPv4 address in dotted-decimal form may also end an IPv6 text that
/// has no `::`: `head:` followed by the address stands for the same groups
/// as `head:0:0`, the last two then being the address's, so its number is
/// that of `head:0:0` plus the IPv4 address's number; and where `head:0:0`
/// is no IPv6 text, neither is `head:` followed by the address.
pub proof fn law_ipv4_tail_without_compression(head: Seq<char>, ip: Ipv4Octets)
    requires
        no_double_colon(head),
        head.len() > 0 ==> head.last() != ':',
    ensures
        ipv6_value(head + seq![':'] + ipv4_text(ip)) == match ipv6_value(
            head + seq![':', '0', ':', '0'],
        ) {
            Some(n) => Some((n + ipv4_number(ip)) as u128),
            None => None,
        },
        ipv6_value(head + seq![':', '0', ':', '0']) matches Some(n) ==> n + ipv4_number(ip)
            < 0x1_0000_0000_0000_0000_0000_0000_0000_0000,
{
    let v4 = ipv4_text(ip);
    let z = seq!['0'];
    let h0 = head + seq![':'] + z;
    let t0 = h0 + seq![':'] + z;
    let t1 = head + seq![':'] + v4;
    assert(t0 =~= head + seq![':', '0', ':', '0']);
    lemma_ipv4_text_shape(ip);
    assert(no_double_colon(z));
    assert(no_double_colon(v4));
    lemma_join_no_double_colon(head, z);
    assert(h0.last() == '0');
    lemma_join_no_double_colon(h0, z);
    lemma_join_no_double_colon(head, v4);
    lemma_dc_index_none(t0);
    lemma_dc_index_none(t1);
    lemma_split_on_join(head, z, ':');
    lemma_split_on_join(h0, z, ':');
    lemma_split_on_join(head, v4, ':');
    let ps = split_on(head, ':');
    let ps0 = ps.push(z).push(z);
    let ps1 = ps.push(v4);
    assert(split_on(t0, ':') == ps0);
    assert(split_on(t1, ':') == ps1);
    assert(ps0.drop_last() =~= ps.push(z));
    assert(ps.push(z).drop_last() =~= ps);
    assert(ps1.drop_last() =~= ps);
    assert(z.drop_last() =~= Seq::<char>::empty());
    assert(hex_digits_value(Seq::<char>::empty()) == 0);
    assert(hex_digits_value(z) == 0);
    assert(hex_group(z) == Some(0u16));
    assert(hex_group(v4) is None);
    assert(ps1.last() == v4);
    let c = choose|c: Ipv4Octets| ps1.last() == #[trigger] ipv4_text(c);
    lemma_ipv4_text_injective(c, ip);
    match hex_groups(ps) {
        Some(x) => {
            let w = v4_groups(ip);
            assert(groups_or_empty(t0, true) == Some(x.push(0u16).push(0u16)));
            assert(x + w =~= x.push(w[0]).push(w[1]));
            assert(groups_or_empty(t1, true) == Some(x + w));
            if x.len() == 6 {
                lemma_groups_number_two_more(x, 0u16, 0u16);
                lemma_groups_number_two_more(x, w[0], w[1]);
                lemma_groups_number_bound(x);
                assert(pow65536(6) == 0x1_0000_0000_0000_0000_0000_0000) by {
                    reveal_with_fuel(pow65536, 7);
                }
                assert(w[0] as int * 65536 + w[1] as int == ipv4_number(ip));
            }
        },
        None => {
            assert(groups_or_empty(t0, true) is None);
            assert(groups_or_empty(t1, true) is None);
        },
    }
}

/// Reads the hexadecimal group `v[a..b]`.
fn read_hex_group(v: &Vec<char>, a: usize, b: usize) -> (r: Option<u16>)
    requires
        a <= b <= v@.len(),
    ensures
        r == hex_group(v@.subrange(a as int, b as int)),
{
    let ghost w = v@.subrange(a as int, b as int);
    if b - a < 1 || b - a > 4 {
        return None;
    }
    let mut i: usize = a;
    let mut val: u32 = 0;
    while i < b
        invariant
            a <= i <= b,
            b - a <= 4,
            b <= v@.len(),
            w == v@.subrange(a as int, b as int),
            forall|j: int| 0 <= j < i - a ==> is_hex(#[trigger] w[j]),
            val == hex_digits_value(v@.subrange(a as int, i as int)),
            i - a == 0 ==> val == 0,
            i - a <= 1 ==> val < 16,
            i - a <= 2 ==> val < 256,
            i - a <= 3 ==> val < 4096,
            val < 65536,
        decreases b - i,
    {
        let c = v[i];
        let d: u32 = if '0' <= c && c <= '9' {
            c as u32 - 48
        } else if 'a' <= c && c <= 'f' {
            c as u32 - 87
        } else if 'A' <= c && c <= 'F' {
            c as u32 - 55
        } else {
            proof {
                assert(w[i - a] == c);
            }
            return None;
        };
        proof {
            let x = v@.subrange(a as int, i + 1);
            assert(x.drop_last() =~= v@.subrange(a as int, i as int));
            assert(x.last() == c);
            assert(w[i - a] == c);
        }
        val = val * 16 + d;
        i = i + 1;
    }
    assert(v@.subrange(a as int, b as int) == w);
    Some(val as u16)
}

/// The characters `v[a..b]`.
fn sub_chars(v: &Vec<char>, a: usize, b: usize) -> (r: Vec<char>)
    requires
        a <= b <= v@.len(),
    ensures
        r@ == v@.subrange(a as int, b as int),
{
    let mut r: Vec<char> = Vec::new();
    let mut i: usize = a;
    while i < b
        invariant
            a <= i <= b,
            b <= v@.len(),
            r@ == v@.subrange(a as int, i as int),
        decreases b - i,
    {
        r.push(v[i]);
        assert(r@ =~= v@.subrange(a as int, i + 1));
        i = i + 1;
    }
    r
}

/// The groups of the pieces `v[r.0..r.1]` for the ranges of `ranges`.
fn read_groups(v: &Vec<char>, ranges: &Vec<(usize, usize)>, v4_ok: bool) -> (r: Option<Vec<u16>>)
    requires
        forall|k: int| 0 <= k < ranges@.len() ==> (#[trigger] ranges@[k]).0 <= ranges@[k].1 <= v@.len(),
    ensures
        match r {
            Some(g) => groups_of(ranges@.map_values(|q: (usize, usize)| v@.subrange(q.0 as int, q.1 as int)), v4_ok) == Some(g@),
            None => groups_of(ranges@.map_values(|q: (usize, usize)| v@.subrange(q.0 as int, q.1 as int)), v4_ok) is None,
        },
{
    let ghost ps = ranges@.map_values(|q: (usize, usize)| v@.subrange(q.0 as int, q.1 as int));
    let n = ranges.len();
    if n == 0 {
        return None;
    }
    let mut g: Vec<u16> = Vec::new();
    let mut i: usize = 0;
    while i < n - 1
        invariant
            0 < n == ranges@.len(),
            i <= n - 1,
            ps == ranges@.map_values(|q: (usize, usize)| v@.subrange(q.0 as int, q.1 as int)),
            forall|k: int| 0 <= k < ranges@.len() ==> (#[trigger] ranges@[k]).0 <= ranges@[k].1 <= v@.len(),
            hex_groups(ps.take(i as int)) == Some(g@),
        decreases n - 1 - i,
    {
        proof {
            assert(ps.take(i + 1).drop_last() =~= ps.take(i as int));
            assert(ps.take(i + 1).last() == ps[i as int]);
        }
        let (a, b) = ranges[i];
        match read_hex_group(v, a, b) {
            Some(x) => {
                g.push(x);
            },
            None => {
                proof {
                    lemma_hex_groups_prefix_none(ps.drop_last(), i as int + 1);
                    assert(ps.drop_last().take(i + 1) =~= ps.take(i + 1));
                }
                return None;
            },
        }
        i = i + 1;
    }
    assert(ps.take(n - 1) =~= ps.drop_last());
    let (a, b) = ranges[n - 1];
    match read_hex_group(v, a, b) {
        Some(x) => {
            g.push(x);
            Some(g)
        },
        None => {
            if !v4_ok {
                return None;
            }
            let w = sub_chars(v, a, b);
            match parse_ipv4_chars(&w) {
                Some(ip) => {
                    proof {
                        let c = choose|c: Ipv4Octets| ps.last() == #[trigger] ipv4_text(c);
                        lemma_ipv4_text_injective(c, ip);
                    }
                    let hi: u16 = ip[0] as u16 * 256 + ip[1] as u16;
                    let lo: u16 = ip[2] as u16 * 256 + ip[3] as u16;
                    let ghost g0 = g@;
                    g.push(hi);
                    g.push(lo);
                    assert(g@ =~= g0 + v4_groups(ip));
                    Some(g)
                },
                None => None,
            }
        },
    }
}

/// Where a prefix of pieces has a piece that is no hexadecimal group, so
/// has every longer prefix.
proof fn lemma_hex_groups_prefix_none(ps: Seq<Seq<char>>, i: int)
    requires
        0 < i <= ps.len(),
        hex_groups(ps.take(i)) is None,
    ensures
        hex_groups(ps) is None,
    decreases ps.len() - i,
{
    if i < ps.len() {
        assert(ps.take(i + 1).drop_last() =~= ps.take(i));
        lemma_hex_groups_prefix_none(ps, i + 1);
    } else {
        assert(ps.take(i) =~= ps);
    }
}

/// The groups of `v[a..b]`, or none where it is empty.
fn read_groups_or_empty(v: &Vec<char>, a: usize, b: usize, v4_ok: bool) -> (r: Option<Vec<u16>>)
    requires
        a <= b <= v@.len(),
    ensures
        match r {
            Some(g) => groups_or_empty(v@.subrange(a as int, b as int), v4_ok) == Some(g@),
            None => groups_or_empty(v@.subrange(a as int, b as int), v4_ok) is None,
        },
{
    if a == b {
        return Some(Vec::new());
    }
    let ranges = split_ranges(v, a, b, ':');
    read_groups(v, &ranges, v4_ok)
}

/// The position of the first `::` in `v`, if any.
fn find_double_colon(v: &Vec<char>) -> (k: Option<usize>)
    ensures
        match k {
            Some(k) => dc_index(v@) == k && k + 2 <= v@.len(),
            None => dc_index(v@) < 0,
        },
{
    let len = v.len();
    let mut i: usize = 0;
    assert(v@.subrange(0, len as int) =~= v@);
    while i < len && len - i >= 2
        invariant
            len == v@.len(),
            i <= len,
            dc_index(v@) == (if dc_index(v@.subrange(i as int, len as int)) < 0 {
                -1
            } else {
                dc_index(v@.subrange(i as int, len as int)) + i
            }),
        decreases len - i,
    {
        let ghost w = v@.subrange(i as int, len as int);
        if v[i] == ':' && v[i + 1] == ':' {
            assert(w[0] == v@[i as int] && w[1] == v@[i + 1]);
            return Some(i);
        }
        proof {
            assert(w[0] == v@[i as int] && w[1] == v@[i + 1]);
            assert(w.drop_first() =~= v@.subrange(i + 1, len as int));
        }
        i = i + 1;
    }
    proof {
        assert(v@.subrange(i as int, len as int).len() < 2);
    }
    None
}

/// A power of 65536.
pub open spec fn pow65536(k: nat) -> int
    decreases k,
{
    if k == 0 {
        1
    } else {
        65536 * pow65536((k - 1) as nat)
    }
}

/// The number of eight groups.
fn number_of_groups(g: &Vec<u16>) -> (n: u128)
    requires
        g@.len() == 8,
    ensures
        n == groups_number(g@),
{
    let mut n: u128 = 0;
    let mut i: usize = 0;
    proof {
        assert(g@.take(0) =~= Seq::<u16>::empty());
    }
    while i < 8
        invariant
            i <= 8,
            g@.len() == 8,
            n == groups_number(g@.take(i as int)),
            n < pow65536(i as nat),
        decreases 8 - i,
    {
        proof {
            assert(g@.take(i + 1).drop_last() =~= g@.take(i as int));
            assert(g@.take(i + 1).last() == g@[i as int]);
            reveal_with_fuel(pow65536, 9);
            assert(pow65536((i + 1) as nat) <= 0x1_0000_0000_0000_0000_0000_0000_0000_0000);
        }
        n = n * 65536 + g[i] as u128;
        i = i + 1;
    }
    assert(g@.take(8) =~= g@);
    n
}

/// Reads an IPv6 address, as `Ipv6Addr`'s `FromStr` does, and gives its
/// 128-bit number.
pub fn parse_ipv6(s: &str) -> (r: Option<u128>)
    ensures
        r == ipv6_value(s@),
{
    let v = chars_of(s);
    let len = v.len();
    match find_double_colon(&v) {
        Some(k) => {
            let hg = read_groups_or_empty(&v, 0, k, false);
            let tg = read_groups_or_empty(&v, k + 2, len, true);
            match (hg, tg) {
                (Some(h), Some(t)) => {
                    if h.len() > 7 || t.len() > 7 - h.len() {
                        return None;
                    }
                    let mut all = h;
                    let zeros = 8 - all.len() - t.len();
                    let ghost hv = all@;
                    let mut z: usize = 0;
                    while z < zeros
                        invariant
                            z <= zeros,
                            all@ == hv + Seq::new(z as nat, |i: int| 0u16),
                        decreases zeros - z,
                    {
                        all.push(0);
                        assert(all@ =~= hv + Seq::new((z + 1) as nat, |i: int| 0u16));
                        z = z + 1;
                    }
                    let ghost mid = all@;
                    let mut j: usize = 0;
                    while j < t.len()
                        invariant
                            j <= t@.len(),
                            all@ == mid + t@.take(j as int),
                        decreases t@.len() - j,
                    {
                        all.push(t[j]);
                        assert(all@ =~= mid + t@.take(j + 1));
                        j = j + 1;
                    }
                    assert(t@.take(t@.len() as int) =~= t@);
                    Some(number_of_groups(&all))
                },
                _ => None,
            }
        },
        None => {
            match read_groups_or_empty(&v, 0, len, true) {
                Some(g) => {
                    assert(v@.subrange(0, len as int) =~= v@);
                    if g.len() == 8 {
                        Some(number_of_groups(&g))
                    } else {
                        None
                    }
                },
                None => {
                    assert(v@.subrange(0, len as int) =~= v@);
                    None
                },
            }
        },
    }
}

} // verus!
