use vstd::prelude::*;
use vstd::string::StringExecFns;
use crate::text::{decimal, digit_char, push_decimal, chars_of};

verus! {

/// An IPv4 address, as its four octets in network order.
pub type Ipv4Octets = [u8; 4];

/// The dotted-decimal text of an address, such as `192.168.0.1`.
pub open spec fn ipv4_text(ip: Ipv4Octets) -> Seq<char> {
    decimal(ip[0] as nat) + seq!['.'] + decimal(ip[1] as nat) + seq!['.'] + decimal(ip[2] as nat)
        + seq!['.'] + decimal(ip[3] as nat)
}

/// Whether a character is an ASCII decimal digit.
pub open spec fn is_digit(c: char) -> bool {
    '0' <= c <= '9'
}

/// The number a string of decimal digits denotes.
pub open spec fn digits_value(w: Seq<char>) -> int
    decreases w.len(),
{
    if w.len() == 0 {
        0
    } else {
        10 * digits_value(w.drop_last()) + (w.last() as int - 48)
    }
}

/// Whether all characters of `w` are decimal digits.
pub open spec fn all_digits(w: Seq<char>) -> bool {
    forall|i: int| 0 <= i < w.len() ==> is_digit(#[trigger] w[i])
}

/// The decimal text of a number consists of digits, and reads back as that number.
pub proof fn lemma_decimal_digits(n: nat)
    ensures
        decimal(n).len() >= 1,
        all_digits(decimal(n)),
        digits_value(decimal(n)) == n,
        n < 10 ==> decimal(n).len() == 1,
        10 <= n < 100 ==> decimal(n).len() == 2,
        100 <= n < 1000 ==> decimal(n).len() == 3,
        decimal(n).len() > 1 ==> decimal(n)[0] != '0',
    decreases n,
{
    let d = decimal(n);
    if n < 10 {
        assert(d.drop_last() =~= Seq::<char>::empty());
        assert(digits_value(d.drop_last()) == 0);
    } else {
        lemma_decimal_digits(n / 10);
        assert(d.drop_last() =~= decimal(n / 10));
        assert(digits_value(d) == 10 * digits_value(d.drop_last()) + (d.last() as int - 48));
        assert(d[0] == decimal(n / 10)[0]);
        if decimal(n / 10).len() == 1 {
            assert(n / 10 < 10) by {
                if n / 10 >= 10 {
                    lemma_decimal_digits(n / 10 / 10);
                }
            }
        }
    }
}

/// Two numbers with the same decimal text are equal.
pub proof fn lemma_decimal_injective(a: nat, b: nat)
    requires
        decimal(a) == decimal(b),
    ensures
        a == b,
{
    lemma_decimal_digits(a);
    lemma_decimal_digits(b);
}

/// A digit string with a non-zero first digit has a positive value.
proof fn lemma_digits_value_positive(w: Seq<char>)
    requires
        w.len() >= 1,
        all_digits(w),
        w[0] != '0',
    ensures
        digits_value(w) >= 1,
    decreases w.len(),
{
    assert(digits_value(w) == 10 * digits_value(w.drop_last()) + (w.last() as int - 48));
    if w.len() == 1 {
        assert(w.drop_last() =~= Seq::<char>::empty());
        assert(digits_value(w.drop_last()) == 0);
        assert(is_digit(w[0]));
    } else {
        assert(w.drop_last()[0] == w[0]);
        lemma_digits_value_positive(w.drop_last());
        assert(digits_value(w.drop_last()) >= 0) by {
            lemma_digits_value_nonneg(w.drop_last());
        }
    }
}

/// A digit string denotes a non-negative number.
proof fn lemma_digits_value_nonneg(w: Seq<char>)
    requires
        all_digits(w),
    ensures
        digits_value(w) >= 0,
    decreases w.len(),
{
    if w.len() > 0 {
        lemma_digits_value_nonneg(w.drop_last());
    }
}

/// A non-empty digit string without a leading zero (unless it is the single
/// digit `0`) is the decimal text of its value.
pub proof fn lemma_canonical_digits(w: Seq<char>)
    requires
        w.len() >= 1,
        all_digits(w),
        w.len() > 1 ==> w[0] != '0',
    ensures
        digits_value(w) >= 0,
        w == decimal(digits_value(w) as nat),
    decreases w.len(),
{
    lemma_digits_value_nonneg(w);
    assert(digits_value(w) == 10 * digits_value(w.drop_last()) + (w.last() as int - 48));
    if w.len() == 1 {
        assert(w.drop_last() =~= Seq::<char>::empty());
        assert(digits_value(w.drop_last()) == 0);
        assert(is_digit(w[0]));
        assert(w =~= seq![digit_char(digits_value(w) as nat)]);
    } else {
        let p = w.drop_last();
        assert(p[0] == w[0]);
        lemma_canonical_digits(p);
        lemma_digits_value_positive(p);
        let n = digits_value(w) as nat;
        assert(n >= 10);
        assert(n / 10 == digits_value(p));
        assert(n % 10 == w.last() as int - 48);
        assert(w =~= decimal(n / 10).push(digit_char(n % 10)));
    }
}

/// If the decimal texts of `a` and `b` both start at `p` in `w`, and each is
/// followed by a non-digit or the end, then `a == b`.
pub proof fn lemma_decimal_at_unique(w: Seq<char>, p: int, a: nat, b: nat)
    requires
        0 <= p,
        decimal_at(w, p, a),
        decimal_at(w, p, b),
    ensures
        a == b,
{
    lemma_decimal_digits(a);
    lemma_decimal_digits(b);
    let la = decimal(a).len() as int;
    let lb = decimal(b).len() as int;
    if la < lb {
        assert(w[p + la] == decimal(b)[la]);
    } else if lb < la {
        assert(w[p + lb] == decimal(a)[lb]);
    }
    assert(w.subrange(p, p + la) == decimal(a));
    lemma_decimal_injective(a, b);
}

/// The decimal text of `n` stands in `w` at position `p`, followed by a
/// non-digit or by the end of `w`.
pub open spec fn decimal_at(w: Seq<char>, p: int, n: nat) -> bool {
    let e = p + decimal(n).len();
    &&& e <= w.len()
    &&& w.subrange(p, e) == decimal(n)
    &&& (e == w.len() || !is_digit(w[e]))
}

/// Reads the decimal octet that starts at `pos`: the longest run of digits
/// there, which must have one to three digits, no leading zero unless it is
/// `0`, and a value of at most 255.
fn read_octet(v: &Vec<char>, pos: usize) -> (r: Option<(u8, usize)>)
    requires
        pos <= v.len(),
    ensures
        match r {
            Some((o, e)) => e == pos + decimal(o as nat).len() && decimal_at(v@, pos as int, o as nat),
            None => forall|o: u8| !decimal_at(v@, pos as int, o as nat),
        },
{
    let len = v.len();
    let mut i: usize = pos;
    let mut val: u64 = 0;
    while i < len && i - pos < 4 && '0' <= v[i] && v[i] <= '9'
        invariant
            pos <= i <= len,
            len == v.len(),
            i - pos <= 4,
            all_digits(v@.subrange(pos as int, i as int)),
            val == digits_value(v@.subrange(pos as int, i as int)),
            val < 10000,
            i - pos <= 3 ==> val < 1000,
            i - pos <= 2 ==> val < 100,
            i - pos <= 1 ==> val < 10,
            i - pos == 0 ==> val == 0,
        decreases len - i,
    {
        proof {
            let w = v@.subrange(pos as int, i as int + 1);
            assert(w.drop_last() =~= v@.subrange(pos as int, i as int));
            assert(digits_value(w) == 10 * digits_value(w.drop_last()) + (w.last() as int - 48));
            assert(is_digit(w.last()));
            assert(w.last() == v@[i as int]);
        }
        let d = v[i] as u64 - 48;
        val = val * 10 + d;
        i = i + 1;
    }
    let run = i - pos;
    let ghost w = v@.subrange(pos as int, i as int);
    if run == 0 || run > 3 || (run > 1 && v[pos] == '0') || val > 255 {
        proof {
            assert forall|o: u8| !decimal_at(v@, pos as int, o as nat) by {
                if decimal_at(v@, pos as int, o as nat) {
                    lemma_decimal_digits(o as nat);
                    let d = decimal(o as nat);
                    let e = pos + d.len();
                    assert(d.len() <= 3);
                    if e < i {
                        assert(is_digit(w[e - pos]));
                        assert(v@[e] == w[e - pos]);
                    } else if e > i {
                        assert(v@[i as int] == d[i - pos]);
                        assert(is_digit(d[i - pos]));
                        assert(run < 4);
                    }
                    assert(e == i);
                    assert(d =~= w);
                    if run > 1 {
                        assert(d[0] == v@[pos as int]);
                    }
                }
            }
        }
        None
    } else {
        proof {
            lemma_canonical_digits(w);
            lemma_decimal_digits(val as nat);
        }
        Some((val as u8, i))
    }
}

/// The dotted-decimal text of an IPv4 address, as written in responses.
pub fn format_ipv4(ip: Ipv4Octets) -> (s: String)
    ensures
        s@ == ipv4_text(ip),
{
    let mut s = String::new();
    proof {
        reveal_strlit(".");
    }
    push_decimal(&mut s, ip[0] as u64);
    s.append(".");
    push_decimal(&mut s, ip[1] as u64);
    s.append(".");
    push_decimal(&mut s, ip[2] as u64);
    s.append(".");
    push_decimal(&mut s, ip[3] as u64);
    s
}

/// The text of the first `k` octets of `o`, each followed by a dot.
pub open spec fn group_prefix(o: Seq<u8>, k: nat) -> Seq<char>
    decreases k,
{
    if k == 0 {
        Seq::empty()
    } else {
        group_prefix(o, (k - 1) as nat) + decimal(o[k - 1] as nat) + seq!['.']
    }
}

/// The text that follows octet `k` in the dotted-decimal text of `o`.
pub open spec fn group_suffix(o: Seq<u8>, k: nat) -> Seq<char>
    decreases 3 - k,
{
    if k >= 3 {
        Seq::empty()
    } else {
        seq!['.'] + decimal(o[k + 1int] as nat) + group_suffix(o, k + 1)
    }
}

/// The group prefix depends on the first `k` octets only.
proof fn lemma_group_prefix_take(o1: Seq<u8>, o2: Seq<u8>, k: nat)
    requires
        k <= o1.len(),
        k <= o2.len(),
        o1.take(k as int) == o2.take(k as int),
    ensures
        group_prefix(o1, k) == group_prefix(o2, k),
    decreases k,
{
    if k > 0 {
        assert(o1.take(k - 1) =~= o1.take(k as int).take(k - 1));
        assert(o2.take(k - 1) =~= o2.take(k as int).take(k - 1));
        assert(o1[k - 1] == o1.take(k as int)[k - 1]);
        assert(o2[k - 1] == o2.take(k as int)[k - 1]);
        lemma_group_prefix_take(o1, o2, (k - 1) as nat);
    }
}

/// The dotted-decimal text splits around each of its octets.
proof fn lemma_text_split(ip: Ipv4Octets, k: nat)
    requires
        k <= 3,
    ensures
        ipv4_text(ip) == group_prefix(ip@, k) + decimal(ip[k as int] as nat) + group_suffix(ip@, k),
        k < 3 ==> group_suffix(ip@, k).len() >= 1 && group_suffix(ip@, k)[0] == '.',
{
    let o = ip@;
    let d0 = decimal(ip[0] as nat);
    let d1 = decimal(ip[1] as nat);
    let d2 = decimal(ip[2] as nat);
    let d3 = decimal(ip[3] as nat);
    let dot = seq!['.'];
    assert(group_prefix(o, 0) == Seq::<char>::empty());
    assert(group_prefix(o, 1) == group_prefix(o, 0) + d0 + dot);
    assert(group_prefix(o, 2) == group_prefix(o, 1) + d1 + dot);
    assert(group_prefix(o, 3) == group_prefix(o, 2) + d2 + dot);
    assert(group_suffix(o, 3) == Seq::<char>::empty());
    assert(group_suffix(o, 2) == dot + d3 + group_suffix(o, 3));
    assert(group_suffix(o, 1) == dot + d2 + group_suffix(o, 2));
    assert(group_suffix(o, 0) == dot + d1 + group_suffix(o, 1));
    if k == 0 {
        assert(ipv4_text(ip) =~= group_prefix(o, 0) + d0 + group_suffix(o, 0));
    } else if k == 1 {
        assert(ipv4_text(ip) =~= group_prefix(o, 1) + d1 + group_suffix(o, 1));
    } else if k == 2 {
        assert(ipv4_text(ip) =~= group_prefix(o, 2) + d2 + group_suffix(o, 2));
    } else {
        assert(ipv4_text(ip) =~= group_prefix(o, 3) + d3 + group_suffix(o, 3));
    }
}

/// Where `w` is the text of `ip` and its first `k` groups are `prefix`, the
/// decimal text of octet `k` stands right after `prefix`.
proof fn lemma_octet_at(w: Seq<char>, ip: Ipv4Octets, k: nat)
    requires
        k <= 3,
        w == ipv4_text(ip),
    ensures
        decimal_at(w, group_prefix(ip@, k).len() as int, ip[k as int] as nat),
        k < 3 ==> w[group_prefix(ip@, k).len() + decimal(ip[k as int] as nat).len() as int] == '.',
        k < 3 ==> group_prefix(ip@, k).len() + decimal(ip[k as int] as nat).len() < w.len(),
        k == 3 ==> w.len() == group_prefix(ip@, k).len() + decimal(ip[k as int] as nat).len(),
{
    lemma_text_split(ip, k);
    let p = group_prefix(ip@, k);
    let d = decimal(ip[k as int] as nat);
    let t = group_suffix(ip@, k);
    assert(w.subrange(p.len() as int, p.len() + d.len() as int) =~= d);
    if k < 3 {
        assert(w[p.len() + d.len() as int] == t[0]);
    }
}

/// Reads an IPv4 address in dotted-decimal form from characters; see
/// `parse_ipv4`.
pub fn parse_ipv4_chars(v: &Vec<char>) -> (r: Option<Ipv4Octets>)
    ensures
        match r {
            Some(ip) => v@ == ipv4_text(ip),
            None => forall|ip: Ipv4Octets| v@ != ipv4_text(ip),
        },
{
    let len = v.len();
    let mut o: Vec<u8> = Vec::new();
    let mut pos: usize = 0;
    let mut k: usize = 0;
    while k < 3
        invariant
            k <= 3,
            o@.len() == k,
            pos <= len,
            len == v.len(),
            v@.subrange(0, pos as int) == group_prefix(o@, k as nat),
            forall|ip: Ipv4Octets| v@ == ipv4_text(ip) ==> o@ == (#[trigger] ip@).take(k as int),
        decreases 3 - k,
    {
        let ghost old_o = o@;
        let ghost old_pos = pos;
        proof {
            assert forall|ip: Ipv4Octets| v@ == ipv4_text(ip) implies group_prefix(ip@, k as nat).len() == pos
                && decimal_at(v@, pos as int, ip[k as int] as nat) && v@[pos + decimal(ip[k as int] as nat).len()] == '.' by {
                assert(o@.take(k as int) =~= o@);
                lemma_group_prefix_take(o@, ip@, k as nat);
                lemma_octet_at(v@, ip, k as nat);
            }
        }
        match read_octet(v, pos) {
            None => {
                return None;
            },
            Some((b, e)) => {
                if e >= len || v[e] != '.' {
                    proof {
                        assert forall|ip: Ipv4Octets| v@ != ipv4_text(ip) by {
                            if v@ == ipv4_text(ip) {
                                assert(o@.take(k as int) =~= o@);
                                lemma_group_prefix_take(o@, ip@, k as nat);
                                lemma_octet_at(v@, ip, k as nat);
                                lemma_decimal_at_unique(v@, pos as int, b as nat, ip[k as int] as nat);
                            }
                        }
                    }
                    return None;
                }
                proof {
                    assert forall|ip: Ipv4Octets| v@ == ipv4_text(ip) implies ip[k as int] == b by {
                        lemma_decimal_at_unique(v@, pos as int, b as nat, ip[k as int] as nat);
                    }
                }
                o.push(b);
                pos = e + 1;
                k = k + 1;
                proof {
                    assert(o@.take(k - 1) =~= old_o);
                    assert(old_o.take(k - 1) =~= old_o);
                    lemma_group_prefix_take(o@, old_o, (k - 1) as nat);
                    assert(group_prefix(o@, k as nat) == group_prefix(o@, (k - 1) as nat) + decimal(b as nat) + seq!['.']);
                    assert(v@.subrange(0, pos as int) =~= v@.subrange(0, old_pos as int) + v@.subrange(old_pos as int, e as int) + seq!['.']);
                    assert forall|ip: Ipv4Octets| v@ == ipv4_text(ip) implies o@ == (#[trigger] ip@).take(k as int) by {
                        assert(ip[k - 1] == b);
                        assert(o@ =~= ip@.take(k as int));
                    }
                }
            },
        }
    }
    proof {
        assert forall|ip: Ipv4Octets| v@ == ipv4_text(ip) implies group_prefix(ip@, 3).len() == pos
            && decimal_at(v@, pos as int, ip[3] as nat) && v@.len() == pos + decimal(ip[3] as nat).len() by {
            assert(o@.take(3) =~= o@);
            lemma_group_prefix_take(o@, ip@, 3);
            lemma_octet_at(v@, ip, 3);
        }
    }
    match read_octet(v, pos) {
        None => None,
        Some((b, e)) => {
            if e != len {
                proof {
                    assert forall|ip: Ipv4Octets| v@ != ipv4_text(ip) by {
                        if v@ == ipv4_text(ip) {
                            lemma_decimal_at_unique(v@, pos as int, b as nat, ip[3] as nat);
                        }
                    }
                }
                None
            } else {
                let ip: Ipv4Octets = [o[0], o[1], o[2], b];
                proof {
                    assert(ip@.take(3) =~= o@);
                    assert(o@.take(3) =~= o@);
                    lemma_group_prefix_take(ip@, o@, 3);
                    lemma_text_split(ip, 3);
                    assert(v@ =~= v@.subrange(0, pos as int) + v@.subrange(pos as int, e as int));
                    assert(group_suffix(ip@, 3) == Seq::<char>::empty());
                    assert(v@ =~= ipv4_text(ip));
                }
                Some(ip)
            }
        },
    }
}

/// Reads an IPv4 address in dotted-decimal form: four decimal octets of one
/// to three digits each, without leading zeros, at most 255, separated by
/// dots, and nothing else. The accepted texts are exactly those that
/// `format_ipv4` writes.
pub fn parse_ipv4(s: &str) -> (r: Option<Ipv4Octets>)
    ensures
        match r {
            Some(ip) => s@ == ipv4_text(ip),
            None => forall|ip: Ipv4Octets| s@ != ipv4_text(ip),
        },
{
    let v = chars_of(s);
    parse_ipv4_chars(&v)
}

/// The address as an unsigned 32-bit big-endian number.
pub open spec fn ipv4_number(ip: Ipv4Octets) -> int {
    ip[0] as int * 16777216 + ip[1] as int * 65536 + ip[2] as int * 256 + ip[3] as int
}

/// The address as a signed 32-bit big-endian number, as the database stores it.
pub open spec fn ipv4_stored(ip: Ipv4Octets) -> int {
    if ipv4_number(ip) >= 2147483648 {
        ipv4_number(ip) - 4294967296
    } else {
        ipv4_number(ip)
    }
}

/// The octets of a stored signed 32-bit big-endian number.
pub open spec fn octets_of_stored(v: i32) -> Ipv4Octets {
    let n: int = if v < 0 {
        v + 4294967296
    } else {
        v as int
    };
    [(n / 16777216) as u8, (n / 65536 % 256) as u8, (n / 256 % 256) as u8, (n % 256) as u8]
}

/// The signed 32-bit big-endian number of an address.
pub fn i32_from_octets(ip: Ipv4Octets) -> (v: i32)
    ensures
        v == ipv4_stored(ip),
{
    let n: i64 = ip[0] as i64 * 16777216 + ip[1] as i64 * 65536 + ip[2] as i64 * 256 + ip[3] as i64;
    if n >= 2147483648 {
        (n - 4294967296) as i32
    } else {
        n as i32
    }
}

/// The address whose signed 32-bit big-endian number is `v`.
pub fn octets_from_i32(v: i32) -> (ip: Ipv4Octets)
    ensures
        ip == octets_of_stored(v),
{
    let n: i64 = if v < 0 {
        v as i64 + 4294967296
    } else {
        v as i64
    };
    [(n / 16777216) as u8, (n / 65536 % 256) as u8, (n / 256 % 256) as u8, (n % 256) as u8]
}

/// Storing an address as a number and reading it back gives the address.
pub proof fn lemma_stored_round_trip(ip: Ipv4Octets)
    ensures
        octets_of_stored(ipv4_stored(ip) as i32) == ip,
{
    let n = ipv4_number(ip);
    let a = ip[0] as int;
    let b = ip[1] as int;
    let c = ip[2] as int;
    let d = ip[3] as int;
    assert(n / 16777216 == a) by (nonlinear_arith)
        requires n == a * 16777216 + b * 65536 + c * 256 + d, 0 <= a < 256, 0 <= b < 256, 0 <= c < 256, 0 <= d < 256;
    assert(n / 65536 % 256 == b) by (nonlinear_arith)
        requires n == a * 16777216 + b * 65536 + c * 256 + d, 0 <= a < 256, 0 <= b < 256, 0 <= c < 256, 0 <= d < 256;
    assert(n / 256 % 256 == c) by (nonlinear_arith)
        requires n == a * 16777216 + b * 65536 + c * 256 + d, 0 <= a < 256, 0 <= b < 256, 0 <= c < 256, 0 <= d < 256;
    assert(n % 256 == d) by (nonlinear_arith)
        requires n == a * 16777216 + b * 65536 + c * 256 + d, 0 <= a < 256, 0 <= b < 256, 0 <= c < 256, 0 <= d < 256;
    let r = octets_of_stored(ipv4_stored(ip) as i32);
    assert(r[0] == ip[0] && r[1] == ip[1] && r[2] == ip[2] && r[3] == ip[3]);
    assert(r@ =~= ip@);
}

/// Reading a stored number as an address and storing it again gives the number.
pub proof fn lemma_octets_round_trip(v: i32)
    ensures
        ipv4_stored(octets_of_stored(v)) == v,
{
    let n: int = if v < 0 {
        v + 4294967296
    } else {
        v as int
    };
    let ip = octets_of_stored(v);
    assert(0 <= n < 4294967296);
    assert(ip[0] as int * 16777216 + ip[1] as int * 65536 + ip[2] as int * 256 + ip[3] as int == n)
        by (nonlinear_arith)
        requires
            0 <= n < 4294967296,
            ip[0] as int == n / 16777216,
            ip[1] as int == n / 65536 % 256,
            ip[2] as int == n / 256 % 256,
            ip[3] as int == n % 256,
    ;
}

/// Two addresses with the same text agree on their first `k` octets.
proof fn lemma_same_text_prefix(a: Ipv4Octets, b: Ipv4Octets, k: nat)
    requires
        k <= 4,
        ipv4_text(a) == ipv4_text(b),
    ensures
        a@.take(k as int) == b@.take(k as int),
    decreases k,
{
    if k > 0 {
        let j = (k - 1) as nat;
        lemma_same_text_prefix(a, b, j);
        let w = ipv4_text(a);
        lemma_group_prefix_take(a@, b@, j);
        lemma_octet_at(w, a, j);
        lemma_octet_at(w, b, j);
        lemma_decimal_at_unique(w, group_prefix(a@, j).len() as int, a[j as int] as nat, b[j as int] as nat);
        assert(a@.take(k as int) =~= a@.take(j as int).push(a[j as int]));
        assert(b@.take(k as int) =~= b@.take(j as int).push(b[j as int]));
    }
}

/// The dotted-decimal text of an address is at least seven characters long
/// and holds no colon.
pub proof fn lemma_ipv4_text_shape(ip: Ipv4Octets)
    ensures
        ipv4_text(ip).len() >= 7,
        forall|i: int| 0 <= i < ipv4_text(ip).len() ==> #[trigger] ipv4_text(ip)[i] != ':',
{
    lemma_decimal_digits(ip[0] as nat);
    lemma_decimal_digits(ip[1] as nat);
    lemma_decimal_digits(ip[2] as nat);
    lemma_decimal_digits(ip[3] as nat);
    let d0 = decimal(ip[0] as nat);
    let d1 = decimal(ip[1] as nat);
    let d2 = decimal(ip[2] as nat);
    let d3 = decimal(ip[3] as nat);
    assert forall|i: int| 0 <= i < ipv4_text(ip).len() implies #[trigger] ipv4_text(ip)[i] != ':' by {
        let t = ipv4_text(ip);
        let n0 = d0.len() as int;
        let n1 = n0 + 1 + d1.len();
        let n2 = n1 + 1 + d2.len();
        if i < n0 {
            assert(t[i] == d0[i]);
            assert(is_digit(d0[i]));
        } else if i == n0 || i == n1 || i == n2 {
            assert(t[i] == '.');
        } else if i < n1 {
            assert(t[i] == d1[i - n0 - 1]);
            assert(is_digit(d1[i - n0 - 1]));
        } else if i < n2 {
            assert(t[i] == d2[i - n1 - 1]);
            assert(is_digit(d2[i - n1 - 1]));
        } else {
            assert(t[i] == d3[i - n2 - 1]);
            assert(is_digit(d3[i - n2 - 1]));
        }
    }
}

/// Different addresses have different dotted-decimal texts, so reading the
/// text that `format_ipv4` writes gives back the same address.
pub proof fn lemma_ipv4_text_injective(a: Ipv4Octets, b: Ipv4Octets)
    requires
        ipv4_text(a) == ipv4_text(b),
    ensures
        a == b,
{
    lemma_same_text_prefix(a, b, 4);
    assert(a@ =~= a@.take(4));
    assert(b@ =~= b@.take(4));
}

} // verus!
