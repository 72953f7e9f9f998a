use vstd::prelude::*;
use vstd::string::{StringExecFns, StrSliceExecFns};

verus! {

/// The character of a decimal digit.
pub open spec fn digit_char(d: nat) -> char {
    (d + 48) as char
}

/// The decimal text of a number, without sign or leading zeros.
pub open spec fn decimal(n: nat) -> Seq<char>
    decreases n,
{
    if n < 10 {
        seq![digit_char(n)]
    } else {
        decimal(n / 10).push(digit_char(n % 10))
    }
}

/// The text of one decimal digit.
fn digit_str(d: u64) -> (r: &'static str)
    requires
        d < 10,
    ensures
        r@ == seq![digit_char(d as nat)],
{
    proof {
        reveal_strlit("0");
        reveal_strlit("1");
        reveal_strlit("2");
        reveal_strlit("3");
        reveal_strlit("4");
        reveal_strlit("5");
        reveal_strlit("6");
        reveal_strlit("7");
        reveal_strlit("8");
        reveal_strlit("9");
    }
    if d == 0 {
        "0"
    } else if d == 1 {
        "1"
    } else if d == 2 {
        "2"
    } else if d == 3 {
        "3"
    } else if d == 4 {
        "4"
    } else if d == 5 {
        "5"
    } else if d == 6 {
        "6"
    } else if d == 7 {
        "7"
    } else if d == 8 {
        "8"
    } else {
        "9"
    }
}

/// Appends the decimal text of `n` to `s`.
pub fn push_decimal(s: &mut String, n: u64)
    ensures
        final(s)@ == old(s)@ + decimal(n as nat),
    decreases n,
{
    if n >= 10 {
        push_decimal(s, n / 10);
    }
    s.append(digit_str(n % 10));
}

/// The characters of a string, one by one.
pub fn chars_of(s: &str) -> (v: Vec<char>)
    ensures
        v@ == s@,
{
    let mut v: Vec<char> = Vec::new();
    for c in it: s.chars()
        invariant
            v@ == it.seq().take(it.index() as int),
    {
        v.push(c);
    }
    v
}

/// Whether two strings have the same characters.
pub fn str_eq(a: &str, b: &str) -> (r: bool)
    ensures
        r == (a@ == b@),
{
    let x = chars_of(a);
    let y = chars_of(b);
    if x.len() != y.len() {
        return false;
    }
    let mut i: usize = 0;
    while i < x.len()
        invariant
            i <= x@.len(),
            x@.len() == y@.len(),
            x@ == a@,
            y@ == b@,
            forall|j: int| 0 <= j < i ==> x@[j] == y@[j],
        decreases x@.len() - i,
    {
        if x[i] != y[i] {
            return false;
        }
        i = i + 1;
    }
    assert(x@ =~= y@);
    true
}

/// Whether a character has the Unicode `White_Space` property, which is what
/// `char::is_whitespace` tests.
pub open spec fn is_white_space(c: char) -> bool {
    let n = c as u32;
    (0x9 <= n <= 0xD) || n == 0x20 || n == 0x85 || n == 0xA0 || n == 0x1680 || (0x2000 <= n
        <= 0x200A) || n == 0x2028 || n == 0x2029 || n == 0x202F || n == 0x205F || n == 0x3000
}

/// Whether a character has the Unicode `White_Space` property.
pub fn is_white_space_char(c: char) -> (r: bool)
    ensures
        r == is_white_space(c),
{
    let n = c as u32;
    (0x9 <= n && n <= 0xD) || n == 0x20 || n == 0x85 || n == 0xA0 || n == 0x1680 || (0x2000 <= n
        && n <= 0x200A) || n == 0x2028 || n == 0x2029 || n == 0x202F || n == 0x205F || n == 0x3000
}

/// `t` without its leading white space.
pub open spec fn trim_start(t: Seq<char>) -> Seq<char>
    decreases t.len(),
{
    if t.len() > 0 && is_white_space(t[0]) {
        trim_start(t.drop_first())
    } else {
        t
    }
}

/// `t` without its trailing white space.
pub open spec fn trim_end(t: Seq<char>) -> Seq<char>
    decreases t.len(),
{
    if t.len() > 0 && is_white_space(t.last()) {
        trim_end(t.drop_last())
    } else {
        t
    }
}

/// `t` without leading and trailing white space, as `str::trim` gives it.
pub open spec fn trimmed(t: Seq<char>) -> Seq<char> {
    trim_end(trim_start(t))
}

/// The text without its leading and trailing white space.
pub fn trim(s: &str) -> (r: &str)
    ensures
        r@ == trimmed(s@),
{
    let v = chars_of(s);
    let len = v.len();
    let mut i: usize = 0;
    assert(s@.subrange(0, len as int) =~= s@);
    while i < len && is_white_space_char(v[i])
        invariant
            i <= len,
            len == v@.len(),
            v@ == s@,
            trim_start(s@) == trim_start(s@.subrange(i as int, len as int)),
        decreases len - i,
    {
        proof {
            let w = s@.subrange(i as int, len as int);
            assert(w.drop_first() =~= s@.subrange(i + 1, len as int));
        }
        i = i + 1;
    }
    let mut j: usize = len;
    proof {
        let w = s@.subrange(i as int, len as int);
        assert(trim_start(w) == w);
    }
    while j > i && is_white_space_char(v[j - 1])
        invariant
            i <= j <= len,
            len == v@.len(),
            v@ == s@,
            trim_start(s@) == s@.subrange(i as int, len as int),
            trim_end(s@.subrange(i as int, len as int)) == trim_end(s@.subrange(i as int, j as int)),
        decreases j - i,
    {
        proof {
            let w = s@.subrange(i as int, j as int);
            assert(w.drop_last() =~= s@.subrange(i as int, j - 1));
        }
        j = j - 1;
    }
    proof {
        let w = s@.subrange(i as int, j as int);
        assert(trim_end(w) == w);
    }
    s.substring_char(i, j)
}

/// The pieces of `t` between separators `sep`, as `str::split(sep)` gives
/// them: one more piece than there are separators, empty pieces included.
pub open spec fn split_on(t: Seq<char>, sep: char) -> Seq<Seq<char>>
    decreases t.len(),
{
    if t.len() == 0 {
        seq![Seq::empty()]
    } else {
        let p = split_on(t.drop_last(), sep);
        if t.last() == sep {
            p.push(Seq::empty())
        } else {
            p.update(p.len() - 1, p.last().push(t.last()))
        }
    }
}

/// The pieces of `t` between commas.
pub open spec fn split_commas(t: Seq<char>) -> Seq<Seq<char>> {
    split_on(t, ',')
}

/// The split of a text has at least one piece.
pub proof fn lemma_split_on_nonempty(t: Seq<char>, sep: char)
    ensures
        split_on(t, sep).len() >= 1,
    decreases t.len(),
{
    if t.len() > 0 {
        lemma_split_on_nonempty(t.drop_last(), sep);
    }
}

/// The pieces of `v[from..to]` between separators `sep`, as index ranges.
pub fn split_ranges(v: &Vec<char>, from: usize, to: usize, sep: char) -> (ranges: Vec<(usize, usize)>)
    requires
        from <= to <= v@.len(),
    ensures
        forall|k: int| 0 <= k < ranges@.len() ==> from <= (#[trigger] ranges@[k]).0 <= ranges@[k].1 <= to,
        ranges@.map_values(|r: (usize, usize)| v@.subrange(r.0 as int, r.1 as int)) == split_on(
            v@.subrange(from as int, to as int),
            sep,
        ),
{
    let mut ranges: Vec<(usize, usize)> = Vec::new();
    let mut start: usize = from;
    let mut i: usize = from;
    proof {
        assert(v@.subrange(from as int, from as int) =~= Seq::<char>::empty());
        assert(ranges@.map_values(|r: (usize, usize)| v@.subrange(r.0 as int, r.1 as int)).push(
            v@.subrange(from as int, from as int),
        ) =~= seq![Seq::<char>::empty()]);
    }
    while i < to
        invariant
            from <= start <= i <= to,
            to <= v@.len(),
            forall|k: int| 0 <= k < ranges@.len() ==> from <= (#[trigger] ranges@[k]).0 <= ranges@[k].1 <= to,
            ranges@.map_values(|r: (usize, usize)| v@.subrange(r.0 as int, r.1 as int)).push(
                v@.subrange(start as int, i as int),
            ) == split_on(v@.subrange(from as int, i as int), sep),
        decreases to - i,
    {
        let ghost before = ranges@.map_values(|r: (usize, usize)| v@.subrange(r.0 as int, r.1 as int));
        proof {
            let w = v@.subrange(from as int, i + 1);
            assert(w.drop_last() =~= v@.subrange(from as int, i as int));
            assert(w.last() == v@[i as int]);
            lemma_split_on_nonempty(v@.subrange(from as int, i as int), sep);
        }
        if v[i] == sep {
            let ghost s0 = start;
            ranges.push((start, i));
            start = i + 1;
            proof {
                assert(ranges@.map_values(|r: (usize, usize)| v@.subrange(r.0 as int, r.1 as int)) =~= before.push(
                    v@.subrange(s0 as int, i as int),
                ));
                assert(v@.subrange(start as int, i + 1) =~= Seq::<char>::empty());
            }
        } else {
            proof {
                let q = before.push(v@.subrange(start as int, i as int));
                assert(v@.subrange(start as int, i + 1) =~= v@.subrange(start as int, i as int).push(v@[i as int]));
                assert(q.update(q.len() - 1, q.last().push(v@[i as int])) =~= before.push(
                    v@.subrange(start as int, i + 1),
                ));
            }
        }
        i = i + 1;
    }
    let ghost before = ranges@.map_values(|r: (usize, usize)| v@.subrange(r.0 as int, r.1 as int));
    ranges.push((start, to));
    proof {
        assert(ranges@.map_values(|r: (usize, usize)| v@.subrange(r.0 as int, r.1 as int)) =~= before.push(
            v@.subrange(start as int, to as int),
        ));
    }
    ranges
}

/// The pieces of a text between separators `sep`.
pub fn split_on_char(s: &str, sep: char) -> (pieces: Vec<&str>)
    ensures
        pieces@.map_values(|p: &str| p@) == split_on(s@, sep),
{
    let v = chars_of(s);
    let len = v.len();
    let mut pieces: Vec<&str> = Vec::new();
    let mut start: usize = 0;
    let mut i: usize = 0;
    proof {
        assert(s@.take(0) =~= Seq::<char>::empty());
        assert(pieces@.map_values(|p: &str| p@).push(s@.subrange(0, 0)) =~= seq![Seq::<char>::empty()]);
    }
    while i < len
        invariant
            start <= i <= len,
            len == v@.len(),
            v@ == s@,
            pieces@.map_values(|p: &str| p@).push(s@.subrange(start as int, i as int)) == split_on(
                s@.take(i as int),
                sep,
            ),
        decreases len - i,
    {
        let ghost before = pieces@.map_values(|p: &str| p@);
        proof {
            assert(s@.take(i + 1).drop_last() =~= s@.take(i as int));
            assert(s@.take(i + 1).last() == s@[i as int]);
            lemma_split_on_nonempty(s@.take(i as int), sep);
        }
        if v[i] == sep {
            let piece = s.substring_char(start, i);
            pieces.push(piece);
            start = i + 1;
            proof {
                assert(pieces@.map_values(|p: &str| p@) =~= before.push(piece@));
                assert(s@.subrange(start as int, i + 1) =~= Seq::<char>::empty());
            }
        } else {
            proof {
                let q = before.push(s@.subrange(start as int, i as int));
                assert(s@.subrange(start as int, i + 1) =~= s@.subrange(start as int, i as int).push(s@[i as int]));
                assert(q.update(q.len() - 1, q.last().push(s@[i as int])) =~= before.push(s@.subrange(start as int, i + 1)));
            }
        }
        i = i + 1;
    }
    let last = s.substring_char(start, len);
    let ghost before = pieces@.map_values(|p: &str| p@);
    pieces.push(last);
    proof {
        assert(pieces@.map_values(|p: &str| p@) =~= before.push(last@));
        assert(s@.take(len as int) =~= s@);
    }
    pieces
}

/// The pieces of a text between commas.
pub fn split_on_commas(s: &str) -> (pieces: Vec<&str>)
    ensures
        pieces@.map_values(|p: &str| p@) == split_commas(s@),
{
    split_on_char(s, ',')
}

} // verus!
