use vstd::prelude::*;

verus! {

use crate::query::{
    find_byte, is_hex_digit, lemma_find_byte_at, lemma_find_byte_none, spec_hex_val,
    spec_parse_u64,
};

/// One dotted-quad group: decimal digits spelling at most 255, with
/// no leading zero (`0` itself is fine, `010` is not).
pub open spec fn spec_octet(s: Seq<u8>) -> Option<u8> {
    if s.len() > 1 && s[0] == 48 {
        None
    } else {
        match spec_parse_u64(s) {
            Some(v) => if v <= 255 {
                Some(v as u8)
            } else {
                None
            },
            None => None,
        }
    }
}

/// A dotted-quad IPv4 literal, as the 32-bit value of its four octets.
pub open spec fn spec_parse_ipv4(s: Seq<u8>) -> Option<u32> {
    let d1 = find_byte(s, 46);
    if d1 < 0 {
        None
    } else {
        let r1 = s.skip(d1 + 1);
        let d2 = find_byte(r1, 46);
        if d2 < 0 {
            None
        } else {
            let r2 = r1.skip(d2 + 1);
            let d3 = find_byte(r2, 46);
            if d3 < 0 {
                None
            } else {
                match (spec_octet(s.take(d1)), spec_octet(r1.take(d2)), spec_octet(r2.take(d3)),
                spec_octet(r2.skip(d3 + 1))) {
                    (Some(a), Some(b), Some(c), Some(d)) => Some(
                        ((a as int) * 0x1000000 + (b as int) * 0x10000 + (c as int) * 0x100 + (
                        d as int)) as u32,
                    ),
                    _ => None,
                }
            }
        }
    }
}

/// A fresh vector holding bytes `[a, b)` of `s`.
pub fn copy_range(s: &[u8], a: usize, b: usize) -> (r: Vec<u8>)
    requires
        a <= b <= s@.len(),
    ensures
        r@ == s@.subrange(a as int, b as int),
{
    let mut r: Vec<u8> = Vec::new();
    let mut i: usize = a;
    while i < b
        invariant
            a <= i <= b <= s@.len(),
            r@ == s@.subrange(a as int, i as int),
        decreases b - i,
    {
        r.push(s[i]);
        proof {
            assert(r@ =~= s@.subrange(a as int, i + 1 as int));
        }
        i += 1;
    }
    r
}

/// Parses one octet out of the range `[a, b)` of `s`.
fn parse_octet(s: &[u8], a: usize, b: usize) -> (r: Option<u8>)
    requires
        a <= b <= s@.len(),
    ensures
        r == spec_octet(s@.subrange(a as int, b as int)),
{
    if b - a > 1 && s[a] == 48 {
        return None;
    }
    let g = copy_range(s, a, b);
    match crate::query::parse_u64(g.as_slice()) {
        Some(v) => if v <= 255 {
            Some(v as u8)
        } else {
            None
        },
        None => None,
    }
}

/// Parses a dotted-quad IPv4 literal.
pub fn parse_ipv4(s: &[u8]) -> (r: Option<u32>)
    ensures
        r == spec_parse_ipv4(s@),
{
    let n = s.len();
    let d1 = match crate::query::find_byte_from(s, 46, 0) {
        Some(m) => m,
        None => {
            proof {
                lemma_find_byte_none(s@, 46);
            }
            return None;
        },
    };
    proof {
        lemma_find_byte_at(s@, 46, d1 as int);
    }
    let ghost r1 = s@.skip(d1 + 1);
    proof {
        assert(forall|j: int| 0 <= j < r1.len() ==> r1[j] == s@[j + d1 + 1]);
    }
    let d2 = match crate::query::find_byte_from(s, 46, d1 + 1) {
        Some(m) => m,
        None => {
            proof {
                lemma_find_byte_none(r1, 46);
            }
            return None;
        },
    };
    proof {
        lemma_find_byte_at(r1, 46, d2 - d1 - 1);
    }
    let ghost r2 = r1.skip(d2 - d1 - 1 + 1);
    proof {
        assert(r2 =~= s@.skip(d2 + 1));
        assert(forall|j: int| 0 <= j < r2.len() ==> r2[j] == s@[j + d2 + 1]);
    }
    let d3 = match crate::query::find_byte_from(s, 46, d2 + 1) {
        Some(m) => m,
        None => {
            proof {
                lemma_find_byte_none(r2, 46);
            }
            return None;
        },
    };
    proof {
        lemma_find_byte_at(r2, 46, d3 - d2 - 1);
        assert(s@.take(d1 as int) =~= s@.subrange(0, d1 as int));
        assert(r1.take(d2 - d1 - 1) =~= s@.subrange(d1 + 1 as int, d2 as int));
        assert(r2.take(d3 - d2 - 1) =~= s@.subrange(d2 + 1 as int, d3 as int));
        assert(r2.skip(d3 - d2 - 1 + 1) =~= s@.subrange(d3 + 1 as int, n as int));
    }
    let o1 = parse_octet(s, 0, d1);
    let o2 = parse_octet(s, d1 + 1, d2);
    let o3 = parse_octet(s, d2 + 1, d3);
    let o4 = parse_octet(s, d3 + 1, n);
    match (o1, o2, o3, o4) {
        (Some(a), Some(b), Some(c), Some(d)) => Some(
            (a as u32) * 0x1000000 + (b as u32) * 0x10000 + (c as u32) * 0x100 + (d as u32),
        ),
        _ => None,
    }
}

/// The value of a string of hexadecimal digits, most significant first.
pub open spec fn hexs_val(s: Seq<u8>) -> int
    decreases s.len(),
{
    if s.len() == 0 {
        0
    } else {
        hexs_val(s.drop_last()) * 16 + spec_hex_val(s.last())
    }
}

proof fn lemma_hexs_val_bound(s: Seq<u8>)
    ensures
        hexs_val(s) >= 0,
        s.len() <= 1 ==> hexs_val(s) < 16,
        s.len() <= 2 ==> hexs_val(s) < 256,
        s.len() <= 3 ==> hexs_val(s) < 4096,
        s.len() <= 4 ==> hexs_val(s) < 65536,
    decreases s.len(),
{
    if s.len() > 0 {
        lemma_hexs_val_bound(s.drop_last());
    }
}

/// One IPv6 group: one to four hexadecimal digits.
pub open spec fn spec_hex_group(s: Seq<u8>) -> Option<u16> {
    if 1 <= s.len() <= 4 && (forall|i: int| 0 <= i < s.len() ==> is_hex_digit(#[trigger] s[i])) {
        Some(hexs_val(s) as u16)
    } else {
        None
    }
}

/// Parses one IPv6 group out of the range `[a, b)` of `s`.
fn parse_hex_group(s: &[u8], a: usize, b: usize) -> (r: Option<u16>)
    requires
        a <= b <= s@.len(),
    ensures
        r == spec_hex_group(s@.subrange(a as int, b as int)),
{
    let ghost g = s@.subrange(a as int, b as int);
    if b - a < 1 || b - a > 4 {
        return None;
    }
    let mut acc: u32 = 0;
    let mut i: usize = a;
    proof {
        assert(g.take(0) =~= Seq::<u8>::empty());
    }
    while i < b
        invariant
            a <= i <= b <= s@.len(),
            b - a <= 4,
            g == s@.subrange(a as int, b as int),
            forall|j: int| 0 <= j < i - a ==> is_hex_digit(#[trigger] g[j]),
            acc == hexs_val(g.take(i - a)),
        decreases b - i,
    {
        let c = s[i];
        proof {
            assert(g[i - a] == s@[i as int]);
        }
        if !crate::query::is_hex(c) {
            return None;
        }
        proof {
            lemma_hexs_val_bound(g.take(i - a));
            assert(g.take(i - a + 1).drop_last() =~= g.take(i - a));
            assert(g.take(i - a + 1).last() == g[i - a]);
        }
        acc = acc * 16 + crate::query::hex_val(c) as u32;
        i += 1;
    }
    proof {
        assert(g.take(b - a as int) =~= g);
        lemma_hexs_val_bound(g);
    }
    Some(acc as u16)
}

/// Index of the first `::` in `s`, or `-1`.
pub open spec fn find_dcolon(s: Seq<u8>) -> int
    decreases s.len(),
{
    if s.len() < 2 {
        -1
    } else if s[0] == 58 && s[1] == 58 {
        0
    } else {
        let r = find_dcolon(s.skip(1));
        if r < 0 {
            -1
        } else {
            r + 1
        }
    }
}

proof fn lemma_find_dcolon(s: Seq<u8>)
    ensures
        find_dcolon(s) == -1 ==> forall|j: int|
            0 <= j < s.len() - 1 ==> !((#[trigger] s[j]) == 58 && s[j + 1] == 58),
        find_dcolon(s) != -1 ==> {
            let r = find_dcolon(s);
            &&& 0 <= r < s.len() - 1
            &&& s[r] == 58 && s[r + 1] == 58
            &&& forall|j: int| 0 <= j < r ==> !((#[trigger] s[j]) == 58 && s[j + 1] == 58)
        },
    decreases s.len(),
{
    if s.len() >= 2 && !(s[0] == 58 && s[1] == 58) {
        lemma_find_dcolon(s.skip(1));
        let r1 = find_dcolon(s.skip(1));
        if r1 == -1 {
            assert forall|j: int| 0 <= j < s.len() - 1 implies !((#[trigger] s[j]) == 58 && s[j + 1] == 58) by {
                if j > 0 {
                    assert(s.skip(1)[j - 1] == s[j] && s.skip(1)[j] == s[j + 1]);
                }
            }
        } else {
            assert(s.skip(1)[r1] == s[r1 + 1] && s.skip(1)[r1 + 1] == s[r1 + 2]);
            assert forall|j: int| 0 <= j < r1 + 1 implies !((#[trigger] s[j]) == 58 && s[j + 1] == 58) by {
                if j > 0 {
                    assert(s.skip(1)[j - 1] == s[j] && s.skip(1)[j] == s[j + 1]);
                }
            }
        }
    }
}

proof fn lemma_find_dcolon_at(s: Seq<u8>, m: int)
    requires
        0 <= m < s.len() - 1,
        s[m] == 58 && s[m + 1] == 58,
        forall|j: int| 0 <= j < m ==> !((#[trigger] s[j]) == 58 && s[j + 1] == 58),
    ensures
        find_dcolon(s) == m,
{
    lemma_find_dcolon(s);
    let r = find_dcolon(s);
    if r == -1 {
    } else {
        if r < m {
        }
        if r > m {
        }
    }
}

proof fn lemma_find_dcolon_none(s: Seq<u8>)
    requires
        forall|j: int| 0 <= j < s.len() - 1 ==> !((#[trigger] s[j]) == 58 && s[j + 1] == 58),
    ensures
        find_dcolon(s) == -1,
{
    lemma_find_dcolon(s);
    let r = find_dcolon(s);
    if r != -1 {
    }
}

/// A `:`-separated list of IPv6 groups; the empty string is the empty
/// list, and a trailing or doubled `:` is rejected here.
pub open spec fn spec_groups(s: Seq<u8>) -> Option<Seq<u16>>
    decreases s.len(),
    via spec_groups_decreases
{
    if s.len() == 0 {
        Some(Seq::empty())
    } else {
        let col = find_byte(s, 58);
        if col < 0 {
            match spec_hex_group(s) {
                Some(v) => Some(seq![v]),
                None => None,
            }
        } else if col + 1 >= s.len() {
            None
        } else {
            match (spec_hex_group(s.take(col)), spec_groups(s.skip(col + 1))) {
                (Some(v), Some(g)) => Some(seq![v] + g),
                _ => None,
            }
        }
    }
}

#[via_fn]
proof fn spec_groups_decreases(s: Seq<u8>) {
    if s.len() > 0 {
        crate::query::lemma_find_byte(s, 58);
    }
}

/// The 128-bit value of eight groups, most significant first.
pub open spec fn groups_val(g: Seq<u16>) -> int
    decreases g.len(),
{
    if g.len() == 0 {
        0
    } else {
        groups_val(g.drop_last()) * 0x10000 + g.last()
    }
}

/// `n` zero groups.
pub open spec fn zero_groups(n: int) -> Seq<u16> {
    Seq::new(n as nat, |i: int| 0u16)
}

/// An IPv6 literal: eight `:`-separated groups, or two shorter runs
/// joined by one `::` that stands for the missing zero groups.
pub open spec fn spec_parse_ipv6(s: Seq<u8>) -> Option<u128> {
    let d = find_dcolon(s);
    if d < 0 {
        match spec_groups(s) {
            Some(g) => if g.len() == 8 {
                Some(groups_val(g) as u128)
            } else {
                None
            },
            None => None,
        }
    } else {
        match (spec_groups(s.take(d)), spec_groups(s.skip(d + 2))) {
            (Some(l), Some(r)) => if l.len() + r.len() < 8 {
                Some(groups_val(l + zero_groups(8 - l.len() - r.len()) + r) as u128)
            } else {
                None
            },
            _ => None,
        }
    }
}

proof fn lemma_groups_val_bound(g: Seq<u16>)
    ensures
        groups_val(g) >= 0,
        g.len() <= 8 ==> groups_val(g) < 0x100000000000000000000000000000000,
    decreases g.len(),
{
    if g.len() > 0 {
        lemma_groups_val_bound(g.drop_last());
        if g.len() <= 8 {
            lemma_groups_val_small(g);
        }
    }
}

proof fn lemma_groups_val_small(g: Seq<u16>)
    requires
        g.len() <= 8,
    ensures
        groups_val(g) >= 0,
        groups_val(g) < 0x10000000000000000000000000000 * 0x10000 || g.len() < 8,
        g.len() <= 7 ==> groups_val(g) < 0x10000000000000000000000000000,
        g.len() <= 6 ==> groups_val(g) < 0x1000000000000000000000000,
        g.len() <= 5 ==> groups_val(g) < 0x100000000000000000000,
        g.len() <= 4 ==> groups_val(g) < 0x10000000000000000,
        g.len() <= 3 ==> groups_val(g) < 0x1000000000000,
        g.len() <= 2 ==> groups_val(g) < 0x100000000,
        g.len() <= 1 ==> groups_val(g) < 0x10000,
    decreases g.len(),
{
    if g.len() > 0 {
        lemma_groups_val_small(g.drop_last());
    }
}

/// Packs eight groups into the 128-bit address value.
fn combine_groups(g: &Vec<u16>) -> (r: u128)
    requires
        g@.len() == 8,
    ensures
        r == groups_val(g@),
{
    let mut acc: u128 = 0;
    let mut i: usize = 0;
    proof {
        assert(g@.take(0) =~= Seq::<u16>::empty());
    }
    while i < 8
        invariant
            i <= 8,
            g@.len() == 8,
            acc == groups_val(g@.take(i as int)),
        decreases 8 - i,
    {
        proof {
            lemma_groups_val_small(g@.take(i as int));
            assert(g@.take(i + 1 as int).drop_last() =~= g@.take(i as int));
            assert(g@.take(i + 1 as int).last() == g@[i as int]);
        }
        acc = acc * 0x10000 + (g[i] as u128);
        i += 1;
    }
    proof {
        assert(g@.take(8) =~= g@);
    }
    acc
}

/// Parses the `:`-separated groups in the range `[a, b)` of `s`.
fn parse_groups_range(s: &[u8], a: usize, b: usize) -> (r: Option<Vec<u16>>)
    requires
        a <= b <= s@.len(),
    ensures
        match r {
            Some(v) => spec_groups(s@.subrange(a as int, b as int)) == Some(v@),
            None => spec_groups(s@.subrange(a as int, b as int)) is None,
        },
{
    let ghost whole = s@.subrange(a as int, b as int);
    let mut out: Vec<u16> = Vec::new();
    let mut pos: usize = a;
    proof {
        assert(whole.skip(0) =~= whole);
    }
    while pos < b
        invariant
            a <= pos <= b <= s@.len(),
            whole == s@.subrange(a as int, b as int),
            match spec_groups(s@.subrange(pos as int, b as int)) {
                Some(g2) => spec_groups(whole) == Some(out@ + g2),
                None => spec_groups(whole) is None,
            },
        decreases b - pos,
    {
        let ghost out0 = out@;
        let ghost rest = s@.subrange(pos as int, b as int);
        proof {
            assert(forall|j: int| 0 <= j < rest.len() ==> rest[j] == s@[j + pos]);
        }
        let col = crate::query::find_byte_from(s, 58, pos);
        let cend = match col {
            Some(m) if m < b => m,
            _ => b,
        };
        proof {
            match col {
                Some(m) if m < b => {
                    lemma_find_byte_at(rest, 58, m - pos);
                },
                _ => {
                    lemma_find_byte_none(rest, 58);
                },
            }
            assert(rest.take(cend - pos) =~= s@.subrange(pos as int, cend as int));
        }
        if cend < b && cend + 1 >= b {
            proof {
                assert(spec_groups(rest) is None);
            }
            return None;
        }
        let gv = parse_hex_group(s, pos, cend);
        match gv {
            Some(v) => {
                out.push(v);
                proof {
                    assert(out@ == out0.push(v));
                    if cend < b {
                        let nxt = s@.subrange(cend + 1 as int, b as int);
                        assert(rest.skip(cend - pos + 1) =~= nxt);
                        let sg = spec_groups(nxt);
                        if sg is Some {
                            let g = sg.unwrap();
                            assert(spec_groups(rest) == Some(seq![v] + g));
                            assert(spec_groups(whole) == Some(out0 + (seq![v] + g)));
                            assert(out0 + (seq![v] + g) =~= out@ + g);
                        } else {
                            assert(spec_groups(rest) is None);
                        }
                    } else {
                        assert(rest.take(rest.len() as int) =~= rest);
                        assert(spec_groups(rest) == Some(seq![v]));
                        assert(spec_groups(whole) == Some(out0 + seq![v]));
                        assert(s@.subrange(b as int, b as int) =~= Seq::<u8>::empty());
                        assert(spec_groups(s@.subrange(b as int, b as int)) == Some(
                            Seq::<u16>::empty(),
                        ));
                        assert(out0 + seq![v] =~= out@ + Seq::<u16>::empty());
                    }
                }
            },
            None => {
                proof {
                    if cend < b {
                        assert(spec_groups(rest) is None);
                    } else {
                        assert(rest.take(rest.len() as int) =~= rest);
                        assert(spec_groups(rest) is None);
                    }
                }
                return None;
            },
        }
        if cend < b {
            pos = cend + 1;
        } else {
            pos = b;
        }
    }
    proof {
        assert(s@.subrange(pos as int, b as int) =~= Seq::<u8>::empty());
        assert(spec_groups(Seq::<u8>::empty()) == Some(Seq::<u16>::empty()));
        assert(out@ + Seq::<u16>::empty() =~= out@);
    }
    Some(out)
}

/// Parses an IPv6 literal.
pub fn parse_ipv6(s: &[u8]) -> (r: Option<u128>)
    ensures
        r == spec_parse_ipv6(s@),
{
    let n = s.len();
    let mut d: usize = 0;
    let mut found = false;
    while n - d > 1 && !found
        invariant
            d <= n,
            n == s@.len(),
            !found ==> forall|j: int| 0 <= j < d ==> !((#[trigger] s@[j]) == 58 && s@[j + 1] == 58),
            found ==> d + 1 < n && s@[d as int] == 58 && s@[d + 1 as int] == 58 && forall|j: int|
                0 <= j < d ==> !((#[trigger] s@[j]) == 58 && s@[j + 1] == 58),
        decreases n - d + (if found {
            0int
        } else {
            1int
        }),
    {
        if s[d] == 58 && s[d + 1] == 58 {
            found = true;
        } else {
            d += 1;
        }
    }
    if !found {
        proof {
            lemma_find_dcolon_none(s@);
        }
        let g = parse_groups_range(s, 0, n);
        proof {
            assert(s@.subrange(0, n as int) =~= s@);
        }
        match g {
            Some(v) => {
                if v.len() == 8 {
                    proof {
                        lemma_groups_val_bound(v@);
                    }
                    Some(combine_groups(&v))
                } else {
                    None
                }
            },
            None => None,
        }
    } else {
        proof {
            lemma_find_dcolon_at(s@, d as int);
            assert(s@.take(d as int) =~= s@.subrange(0, d as int));
            assert(s@.skip(d + 2 as int) =~= s@.subrange(d + 2 as int, n as int));
        }
        let left = parse_groups_range(s, 0, d);
        let right = parse_groups_range(s, d + 2, n);
        match (left, right) {
            (Some(l), Some(rg)) => {
                if l.len() < 8 && rg.len() < 8 - l.len() {
                    let mut full: Vec<u16> = l;
                    let ghost lv = full@;
                    let zeros = 8 - full.len() - rg.len();
                    let mut z: usize = 0;
                    while z < zeros
                        invariant
                            full@.len() == lv.len() + z,
                            z <= zeros,
                            full@ == lv + zero_groups(z as int),
                        decreases zeros - z,
                    {
                        full.push(0);
                        proof {
                            assert(full@ =~= lv + zero_groups(z + 1 as int));
                        }
                        z += 1;
                    }
                    let mut k: usize = 0;
                    let ghost mid = full@;
                    while k < rg.len()
                        invariant
                            k <= rg@.len(),
                            full@ == mid + rg@.take(k as int),
                        decreases rg@.len() - k,
                    {
                        full.push(rg[k]);
                        proof {
                            assert(full@ =~= mid + rg@.take(k + 1 as int));
                        }
                        k += 1;
                    }
                    proof {
                        assert(rg@.take(rg@.len() as int) =~= rg@);
                        assert(full@ =~= lv + zero_groups(8 - lv.len() - rg@.len()) + rg@);
                        lemma_groups_val_bound(full@);
                    }
                    Some(combine_groups(&full))
                } else {
                    None
                }
            },
            _ => None,
        }
    }
}

/// An IP literal of either family: the dotted form is IPv4, anything
/// else that parses as groups is IPv6.
pub open spec fn spec_parse_ip(s: Seq<u8>) -> Option<crate::bittorrent::IpVal> {
    match spec_parse_ipv4(s) {
        Some(v) => Some(crate::bittorrent::IpVal::V4(v)),
        None => match spec_parse_ipv6(s) {
            Some(v) => Some(crate::bittorrent::IpVal::V6(v)),
            None => None,
        },
    }
}

pub fn parse_ip(s: &[u8]) -> (r: Option<crate::bittorrent::IpVal>)
    ensures
        r == spec_parse_ip(s@),
{
    match parse_ipv4(s) {
        Some(v) => Some(crate::bittorrent::IpVal::V4(v)),
        None => match parse_ipv6(s) {
            Some(v) => Some(crate::bittorrent::IpVal::V6(v)),
            None => None,
        },
    }
}

/// The peer address taken from a connection's remote endpoint text:
/// a bracketed IPv6 literal, a bare IPv6 literal, or an IPv4 literal
/// with an optional trailing `:port`.
pub open spec fn spec_remote_ip(s: Seq<u8>) -> Option<crate::bittorrent::IpVal> {
    if s.len() > 0 && s[0] == 91 {
        let r = find_byte(s.skip(1), 93);
        if r < 0 {
            None
        } else {
            match spec_parse_ipv6(s.skip(1).take(r)) {
                Some(v) => Some(crate::bittorrent::IpVal::V6(v)),
                None => None,
            }
        }
    } else {
        let c1 = find_byte(s, 58);
        if c1 < 0 {
            match spec_parse_ipv4(s) {
                Some(v) => Some(crate::bittorrent::IpVal::V4(v)),
                None => None,
            }
        } else if find_byte(s.skip(c1 + 1), 58) < 0 {
            match spec_parse_ipv4(s.take(c1)) {
                Some(v) => Some(crate::bittorrent::IpVal::V4(v)),
                None => None,
            }
        } else {
            match spec_parse_ipv6(s) {
                Some(v) => Some(crate::bittorrent::IpVal::V6(v)),
                None => None,
            }
        }
    }
}

/// Resolves a remote endpoint's text to an address value.
pub fn remote_ip(s: &[u8]) -> (r: Option<crate::bittorrent::IpVal>)
    ensures
        r == spec_remote_ip(s@),
{
    let n = s.len();
    if n > 0 && s[0] == 91 {
        let ghost tail = s@.skip(1);
        proof {
            assert(forall|j: int| 0 <= j < tail.len() ==> tail[j] == s@[j + 1]);
        }
        match crate::query::find_byte_from(s, 93, 1) {
            Some(m) => {
                proof {
                    lemma_find_byte_at(tail, 93, m - 1);
                    assert(tail.take(m - 1) =~= s@.subrange(1, m as int));
                }
                let inner = copy_range(s, 1, m);
                match parse_ipv6(inner.as_slice()) {
                    Some(v) => Some(crate::bittorrent::IpVal::V6(v)),
                    None => None,
                }
            },
            None => {
                proof {
                    if s@[0] != 93 {
                        lemma_find_byte_none(tail, 93);
                    } else {
                        lemma_find_byte_none(tail, 93);
                    }
                }
                None
            },
        }
    } else {
        match crate::query::find_byte_from(s, 58, 0) {
            Some(c1) => {
                proof {
                    lemma_find_byte_at(s@, 58, c1 as int);
                }
                let ghost rest = s@.skip(c1 + 1);
                proof {
                    assert(forall|j: int| 0 <= j < rest.len() ==> rest[j] == s@[j + c1 + 1]);
                }
                match crate::query::find_byte_from(s, 58, c1 + 1) {
                    Some(c2) => {
                        proof {
                            lemma_find_byte_at(rest, 58, c2 - c1 - 1);
                        }
                        match parse_ipv6(s) {
                            Some(v) => Some(crate::bittorrent::IpVal::V6(v)),
                            None => None,
                        }
                    },
                    None => {
                        proof {
                            lemma_find_byte_none(rest, 58);
                            assert(s@.take(c1 as int) =~= s@.subrange(0, c1 as int));
                        }
                        let head = copy_range(s, 0, c1);
                        match parse_ipv4(head.as_slice()) {
                            Some(v) => Some(crate::bittorrent::IpVal::V4(v)),
                            None => None,
                        }
                    },
                }
            },
            None => {
                proof {
                    lemma_find_byte_none(s@, 58);
                }
                match parse_ipv4(s) {
                    Some(v) => Some(crate::bittorrent::IpVal::V4(v)),
                    None => None,
                }
            },
        }
    }
}

} // verus!
