use vstd::prelude::*;

verus! {

/// ASCII code of a hexadecimal digit, either case.
pub open spec fn is_hex_digit(c: u8) -> bool {
    (48 <= c <= 57) || (97 <= c <= 102) || (65 <= c <= 70)
}

/// The value of a hexadecimal digit.
pub open spec fn spec_hex_val(c: u8) -> u8 {
    if 48 <= c <= 57 {
        (c - 48) as u8
    } else if 97 <= c <= 102 {
        (c - 87) as u8
    } else if 65 <= c <= 70 {
        (c - 55) as u8
    } else {
        0
    }
}

pub fn hex_val(c: u8) -> (r: u8)
    ensures
        r == spec_hex_val(c),
{
    if 48 <= c && c <= 57 {
        c - 48
    } else if 97 <= c && c <= 102 {
        c - 87
    } else if 65 <= c && c <= 70 {
        c - 55
    } else {
        0
    }
}

pub fn is_hex(c: u8) -> (r: bool)
    ensures
        r == is_hex_digit(c),
{
    (48 <= c && c <= 57) || (97 <= c && c <= 102) || (65 <= c && c <= 70)
}

/// Decoding of one URL-form-encoded byte string: `%xy` becomes the
/// byte `0xxy`, `+` becomes a space, a stray `%` passes through.
pub open spec fn spec_form_decode(s: Seq<u8>) -> Seq<u8>
    decreases s.len(),
{
    if s.len() == 0 {
        Seq::empty()
    } else if s[0] == 37 && s.len() >= 3 && is_hex_digit(s[1]) && is_hex_digit(s[2]) {
        seq![(spec_hex_val(s[1]) * 16 + spec_hex_val(s[2])) as u8] + spec_form_decode(s.skip(3))
    } else if s[0] == 43 {
        seq![32u8] + spec_form_decode(s.skip(1))
    } else {
        seq![s[0]] + spec_form_decode(s.skip(1))
    }
}

/// Decodes the range `[a, b)` of `s` out of its form encoding.
pub fn decode_range(s: &[u8], a: usize, b: usize) -> (r: Vec<u8>)
    requires
        a <= b <= s@.len(),
    ensures
        r@ == spec_form_decode(s@.subrange(a as int, b as int)),
{
    let ghost whole = s@.subrange(a as int, b as int);
    let mut out: Vec<u8> = Vec::new();
    let mut i: usize = a;
    proof {
        assert(whole.skip(0) =~= whole);
    }
    while i < b
        invariant
            a <= i <= b <= s@.len(),
            whole == s@.subrange(a as int, b as int),
            spec_form_decode(whole) == out@ + spec_form_decode(s@.subrange(i as int, b as int)),
        decreases b - i,
    {
        let ghost rest = s@.subrange(i as int, b as int);
        proof {
            assert(rest[0] == s@[i as int]);
            assert(rest.skip(1) =~= s@.subrange(i + 1 as int, b as int));
            if rest.len() >= 3 {
                assert(rest[1] == s@[i + 1 as int] && rest[2] == s@[i + 2 as int]);
                assert(rest.skip(3) =~= s@.subrange(i + 3 as int, b as int));
            }
        }
        let c = s[i];
        if c == 37 && b - i > 2 {
            let h1 = s[i + 1];
            let h2 = s[i + 2];
            if is_hex(h1) && is_hex(h2) {
                out.push(hex_val(h1) * 16 + hex_val(h2));
                i += 3;
                proof {
                    assert(out@ + spec_form_decode(s@.subrange(i as int, b as int))
                        =~= spec_form_decode(whole));
                }
                continue ;
            }
        }
        if c == 43 {
            out.push(32);
        } else {
            out.push(c);
        }
        i += 1;
        proof {
            assert(out@ + spec_form_decode(s@.subrange(i as int, b as int)) =~= spec_form_decode(
                whole,
            ));
        }
    }
    proof {
        assert(s@.subrange(b as int, b as int) =~= Seq::<u8>::empty());
        assert(out@ =~= spec_form_decode(whole));
    }
    out
}

/// Index of the first occurrence of `c` in `s`, or `-1`.
pub open spec fn find_byte(s: Seq<u8>, c: u8) -> int
    decreases s.len(),
{
    if s.len() == 0 {
        -1
    } else if s[0] == c {
        0
    } else {
        let r = find_byte(s.skip(1), c);
        if r < 0 {
            -1
        } else {
            r + 1
        }
    }
}

/// What `find_byte` finds is the first occurrence.
pub proof fn lemma_find_byte(s: Seq<u8>, c: u8)
    ensures
        find_byte(s, c) == -1 ==> forall|j: int| 0 <= j < s.len() ==> s[j] != c,
        find_byte(s, c) != -1 ==> {
            let r = find_byte(s, c);
            &&& 0 <= r < s.len()
            &&& s[r] == c
            &&& forall|j: int| 0 <= j < r ==> s[j] != c
        },
    decreases s.len(),
{
    if s.len() > 0 && s[0] != c {
        lemma_find_byte(s.skip(1), c);
        let r1 = find_byte(s.skip(1), c);
        if r1 == -1 {
            assert forall|j: int| 0 <= j < s.len() implies s[j] != c by {
                if j > 0 {
                    assert(s.skip(1)[j - 1] == s[j]);
                }
            }
        } else {
            assert(s.skip(1)[r1] == s[r1 + 1]);
            assert forall|j: int| 0 <= j < r1 + 1 implies s[j] != c by {
                if j > 0 {
                    assert(s.skip(1)[j - 1] == s[j]);
                }
            }
        }
    }
}

/// The first occurrence determines `find_byte`.
pub proof fn lemma_find_byte_at(s: Seq<u8>, c: u8, m: int)
    requires
        0 <= m < s.len(),
        s[m] == c,
        forall|j: int| 0 <= j < m ==> s[j] != c,
    ensures
        find_byte(s, c) == m,
{
    lemma_find_byte(s, c);
    let r = find_byte(s, c);
    if r == -1 {
        assert(s[m] != c);
    } else {
        if r < m {
            assert(s[r] != c);
        }
        if r > m {
            assert(s[m] != c);
        }
    }
}

/// `find_byte` finds nothing only when nothing is there.
pub proof fn lemma_find_byte_none(s: Seq<u8>, c: u8)
    requires
        forall|j: int| 0 <= j < s.len() ==> s[j] != c,
    ensures
        find_byte(s, c) == -1,
{
    lemma_find_byte(s, c);
    let r = find_byte(s, c);
    if r != -1 {
        assert(s[r] != c);
    }
}

/// The decoded key and value of one `key=value` chunk; a chunk with no
/// `=` is a key with an empty value.
pub open spec fn spec_pair_of_chunk(c: Seq<u8>) -> (Seq<u8>, Seq<u8>) {
    let eq = find_byte(c, 61);
    if eq < 0 {
        (spec_form_decode(c), Seq::empty())
    } else {
        (spec_form_decode(c.take(eq)), spec_form_decode(c.skip(eq + 1)))
    }
}

/// The decoded `(key, value)` pairs of a query string: chunks split on
/// `&`, empty chunks skipped, each chunk split at its first `=`.
pub open spec fn spec_query_pairs(s: Seq<u8>) -> Seq<(Seq<u8>, Seq<u8>)>
    decreases s.len(),
    via spec_query_pairs_decreases
{
    if s.len() == 0 {
        Seq::empty()
    } else {
        let amp = find_byte(s, 38);
        if amp < 0 {
            seq![spec_pair_of_chunk(s)]
        } else if amp == 0 {
            spec_query_pairs(s.skip(1))
        } else {
            seq![spec_pair_of_chunk(s.take(amp))] + spec_query_pairs(s.skip(amp + 1))
        }
    }
}

#[via_fn]
proof fn spec_query_pairs_decreases(s: Seq<u8>) {
    if s.len() > 0 {
        lemma_find_byte(s, 38);
    }
}

/// Position of the first `c` at or after `from`, before `s` ends.
pub fn find_byte_from(s: &[u8], c: u8, from: usize) -> (r: Option<usize>)
    requires
        from <= s@.len(),
    ensures
        match r {
            Some(m) => from <= m < s@.len() && s@[m as int] == c && forall|j: int|
                from <= j < m ==> s@[j] != c,
            None => forall|j: int| from <= j < s@.len() ==> s@[j] != c,
        },
{
    let mut i: usize = from;
    while i < s.len()
        invariant
            from <= i <= s@.len(),
            forall|j: int| from <= j < i ==> s@[j] != c,
        decreases s@.len() - i,
    {
        if s[i] == c {
            return Some(i);
        }
        i += 1;
    }
    None
}

/// Splits `[pos, cend)` of `s` at its first `=` and decodes both sides.
fn decode_chunk(s: &[u8], pos: usize, cend: usize) -> (r: (Vec<u8>, Vec<u8>))
    requires
        pos <= cend <= s@.len(),
    ensures
        (r.0@, r.1@) == spec_pair_of_chunk(s@.subrange(pos as int, cend as int)),
{
    let ghost chunk = s@.subrange(pos as int, cend as int);
    let eq = find_byte_from(s, 61, pos);
    match eq {
        Some(m) if m < cend => {
            proof {
                assert(chunk[m - pos] == 61);
                assert(forall|j: int| 0 <= j < m - pos ==> chunk[j] == s@[j + pos] && chunk[j] != 61);
                lemma_find_byte_at(chunk, 61, m - pos);
                assert(chunk.take(m - pos) =~= s@.subrange(pos as int, m as int));
                assert(chunk.skip(m - pos + 1) =~= s@.subrange(m + 1 as int, cend as int));
            }
            let k = decode_range(s, pos, m);
            let v = decode_range(s, m + 1, cend);
            (k, v)
        },
        _ => {
            proof {
                assert(forall|j: int| 0 <= j < chunk.len() ==> chunk[j] == s@[j + pos]);
                lemma_find_byte_none(chunk, 61);
                assert(chunk.take(chunk.len() as int) =~= chunk);
            }
            let k = decode_range(s, pos, cend);
            (k, Vec::new())
        },
    }
}

/// All decoded `(key, value)` pairs of the query string, in order.
pub fn parse_query(s: &[u8]) -> (r: Vec<(Vec<u8>, Vec<u8>)>)
    ensures
        r@.map_values(|p: (Vec<u8>, Vec<u8>)| (p.0@, p.1@)) == spec_query_pairs(s@),
{
    let mut out: Vec<(Vec<u8>, Vec<u8>)> = Vec::new();
    let mut pos: usize = 0;
    proof {
        assert(s@.skip(0) =~= s@);
        assert(out@.map_values(|p: (Vec<u8>, Vec<u8>)| (p.0@, p.1@)) =~= Seq::<(
            Seq<u8>,
            Seq<u8>,
        )>::empty());
    }
    while pos < s.len()
        invariant
            pos <= s@.len(),
            spec_query_pairs(s@) == out@.map_values(|p: (Vec<u8>, Vec<u8>)| (p.0@, p.1@))
                + spec_query_pairs(s@.skip(pos as int)),
        decreases s@.len() - pos,
    {
        let ghost f = |p: (Vec<u8>, Vec<u8>)| (p.0@, p.1@);
        let ghost p0 = pos as int;
        let ghost rest = s@.skip(p0);
        let ghost out0 = out@;
        let amp = find_byte_from(s, 38, pos);
        let cend = match amp {
            Some(m) => m,
            None => s.len(),
        };
        proof {
            assert(rest.len() == s@.len() - p0);
            assert(forall|j: int| 0 <= j < rest.len() ==> rest[j] == s@[j + p0]);
            match amp {
                Some(m) => {
                    lemma_find_byte_at(rest, 38, m - p0);
                },
                None => {
                    lemma_find_byte_none(rest, 38);
                },
            }
            assert(rest.take(cend - p0) =~= s@.subrange(p0, cend as int));
        }
        if cend > pos {
            let pair = decode_chunk(s, pos, cend);
            out.push(pair);
            proof {
                assert(out@ == out0.push(pair));
                assert(out@.map_values(f) =~= out0.map_values(f).push(f(pair)));
                assert(f(pair) == spec_pair_of_chunk(s@.subrange(p0, cend as int)));
            }
        }
        match amp {
            Some(m) => {
                pos = m + 1;
                proof {
                    assert(rest.skip(m + 1 - p0) =~= s@.skip(pos as int));
                    if m == p0 {
                        assert(spec_query_pairs(rest) == spec_query_pairs(s@.skip(pos as int)));
                        assert(out@ == out0);
                    } else {
                        assert(spec_query_pairs(rest) == seq![spec_pair_of_chunk(rest.take(m - p0))]
                            + spec_query_pairs(rest.skip(m + 1 - p0)));
                        assert(rest.take(m - p0) =~= s@.subrange(p0, cend as int));
                        assert(out@.map_values(f) =~= out0.map_values(f) + seq![
                            spec_pair_of_chunk(s@.subrange(p0, cend as int)),
                        ]);
                    }
                    assert(spec_query_pairs(s@) == out@.map_values(f) + spec_query_pairs(
                        s@.skip(pos as int),
                    ));
                }
            },
            None => {
                pos = s.len();
                proof {
                    assert(s@.skip(pos as int) =~= Seq::<u8>::empty());
                    assert(spec_query_pairs(Seq::<u8>::empty()) == Seq::<(
                        Seq<u8>,
                        Seq<u8>,
                    )>::empty());
                    assert(rest.take(rest.len() as int) =~= rest);
                    assert(spec_query_pairs(rest) == seq![spec_pair_of_chunk(rest)]);
                    assert(rest =~= s@.subrange(p0, cend as int));
                    assert(out@.map_values(f) =~= out0.map_values(f) + seq![
                        spec_pair_of_chunk(rest),
                    ]);
                    assert(spec_query_pairs(s@) == out@.map_values(f) + spec_query_pairs(
                        s@.skip(pos as int),
                    ));
                }
            },
        }
    }
    proof {
        assert(s@.skip(pos as int) =~= Seq::<u8>::empty());
        if s@.len() > 0 {
            assert(spec_query_pairs(Seq::<u8>::empty()) =~= Seq::<(Seq<u8>, Seq<u8>)>::empty());
        }
        assert(spec_query_pairs(s@) =~= out@.map_values(|p: (Vec<u8>, Vec<u8>)| (p.0@, p.1@)));
    }
    out
}

/// `s` is one or more ASCII decimal digits.
pub open spec fn is_digits(s: Seq<u8>) -> bool {
    s.len() > 0 && forall|i: int| 0 <= i < s.len() ==> 48 <= #[trigger] s[i] <= 57
}

/// The number the digits spell, most significant first.
pub open spec fn digits_val(s: Seq<u8>) -> int
    decreases s.len(),
{
    if s.len() == 0 {
        0
    } else {
        digits_val(s.drop_last()) * 10 + (s.last() - 48)
    }
}

proof fn lemma_digits_val_nonneg(s: Seq<u8>)
    requires
        forall|i: int| 0 <= i < s.len() ==> 48 <= #[trigger] s[i] <= 57,
    ensures
        digits_val(s) >= 0,
    decreases s.len(),
{
    if s.len() > 0 {
        lemma_digits_val_nonneg(s.drop_last());
    }
}

/// A longer digit string never spells a smaller number.
proof fn lemma_digits_val_prefix(s: Seq<u8>, i: int)
    requires
        forall|j: int| 0 <= j < s.len() ==> 48 <= #[trigger] s[j] <= 57,
        0 <= i <= s.len(),
    ensures
        digits_val(s.take(i)) <= digits_val(s),
    decreases s.len() - i,
{
    if i < s.len() {
        lemma_digits_val_prefix(s, i + 1);
        assert(s.take(i + 1).drop_last() =~= s.take(i));
        lemma_digits_val_nonneg(s.take(i));
        assert(digits_val(s.take(i + 1)) == digits_val(s.take(i)) * 10 + (s.take(i + 1).last()
            - 48));
        assert(digits_val(s.take(i)) * 10 >= digits_val(s.take(i))) by (nonlinear_arith)
            requires
                digits_val(s.take(i)) >= 0,
        ;
    } else {
        assert(s.take(i) =~= s);
    }
}

/// The number a digit string spells, when it is all digits and fits.
pub open spec fn spec_parse_u64(s: Seq<u8>) -> Option<u64> {
    if is_digits(s) && digits_val(s) <= u64::MAX {
        Some(digits_val(s) as u64)
    } else {
        None
    }
}

/// Parses an unsigned decimal number; `None` when `s` is empty, holds
/// a non-digit, or does not fit in 64 bits.
pub fn parse_u64(s: &[u8]) -> (r: Option<u64>)
    ensures
        r == spec_parse_u64(s@),
{
    if s.len() == 0 {
        return None;
    }
    let mut acc: u64 = 0;
    let mut i: usize = 0;
    proof {
        assert(s@.take(0) =~= Seq::<u8>::empty());
    }
    while i < s.len()
        invariant
            i <= s@.len(),
            s@.len() > 0,
            forall|j: int| 0 <= j < i ==> 48 <= #[trigger] s@[j] <= 57,
            acc == digits_val(s@.take(i as int)),
        decreases s@.len() - i,
    {
        let c = s[i];
        if c < 48 || c > 57 {
            return None;
        }
        let d = (c - 48) as u64;
        proof {
            assert(s@.take(i + 1 as int).drop_last() =~= s@.take(i as int));
            assert(s@.take(i + 1 as int).last() == s@[i as int]);
        }
        if acc > (u64::MAX - d) / 10 {
            proof {
                lemma_digits_val_nonneg(s@.take(i as int));
                assert(digits_val(s@.take(i + 1 as int)) == acc * 10 + d);
                assert(acc * 10 + d > u64::MAX) by (nonlinear_arith)
                    requires
                        acc > vstd::prelude::sub(u64::MAX, d) / 10,
                        0 <= d < 10,
                        acc >= 0,
                ;
                if is_digits(s@) {
                    lemma_digits_val_prefix(s@, i + 1);
                }
            }
            return None;
        }
        acc = acc * 10 + d;
        i += 1;
    }
    proof {
        assert(s@.take(s@.len() as int) =~= s@);
    }
    Some(acc)
}

/// The number a digit string spells, when it fits in 32 bits.
pub open spec fn spec_parse_u32(s: Seq<u8>) -> Option<u32> {
    if is_digits(s) && digits_val(s) <= u32::MAX {
        Some(digits_val(s) as u32)
    } else {
        None
    }
}

pub fn parse_u32(s: &[u8]) -> (r: Option<u32>)
    ensures
        r == spec_parse_u32(s@),
{
    match parse_u64(s) {
        Some(v) => {
            proof {
                lemma_digits_val_nonneg(s@);
            }
            if v <= u32::MAX as u64 {
                Some(v as u32)
            } else {
                None
            }
        },
        None => {
            proof {
                if is_digits(s@) {
                    lemma_digits_val_nonneg(s@);
                }
            }
            None
        },
    }
}

/// The number a digit string spells, when it fits in 16 bits.
pub open spec fn spec_parse_u16(s: Seq<u8>) -> Option<u16> {
    if is_digits(s) && digits_val(s) <= u16::MAX {
        Some(digits_val(s) as u16)
    } else {
        None
    }
}

pub fn parse_u16(s: &[u8]) -> (r: Option<u16>)
    ensures
        r == spec_parse_u16(s@),
{
    match parse_u64(s) {
        Some(v) => {
            proof {
                lemma_digits_val_nonneg(s@);
            }
            if v <= u16::MAX as u64 {
                Some(v as u16)
            } else {
                None
            }
        },
        None => {
            proof {
                if is_digits(s@) {
                    lemma_digits_val_nonneg(s@);
                }
            }
            None
        },
    }
}

} // verus!
