//! Byte-level helpers shared by the wire protocol and the stego codec:
//! big-endian `u32` framing, prefix tests, and ASCII decimal numbers.

use vstd::prelude::*;

verus! {

/// Byte `j` (0 = most significant) of `x` in big-endian order.
pub open spec fn u32_be_byte(x: u32, j: int) -> u8 {
    if j == 0 {
        (x >> 24u32) as u8
    } else if j == 1 {
        (x >> 16u32) as u8
    } else if j == 2 {
        (x >> 8u32) as u8
    } else {
        x as u8
    }
}

/// The four bytes of `x` in big-endian order.
pub open spec fn u32_be(x: u32) -> Seq<u8> {
    seq![u32_be_byte(x, 0), u32_be_byte(x, 1), u32_be_byte(x, 2), u32_be_byte(x, 3)]
}

/// The `u32` whose big-endian bytes are `b0 b1 b2 b3`.
pub open spec fn u32_from_be(b0: u8, b1: u8, b2: u8, b3: u8) -> u32 {
    (((b0 as u32) << 24) | ((b1 as u32) << 16) | ((b2 as u32) << 8) | (b3 as u32)) as u32
}

/// Reassembling the big-endian bytes of `x` gives back `x`.
pub proof fn lemma_u32_be_roundtrip(x: u32)
    ensures
        u32_from_be(u32_be_byte(x, 0), u32_be_byte(x, 1), u32_be_byte(x, 2), u32_be_byte(x, 3))
            == x,
{
    assert(((((x >> 24u32) as u8 as u32) << 24) | (((x >> 16u32) as u8 as u32) << 16) | (((x
        >> 8u32) as u8 as u32) << 8) | ((x as u8) as u32)) as u32 == x) by (bit_vector);
}

/// Append the big-endian bytes of `x` to `out`.
pub fn push_u32_be(out: &mut Vec<u8>, x: u32)
    ensures
        final(out)@ == old(out)@ + u32_be(x),
{
    out.push((x >> 24) as u8);
    out.push((x >> 16) as u8);
    out.push((x >> 8) as u8);
    out.push(x as u8);
    assert(out@ =~= old(out)@ + u32_be(x));
}

/// Read a big-endian `u32` from the first four bytes of `data`.
pub fn read_u32_be(data: &[u8]) -> (x: u32)
    requires
        data@.len() >= 4,
    ensures
        x == u32_from_be(data@[0], data@[1], data@[2], data@[3]),
{
    let b0 = data[0];
    let b1 = data[1];
    let b2 = data[2];
    let b3 = data[3];
    ((b0 as u32) << 24) | ((b1 as u32) << 16) | ((b2 as u32) << 8) | (b3 as u32)
}

/// `prefix` is an initial segment of `data`.
pub open spec fn is_prefix(data: Seq<u8>, prefix: Seq<u8>) -> bool {
    prefix.len() <= data.len() && data.take(prefix.len() as int) == prefix
}

/// Whether `data` starts with `prefix`, byte for byte.
pub fn starts_with(data: &[u8], prefix: &[u8]) -> (r: bool)
    ensures
        r == is_prefix(data@, prefix@),
{
    if prefix.len() > data.len() {
        assert(!is_prefix(data@, prefix@));
        return false;
    }
    let mut i: usize = 0;
    while i < prefix.len()
        invariant
            i <= prefix.len() <= data.len(),
            forall|k: int| 0 <= k < i ==> data@[k] == prefix@[k],
        decreases prefix.len() - i,
    {
        if data[i] != prefix[i] {
            assert(data@.take(prefix@.len() as int)[i as int] != prefix@[i as int]);
            return false;
        }
        i = i + 1;
    }
    assert(data@.take(prefix@.len() as int) =~= prefix@);
    true
}

/// Whether `a` and `b` hold the same bytes.
pub fn bytes_eq(a: &[u8], b: &[u8]) -> (r: bool)
    ensures
        r == (a@ == b@),
{
    if a.len() != b.len() {
        return false;
    }
    let mut i: usize = 0;
    while i < a.len()
        invariant
            i <= a.len() == b.len(),
            forall|k: int| 0 <= k < i ==> a@[k] == b@[k],
        decreases a.len() - i,
    {
        if a[i] != b[i] {
            return false;
        }
        i = i + 1;
    }
    assert(a@ =~= b@);
    true
}

/// The bytes of `data` from `from` to its end.
pub fn tail_from(data: &[u8], from: usize) -> (r: Vec<u8>)
    requires
        from <= data@.len(),
    ensures
        r@ == data@.skip(from as int),
{
    let mut out: Vec<u8> = Vec::new();
    let mut i: usize = from;
    while i < data.len()
        invariant
            from <= i <= data@.len(),
            out@ == data@.subrange(from as int, i as int),
        decreases data@.len() - i,
    {
        out.push(data[i]);
        assert(out@ =~= data@.subrange(from as int, i as int + 1));
        i = i + 1;
    }
    assert(data@.subrange(from as int, data@.len() as int) =~= data@.skip(from as int));
    out
}

/// Index of the first occurrence of `b` in `s`, or `-1` if there is none.
pub open spec fn find_byte_spec(s: Seq<u8>, b: u8) -> int
    decreases s.len(),
{
    if s.len() == 0 {
        -1
    } else if s[0] == b {
        0
    } else {
        let r = find_byte_spec(s.skip(1), b);
        if r == -1 {
            -1
        } else {
            r + 1
        }
    }
}

pub proof fn lemma_find_byte(s: Seq<u8>, b: u8)
    ensures
        find_byte_spec(s, b) == -1 <==> forall|j: int| 0 <= j < s.len() ==> s[j] != b,
        find_byte_spec(s, b) != -1 ==> 0 <= find_byte_spec(s, b) < s.len() && s[find_byte_spec(
            s,
            b,
        )] == b && forall|j: int| 0 <= j < find_byte_spec(s, b) ==> s[j] != b,
    decreases s.len(),
{
    if s.len() > 0 && s[0] != b {
        lemma_find_byte(s.skip(1), b);
        assert(forall|j: int| 0 <= j < s.len() - 1 ==> #[trigger] s.skip(1)[j] == s[j + 1]);
        assert(forall|j: int| 1 <= j < s.len() ==> #[trigger] s[j] == s.skip(1)[j - 1]);
    }
}

/// The first occurrence is where the first occurrence is.
pub proof fn lemma_find_byte_at(s: Seq<u8>, b: u8, i: int)
    requires
        0 <= i < s.len(),
        s[i] == b,
        forall|j: int| 0 <= j < i ==> s[j] != b,
    ensures
        find_byte_spec(s, b) == i,
    decreases s.len(),
{
    if i > 0 {
        assert(forall|j: int| 0 <= j < s.len() - 1 ==> #[trigger] s.skip(1)[j] == s[j + 1]);
        assert(forall|j: int| 1 <= j < s.len() ==> #[trigger] s[j] == s.skip(1)[j - 1]);
        lemma_find_byte_at(s.skip(1), b, i - 1);
    }
}

/// Find the first occurrence of `b` in `data`.
pub fn find_byte(data: &[u8], b: u8) -> (r: Option<usize>)
    ensures
        r matches Some(k) ==> k == find_byte_spec(data@, b),
        r is None ==> find_byte_spec(data@, b) == -1,
{
    let mut i: usize = 0;
    while i < data.len()
        invariant
            i <= data@.len(),
            forall|j: int| 0 <= j < i ==> data@[j] != b,
        decreases data@.len() - i,
    {
        if data[i] == b {
            proof {
                lemma_find_byte_at(data@, b, i as int);
            }
            return Some(i);
        }
        i = i + 1;
    }
    proof {
        lemma_find_byte(data@, b);
    }
    None
}

/// `s` split at every occurrence of `sep`; `n` separators give `n + 1`
/// pieces, empty pieces included.
pub open spec fn split_spec(s: Seq<u8>, sep: u8) -> Seq<Seq<u8>>
    decreases s.len(),
{
    if s.len() == 0 {
        seq![Seq::<u8>::empty()]
    } else if s[0] == sep {
        seq![Seq::<u8>::empty()] + split_spec(s.skip(1), sep)
    } else {
        let rest = split_spec(s.skip(1), sep);
        seq![seq![s[0]] + rest[0]] + rest.skip(1)
    }
}

pub proof fn lemma_split_nonempty(s: Seq<u8>, sep: u8)
    ensures
        split_spec(s, sep).len() >= 1,
    decreases s.len(),
{
    if s.len() > 0 {
        lemma_split_nonempty(s.skip(1), sep);
    }
}

/// Splitting steps over the first separator: the piece before it, then the
/// split of what follows.
pub proof fn lemma_split_step(s: Seq<u8>, sep: u8)
    ensures
        find_byte_spec(s, sep) == -1 ==> split_spec(s, sep) == seq![s],
        find_byte_spec(s, sep) != -1 ==> split_spec(s, sep) == seq![
            s.take(find_byte_spec(s, sep)),
        ] + split_spec(s.skip(find_byte_spec(s, sep) + 1), sep),
    decreases s.len(),
{
    lemma_find_byte(s, sep);
    lemma_split_nonempty(s, sep);
    if s.len() == 0 {
        assert(split_spec(s, sep) =~~= seq![s]);
    } else if s[0] == sep {
        assert(s.skip(0int + 1) == s.skip(1));
        assert(split_spec(s, sep) =~~= seq![s.take(0)] + split_spec(s.skip(1), sep));
    } else {
        lemma_split_step(s.skip(1), sep);
        lemma_split_nonempty(s.skip(1), sep);
        assert(forall|j: int| 0 <= j < s.len() - 1 ==> #[trigger] s.skip(1)[j] == s[j + 1]);
        assert(forall|j: int| 1 <= j < s.len() ==> #[trigger] s[j] == s.skip(1)[j - 1]);
        let k = find_byte_spec(s, sep);
        let rest = split_spec(s.skip(1), sep);
        if k == -1 {
            assert(find_byte_spec(s.skip(1), sep) == -1) by {
                lemma_find_byte(s.skip(1), sep);
            }
            assert(rest == seq![s.skip(1)]);
            assert(seq![s[0]] + rest[0] =~= s);
            assert(split_spec(s, sep) =~~= seq![s]);
        } else {
            let k1 = find_byte_spec(s.skip(1), sep);
            assert(k1 == k - 1) by {
                lemma_find_byte(s.skip(1), sep);
                if k1 == -1 {
                    assert(s.skip(1)[k - 1] == sep);
                }
                lemma_find_byte_at(s.skip(1), sep, k - 1);
            }
            assert(rest == seq![s.skip(1).take(k - 1)] + split_spec(s.skip(1).skip(k), sep));
            assert(seq![s[0]] + rest[0] =~= s.take(k));
            assert(s.skip(1).skip(k) =~= s.skip(k + 1));
            assert(rest[0] == s.skip(1).take(k - 1));
            assert(split_spec(s, sep) =~~= seq![s.take(k)] + split_spec(s.skip(k + 1), sep));
        }
    }
}

/// Split `data` at every occurrence of `sep`.
pub fn split_on(data: &[u8], sep: u8) -> (r: Vec<Vec<u8>>)
    ensures
        r@.map_values(|v: Vec<u8>| v@) == split_spec(data@, sep),
        r@.len() >= 1,
{
    let mut pieces: Vec<Vec<u8>> = Vec::new();
    let mut rest: Vec<u8> = tail_from(data, 0);
    proof {
        assert(rest@ =~= data@);
    }
    loop
        invariant
            split_spec(data@, sep) == pieces@.map_values(|v: Vec<u8>| v@) + split_spec(
                rest@,
                sep,
            ),
        decreases rest@.len(),
    {
        proof {
            lemma_split_step(rest@, sep);
            lemma_find_byte(rest@, sep);
        }
        match find_byte(rest.as_slice(), sep) {
            None => {
                pieces.push(rest);
                proof {
                    assert(pieces@.map_values(|v: Vec<u8>| v@) =~~= split_spec(data@, sep));
                    lemma_split_nonempty(data@, sep);
                }
                return pieces;
            },
            Some(k) => {
                let rlen = rest.len();
                assert(k < rlen);
                let piece = head_to(rest.as_slice(), k);
                let new_rest = tail_from(rest.as_slice(), k + 1);
                pieces.push(piece);
                proof {
                    assert(pieces@.map_values(|v: Vec<u8>| v@) + split_spec(new_rest@, sep)
                        =~~= split_spec(data@, sep));
                }
                rest = new_rest;
            },
        }
    }
}

/// The bytes of `data` before `to`.
pub fn head_to(data: &[u8], to: usize) -> (r: Vec<u8>)
    requires
        to <= data@.len(),
    ensures
        r@ == data@.take(to as int),
{
    let mut out: Vec<u8> = Vec::new();
    let mut i: usize = 0;
    while i < to
        invariant
            i <= to <= data@.len(),
            out@ == data@.take(i as int),
        decreases to - i,
    {
        out.push(data[i]);
        assert(out@ =~= data@.take(i as int + 1));
        i = i + 1;
    }
    out
}

/// `b` is an ASCII decimal digit.
pub open spec fn is_digit(b: u8) -> bool {
    48 <= b <= 57
}

/// Every byte of `s` is an ASCII decimal digit.
pub open spec fn all_digits(s: Seq<u8>) -> bool {
    forall|i: int| 0 <= i < s.len() ==> is_digit(#[trigger] s[i])
}

/// The number denoted by the ASCII decimal digits `s`.
pub open spec fn dec_value(s: Seq<u8>) -> int
    decreases s.len(),
{
    if s.len() == 0 {
        0
    } else {
        dec_value(s.drop_last()) * 10 + s.last() - 48
    }
}

/// The canonical ASCII decimal spelling of `v`, without leading zeros.
pub open spec fn dec_repr(v: int) -> Seq<u8>
    decreases v,
{
    if v < 10 {
        seq![(48 + v) as u8]
    } else {
        dec_repr(v / 10).push((48 + v % 10) as u8)
    }
}

proof fn lemma_dec_value_nonneg(s: Seq<u8>)
    requires
        all_digits(s),
    ensures
        dec_value(s) >= 0,
    decreases s.len(),
{
    if s.len() > 0 {
        assert(all_digits(s.drop_last()));
        lemma_dec_value_nonneg(s.drop_last());
    }
}

proof fn lemma_dec_value_mono(s: Seq<u8>, i: int, j: int)
    requires
        0 <= i <= j <= s.len(),
        forall|k: int| 0 <= k < j ==> is_digit(#[trigger] s[k]),
    ensures
        dec_value(s.take(j)) >= dec_value(s.take(i)),
    decreases j - i,
{
    if i < j {
        lemma_dec_value_mono(s, i, j - 1);
        assert(s.take(j).drop_last() =~= s.take(j - 1));
        assert(all_digits(s.take(j - 1)));
        lemma_dec_value_nonneg(s.take(j - 1));
        assert(dec_value(s.take(j)) == dec_value(s.take(j - 1)) * 10 + s[j - 1] - 48);
    }
}

/// Parse `s` as a decimal `u32`; `None` on empty input, a non-digit byte,
/// or a value above `u32::MAX`.
pub fn parse_u32_dec(s: &[u8]) -> (r: Option<u32>)
    ensures
        r is Some <==> s@.len() > 0 && all_digits(s@) && dec_value(s@) <= u32::MAX,
        r matches Some(v) ==> v == dec_value(s@),
{
    if s.len() == 0 {
        return None;
    }
    let mut acc: u32 = 0;
    let mut i: usize = 0;
    while i < s.len()
        invariant
            0 < s@.len(),
            i <= s@.len(),
            forall|k: int| 0 <= k < i ==> is_digit(#[trigger] s@[k]),
            acc == dec_value(s@.take(i as int)),
        decreases s@.len() - i,
    {
        let b = s[i];
        if b < 48 || b > 57 {
            return None;
        }
        let d: u32 = (b - 48) as u32;
        proof {
            assert(s@.take(i as int + 1).drop_last() =~= s@.take(i as int));
            assert(dec_value(s@.take(i as int + 1)) == acc * 10 + d);
        }
        if acc > (u32::MAX - d) / 10 {
            proof {
                assert(acc * 10 + d > u32::MAX) by (nonlinear_arith)
                    requires
                        acc > (u32::MAX - d) / 10,
                        d <= 9,
                        acc <= u32::MAX,
                ;
                if all_digits(s@) {
                    lemma_dec_value_mono(s@, i as int + 1, s@.len() as int);
                    assert(s@.take(s@.len() as int) =~= s@);
                }
            }
            return None;
        }
        proof {
            assert(acc * 10 + d <= u32::MAX) by (nonlinear_arith)
                requires
                    acc <= (u32::MAX - d) / 10,
                    d <= 9,
            ;
        }
        acc = acc * 10 + d;
        i = i + 1;
    }
    proof {
        assert(s@.take(s@.len() as int) =~= s@);
    }
    Some(acc)
}

/// Write `v` as ASCII decimal digits.
pub fn u32_dec(v: u32) -> (r: Vec<u8>)
    ensures
        r@ == dec_repr(v as int),
    decreases v,
{
    if v < 10 {
        let mut r: Vec<u8> = Vec::new();
        r.push(48 + v as u8);
        assert(r@ =~= dec_repr(v as int));
        r
    } else {
        let mut r = u32_dec(v / 10);
        r.push(48 + (v % 10) as u8);
        assert(r@ =~= dec_repr(v as int));
        r
    }
}

/// The canonical spelling reads back as the number it spells.
pub proof fn lemma_dec_repr_value(v: int)
    requires
        v >= 0,
    ensures
        all_digits(dec_repr(v)),
        dec_value(dec_repr(v)) == v,
        dec_repr(v).len() >= 1,
    decreases v,
{
    if v < 10 {
        let s = dec_repr(v);
        assert(s =~= seq![(48 + v) as u8]);
        assert(s.drop_last() =~= Seq::<u8>::empty());
        assert(dec_value(s) == dec_value(s.drop_last()) * 10 + s.last() - 48);
        assert(s.last() == (48 + v) as u8);
    } else {
        lemma_dec_repr_value(v / 10);
        vstd::arithmetic::div_mod::lemma_fundamental_div_mod(v, 10);
        let s = dec_repr(v);
        assert(s.drop_last() =~= dec_repr(v / 10));
        assert(s.last() == (48 + v % 10) as u8);
        assert(dec_value(s) == dec_value(dec_repr(v / 10)) * 10 + v % 10);
    }
}

} // verus!
