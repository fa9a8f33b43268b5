//! Decimal and dotted-quad text, as byte sequences.
//!
//! The route-distinguisher text form is ASCII, so the codec works on bytes.
//! Rendering is canonical decimal (no leading zeroes); parsing of integers
//! accepts an optional leading `+` and leading zeroes, as the standard
//! library's integer parsing does, while the dotted-quad parser accepts only
//! canonical octets, as the standard library's address parsing does.

use vstd::prelude::*;

use crate::net::Ipv4Address;

verus! {

pub open spec fn is_digit(b: u8) -> bool {
    0x30 <= b && b <= 0x39
}

pub open spec fn all_digits(s: Seq<u8>) -> bool {
    forall|i: int| 0 <= i < s.len() ==> is_digit(#[trigger] s[i])
}

/// The decimal digits of `n`, most significant first.
pub open spec fn dec_digits(n: nat) -> Seq<u8>
    decreases n,
{
    if n < 10 {
        seq![(0x30 + n) as u8]
    } else {
        dec_digits(n / 10).push((0x30 + n % 10) as u8)
    }
}

/// The numeric value of a digit string, most significant first.
pub open spec fn dec_val(s: Seq<u8>) -> nat
    decreases s.len(),
{
    if s.len() == 0 {
        0
    } else {
        dec_val(s.drop_last()) * 10 + (if is_digit(s.last()) {
            (s.last() - 0x30) as nat
        } else {
            0
        })
    }
}

/// The digits of an integer text: what follows an optional leading `+`.
pub open spec fn digits_of(s: Seq<u8>) -> Seq<u8> {
    if s.len() > 0 && s[0] == 0x2b {
        s.drop_first()
    } else {
        s
    }
}

/// What integer parsing accepts: an optional `+`, then one or more digits,
/// with a value that fits the target width.
pub open spec fn parse_u32_spec(s: Seq<u8>) -> Option<u32> {
    if digits_of(s).len() > 0 && all_digits(digits_of(s)) && dec_val(digits_of(s)) <= u32::MAX {
        Some(dec_val(digits_of(s)) as u32)
    } else {
        None
    }
}

/// The least index of `b` in `s`, if any.
pub open spec fn find_byte(s: Seq<u8>, b: u8) -> Option<int>
    decreases s.len(),
{
    if s.len() == 0 {
        None
    } else if s[0] == b {
        Some(0int)
    } else {
        match find_byte(s.drop_first(), b) {
            Some(i) => Some(i + 1),
            None => None,
        }
    }
}

pub proof fn lemma_find_byte(s: Seq<u8>, b: u8)
    ensures
        match find_byte(s, b) {
            Some(i) => 0 <= i < s.len() && s[i] == b && (forall|j: int| 0 <= j < i ==> s[j] != b),
            None => forall|j: int| 0 <= j < s.len() ==> s[j] != b,
        },
    decreases s.len(),
{
    if s.len() > 0 && s[0] != b {
        lemma_find_byte(s.drop_first(), b);
        assert forall|j: int| 0 <= j < s.len() && s[j] == b implies exists|i: int|
            find_byte(s, b) == Some(i) by {
            assert(s.drop_first()[j - 1] == s[j]);
        }
        match find_byte(s.drop_first(), b) {
            Some(i) => {
                assert(s.drop_first()[i] == s[i + 1]);
                assert forall|j: int| 0 <= j < i + 1 implies s[j] != b by {
                    if j > 0 {
                        assert(s.drop_first()[j - 1] == s[j]);
                    }
                }
            },
            None => {
                assert forall|j: int| 0 <= j < s.len() implies s[j] != b by {
                    if j > 0 {
                        assert(s.drop_first()[j - 1] == s[j]);
                    }
                }
            },
        }
    }
}

/// Where `b` does not occur in `a`, the first `b` of `a + [b] + c` is at `a.len()`.
pub proof fn lemma_find_byte_concat(a: Seq<u8>, c: Seq<u8>, b: u8)
    requires
        forall|j: int| 0 <= j < a.len() ==> a[j] != b,
    ensures
        find_byte(a + seq![b] + c, b) == Some(a.len() as int),
    decreases a.len(),
{
    let s = a + seq![b] + c;
    if a.len() == 0 {
        assert(s[0] == b);
    } else {
        assert(s[0] == a[0]);
        assert(s.drop_first() =~= a.drop_first() + seq![b] + c);
        lemma_find_byte_concat(a.drop_first(), c, b);
    }
}

pub proof fn lemma_dec_digits_are_digits(n: nat)
    ensures
        dec_digits(n).len() >= 1,
        all_digits(dec_digits(n)),
        n >= 1 ==> dec_digits(n)[0] != 0x30,
        n < 10 ==> dec_digits(n).len() == 1,
    decreases n,
{
    if n >= 10 {
        lemma_dec_digits_are_digits(n / 10);
        let d = dec_digits(n);
        let p = dec_digits(n / 10);
        assert(d == p.push((0x30 + n % 10) as u8));
        assert(d[0] == p[0]);
        assert forall|i: int| 0 <= i < d.len() implies is_digit(d[i]) by {
            if i < p.len() {
                assert(d[i] == p[i]);
            }
        }
    }
}

pub proof fn lemma_dec_digits_val(n: nat)
    ensures
        dec_val(dec_digits(n)) == n,
    decreases n,
{
    if n < 10 {
        let d = dec_digits(n);
        assert(d.len() == 1);
        assert(d.last() == (0x30 + n) as u8);
        assert(is_digit(d.last()));
        assert(d.drop_last() =~= Seq::<u8>::empty());
        assert(dec_val(d) == dec_val(d.drop_last()) * 10 + (d.last() - 0x30));
    } else {
        lemma_dec_digits_val(n / 10);
        lemma_dec_digits_are_digits(n / 10);
        let d = dec_digits(n);
        assert(d.drop_last() =~= dec_digits(n / 10));
        assert(dec_val(d) == n / 10 * 10 + n % 10);
    }
}

/// A digit string is numerically no less than any of its prefixes.
pub proof fn lemma_dec_val_take_le(s: Seq<u8>, k: int)
    requires
        0 <= k <= s.len(),
    ensures
        dec_val(s.take(k)) <= dec_val(s),
    decreases s.len() - k,
{
    if k < s.len() {
        lemma_dec_val_take_le(s, k + 1);
        assert(s.take(k + 1).drop_last() =~= s.take(k));
        assert(dec_val(s.take(k + 1)) >= dec_val(s.take(k)) * 10);
    } else {
        assert(s.take(k) =~= s);
    }
}

/// Canonical decimal re-parses to the value it renders.
pub proof fn lemma_parse_dec(n: nat)
    requires
        n <= u32::MAX,
    ensures
        parse_u32_spec(dec_digits(n)) == Some(n as u32),
{
    lemma_dec_digits_are_digits(n);
    lemma_dec_digits_val(n);
    let d = dec_digits(n);
    assert(is_digit(d[0]));
    assert(d[0] != 0x2b);
    assert(digits_of(d) == d);
}

/// A value below a thousand renders in at most three digits.
pub proof fn lemma_dec_digits_len3(n: nat)
    requires
        n <= 999,
    ensures
        dec_digits(n).len() <= 3,
{
    reveal_with_fuel(dec_digits, 4);
    if n >= 10 {
        lemma_dec_digits_are_digits(n / 10);
        if n / 10 >= 10 {
            lemma_dec_digits_are_digits(n / 10 / 10);
        }
    }
}

/// Appends the canonical decimal form of `n`.
pub fn push_dec_u32(out: &mut Vec<u8>, n: u32)
    ensures
        final(out)@ == old(out)@ + dec_digits(n as nat),
    decreases n,
{
    if n < 10 {
        out.push(0x30u8 + n as u8);
        assert(out@ =~= old(out)@ + dec_digits(n as nat));
    } else {
        let ghost mid = out@;
        push_dec_u32(out, n / 10);
        out.push(0x30u8 + (n % 10) as u8);
        assert(out@ =~= old(out)@ + dec_digits(n as nat));
    }
}

/// Parses decimal with optional leading `+`, exactly when the text is such a
/// number and its value fits.
pub fn parse_u32(s: &[u8]) -> (r: Option<u32>)
    ensures
        r == parse_u32_spec(s@),
{
    let ghost digits: Seq<u8> = digits_of(s@);
    let start: usize = if s.len() > 0 && s[0] == 0x2b {
        1
    } else {
        0
    };
    proof {
        assert(digits =~= s@.skip(start as int));
    }
    if s.len() == start {
        return None;
    }
    let mut acc: u64 = 0;
    let mut j: usize = start;
    while j < s.len()
        invariant
            start <= j <= s@.len(),
            digits == digits_of(s@),
            digits == s@.skip(start as int),
            digits.len() == s@.len() - start,
            all_digits(digits.take(j - start)),
            acc == dec_val(digits.take(j - start)),
            acc <= u32::MAX,
        decreases s@.len() - j,
    {
        let b = s[j];
        proof {
            assert(digits[j - start] == s@[j as int]);
        }
        if !(0x30 <= b && b <= 0x39) {
            proof {
                assert(!is_digit(digits[j - start]));
                assert(!all_digits(digits));
                assert(parse_u32_spec(s@) is None);
            }
            return None;
        }
        let next: u64 = acc * 10 + (b - 0x30) as u64;
        proof {
            assert(digits.take(j - start + 1).drop_last() =~= digits.take(j - start));
            assert(digits.take(j - start + 1).last() == digits[j - start]);
        }
        if next > u32::MAX as u64 {
            proof {
                lemma_dec_val_take_le(digits, j - start + 1);
                assert(dec_val(digits.take(j - start + 1)) == acc * 10 + (b - 0x30));
                assert(dec_val(digits) >= dec_val(digits.take(j - start + 1)));
                assert(dec_val(digits) > u32::MAX);
                assert(parse_u32_spec(s@) is None);
            }
            return None;
        }
        acc = next;
        j += 1;
    }
    proof {
        assert(digits.take(j - start) =~= digits);
    }
    Some(acc as u32)
}

/// The canonical text of one octet position: what dotted-quad parsing accepts.
pub open spec fn is_canon_octet(s: Seq<u8>) -> bool {
    &&& all_digits(s)
    &&& 1 <= s.len() <= 3
    &&& (s.len() > 1 ==> s[0] != 0x30)
    &&& dec_val(s) <= 255
}

/// Parses one octet of a dotted quad, exactly when canonical.
pub fn parse_octet(s: &[u8]) -> (r: Option<u8>)
    ensures
        r == if is_canon_octet(s@) {
            Some(dec_val(s@) as u8)
        } else {
            None::<u8>
        },
{
    if s.len() < 1 || s.len() > 3 {
        return None;
    }
    let mut k: usize = 0;
    while k < s.len()
        invariant
            0 <= k <= s@.len(),
            forall|i: int| 0 <= i < k ==> is_digit(#[trigger] s@[i]),
        decreases s@.len() - k,
    {
        let b = s[k];
        if !(0x30 <= b && b <= 0x39) {
            return None;
        }
        k += 1;
    }
    if s.len() > 1 && s[0] == 0x30 {
        return None;
    }
    let v: u32 = if s.len() == 1 {
        proof {
            assert(s@.drop_last() =~= Seq::<u8>::empty());
        }
        (s[0] - 0x30) as u32
    } else if s.len() == 2 {
        proof {
            assert(s@.drop_last() =~= seq![s@[0]]);
            assert(seq![s@[0]].drop_last() =~= Seq::<u8>::empty());
        }
        (s[0] - 0x30) as u32 * 10 + (s[1] - 0x30) as u32
    } else {
        proof {
            assert(s@.drop_last() =~= seq![s@[0], s@[1]]);
            assert(seq![s@[0], s@[1]].drop_last() =~= seq![s@[0]]);
            assert(seq![s@[0]].drop_last() =~= Seq::<u8>::empty());
        }
        (s[0] - 0x30) as u32 * 100 + (s[1] - 0x30) as u32 * 10 + (s[2] - 0x30) as u32
    };
    proof {
        reveal_with_fuel(dec_val, 4);
        assert(v == dec_val(s@));
    }
    if v <= 255 {
        Some(v as u8)
    } else {
        None
    }
}

/// The canonical dotted-quad text of an address.
pub open spec fn ipv4_text(ip: Ipv4Address) -> Seq<u8> {
    dec_digits(ip.spec_octet(0) as nat) + seq![0x2eu8] + dec_digits(ip.spec_octet(1) as nat)
        + seq![0x2eu8] + dec_digits(ip.spec_octet(2) as nat) + seq![0x2eu8] + dec_digits(
        ip.spec_octet(3) as nat,
    )
}

/// Appends the canonical dotted-quad form of `ip`.
pub fn push_ipv4(out: &mut Vec<u8>, ip: &Ipv4Address)
    ensures
        final(out)@ == old(out)@ + ipv4_text(*ip),
{
    let o = ip.octets();
    push_dec_u32(out, o[0] as u32);
    out.push(0x2eu8);
    push_dec_u32(out, o[1] as u32);
    out.push(0x2eu8);
    push_dec_u32(out, o[2] as u32);
    out.push(0x2eu8);
    push_dec_u32(out, o[3] as u32);
    assert(out@ =~= old(out)@ + ipv4_text(*ip));
}

/// What dotted-quad parsing accepts: exactly four canonical octets.
pub open spec fn parse_ipv4_spec(s: Seq<u8>) -> Option<Ipv4Address> {
    match find_byte(s, 0x2e) {
        None => None,
        Some(i1) => {
            let p0 = s.take(i1);
            let r1 = s.skip(i1 + 1);
            match find_byte(r1, 0x2e) {
                None => None,
                Some(i2) => {
                    let p1 = r1.take(i2);
                    let r2 = r1.skip(i2 + 1);
                    match find_byte(r2, 0x2e) {
                        None => None,
                        Some(i3) => {
                            let p2 = r2.take(i3);
                            let p3 = r2.skip(i3 + 1);
                            if find_byte(p3, 0x2e) is None && is_canon_octet(p0) && is_canon_octet(
                                p1,
                            ) && is_canon_octet(p2) && is_canon_octet(p3) {
                                Some(
                                    Ipv4Address {
                                        bits: ((dec_val(p0) as u32) << 24u32) | ((dec_val(p1)
                                            as u32) << 16u32) | ((dec_val(p2) as u32) << 8u32) | (
                                        dec_val(p3) as u32),
                                    },
                                )
                            } else {
                                None
                            }
                        },
                    }
                },
            }
        },
    }
}

/// A witness at a least position determines `find_byte`.
pub proof fn lemma_find_byte_is(s: Seq<u8>, b: u8, i: int)
    requires
        0 <= i < s.len(),
        s[i] == b,
        forall|j: int| 0 <= j < i ==> s[j] != b,
    ensures
        find_byte(s, b) == Some(i),
    decreases i,
{
    if i > 0 {
        assert(s[0] != b);
        assert(s.drop_first()[i - 1] == s[i]);
        assert forall|j: int| 0 <= j < i - 1 implies s.drop_first()[j] != b by {
            assert(s.drop_first()[j] == s[j + 1]);
        }
        lemma_find_byte_is(s.drop_first(), b, i - 1);
    }
}

/// Absence of `b` everywhere determines `find_byte`.
pub proof fn lemma_find_byte_none(s: Seq<u8>, b: u8)
    requires
        forall|j: int| 0 <= j < s.len() ==> s[j] != b,
    ensures
        find_byte(s, b) is None,
    decreases s.len(),
{
    if s.len() > 0 {
        assert forall|j: int| 0 <= j < s.len() - 1 implies s.drop_first()[j] != b by {
            assert(s.drop_first()[j] == s[j + 1]);
        }
        lemma_find_byte_none(s.drop_first(), b);
    }
}

/// The least index of `b` at or after `from`, by scan.
pub fn find_from(s: &[u8], from: usize, b: u8) -> (r: Option<usize>)
    requires
        from <= s@.len(),
    ensures
        match r {
            Some(j) => from <= j < s@.len() && s@[j as int] == b && (forall|k: int|
                from <= k < j ==> s@[k] != b),
            None => forall|k: int| from <= k < s@.len() ==> s@[k] != b,
        },
{
    let mut j = from;
    while j < s.len()
        invariant
            from <= j <= s@.len(),
            forall|k: int| from <= k < j ==> s@[k] != b,
        decreases s@.len() - j,
    {
        if s[j] == b {
            return Some(j);
        }
        j += 1;
    }
    None
}

/// Parses a dotted quad, exactly when the text is four canonical octets.
pub fn parse_ipv4(s: &[u8]) -> (r: Option<Ipv4Address>)
    ensures
        r == parse_ipv4_spec(s@),
{
    let slen = s.len();
    let i1 = match find_from(s, 0, 0x2e) {
        Some(i) => i,
        None => {
            proof {
                lemma_find_byte_none(s@, 0x2e);
            }
            return None;
        },
    };
    proof {
        lemma_find_byte_is(s@, 0x2e, i1 as int);
    }
    let ghost r1 = s@.skip(i1 as int + 1);
    let i2 = match find_from(s, i1 + 1, 0x2e) {
        Some(i) => i,
        None => {
            proof {
                assert forall|k: int| 0 <= k < r1.len() implies r1[k] != 0x2e by {
                    assert(r1[k] == s@[k + i1 + 1]);
                }
                lemma_find_byte_none(r1, 0x2e);
            }
            return None;
        },
    };
    proof {
        assert(r1[i2 - i1 - 1] == s@[i2 as int]);
        assert forall|k: int| 0 <= k < i2 - i1 - 1 implies r1[k] != 0x2e by {
            assert(r1[k] == s@[k + i1 + 1]);
        }
        lemma_find_byte_is(r1, 0x2e, i2 - i1 - 1);
    }
    let ghost r2 = r1.skip(i2 - i1);
    proof {
        assert(r2 =~= s@.skip(i2 as int + 1));
    }
    let i3 = match find_from(s, i2 + 1, 0x2e) {
        Some(i) => i,
        None => {
            proof {
                assert forall|k: int| 0 <= k < r2.len() implies r2[k] != 0x2e by {
                    assert(r2[k] == s@[k + i2 + 1]);
                }
                lemma_find_byte_none(r2, 0x2e);
            }
            return None;
        },
    };
    proof {
        assert(r2[i3 - i2 - 1] == s@[i3 as int]);
        assert forall|k: int| 0 <= k < i3 - i2 - 1 implies r2[k] != 0x2e by {
            assert(r2[k] == s@[k + i2 + 1]);
        }
        lemma_find_byte_is(r2, 0x2e, i3 - i2 - 1);
    }
    let ghost p3 = r2.skip(i3 - i2);
    proof {
        assert(p3 =~= s@.skip(i3 as int + 1));
    }
    if let Some(j4) = find_from(s, i3 + 1, 0x2e) {
        proof {
            assert(p3[j4 - i3 - 1] == s@[j4 as int]);
            lemma_find_byte(p3, 0x2e);
        }
        return None;
    }
    proof {
        assert forall|k: int| 0 <= k < p3.len() implies p3[k] != 0x2e by {
            assert(p3[k] == s@[k + i3 + 1]);
        }
        lemma_find_byte_none(p3, 0x2e);
    }
    let ghost p0 = s@.take(i1 as int);
    let ghost p1 = r1.take(i2 - i1 - 1);
    let ghost p2 = r2.take(i3 - i2 - 1);
    proof {
        assert(p1 =~= s@.subrange(i1 as int + 1, i2 as int));
        assert(p2 =~= s@.subrange(i2 as int + 1, i3 as int));
    }
    let s0 = vstd::slice::slice_subrange(s, 0, i1);
    let s1 = vstd::slice::slice_subrange(s, i1 + 1, i2);
    let s2 = vstd::slice::slice_subrange(s, i2 + 1, i3);
    let s3 = vstd::slice::slice_subrange(s, i3 + 1, s.len());
    proof {
        assert(s0@ =~= p0);
        assert(s1@ =~= p1);
        assert(s2@ =~= p2);
        assert(s3@ =~= p3);
    }
    let a = match parse_octet(s0) {
        Some(v) => v,
        None => {
            return None;
        },
    };
    let b = match parse_octet(s1) {
        Some(v) => v,
        None => {
            return None;
        },
    };
    let c = match parse_octet(s2) {
        Some(v) => v,
        None => {
            return None;
        },
    };
    let d = match parse_octet(s3) {
        Some(v) => v,
        None => {
            return None;
        },
    };
    Some(Ipv4Address::from_octets(a, b, c, d))
}

/// Dotted-quad text is digits and dots, at least seven bytes, starting with a
/// digit.
pub proof fn lemma_ipv4_text_bytes(ip: Ipv4Address)
    ensures
        ipv4_text(ip).len() >= 7,
        forall|j: int|
            0 <= j < ipv4_text(ip).len() ==> (is_digit(#[trigger] ipv4_text(ip)[j]) || ipv4_text(
                ip,
            )[j] == 0x2e),
        is_digit(ipv4_text(ip)[0]),
{
    let d0 = dec_digits(ip.spec_octet(0) as nat);
    let d1 = dec_digits(ip.spec_octet(1) as nat);
    let d2 = dec_digits(ip.spec_octet(2) as nat);
    let d3 = dec_digits(ip.spec_octet(3) as nat);
    lemma_dec_digits_are_digits(ip.spec_octet(0) as nat);
    lemma_dec_digits_are_digits(ip.spec_octet(1) as nat);
    lemma_dec_digits_are_digits(ip.spec_octet(2) as nat);
    lemma_dec_digits_are_digits(ip.spec_octet(3) as nat);
    let t = ipv4_text(ip);
    let l0 = d0.len() as int;
    let l1 = d1.len() as int;
    let l2 = d2.len() as int;
    let l3 = d3.len() as int;
    assert(t.len() == l0 + 1 + l1 + 1 + l2 + 1 + l3);
    assert forall|j: int|
        0 <= j < t.len() implies (is_digit(#[trigger] t[j]) || t[j] == 0x2e) by {
        if j < l0 {
            assert(t[j] == d0[j]);
        } else if j == l0 {
            assert(t[j] == 0x2e);
        } else if j < l0 + 1 + l1 {
            assert(t[j] == d1[j - l0 - 1]);
        } else if j == l0 + 1 + l1 {
            assert(t[j] == 0x2e);
        } else if j < l0 + 1 + l1 + 1 + l2 {
            assert(t[j] == d2[j - l0 - 1 - l1 - 1]);
        } else if j == l0 + 1 + l1 + 1 + l2 {
            assert(t[j] == 0x2e);
        } else {
            assert(t[j] == d3[j - l0 - 1 - l1 - 1 - l2 - 1]);
        }
    }
    assert(t[0] == d0[0]);
}

/// A canonical octet rendering satisfies the octet grammar.
proof fn lemma_canon_octet_digits(n: nat)
    requires
        n <= 255,
    ensures
        is_canon_octet(dec_digits(n)),
{
    lemma_dec_digits_are_digits(n);
    lemma_dec_digits_val(n);
    lemma_dec_digits_len3(n);
}

/// Reassembling the four octet fields of a 32-bit value gives the value back.
proof fn lemma_octet_recompose(b: u32)
    ensures
        (((((b >> 24u32) as u8) as u32) << 24u32) | (((((b >> 16u32) & 0xff) as u8) as u32)
            << 16u32) | (((((b >> 8u32) & 0xff) as u8) as u32) << 8u32) | (((b
            & 0xff) as u8) as u32)) == b,
{
    assert(((((b >> 24u32) as u8) as u32) << 24u32) | (((((b >> 16u32) & 0xff) as u8) as u32)
        << 16u32) | (((((b >> 8u32) & 0xff) as u8) as u32) << 8u32) | (((b & 0xff) as u8) as u32)
        == b) by (bit_vector);
}

/// Dotted-quad text re-parses to the address it renders.
#[verifier::rlimit(60)]
pub proof fn lemma_ipv4_text_round_trip(ip: Ipv4Address)
    ensures
        parse_ipv4_spec(ipv4_text(ip)) == Some(ip),
{
    let o0 = ip.spec_octet(0) as nat;
    let o1 = ip.spec_octet(1) as nat;
    let o2 = ip.spec_octet(2) as nat;
    let o3 = ip.spec_octet(3) as nat;
    let d0 = dec_digits(o0);
    let d1 = dec_digits(o1);
    let d2 = dec_digits(o2);
    let d3 = dec_digits(o3);
    lemma_canon_octet_digits(o0);
    lemma_canon_octet_digits(o1);
    lemma_canon_octet_digits(o2);
    lemma_canon_octet_digits(o3);
    lemma_dec_digits_val(o0);
    lemma_dec_digits_val(o1);
    lemma_dec_digits_val(o2);
    lemma_dec_digits_val(o3);
    let t = ipv4_text(ip);
    let rest1 = d1 + seq![0x2eu8] + d2 + seq![0x2eu8] + d3;
    let rest2 = d2 + seq![0x2eu8] + d3;
    assert(t =~= d0 + seq![0x2eu8] + rest1);
    lemma_find_byte_concat(d0, rest1, 0x2e);
    assert(find_byte(t, 0x2e) == Some(d0.len() as int));
    assert(t.take(d0.len() as int) =~= d0);
    assert(t.skip(d0.len() as int + 1) =~= rest1);
    assert(rest1 =~= d1 + seq![0x2eu8] + rest2);
    lemma_find_byte_concat(d1, rest2, 0x2e);
    assert(rest1.take(d1.len() as int) =~= d1);
    assert(rest1.skip(d1.len() as int + 1) =~= rest2);
    lemma_find_byte_concat(d2, d3, 0x2e);
    assert(rest2.take(d2.len() as int) =~= d2);
    assert(rest2.skip(d2.len() as int + 1) =~= d3);
    lemma_find_byte_none(d3, 0x2e);
    lemma_octet_recompose(ip.bits);
    assert(parse_ipv4_spec(t) == Some(ip));
}

/// The space-joined decimal text of an AS path.
pub open spec fn as_path_text(ap: Seq<u32>) -> Seq<u8>
    decreases ap.len(),
{
    if ap.len() == 0 {
        Seq::empty()
    } else if ap.len() == 1 {
        dec_digits(ap[0] as nat)
    } else {
        as_path_text(ap.drop_last()) + seq![0x20u8] + dec_digits(ap.last() as nat)
    }
}

/// Renders an AS path as space-joined decimal.
pub fn render_as_path(ap: &Vec<u32>) -> (r: Vec<u8>)
    ensures
        r@ == as_path_text(ap@),
{
    let mut out: Vec<u8> = Vec::new();
    let mut i: usize = 0;
    while i < ap.len()
        invariant
            i <= ap@.len(),
            out@ == as_path_text(ap@.take(i as int)),
        decreases ap@.len() - i,
    {
        if i > 0 {
            out.push(0x20u8);
        }
        push_dec_u32(&mut out, ap[i]);
        proof {
            assert(ap@.take(i as int + 1).drop_last() =~= ap@.take(i as int));
            assert(ap@.take(i as int + 1).last() == ap@[i as int]);
            if i == 0 {
                assert(ap@.take(1)[0] == ap@[0]);
                assert(out@ =~= as_path_text(ap@.take(1)));
            } else {
                assert(out@ =~= as_path_text(ap@.take(i as int + 1)));
            }
        }
        i += 1;
    }
    proof {
        assert(ap@.take(ap@.len() as int) =~= ap@);
    }
    out
}

} // verus!
