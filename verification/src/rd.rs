//! The route-distinguisher codec.
//!
//! A route distinguisher disambiguates overlapping address spaces across VPN
//! routing instances. It has three wire types and a text form `A:B`; the
//! all-zero wire value and the text `0:0` denote the default (global) routing
//! instance.

use vstd::prelude::*;

use crate::net::Ipv4Address;
use crate::text::all_digits;
use crate::text::dec_digits;
use crate::text::digits_of;
use crate::text::find_byte;
use crate::text::ipv4_text;
use crate::text::is_digit;
use crate::text::lemma_dec_digits_are_digits;
use crate::text::lemma_find_byte_concat;
use crate::text::lemma_find_byte_is;
use crate::text::lemma_find_byte_none;
use crate::text::parse_ipv4;
use crate::text::parse_ipv4_spec;
use crate::text::parse_u32;
use crate::text::parse_u32_spec;
use crate::text::push_dec_u32;
use crate::text::push_ipv4;
use crate::text::find_from;

verus! {

/// A VPN route distinguisher: the default routing instance or one of the
/// three assigned wire types.
#[derive(Clone, Copy, Debug, PartialEq, Eq, Structural, Hash, Default)]
pub enum RouteDistinguisher {
    #[default]
    Default,
    Type0 { asn: u16, value: u32 },
    Type1 { ip: Ipv4Address, value: u16 },
    Type2 { asn: u32, value: u16 },
}

impl RouteDistinguisher {
    pub fn is_default(&self) -> (r: bool)
        ensures
            r == (*self == RouteDistinguisher::Default),
    {
        match self {
            RouteDistinguisher::Default => true,
            _ => false,
        }
    }
}

/// The wire decoding: the all-zero pair is the default instance, otherwise
/// the top sixteen bits of `high` select the type, and an unknown type fails
/// carrying its tag.
pub open spec fn from_wire_spec(high: u32, low: u32) -> Result<RouteDistinguisher, u16> {
    if high == 0 && low == 0 {
        Ok(RouteDistinguisher::Default)
    } else {
        let tag = high >> 16u32;
        if tag == 0 {
            Ok(RouteDistinguisher::Type0 { asn: (high & 0xffff) as u16, value: low })
        } else if tag == 1 {
            Ok(
                RouteDistinguisher::Type1 {
                    ip: Ipv4Address { bits: ((high & 0xffff) << 16u32) | (low >> 16u32) },
                    value: (low & 0xffff) as u16,
                },
            )
        } else if tag == 2 {
            Ok(
                RouteDistinguisher::Type2 {
                    asn: ((high & 0xffff) << 16u32) | (low >> 16u32),
                    value: (low & 0xffff) as u16,
                },
            )
        } else {
            Err(tag as u16)
        }
    }
}

/// The wire encoding, the projection inverse to `from_wire_spec`.
pub open spec fn to_wire_spec(rd: RouteDistinguisher) -> (u32, u32) {
    match rd {
        RouteDistinguisher::Default => (0u32, 0u32),
        RouteDistinguisher::Type0 { asn, value } => (asn as u32, value),
        RouteDistinguisher::Type1 { ip, value } => (
            (1u32 << 16u32) | (ip.bits >> 16u32),
            ((ip.bits & 0xffff) << 16u32) | (value as u32),
        ),
        RouteDistinguisher::Type2 { asn, value } => (
            (2u32 << 16u32) | (asn >> 16u32),
            ((asn & 0xffff) << 16u32) | (value as u32),
        ),
    }
}

impl RouteDistinguisher {
    /// Decodes a wire pair; `Err` carries the unknown type tag.
    pub fn from_wire(high: u32, low: u32) -> (r: Result<RouteDistinguisher, u16>)
        ensures
            r == from_wire_spec(high, low),
    {
        if high == 0 && low == 0 {
            return Ok(RouteDistinguisher::Default);
        }
        let tag = high >> 16u32;
        proof {
            assert(high >> 16u32 < 0x10000 && (high & 0xffff) < 0x10000 && (low & 0xffff) < 0x10000)
                by (bit_vector);
        }
        if tag == 0 {
            Ok(RouteDistinguisher::Type0 { asn: (high & 0xffff) as u16, value: low })
        } else if tag == 1 {
            Ok(
                RouteDistinguisher::Type1 {
                    ip: Ipv4Address { bits: ((high & 0xffff) << 16u32) | (low >> 16u32) },
                    value: (low & 0xffff) as u16,
                },
            )
        } else if tag == 2 {
            Ok(
                RouteDistinguisher::Type2 {
                    asn: ((high & 0xffff) << 16u32) | (low >> 16u32),
                    value: (low & 0xffff) as u16,
                },
            )
        } else {
            Err(tag as u16)
        }
    }

    /// Encodes to the wire pair.
    pub fn to_wire(&self) -> (r: (u32, u32))
        ensures
            r == to_wire_spec(*self),
    {
        match self {
            RouteDistinguisher::Default => (0u32, 0u32),
            RouteDistinguisher::Type0 { asn, value } => (*asn as u32, *value),
            RouteDistinguisher::Type1 { ip, value } => (
                (1u32 << 16u32) | (ip.bits >> 16u32),
                ((ip.bits & 0xffff) << 16u32) | (*value as u32),
            ),
            RouteDistinguisher::Type2 { asn, value } => (
                (2u32 << 16u32) | (*asn >> 16u32),
                ((*asn & 0xffff) << 16u32) | (*value as u32),
            ),
        }
    }
}

/// The all-zero wire pair decodes to the default instance, and any other pair
/// with a tag outside the three assigned types fails carrying that tag.
pub proof fn lemma_wire_default_and_unknown(high: u32, low: u32)
    ensures
        (high == 0 && low == 0) ==> from_wire_spec(high, low) == Ok::<_, u16>(
            RouteDistinguisher::Default,
        ),
        !(high == 0 && low == 0) && (high >> 16u32) != 0 && (high >> 16u32) != 1 && (high
            >> 16u32) != 2 ==> from_wire_spec(high, low) == Err::<RouteDistinguisher, u16>(
            ((high >> 16u32) as u16),
        ),
{
}

/// Decoding a known wire pair and re-encoding reproduces the pair.
pub proof fn lemma_wire_round_trip(high: u32, low: u32)
    ensures
        match from_wire_spec(high, low) {
            Ok(rd) => to_wire_spec(rd) == (high, low),
            Err(_) => true,
        },
{
    if high == 0 && low == 0 {
    } else {
        let tag = high >> 16u32;
        if tag == 0 {
            assert(high >> 16u32 == 0 ==> (((high & 0xffff) as u16) as u32) == high)
                by (bit_vector);
        } else if tag == 1 {
            let b = ((high & 0xffff) << 16u32) | (low >> 16u32);
            assert(high >> 16u32 == 1 ==> ((1u32 << 16u32) | ((((high & 0xffff) << 16u32) | (low
                >> 16u32)) >> 16u32)) == high) by (bit_vector);
            assert(((((((high & 0xffff) << 16u32) | (low >> 16u32)) & 0xffff) << 16u32) | (((low
                & 0xffff) as u16) as u32)) == low) by (bit_vector);
        } else if tag == 2 {
            assert(high >> 16u32 == 2 ==> ((2u32 << 16u32) | ((((high & 0xffff) << 16u32) | (low
                >> 16u32)) >> 16u32)) == high) by (bit_vector);
            assert(((((((high & 0xffff) << 16u32) | (low >> 16u32)) & 0xffff) << 16u32) | (((low
                & 0xffff) as u16) as u32)) == low) by (bit_vector);
        }
    }
}

/// The wire values whose encoding decodes back to themselves: every value but
/// the type-0 distinguisher with zero ASN and zero value, whose encoding is
/// the all-zero pair and so decodes as the default instance.
pub open spec fn wire_canonical(rd: RouteDistinguisher) -> bool {
    match rd {
        RouteDistinguisher::Type0 { asn, value } => !(asn == 0 && value == 0),
        _ => true,
    }
}

/// Encoding a canonical value and decoding reproduces the value.
pub proof fn lemma_wire_encode_decode(rd: RouteDistinguisher)
    requires
        wire_canonical(rd),
    ensures
        from_wire_spec(to_wire_spec(rd).0, to_wire_spec(rd).1) == Ok::<_, u16>(rd),
{
    match rd {
        RouteDistinguisher::Default => {
        },
        RouteDistinguisher::Type0 { asn, value } => {
            let h = asn as u32;
            assert(h <= 0xffff ==> h >> 16u32 == 0 && ((h & 0xffff) as u16) as u32 == h)
                by (bit_vector);
        },
        RouteDistinguisher::Type1 { ip, value } => {
            let b = ip.bits;
            let v = value as u32;
            let h = (1u32 << 16u32) | (b >> 16u32);
            let l = ((b & 0xffff) << 16u32) | v;
            assert(((1u32 << 16u32) | (b >> 16u32)) != 0) by (bit_vector);
            assert(((1u32 << 16u32) | (b >> 16u32)) >> 16u32 == 1) by (bit_vector);
            assert(v <= 0xffff ==> ((((1u32 << 16u32) | (b >> 16u32)) & 0xffff) << 16u32) | ((((b
                & 0xffff) << 16u32) | v) >> 16u32) == b) by (bit_vector);
            assert(v <= 0xffff ==> ((((b & 0xffff) << 16u32) | v) & 0xffff) == v) by (bit_vector);
        },
        RouteDistinguisher::Type2 { asn, value } => {
            let a = asn;
            let v = value as u32;
            assert(((2u32 << 16u32) | (a >> 16u32)) != 0) by (bit_vector);
            assert(((2u32 << 16u32) | (a >> 16u32)) >> 16u32 == 2) by (bit_vector);
            assert(v <= 0xffff ==> ((((2u32 << 16u32) | (a >> 16u32)) & 0xffff) << 16u32) | ((((a
                & 0xffff) << 16u32) | v) >> 16u32) == a) by (bit_vector);
            assert(v <= 0xffff ==> ((((a & 0xffff) << 16u32) | v) & 0xffff) == v) by (bit_vector);
        },
    }
}

/// The canonical text of a route distinguisher: `asn:value`, `ip:value`, or
/// `0:0` for the default instance.
pub open spec fn rd_text_spec(rd: RouteDistinguisher) -> Seq<u8> {
    match rd {
        RouteDistinguisher::Default => seq![0x30u8, 0x3au8, 0x30u8],
        RouteDistinguisher::Type0 { asn, value } => dec_digits(asn as nat) + seq![0x3au8]
            + dec_digits(value as nat),
        RouteDistinguisher::Type1 { ip, value } => ipv4_text(ip) + seq![0x3au8] + dec_digits(
            value as nat,
        ),
        RouteDistinguisher::Type2 { asn, value } => dec_digits(asn as nat) + seq![0x3au8]
            + dec_digits(value as nat),
    }
}

/// The text decoding. The right side of the first `:` must be an integer; the
/// left side is tried as an integer first and as a dotted quad second, with
/// the magnitude rules deciding among the three types.
pub open spec fn parse_rd_spec(s: Seq<u8>) -> Option<RouteDistinguisher> {
    if s == seq![0x30u8, 0x3au8, 0x30u8] {
        Some(RouteDistinguisher::Default)
    } else {
        match find_byte(s, 0x3a) {
            None => None,
            Some(i) => {
                let left = s.take(i);
                let right = s.skip(i + 1);
                match parse_u32_spec(right) {
                    None => None,
                    Some(v) => match parse_u32_spec(left) {
                        Some(asn) => if asn > 0xffff && v <= 0xffff {
                            Some(RouteDistinguisher::Type2 { asn, value: v as u16 })
                        } else if asn <= 0xffff {
                            Some(RouteDistinguisher::Type0 { asn: asn as u16, value: v })
                        } else {
                            None
                        },
                        None => match parse_ipv4_spec(left) {
                            Some(ip) => if v <= 0xffff {
                                Some(RouteDistinguisher::Type1 { ip, value: v as u16 })
                            } else {
                                None
                            },
                            None => None,
                        },
                    },
                }
            },
        }
    }
}

impl RouteDistinguisher {
    /// Renders the canonical text form.
    pub fn to_text(&self) -> (r: Vec<u8>)
        ensures
            r@ == rd_text_spec(*self),
    {
        let mut out: Vec<u8> = Vec::new();
        match self {
            RouteDistinguisher::Default => {
                out.push(0x30u8);
                out.push(0x3au8);
                out.push(0x30u8);
            },
            RouteDistinguisher::Type0 { asn, value } => {
                push_dec_u32(&mut out, *asn as u32);
                out.push(0x3au8);
                push_dec_u32(&mut out, *value);
            },
            RouteDistinguisher::Type1 { ip, value } => {
                push_ipv4(&mut out, ip);
                out.push(0x3au8);
                push_dec_u32(&mut out, *value as u32);
            },
            RouteDistinguisher::Type2 { asn, value } => {
                push_dec_u32(&mut out, *asn);
                out.push(0x3au8);
                push_dec_u32(&mut out, *value as u32);
            },
        }
        proof {
            assert(out@ =~= rd_text_spec(*self));
        }
        out
    }

    /// Parses the text form; `None` exactly on text that no rule accepts.
    pub fn parse(s: &[u8]) -> (r: Option<RouteDistinguisher>)
        ensures
            r == parse_rd_spec(s@),
    {
        let slen = s.len();
        if s.len() == 3 && s[0] == 0x30 && s[1] == 0x3a && s[2] == 0x30 {
            proof {
                assert(s@ =~= seq![0x30u8, 0x3au8, 0x30u8]);
            }
            return Some(RouteDistinguisher::Default);
        }
        proof {
            if s@ == seq![0x30u8, 0x3au8, 0x30u8] {
                assert(s@.len() == 3 && s@[0] == 0x30 && s@[1] == 0x3a && s@[2] == 0x30);
                assert(false);
            }
        }
        let i = match find_from(s, 0, 0x3a) {
            Some(i) => i,
            None => {
                proof {
                    lemma_find_byte_none(s@, 0x3a);
                }
                return None;
            },
        };
        proof {
            lemma_find_byte_is(s@, 0x3a, i as int);
        }
        let left = vstd::slice::slice_subrange(s, 0, i);
        let right = vstd::slice::slice_subrange(s, i + 1, s.len());
        proof {
            assert(left@ =~= s@.take(i as int));
            assert(right@ =~= s@.skip(i as int + 1));
        }
        let v = match parse_u32(right) {
            Some(v) => v,
            None => {
                return None;
            },
        };
        match parse_u32(left) {
            Some(asn) => {
                if asn > 0xffff && v <= 0xffff {
                    Some(RouteDistinguisher::Type2 { asn, value: v as u16 })
                } else if asn <= 0xffff {
                    Some(RouteDistinguisher::Type0 { asn: asn as u16, value: v })
                } else {
                    None
                }
            },
            None => {
                match parse_ipv4(left) {
                    Some(ip) => {
                        if v <= 0xffff {
                            Some(RouteDistinguisher::Type1 { ip, value: v as u16 })
                        } else {
                            None
                        }
                    },
                    None => None,
                }
            },
        }
    }
}

/// The values whose canonical text parses back to themselves. `Type0` with
/// zero ASN and zero value renders as `0:0`, which parses as the default
/// instance, and a `Type2` ASN that fits sixteen bits renders as a `Type0`
/// text form; both are excluded.
pub open spec fn text_canonical(rd: RouteDistinguisher) -> bool {
    match rd {
        RouteDistinguisher::Type0 { asn, value } => !(asn == 0 && value == 0),
        RouteDistinguisher::Type2 { asn, .. } => asn > 0xffff,
        _ => true,
    }
}

/// Rendering a canonical value and parsing reproduces the value.
#[verifier::rlimit(60)]
pub proof fn lemma_text_round_trip(rd: RouteDistinguisher)
    requires
        text_canonical(rd),
    ensures
        parse_rd_spec(rd_text_spec(rd)) == Some(rd),
{
    let s = rd_text_spec(rd);
    let zz = seq![0x30u8, 0x3au8, 0x30u8];
    match rd {
        RouteDistinguisher::Default => {
        },
        RouteDistinguisher::Type0 { asn, value } => {
            let da = dec_digits(asn as nat);
            let dv = dec_digits(value as nat);
            crate::text::lemma_dec_digits_are_digits(asn as nat);
            crate::text::lemma_dec_digits_are_digits(value as nat);
            crate::text::lemma_parse_dec(asn as nat);
            crate::text::lemma_parse_dec(value as nat);
            if s == zz {
                assert(s.len() == da.len() + 1 + dv.len());
                assert(da.len() == 1 && dv.len() == 1);
                assert(da[0] == s[0] && s[0] == 0x30);
                assert(dv[0] == s[2] && s[2] == 0x30);
                if asn >= 1 {
                    assert(da[0] != 0x30);
                }
                if value >= 1 {
                    assert(dv[0] != 0x30);
                }
                assert(false);
            }
            lemma_find_byte_concat(da, dv, 0x3a);
            assert(s.take(da.len() as int) =~= da);
            assert(s.skip(da.len() as int + 1) =~= dv);
        },
        RouteDistinguisher::Type2 { asn, value } => {
            let da = dec_digits(asn as nat);
            let dv = dec_digits(value as nat);
            crate::text::lemma_dec_digits_are_digits(asn as nat);
            crate::text::lemma_dec_digits_are_digits(value as nat);
            crate::text::lemma_parse_dec(asn as nat);
            crate::text::lemma_parse_dec(value as nat);
            if s == zz {
                assert(da[0] == s[0] && s[0] == 0x30);
                assert(da[0] != 0x30);
                assert(false);
            }
            lemma_find_byte_concat(da, dv, 0x3a);
            assert(s.take(da.len() as int) =~= da);
            assert(s.skip(da.len() as int + 1) =~= dv);
        },
        RouteDistinguisher::Type1 { ip, value } => {
            let ti = ipv4_text(ip);
            let dv = dec_digits(value as nat);
            crate::text::lemma_ipv4_text_bytes(ip);
            crate::text::lemma_dec_digits_are_digits(value as nat);
            crate::text::lemma_parse_dec(value as nat);
            crate::text::lemma_ipv4_text_round_trip(ip);
            if s == zz {
                assert(s.len() == ti.len() + 1 + dv.len());
                assert(s.len() >= 9);
                assert(false);
            }
            assert forall|j: int| 0 <= j < ti.len() implies ti[j] != 0x3a by {
                assert(is_digit(ti[j]) || ti[j] == 0x2e);
            }
            lemma_find_byte_concat(ti, dv, 0x3a);
            assert(s.take(ti.len() as int) =~= ti);
            assert(s.skip(ti.len() as int + 1) =~= dv);
            // the left side is not an integer: it holds a dot
            let left = s.take(ti.len() as int);
            assert(is_digit(ti[0]));
            assert(ti[0] != 0x2b);
            assert(digits_of(left) == left);
            let l0 = dec_digits(ip.spec_octet(0) as nat).len() as int;
            assert(ti[l0] == 0x2e) by {
                assert(ti =~= dec_digits(ip.spec_octet(0) as nat) + seq![0x2eu8] + (dec_digits(
                    ip.spec_octet(1) as nat,
                ) + seq![0x2eu8] + dec_digits(ip.spec_octet(2) as nat) + seq![0x2eu8] + dec_digits(
                    ip.spec_octet(3) as nat,
                )));
            }
            assert(!is_digit(ti[l0]));
            assert(!all_digits(left));
            assert(parse_u32_spec(left) is None);
        },
    }
}

/// What parsing yields is canonical, except that leading zeroes or a plus
/// sign can spell the zero type-0 value, whose rendering `0:0` is the
/// default instance's.
pub proof fn lemma_parse_near_canonical(s: Seq<u8>)
    ensures
        match parse_rd_spec(s) {
            Some(rd) => text_canonical(rd) || rd == (RouteDistinguisher::Type0 {
                asn: 0,
                value: 0,
            }),
            None => true,
        },
{
}

/// Rendering a parse result gives canonical text: it parses again, and what
/// it parses to renders to the same text. This is the text round trip for
/// every valid text form, stated on its canonical rendering.
pub proof fn lemma_text_fixed_point(s: Seq<u8>)
    ensures
        match parse_rd_spec(s) {
            Some(rd) => {
                &&& parse_rd_spec(rd_text_spec(rd)) is Some
                &&& rd_text_spec(parse_rd_spec(rd_text_spec(rd))->Some_0) == rd_text_spec(rd)
            },
            None => true,
        },
{
    match parse_rd_spec(s) {
        Some(rd) => {
            lemma_parse_near_canonical(s);
            if text_canonical(rd) {
                lemma_text_round_trip(rd);
            } else {
                assert(rd_text_spec(rd) =~= seq![0x30u8, 0x3au8, 0x30u8]);
                assert(parse_rd_spec(rd_text_spec(rd)) == Some(RouteDistinguisher::Default));
            }
        },
        None => {},
    }
}

} // verus!
