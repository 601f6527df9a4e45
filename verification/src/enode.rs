//! The legacy boot-node URI: `enode://<128-hex-key>@<host>:<port>`, the
//! host a dotted quad or a bracketed IPv6 address.
//!
//! A parsed URI is normalised to a multiaddress text
//! `/ip4/<ip>/udp/<port>/p2p/<peer-id>` (`/ip6/` for an IPv6 host, in its
//! canonical compressed form), where the peer id is the canonical text of
//! the node's public key: the key is compressed, wrapped in its key-type
//! framing, tagged as an inline digest, and written in base-58. Parsing
//! and printing are total functions of the input text; malformed URIs
//! yield nothing and never affect their neighbours in a list.

use vstd::prelude::*;
use vstd::string::StringExecFns;

use crate::bytes_util::{find_last, last_idx, lemma_last_idx_char, split_bytes, split_on};
use crate::handle::IpAddress;
use crate::records::{IpV4, IpV6};

verus! {

/// An ASCII decimal digit.
pub open spec fn is_digit(b: u8) -> bool {
    0x30 <= b <= 0x39
}

/// All bytes are decimal digits.
pub open spec fn all_digits(s: Seq<u8>) -> bool {
    forall|i: int| 0 <= i < s.len() ==> is_digit(s[i])
}

/// Value of a decimal digit string.
pub open spec fn dec_val(s: Seq<u8>) -> int
    decreases s.len(),
{
    if s.len() == 0 {
        0
    } else {
        dec_val(s.drop_last()) * 10 + (s.last() - 0x30)
    }
}

/// 10 to the power `n`.
pub open spec fn pow10(n: nat) -> int
    decreases n,
{
    if n == 0 {
        1
    } else {
        10 * pow10((n - 1) as nat)
    }
}

/// `pow10` is positive.
proof fn lemma_pow10_pos(n: nat)
    ensures
        pow10(n) >= 1,
    decreases n,
{
    if n > 0 {
        lemma_pow10_pos((n - 1) as nat);
    }
}

/// `pow10` grows with its argument.
proof fn lemma_pow10_mono(a: nat, b: nat)
    requires
        a <= b,
    ensures
        pow10(a) <= pow10(b),
    decreases b,
{
    if a < b {
        lemma_pow10_mono(a, (b - 1) as nat);
        lemma_pow10_pos((b - 1) as nat);
    }
}

/// A digit string's value stays below 10 to its length.
proof fn lemma_dec_val_bound(s: Seq<u8>)
    requires
        all_digits(s),
    ensures
        0 <= dec_val(s) < pow10(s.len()),
    decreases s.len(),
{
    if s.len() > 0 {
        assert(all_digits(s.drop_last())) by {
            assert(forall|i: int| 0 <= i < s.len() - 1 ==> s.drop_last()[i] == s[i]);
        };
        lemma_dec_val_bound(s.drop_last());
        assert(dec_val(s.drop_last()) * 10 + (s.last() - 0x30) < pow10(s.len())) by (nonlinear_arith)
            requires
                dec_val(s.drop_last()) <= pow10((s.len() - 1) as nat) - 1,
                s.last() - 0x30 < 10,
                pow10(s.len()) == 10 * pow10((s.len() - 1) as nat),
        ;
    }
}

/// Reads a digit string of at most five digits.
fn dec_value(s: &[u8]) -> (r: u32)
    requires
        1 <= s@.len() <= 5,
        all_digits(s@),
    ensures
        r == dec_val(s@),
{
    let n = s.len();
    let mut acc: u32 = 0;
    let mut i: usize = 0;
    proof {
        assert(s@.subrange(0, 0) =~= Seq::<u8>::empty());
    }
    while i < n
        invariant
            i <= n,
            n == s@.len(),
            1 <= n <= 5,
            all_digits(s@),
            acc == dec_val(s@.subrange(0, i as int)),
            acc < pow10(i as nat),
        decreases n - i,
    {
        proof {
            assert(all_digits(s@.subrange(0, i + 1))) by {
                assert(forall|j: int| 0 <= j < i + 1 ==> s@.subrange(0, i + 1)[j] == s@[j]);
            };
            lemma_dec_val_bound(s@.subrange(0, i + 1));
            assert(s@.subrange(0, i + 1).drop_last() =~= s@.subrange(0, i as int));
            lemma_pow10_mono((i + 1) as nat, 5);
            reveal_with_fuel(pow10, 6);
        }
        acc = acc * 10 + (s[i] - 0x30) as u32;
        i += 1;
    }
    proof {
        assert(s@.subrange(0, n as int) =~= s@);
    }
    acc
}

/// An address octet: one to three digits, no leading zero, at most 255.
pub open spec fn octet_parse(s: Seq<u8>) -> Option<u8> {
    if 1 <= s.len() <= 3 && all_digits(s) && (s.len() == 1 || s[0] != 0x30) && dec_val(s) <= 255 {
        Some(dec_val(s) as u8)
    } else {
        None
    }
}

/// A port: one to five digits, at most 65535.
pub open spec fn port_parse(s: Seq<u8>) -> Option<u16> {
    if 1 <= s.len() <= 5 && all_digits(s) && dec_val(s) <= 65535 {
        Some(dec_val(s) as u16)
    } else {
        None
    }
}

/// Checks that every byte is a digit.
fn check_digits(s: &[u8]) -> (r: bool)
    ensures
        r == all_digits(s@),
{
    let n = s.len();
    let mut i: usize = 0;
    while i < n
        invariant
            i <= n,
            n == s@.len(),
            forall|j: int| 0 <= j < i ==> is_digit(s@[j]),
        decreases n - i,
    {
        if s[i] < 0x30 || s[i] > 0x39 {
            return false;
        }
        i += 1;
    }
    true
}

/// Reads one address octet.
fn parse_octet(s: &[u8]) -> (r: Option<u8>)
    ensures
        r == octet_parse(s@),
{
    let n = s.len();
    if n < 1 || n > 3 {
        return None;
    }
    if !check_digits(s) {
        return None;
    }
    if n > 1 && s[0] == 0x30 {
        return None;
    }
    let v = dec_value(s);
    if v > 255 {
        None
    } else {
        Some(v as u8)
    }
}

/// Reads a port number.
fn parse_port(s: &[u8]) -> (r: Option<u16>)
    ensures
        r == port_parse(s@),
{
    let n = s.len();
    if n < 1 || n > 5 {
        return None;
    }
    if !check_digits(s) {
        return None;
    }
    let v = dec_value(s);
    if v > 65535 {
        None
    } else {
        Some(v as u16)
    }
}

/// A dotted-quad address: four octets separated by dots.
pub open spec fn ipv4_parse(t: Seq<u8>) -> Option<IpV4> {
    let parts = split_on(t, 0x2e);
    if parts.len() != 4 {
        None
    } else {
        match (octet_parse(parts[0]), octet_parse(parts[1]), octet_parse(parts[2]), octet_parse(
            parts[3],
        )) {
            (Some(a), Some(b), Some(c), Some(d)) => Some(IpV4 { b0: a, b1: b, b2: c, b3: d }),
            _ => None,
        }
    }
}

/// Reads a dotted-quad address.
fn parse_ipv4(t: &[u8]) -> (r: Option<IpV4>)
    ensures
        r == ipv4_parse(t@),
{
    let parts = split_bytes(t, 0x2e);
    if parts.len() != 4 {
        return None;
    }
    proof {
        assert(parts.deep_view()[0] == parts@[0]@);
        assert(parts.deep_view()[1] == parts@[1]@);
        assert(parts.deep_view()[2] == parts@[2]@);
        assert(parts.deep_view()[3] == parts@[3]@);
    }
    let a = match parse_octet(parts[0].as_slice()) {
        Option::Some(v) => v,
        Option::None => {
            return None;
        },
    };
    let b = match parse_octet(parts[1].as_slice()) {
        Option::Some(v) => v,
        Option::None => {
            return None;
        },
    };
    let c = match parse_octet(parts[2].as_slice()) {
        Option::Some(v) => v,
        Option::None => {
            return None;
        },
    };
    let d = match parse_octet(parts[3].as_slice()) {
        Option::Some(v) => v,
        Option::None => {
            return None;
        },
    };
    Some(IpV4 { b0: a, b1: b, b2: c, b3: d })
}

/// Position of the first double colon in `s`.
pub open spec fn first_dc(s: Seq<u8>) -> Option<int>
    decreases s.len(),
{
    if s.len() < 2 {
        None
    } else if s[0] == 0x3a && s[1] == 0x3a {
        Some(0int)
    } else {
        match first_dc(s.drop_first()) {
            Option::Some(i) => Option::Some(i + 1),
            Option::None => Option::None,
        }
    }
}

/// What `first_dc` returns: the first double colon, or nothing.
pub proof fn lemma_first_dc_char(s: Seq<u8>)
    ensures
        match first_dc(s) {
            Option::Some(i) => 0 <= i < s.len() - 1 && s[i] == 0x3a && s[i + 1] == 0x3a
                && forall|j: int| 0 <= j < i ==> !((#[trigger] s[j]) == 0x3a && s[j + 1] == 0x3a),
            Option::None => forall|j: int|
                0 <= j < s.len() - 1 ==> !((#[trigger] s[j]) == 0x3a && s[j + 1] == 0x3a),
        },
    decreases s.len(),
{
    if s.len() >= 2 && !(s[0] == 0x3a && s[1] == 0x3a) {
        lemma_first_dc_char(s.drop_first());
        assert(forall|j: int| 0 <= j < s.drop_first().len() ==> s.drop_first()[j] == s[j + 1]);
        match first_dc(s.drop_first()) {
            Option::Some(i) => {
                assert forall|j: int|
                    0 <= j < i + 1 implies !((#[trigger] s[j]) == 0x3a && s[j + 1] == 0x3a) by {
                    if j > 0 {
                        assert(!(s.drop_first()[j - 1] == 0x3a && s.drop_first()[j] == 0x3a));
                    }
                }
            },
            Option::None => {
                assert forall|j: int|
                    0 <= j < s.len() - 1 implies !((#[trigger] s[j]) == 0x3a && s[j + 1]
                        == 0x3a) by {
                    if j > 0 {
                        assert(!(s.drop_first()[j - 1] == 0x3a && s.drop_first()[j] == 0x3a));
                    }
                }
            },
        }
    }
}

/// A scan that stopped at the first double colon computes `first_dc`.
proof fn lemma_first_dc_of_scan(s: Seq<u8>, i: int)
    requires
        0 <= i < s.len() - 1,
        s[i] == 0x3a && s[i + 1] == 0x3a,
        forall|j: int| 0 <= j < i ==> !((#[trigger] s[j]) == 0x3a && s[j + 1] == 0x3a),
    ensures
        first_dc(s) == Some(i),
    decreases s.len(),
{
    if i > 0 {
        assert(forall|j: int| 0 <= j < s.drop_first().len() ==> s.drop_first()[j] == s[j + 1]);
        lemma_first_dc_of_scan(s.drop_first(), i - 1);
    }
}

/// A scan with no double colon means `first_dc` is nothing.
proof fn lemma_first_dc_none(s: Seq<u8>)
    requires
        forall|j: int| 0 <= j < s.len() - 1 ==> !((#[trigger] s[j]) == 0x3a && s[j + 1] == 0x3a),
    ensures
        first_dc(s) is None,
    decreases s.len(),
{
    if s.len() >= 2 {
        assert(forall|j: int| 0 <= j < s.drop_first().len() ==> s.drop_first()[j] == s[j + 1]);
        lemma_first_dc_none(s.drop_first());
    }
}

/// Finds the first double colon in `s`.
fn find_dc(s: &[u8]) -> (r: Option<usize>)
    ensures
        match r {
            Option::Some(i) => first_dc(s@) == Option::Some(i as int),
            Option::None => first_dc(s@) is None,
        },
{
    let n = s.len();
    if n < 2 {
        proof {
            lemma_first_dc_none(s@);
        }
        return None;
    }
    let mut i: usize = 0;
    while i < n - 1
        invariant
            n == s@.len(),
            n >= 2,
            i <= n - 1,
            forall|j: int| 0 <= j < i ==> !((#[trigger] s@[j]) == 0x3a && s@[j + 1] == 0x3a),
        decreases n - i,
    {
        if s[i] == 0x3a && s[i + 1] == 0x3a {
            proof {
                lemma_first_dc_of_scan(s@, i as int);
            }
            return Some(i);
        }
        i += 1;
    }
    proof {
        lemma_first_dc_none(s@);
    }
    None
}

/// A well-formed address group: one to four hexadecimal digits.
pub open spec fn group_ok(p: Seq<u8>) -> bool {
    1 <= p.len() <= 4 && forall|i: int| 0 <= i < p.len() ==> is_hex(p[i])
}

/// Every part is a well-formed group.
pub open spec fn groups_ok(parts: Seq<Seq<u8>>) -> bool {
    forall|i: int| 0 <= i < parts.len() ==> group_ok(parts[i])
}

/// Value of a hexadecimal group.
pub open spec fn hgval(p: Seq<u8>) -> int
    decreases p.len(),
{
    if p.len() == 0 {
        0
    } else {
        hgval(p.drop_last()) * 16 + hex_val(p.last())
    }
}

/// 16 to the power `n`.
pub open spec fn pow16(n: nat) -> int
    decreases n,
{
    if n == 0 {
        1
    } else {
        16 * pow16((n - 1) as nat)
    }
}

/// A group's value stays below 16 to its length.
proof fn lemma_hgval_bound(p: Seq<u8>)
    requires
        forall|i: int| 0 <= i < p.len() ==> is_hex(p[i]),
    ensures
        0 <= hgval(p) < pow16(p.len()),
    decreases p.len(),
{
    if p.len() > 0 {
        assert(forall|i: int| 0 <= i < p.len() - 1 ==> p.drop_last()[i] == p[i]);
        lemma_hgval_bound(p.drop_last());
        assert(hgval(p.drop_last()) * 16 + hex_val(p.last()) < pow16(p.len())) by (nonlinear_arith)
            requires
                hgval(p.drop_last()) <= pow16((p.len() - 1) as nat) - 1,
                0 <= hex_val(p.last()) < 16,
                pow16(p.len()) == 16 * pow16((p.len() - 1) as nat),
        ;
    }
}

/// The group values of a part list.
pub open spec fn vals_of(parts: Seq<Seq<u8>>) -> Seq<u16> {
    Seq::new(parts.len(), |i: int| hgval(parts[i]) as u16)
}

/// The address of eight group values.
pub open spec fn ip6_from_groups(g: Seq<u16>) -> IpV6 {
    IpV6 { g0: g[0], g1: g[1], g2: g[2], g3: g[3], g4: g[4], g5: g[5], g6: g[6], g7: g[7] }
}

/// A bracketless IPv6 text: eight colon-separated groups, or fewer with
/// one double colon standing for the missing zero groups.
pub open spec fn ipv6_parse(t: Seq<u8>) -> Option<IpV6> {
    match first_dc(t) {
        Option::None => {
            let parts = split_on(t, 0x3a);
            if parts.len() == 8 && groups_ok(parts) {
                Some(ip6_from_groups(vals_of(parts)))
            } else {
                None
            }
        },
        Option::Some(p) => {
            let left = t.subrange(0, p);
            let right = t.subrange(p + 2, t.len() as int);
            let lparts = if left.len() == 0 {
                Seq::<Seq<u8>>::empty()
            } else {
                split_on(left, 0x3a)
            };
            let rparts = if right.len() == 0 {
                Seq::<Seq<u8>>::empty()
            } else {
                split_on(right, 0x3a)
            };
            if groups_ok(lparts) && groups_ok(rparts) && lparts.len() + rparts.len() <= 7 {
                let zeros = Seq::new((8 - lparts.len() - rparts.len()) as nat, |i: int| 0u16);
                Some(ip6_from_groups(vals_of(lparts) + zeros + vals_of(rparts)))
            } else {
                None
            }
        },
    }
}

/// Reads one hexadecimal group.
fn parse_group(p: &[u8]) -> (r: Option<u16>)
    ensures
        match r {
            Option::Some(v) => group_ok(p@) && v == hgval(p@),
            Option::None => !group_ok(p@),
        },
{
    let n = p.len();
    if n < 1 || n > 4 {
        return None;
    }
    let mut acc: u32 = 0;
    let mut i: usize = 0;
    proof {
        assert(p@.subrange(0, 0) =~= Seq::<u8>::empty());
        reveal_with_fuel(pow16, 5);
    }
    while i < n
        invariant
            i <= n,
            n == p@.len(),
            1 <= n <= 4,
            forall|j: int| 0 <= j < i ==> is_hex(p@[j]),
            acc == hgval(p@.subrange(0, i as int)),
            acc < pow16(i as nat),
            pow16(4) == 0x1_0000,
        decreases n - i,
    {
        let d = match hex_digit(p[i]) {
            Option::Some(v) => v,
            Option::None => {
                return None;
            },
        };
        proof {
            assert(forall|j: int|
                0 <= j < i + 1 ==> p@.subrange(0, i + 1)[j] == p@[j]);
            lemma_hgval_bound(p@.subrange(0, i + 1));
            assert(p@.subrange(0, i + 1).drop_last() =~= p@.subrange(0, i as int));
            assert(p@.subrange(0, i + 1).last() == p@[i as int]);
            assert(pow16((i + 1) as nat) <= pow16(4)) by {
                reveal_with_fuel(pow16, 5);
            };
        }
        acc = acc * 16 + d as u32;
        i += 1;
    }
    proof {
        assert(p@.subrange(0, n as int) =~= p@);
    }
    Some(acc as u16)
}

/// Reads every group of a part list.
fn parse_groups(parts: &Vec<Vec<u8>>) -> (r: Option<Vec<u16>>)
    ensures
        match r {
            Option::Some(v) => groups_ok(parts.deep_view()) && v@ == vals_of(parts.deep_view()),
            Option::None => !groups_ok(parts.deep_view()),
        },
{
    let mut out: Vec<u16> = Vec::new();
    let n = parts.len();
    let mut i: usize = 0;
    while i < n
        invariant
            i <= n,
            n == parts@.len(),
            out@.len() == i,
            forall|j: int| 0 <= j < i ==> group_ok(parts.deep_view()[j]),
            forall|j: int| 0 <= j < i ==> out@[j] == hgval(parts.deep_view()[j]) as u16,
        decreases n - i,
    {
        proof {
            assert(parts.deep_view()[i as int] == parts@[i as int]@);
        }
        let v = match parse_group(parts[i].as_slice()) {
            Option::Some(v) => v,
            Option::None => {
                return None;
            },
        };
        out.push(v);
        i += 1;
    }
    proof {
        assert(out@ =~= vals_of(parts.deep_view()));
    }
    Some(out)
}

/// Reads a bracketless IPv6 text.
fn parse_ipv6(t: &[u8]) -> (r: Option<IpV6>)
    ensures
        r == ipv6_parse(t@),
{
    match find_dc(t) {
        Option::None => {
            let parts = split_bytes(t, 0x3a);
            if parts.len() != 8 {
                return None;
            }
            let vals = match parse_groups(&parts) {
                Option::Some(v) => v,
                Option::None => {
                    return None;
                },
            };
            Some(IpV6 {
                g0: vals[0],
                g1: vals[1],
                g2: vals[2],
                g3: vals[3],
                g4: vals[4],
                g5: vals[5],
                g6: vals[6],
                g7: vals[7],
            })
        },
        Option::Some(p) => {
            proof {
                lemma_first_dc_char(t@);
            }
            let n = t.len();
            let left = vstd::slice::slice_subrange(t, 0, p);
            let right = vstd::slice::slice_subrange(t, p + 2, n);
            let lparts = if left.len() == 0 {
                Vec::<Vec<u8>>::new()
            } else {
                split_bytes(left, 0x3a)
            };
            let rparts = if right.len() == 0 {
                Vec::<Vec<u8>>::new()
            } else {
                split_bytes(right, 0x3a)
            };
            proof {
                if left@.len() == 0 {
                    assert(lparts.deep_view() =~= Seq::<Seq<u8>>::empty());
                }
                if right@.len() == 0 {
                    assert(rparts.deep_view() =~= Seq::<Seq<u8>>::empty());
                }
            }
            let lvals = match parse_groups(&lparts) {
                Option::Some(v) => v,
                Option::None => {
                    return None;
                },
            };
            let rvals = match parse_groups(&rparts) {
                Option::Some(v) => v,
                Option::None => {
                    return None;
                },
            };
            if lvals.len() > 7 || rvals.len() > 7 - lvals.len() {
                return None;
            }
            let mut groups: Vec<u16> = Vec::new();
            crate::bytes_util::extend_u16s(&mut groups, lvals.as_slice());
            let zeros = 8 - lvals.len() - rvals.len();
            let mut z: usize = 0;
            let ghost before_z = groups@;
            while z < zeros
                invariant
                    z <= zeros,
                    groups@.len() == before_z.len() + z,
                    forall|j: int| 0 <= j < before_z.len() ==> groups@[j] == before_z[j],
                    forall|j: int|
                        before_z.len() <= j < groups@.len() ==> groups@[j] == 0u16,
                decreases zeros - z,
            {
                groups.push(0);
                z += 1;
            }
            crate::bytes_util::extend_u16s(&mut groups, rvals.as_slice());
            proof {
                let spec_zeros = Seq::new(
                    (8 - lparts.deep_view().len() - rparts.deep_view().len()) as nat,
                    |i: int| 0u16,
                );
                assert(groups@ =~= vals_of(lparts.deep_view()) + spec_zeros + vals_of(
                    rparts.deep_view(),
                ));
            }
            Some(IpV6 {
                g0: groups[0],
                g1: groups[1],
                g2: groups[2],
                g3: groups[3],
                g4: groups[4],
                g5: groups[5],
                g6: groups[6],
                g7: groups[7],
            })
        },
    }
}

/// An ASCII hexadecimal digit, either case.
pub open spec fn is_hex(b: u8) -> bool {
    is_digit(b) || 0x61 <= b <= 0x66 || 0x41 <= b <= 0x46
}

/// Value of a hexadecimal digit.
pub open spec fn hex_val(b: u8) -> int {
    if is_digit(b) {
        b - 0x30
    } else if 0x61 <= b <= 0x66 {
        b - 0x61 + 10
    } else {
        b - 0x41 + 10
    }
}

/// All bytes are hexadecimal digits.
pub open spec fn all_hex(s: Seq<u8>) -> bool {
    forall|i: int| 0 <= i < s.len() ==> is_hex(s[i])
}

/// The bytes written by a hexadecimal digit string of even length.
pub open spec fn hex_bytes(s: Seq<u8>) -> Seq<u8> {
    Seq::new((s.len() / 2) as nat, |i: int| (hex_val(s[2 * i]) * 16 + hex_val(s[2 * i + 1])) as u8)
}

/// Reads one hexadecimal digit.
fn hex_digit(b: u8) -> (r: Option<u8>)
    ensures
        match r {
            Option::Some(v) => is_hex(b) && v == hex_val(b),
            Option::None => !is_hex(b),
        },
{
    if 0x30 <= b && b <= 0x39 {
        Some(b - 0x30)
    } else if 0x61 <= b && b <= 0x66 {
        Some(b - 0x61 + 10)
    } else if 0x41 <= b && b <= 0x46 {
        Some(b - 0x41 + 10)
    } else {
        None
    }
}

/// Reads a 128-digit hexadecimal key into its 64 bytes.
fn parse_hex_key(s: &[u8]) -> (r: Option<Vec<u8>>)
    requires
        s@.len() == 128,
    ensures
        match r {
            Option::Some(v) => all_hex(s@) && v@ == hex_bytes(s@),
            Option::None => !all_hex(s@),
        },
{
    let mut out: Vec<u8> = Vec::new();
    let mut k: usize = 0;
    while k < 64
        invariant
            k <= 64,
            s@.len() == 128,
            out@.len() == k,
            forall|j: int| 0 <= j < 2 * k ==> is_hex(s@[j]),
            forall|j: int| 0 <= j < k ==> out@[j] == hex_bytes(s@)[j],
        decreases 64 - k,
    {
        let hi = match hex_digit(s[2 * k]) {
            Option::Some(v) => v,
            Option::None => {
                return None;
            },
        };
        let lo = match hex_digit(s[2 * k + 1]) {
            Option::Some(v) => v,
            Option::None => {
                return None;
            },
        };
        out.push(hi * 16 + lo);
        k += 1;
    }
    proof {
        assert(out@ =~= hex_bytes(s@));
    }
    Some(out)
}

/// The fixed scheme text `enode://`.
pub open spec fn prefix_ok(s: Seq<u8>) -> bool {
    s.len() >= 8 && s[0] == 0x65 && s[1] == 0x6e && s[2] == 0x6f && s[3] == 0x64 && s[4] == 0x65
        && s[5] == 0x3a && s[6] == 0x2f && s[7] == 0x2f
}

/// A host: a dotted quad, or an IPv6 address in brackets.
pub open spec fn host_parse(t: Seq<u8>) -> Option<IpAddress> {
    if t.len() >= 2 && t[0] == 0x5b && t[t.len() - 1] == 0x5d {
        match ipv6_parse(t.subrange(1, t.len() - 1)) {
            Option::Some(ip) => Option::Some(IpAddress::V6(ip)),
            Option::None => Option::None,
        }
    } else {
        match ipv4_parse(t) {
            Option::Some(ip) => Option::Some(IpAddress::V4(ip)),
            Option::None => Option::None,
        }
    }
}

/// Reads a host of either family.
fn parse_host(t: &[u8]) -> (r: Option<IpAddress>)
    ensures
        r == host_parse(t@),
{
    let n = t.len();
    if n >= 2 && t[0] == 0x5b && t[n - 1] == 0x5d {
        let inner = vstd::slice::slice_subrange(t, 1, n - 1);
        match parse_ipv6(inner) {
            Option::Some(ip) => Some(IpAddress::V6(ip)),
            Option::None => None,
        }
    } else {
        match parse_ipv4(t) {
            Option::Some(ip) => Some(IpAddress::V4(ip)),
            Option::None => None,
        }
    }
}

/// Parses a legacy URI into its public key bytes, host and port. The key
/// is exactly 128 hexadecimal digits, the host a dotted quad or a
/// bracketed IPv6 address, the port a decimal number; the host starts
/// after the `@` and ends at the last `:`.
pub open spec fn enode_parse(s: Seq<u8>) -> Option<(Seq<u8>, IpAddress, u16)> {
    if s.len() < 138 {
        None
    } else if !prefix_ok(s) {
        None
    } else if !all_hex(s.subrange(8, 136)) {
        None
    } else if s[136] != 0x40 {
        None
    } else {
        let rest = s.subrange(137, s.len() as int);
        match last_idx(rest, 0x3a) {
            Option::None => None,
            Option::Some(k) => {
                let ipt = rest.subrange(0, k);
                let pt = rest.subrange(k + 1, rest.len() as int);
                match (host_parse(ipt), port_parse(pt)) {
                    (Some(ip), Some(port)) => Some((hex_bytes(s.subrange(8, 136)), ip, port)),
                    _ => None,
                }
            },
        }
    }
}

/// Reads one legacy URI.
pub fn parse_enode_item(s: &[u8]) -> (r: Option<(Vec<u8>, IpAddress, u16)>)
    ensures
        match r {
            Option::Some(t) => enode_parse(s@) == Option::Some((t.0@, t.1, t.2)),
            Option::None => enode_parse(s@) is None,
        },
{
    let n = s.len();
    if n < 138 {
        return None;
    }
    if !(s[0] == 0x65 && s[1] == 0x6e && s[2] == 0x6f && s[3] == 0x64 && s[4] == 0x65 && s[5]
        == 0x3a && s[6] == 0x2f && s[7] == 0x2f) {
        return None;
    }
    let hex_part = vstd::slice::slice_subrange(s, 8, 136);
    let pk = match parse_hex_key(hex_part) {
        Option::Some(v) => v,
        Option::None => {
            return None;
        },
    };
    if s[136] != 0x40 {
        return None;
    }
    let rest = vstd::slice::slice_subrange(s, 137, n);
    let k = match find_last(rest, 0x3a) {
        Option::Some(v) => v,
        Option::None => {
            return None;
        },
    };
    proof {
        lemma_last_idx_char(rest@, 0x3a);
    }
    let ipt = vstd::slice::slice_subrange(rest, 0, k);
    let m = rest.len();
    let pt = vstd::slice::slice_subrange(rest, k + 1, m);
    let ip = match parse_host(ipt) {
        Option::Some(v) => v,
        Option::None => {
            return None;
        },
    };
    let port = match parse_port(pt) {
        Option::Some(v) => v,
        Option::None => {
            return None;
        },
    };
    Some((pk, ip, port))
}

/// What compressing a 64-byte uncompressed public key yields, when the
/// bytes name a valid curve point; a function of the key bytes alone.
pub uninterp spec fn compressed_of(pk: Seq<u8>) -> Option<Seq<u8>>;

/// Relies on secp256k1's `PublicKey::from_slice` and `serialize`: a 65-byte
/// string (`0x04` then the raw coordinates) parses exactly when it names a
/// valid curve point, and `serialize` writes the canonical 33-byte
/// compressed form. Both depend on the key bytes alone.
#[verifier::external_body]
fn compress_pubkey(pk: &Vec<u8>) -> (r: Option<Vec<u8>>)
    requires
        pk@.len() == 64,
    ensures
        match r {
            Option::Some(c) => compressed_of(pk@) == Option::Some(c@) && c@.len() == 33,
            Option::None => compressed_of(pk@) is None,
        },
{
    let mut full = vec![4u8];
    full.extend_from_slice(pk);
    match secp256k1::PublicKey::from_slice(&full) {
        Result::Ok(k) => Some(k.serialize().to_vec()),
        Result::Err(_) => None,
    }
}

/// What the base-58 text of a byte string is; a function of the bytes alone.
pub uninterp spec fn base58_of(b: Seq<u8>) -> Seq<char>;

/// Relies on bs58's `encode` with its default alphabet: the text is a
/// function of the input bytes alone.
#[verifier::external_body]
fn base58_string(b: &Vec<u8>) -> (r: String)
    ensures
        r@ == base58_of(b@),
{
    bs58::encode(b).into_string()
}

/// The peer-id byte string of a compressed key: an inline (identity)
/// digest tag and length, then the key-type framing, then the key.
pub open spec fn peer_multihash(c: Seq<u8>) -> Seq<u8> {
    seq![0x00u8, 0x25u8, 0x08u8, 0x02u8, 0x12u8, 0x21u8] + c
}

/// Builds the peer-id byte string of a 33-byte compressed key.
pub fn peer_multihash_bytes(c: &Vec<u8>) -> (r: Vec<u8>)
    requires
        c@.len() == 33,
    ensures
        r@ == peer_multihash(c@),
{
    let mut r: Vec<u8> = Vec::new();
    r.push(0x00);
    r.push(0x25);
    r.push(0x08);
    r.push(0x02);
    r.push(0x12);
    r.push(0x21);
    crate::bytes_util::extend_bytes(&mut r, c.as_slice());
    proof {
        assert(r@ =~= peer_multihash(c@));
    }
    r
}

/// The decimal digit character of `d`.
pub open spec fn digit_char(d: int) -> char {
    if d == 0 {
        '0'
    } else if d == 1 {
        '1'
    } else if d == 2 {
        '2'
    } else if d == 3 {
        '3'
    } else if d == 4 {
        '4'
    } else if d == 5 {
        '5'
    } else if d == 6 {
        '6'
    } else if d == 7 {
        '7'
    } else if d == 8 {
        '8'
    } else {
        '9'
    }
}

/// The decimal text of `v`.
pub open spec fn dec_chars(v: int) -> Seq<char>
    decreases v,
{
    if v < 10 {
        seq![digit_char(v)]
    } else {
        dec_chars(v / 10) + seq![digit_char(v % 10)]
    }
}

/// The one-character text of a decimal digit.
fn digit_str(d: u64) -> (r: &'static str)
    requires
        d < 10,
    ensures
        r@ == seq![digit_char(d as int)],
{
    proof {
        reveal_strlit("0");
        reveal_strlit("1");
        reveal_strlit("2");
        reveal_strlit("3");
        reveal_strlit("4");
        reveal_strlit("5");
        reveal_strlit("6");
        reveal_strlit("7");
        reveal_strlit("8");
        reveal_strlit("9");
    }
    if d == 0 {
        "0"
    } else if d == 1 {
        "1"
    } else if d == 2 {
        "2"
    } else if d == 3 {
        "3"
    } else if d == 4 {
        "4"
    } else if d == 5 {
        "5"
    } else if d == 6 {
        "6"
    } else if d == 7 {
        "7"
    } else if d == 8 {
        "8"
    } else {
        "9"
    }
}

/// Appends the decimal text of `v`.
pub fn push_decimal(s: &mut String, v: u64)
    ensures
        final(s)@ == old(s)@ + dec_chars(v as int),
    decreases v,
{
    if v < 10 {
        s.append(digit_str(v));
    } else {
        push_decimal(s, v / 10);
        s.append(digit_str(v % 10));
        proof {
            assert(s@ =~= old(s)@ + dec_chars(v as int));
        }
    }
}

/// The lowercase hexadecimal digit character of `d`.
pub open spec fn hex_digit_char(d: int) -> char {
    if d == 0 {
        '0'
    } else if d == 1 {
        '1'
    } else if d == 2 {
        '2'
    } else if d == 3 {
        '3'
    } else if d == 4 {
        '4'
    } else if d == 5 {
        '5'
    } else if d == 6 {
        '6'
    } else if d == 7 {
        '7'
    } else if d == 8 {
        '8'
    } else if d == 9 {
        '9'
    } else if d == 10 {
        'a'
    } else if d == 11 {
        'b'
    } else if d == 12 {
        'c'
    } else if d == 13 {
        'd'
    } else if d == 14 {
        'e'
    } else {
        'f'
    }
}

/// The lowercase hexadecimal text of `v`, without leading zeros.
pub open spec fn hex_chars(v: int) -> Seq<char>
    decreases v,
{
    if v < 16 {
        seq![hex_digit_char(v)]
    } else {
        hex_chars(v / 16) + seq![hex_digit_char(v % 16)]
    }
}

/// The one-character text of a hexadecimal digit.
fn hex_digit_str(d: u16) -> (r: &'static str)
    requires
        d < 16,
    ensures
        r@ == seq![hex_digit_char(d as int)],
{
    proof {
        reveal_strlit("0");
        reveal_strlit("1");
        reveal_strlit("2");
        reveal_strlit("3");
        reveal_strlit("4");
        reveal_strlit("5");
        reveal_strlit("6");
        reveal_strlit("7");
        reveal_strlit("8");
        reveal_strlit("9");
        reveal_strlit("a");
        reveal_strlit("b");
        reveal_strlit("c");
        reveal_strlit("d");
        reveal_strlit("e");
        reveal_strlit("f");
    }
    if d == 0 {
        "0"
    } else if d == 1 {
        "1"
    } else if d == 2 {
        "2"
    } else if d == 3 {
        "3"
    } else if d == 4 {
        "4"
    } else if d == 5 {
        "5"
    } else if d == 6 {
        "6"
    } else if d == 7 {
        "7"
    } else if d == 8 {
        "8"
    } else if d == 9 {
        "9"
    } else if d == 10 {
        "a"
    } else if d == 11 {
        "b"
    } else if d == 12 {
        "c"
    } else if d == 13 {
        "d"
    } else if d == 14 {
        "e"
    } else {
        "f"
    }
}

/// Appends the lowercase hexadecimal text of `v`.
fn push_hex(s: &mut String, v: u16)
    ensures
        final(s)@ == old(s)@ + hex_chars(v as int),
    decreases v,
{
    if v < 16 {
        s.append(hex_digit_str(v));
    } else {
        push_hex(s, v / 16);
        s.append(hex_digit_str(v % 16));
        proof {
            assert(s@ =~= old(s)@ + hex_chars(v as int));
        }
    }
}

/// Length of the zero-group run starting at `i`.
pub open spec fn zero_run_len(g: Seq<u16>, i: int) -> int
    decreases g.len() - i,
{
    if i < 0 || i >= g.len() || g[i] != 0 {
        0
    } else {
        1 + zero_run_len(g, i + 1)
    }
}

/// A run never reaches past the end.
proof fn lemma_zero_run_bound(g: Seq<u16>, i: int)
    requires
        0 <= i <= g.len(),
    ensures
        0 <= zero_run_len(g, i) <= g.len() - i,
    decreases g.len() - i,
{
    if i < g.len() && g[i] == 0 {
        lemma_zero_run_bound(g, i + 1);
    }
}

/// Start of the run the text elides: the leftmost longest run of at
/// least two zero groups, scanning from `i`.
pub open spec fn best_run_from(g: Seq<u16>, i: int) -> Option<int>
    decreases g.len() - i,
{
    if i >= g.len() {
        None
    } else {
        let here = zero_run_len(g, i);
        let rest = best_run_from(g, i + 1);
        if here >= 2 && (rest is None || here >= zero_run_len(g, rest.unwrap())) {
            Some(i)
        } else {
            rest
        }
    }
}

/// What the elision start is: in range, with a run of at least two.
proof fn lemma_best_run_range(g: Seq<u16>, i: int)
    requires
        0 <= i,
    ensures
        match best_run_from(g, i) {
            Option::Some(st) => i <= st < g.len() && zero_run_len(g, st) >= 2,
            Option::None => true,
        },
    decreases g.len() - i,
{
    if i < g.len() {
        lemma_best_run_range(g, i + 1);
    }
}

/// The group texts joined with colons.
pub open spec fn groups_chars(g: Seq<u16>) -> Seq<char>
    decreases g.len(),
{
    if g.len() == 0 {
        Seq::empty()
    } else if g.len() == 1 {
        hex_chars(g[0] as int)
    } else {
        groups_chars(g.drop_last()) + seq![':'] + hex_chars(g.last() as int)
    }
}

/// The eight groups of an address, in order.
pub open spec fn groups_seq(ip: IpV6) -> Seq<u16> {
    seq![ip.g0, ip.g1, ip.g2, ip.g3, ip.g4, ip.g5, ip.g6, ip.g7]
}

/// The canonical text of an IPv6 address: the leftmost longest run of at
/// least two zero groups elided to a double colon, the rest in lowercase
/// hexadecimal.
pub open spec fn ipv6_chars(ip: IpV6) -> Seq<char> {
    let g = groups_seq(ip);
    match best_run_from(g, 0) {
        Option::None => groups_chars(g),
        Option::Some(st) => groups_chars(g.subrange(0, st)) + seq![':', ':'] + groups_chars(
            g.subrange(st + zero_run_len(g, st), g.len() as int),
        ),
    }
}

/// The length of the zero run starting at `i`.
fn zero_run_exec(g: &Vec<u16>, i: usize) -> (r: usize)
    requires
        i <= g@.len(),
    ensures
        r == zero_run_len(g@, i as int),
        r <= g@.len() - i,
    decreases g@.len() - i,
{
    proof {
        lemma_zero_run_bound(g@, i as int);
    }
    if i >= g.len() || g[i] != 0 {
        0
    } else {
        1 + zero_run_exec(g, i + 1)
    }
}

/// The start of the run the text elides, scanning from `i`.
fn best_run_exec(g: &Vec<u16>, i: usize) -> (r: Option<usize>)
    requires
        i <= g@.len(),
    ensures
        match r {
            Option::Some(st) => best_run_from(g@, i as int) == Option::Some(st as int),
            Option::None => best_run_from(g@, i as int) is None,
        },
    decreases g@.len() - i,
{
    if i >= g.len() {
        return None;
    }
    let here = zero_run_exec(g, i);
    let rest = best_run_exec(g, i + 1);
    let take_here = here >= 2 && (match rest {
        Option::Some(j) => {
            proof {
                lemma_best_run_range(g@, i as int + 1);
            }
            here >= zero_run_exec(g, j)
        },
        Option::None => true,
    });
    if take_here {
        Some(i)
    } else {
        rest
    }
}

/// Appends the group texts of `g[from..to]`, joined with colons.
fn push_groups(s: &mut String, g: &Vec<u16>, from: usize, to: usize)
    requires
        from <= to <= g@.len(),
    ensures
        final(s)@ == old(s)@ + groups_chars(g@.subrange(from as int, to as int)),
    decreases to - from,
{
    proof {
        reveal_strlit(":");
    }
    if from == to {
        proof {
            assert(groups_chars(g@.subrange(from as int, to as int)) =~= Seq::<char>::empty());
            assert(s@ =~= old(s)@ + groups_chars(g@.subrange(from as int, to as int)));
        }
        return ;
    }
    push_groups(s, g, from, to - 1);
    if to - 1 > from {
        s.append(":");
    }
    push_hex(s, g[to - 1]);
    proof {
        assert(g@.subrange(from as int, to as int).drop_last() =~= g@.subrange(
            from as int,
            to - 1,
        ));
        assert(g@.subrange(from as int, to as int).last() == g@[to - 1]);
        assert(s@ =~= old(s)@ + groups_chars(g@.subrange(from as int, to as int)));
    }
}

/// Appends the canonical text of an IPv6 address.
pub fn push_ipv6(s: &mut String, ip: &IpV6)
    ensures
        final(s)@ == old(s)@ + ipv6_chars(*ip),
{
    let mut groups: Vec<u16> = Vec::new();
    groups.push(ip.g0);
    groups.push(ip.g1);
    groups.push(ip.g2);
    groups.push(ip.g3);
    groups.push(ip.g4);
    groups.push(ip.g5);
    groups.push(ip.g6);
    groups.push(ip.g7);
    proof {
        assert(groups@ =~= groups_seq(*ip));
        reveal_strlit("::");
    }
    match best_run_exec(&groups, 0) {
        Option::None => {
            push_groups(s, &groups, 0, 8);
            proof {
                assert(groups@.subrange(0, 8) =~= groups_seq(*ip));
                assert(s@ =~= old(s)@ + ipv6_chars(*ip));
            }
        },
        Option::Some(st) => {
            proof {
                lemma_best_run_range(groups@, 0);
            }
            let run = zero_run_exec(&groups, st);
            push_groups(s, &groups, 0, st);
            s.append("::");
            push_groups(s, &groups, st + run, 8);
            proof {
                assert(s@ =~= old(s)@ + ipv6_chars(*ip));
            }
        },
    }
}

/// The dotted-quad text of an address.
pub open spec fn ip4_chars(ip: IpV4) -> Seq<char> {
    dec_chars(ip.b0 as int) + seq!['.'] + dec_chars(ip.b1 as int) + seq!['.'] + dec_chars(
        ip.b2 as int,
    ) + seq!['.'] + dec_chars(ip.b3 as int)
}

/// The multiaddress text of a host, discovery port and peer id.
pub open spec fn multiaddr_chars(ip: IpAddress, port: u16, pid: Seq<char>) -> Seq<char> {
    (match ip {
        IpAddress::V4(v4) => seq!['/', 'i', 'p', '4', '/'] + ip4_chars(v4),
        IpAddress::V6(v6) => seq!['/', 'i', 'p', '6', '/'] + ipv6_chars(v6),
    }) + seq!['/', 'u', 'd', 'p', '/'] + dec_chars(port as int) + seq!['/', 'p', '2', 'p', '/']
        + pid
}

/// Writes the multiaddress text of a parsed URI.
pub fn build_multiaddr(ip: &IpAddress, port: u16, pid: &String) -> (r: String)
    ensures
        r@ == multiaddr_chars(*ip, port, pid@),
{
    proof {
        reveal_strlit("/ip4/");
        reveal_strlit("/ip6/");
        reveal_strlit("/udp/");
        reveal_strlit("/p2p/");
        reveal_strlit(".");
    }
    let mut out = String::new();
    match ip {
        IpAddress::V4(v4) => {
            out.append("/ip4/");
            push_decimal(&mut out, v4.b0 as u64);
            out.append(".");
            push_decimal(&mut out, v4.b1 as u64);
            out.append(".");
            push_decimal(&mut out, v4.b2 as u64);
            out.append(".");
            push_decimal(&mut out, v4.b3 as u64);
        },
        IpAddress::V6(v6) => {
            out.append("/ip6/");
            push_ipv6(&mut out, v6);
        },
    }
    out.append("/udp/");
    push_decimal(&mut out, port as u64);
    out.append("/p2p/");
    out.append(pid.as_str());
    proof {
        assert(out@ =~= multiaddr_chars(*ip, port, pid@));
    }
    out
}

/// The multiaddress text of a legacy URI: defined exactly when the URI
/// parses and its key names a valid curve point.
pub open spec fn enode_multiaddr(s: Seq<u8>) -> Option<Seq<char>> {
    match enode_parse(s) {
        Option::None => None,
        Option::Some(t) => match compressed_of(t.0) {
            Option::None => None,
            Option::Some(c) => Some(multiaddr_chars(t.1, t.2, base58_of(peer_multihash(c)))),
        },
    }
}

/// Normalises one legacy URI to its multiaddress text.
pub fn enode_item_multiaddr(s: &[u8]) -> (r: Option<String>)
    ensures
        match r {
            Option::Some(m) => enode_multiaddr(s@) == Option::Some(m@),
            Option::None => enode_multiaddr(s@) is None,
        },
{
    let parsed = match parse_enode_item(s) {
        Option::Some(t) => t,
        Option::None => {
            return None;
        },
    };
    proof {
        assert(parsed.0@.len() == 64);
    }
    let comp = match compress_pubkey(&parsed.0) {
        Option::Some(c) => c,
        Option::None => {
            return None;
        },
    };
    let mh = peer_multihash_bytes(&comp);
    let pid = base58_string(&mh);
    let m = build_multiaddr(&parsed.1, parsed.2, &pid);
    Some(m)
}

/// The multiaddress of a parsed URI carries the canonical peer id of the
/// URI's public key as its trailing component, after a `/p2p/` marker.
pub proof fn lemma_multiaddr_peer_id_suffix(s: Seq<u8>)
    requires
        enode_multiaddr(s) is Some,
    ensures
        ({
            let t = enode_parse(s).unwrap();
            let pid = base58_of(peer_multihash(compressed_of(t.0).unwrap()));
            let m = enode_multiaddr(s).unwrap();
            &&& m.len() >= pid.len() + 5
            &&& m.subrange(m.len() - pid.len(), m.len() as int) == pid
            &&& m.subrange(m.len() - pid.len() - 5, m.len() - pid.len()) == seq![
                '/',
                'p',
                '2',
                'p',
                '/',
            ]
        }),
{
    let t = enode_parse(s).unwrap();
    let pid = base58_of(peer_multihash(compressed_of(t.0).unwrap()));
    let m = enode_multiaddr(s).unwrap();
    assert(m == multiaddr_chars(t.1, t.2, pid));
    assert(m.subrange(m.len() - pid.len(), m.len() as int) =~= pid);
    assert(m.subrange(m.len() - pid.len() - 5, m.len() - pid.len()) =~= seq![
        '/',
        'p',
        '2',
        'p',
        '/',
    ]);
}

} // verus!
