//! IP addresses as plain values, with the textual grammar accepted for
//! literals and the private/local-range classification.

use vstd::prelude::*;
use vstd::string::StringSliceAdditionalSpecFns;

verus! {

/// An IP address held as plain integers: four octets for IPv4, eight 16-bit
/// groups for IPv6.
#[derive(Debug, Clone, Copy, PartialEq, Eq, Hash, Structural)]
pub enum IpAddress {
    V4(u8, u8, u8, u8),
    V6(u16, u16, u16, u16, u16, u16, u16, u16),
}

/// An address lies in a private or local range: for IPv4 the RFC 1918 blocks
/// (10/8, 172.16/12, 192.168/16), link-local 169.254/16 or loopback 127/8;
/// for IPv6 loopback ::1, link-local fe80::/10 or unique-local fc00::/7.
pub open spec fn spec_is_private(ip: IpAddress) -> bool {
    match ip {
        IpAddress::V4(a, b, c, d) => a == 10 || (a == 172 && 16 <= b && b < 32) || (a == 192 && b
            == 168) || (a == 169 && b == 254) || a == 127,
        IpAddress::V6(g0, g1, g2, g3, g4, g5, g6, g7) => (g0 == 0 && g1 == 0 && g2 == 0 && g3 == 0
            && g4 == 0 && g5 == 0 && g6 == 0 && g7 == 1) || (0xfe80 <= g0 && g0 <= 0xfebf) || (
        0xfc00 <= g0 && g0 <= 0xfdff),
    }
}

impl IpAddress {
    /// Decides `spec_is_private`.
    pub fn is_private(&self) -> (r: bool)
        ensures
            r == spec_is_private(*self),
    {
        match *self {
            IpAddress::V4(a, b, c, _d) => a == 10 || (a == 172 && 16 <= b && b < 32) || (a == 192
                && b == 168) || (a == 169 && b == 254) || a == 127,
            IpAddress::V6(g0, g1, g2, g3, g4, g5, g6, g7) => (g0 == 0 && g1 == 0 && g2 == 0 && g3
                == 0 && g4 == 0 && g5 == 0 && g6 == 0 && g7 == 1) || (0xfe80 <= g0 && g0 <= 0xfebf)
                || (0xfc00 <= g0 && g0 <= 0xfdff),
        }
    }
}

/// An ASCII decimal digit.
pub open spec fn is_dec_digit(b: u8) -> bool {
    48 <= b <= 57
}

/// An ASCII hexadecimal digit.
pub open spec fn is_hex_digit(b: u8) -> bool {
    (48 <= b <= 57) || (97 <= b <= 102) || (65 <= b <= 70)
}

pub open spec fn dec_digit_val(b: u8) -> int {
    b - 48
}

pub open spec fn hex_digit_val(b: u8) -> int {
    if 48 <= b <= 57 {
        b - 48
    } else if 97 <= b <= 102 {
        b - 87
    } else {
        b - 55
    }
}

/// How many decimal digits run from `i` (up to `end`).
pub open spec fn dec_run(s: Seq<u8>, i: int, end: int) -> nat
    decreases end - i,
{
    if i < end && 0 <= i < s.len() && is_dec_digit(s[i]) {
        1 + dec_run(s, i + 1, end)
    } else {
        0
    }
}

/// How many hexadecimal digits run from `i` (up to `end`).
pub open spec fn hex_run(s: Seq<u8>, i: int, end: int) -> nat
    decreases end - i,
{
    if i < end && 0 <= i < s.len() && is_hex_digit(s[i]) {
        1 + hex_run(s, i + 1, end)
    } else {
        0
    }
}

/// How many non-colon bytes run from `i` (up to `end`).
pub open spec fn seg_run(s: Seq<u8>, i: int, end: int) -> nat
    decreases end - i,
{
    if i < end && 0 <= i < s.len() && s[i] != 58 {
        1 + seg_run(s, i + 1, end)
    } else {
        0
    }
}

/// The value of the decimal digit run [i, e).
pub open spec fn dec_value(s: Seq<u8>, i: int, e: int) -> int
    decreases e - i,
{
    if e <= i || !(0 <= e - 1 < s.len()) {
        0
    } else {
        dec_value(s, i, e - 1) * 10 + dec_digit_val(s[e - 1])
    }
}

/// The value of the hexadecimal digit run [i, e).
pub open spec fn hex_value(s: Seq<u8>, i: int, e: int) -> int
    decreases e - i,
{
    if e <= i || !(0 <= e - 1 < s.len()) {
        0
    } else {
        hex_value(s, i, e - 1) * 16 + hex_digit_val(s[e - 1])
    }
}

/// Some byte in [i, e) is a dot.
pub open spec fn has_dot(s: Seq<u8>, i: int, e: int) -> bool {
    exists|x: int| i <= x < e && 0 <= x < s.len() && s[x] == 46
}

/// One IPv4 octet text at `i`: one to three decimal digits, no leading zero
/// on a multi-digit run, value at most 255. Yields the value and the index
/// just past the run.
pub open spec fn spec_parse_octet(s: Seq<u8>, i: int, end: int) -> Option<(int, int)> {
    let e = i + dec_run(s, i, end);
    if e == i || e - i > 3 || (e - i > 1 && s[i] == 48) {
        None
    } else {
        let v = dec_value(s, i, e);
        if v > 255 {
            None
        } else {
            Some((v, e))
        }
    }
}

/// An IPv4 literal filling exactly [i, end): four octets joined by dots.
pub open spec fn spec_parse_ipv4_at(s: Seq<u8>, i: int, end: int) -> Option<(int, int, int, int)> {
    match spec_parse_octet(s, i, end) {
        None => None,
        Some((a, i1)) => if i1 < end && 0 <= i1 < s.len() && s[i1] == 46 {
            match spec_parse_octet(s, i1 + 1, end) {
                None => None,
                Some((b, i2)) => if i2 < end && 0 <= i2 < s.len() && s[i2] == 46 {
                    match spec_parse_octet(s, i2 + 1, end) {
                        None => None,
                        Some((c, i3)) => if i3 < end && 0 <= i3 < s.len() && s[i3] == 46 {
                            match spec_parse_octet(s, i3 + 1, end) {
                                None => None,
                                Some((d, i4)) => if i4 == end {
                                    Some((a, b, c, d))
                                } else {
                                    None
                                },
                            }
                        } else {
                            None
                        },
                    }
                } else {
                    None
                },
            }
        } else {
            None
        },
    }
}

/// A colon-separated list of IPv6 groups filling [i, end): each group one to
/// four hexadecimal digits, and, when `allow_v4`, the final group may
/// instead be an IPv4 literal (contributing two group values). An empty
/// range holds no groups.
pub open spec fn spec_parse_groups(s: Seq<u8>, i: int, end: int, allow_v4: bool) -> Option<
    Seq<int>,
>
    decreases end - i,
{
    if i >= end {
        Some(Seq::empty())
    } else {
        let e = i + seg_run(s, i, end);
        if allow_v4 && has_dot(s, i, e) {
            if e == end {
                match spec_parse_ipv4_at(s, i, end) {
                    Some((a, b, c, d)) => Some(seq![a * 256 + b, c * 256 + d]),
                    None => None,
                }
            } else {
                None
            }
        } else {
            let h = i + hex_run(s, i, end);
            if h == i || h - i > 4 || h != e {
                None
            } else {
                let v = hex_value(s, i, h);
                if e == end {
                    Some(seq![v])
                } else if e + 1 >= end {
                    None
                } else {
                    match spec_parse_groups(s, e + 1, end, allow_v4) {
                        Some(g) => Some(seq![v] + g),
                        None => None,
                    }
                }
            }
        }
    }
}

/// The position of the first "::" at or after `i`, or -1.
pub open spec fn dcolon_pos(s: Seq<u8>, i: int) -> int
    decreases s.len() - i,
{
    if i < 0 || i + 2 > s.len() {
        -1
    } else if s[i] == 58 && s[i + 1] == 58 {
        i
    } else {
        dcolon_pos(s, i + 1)
    }
}

/// Eight group values as an address.
pub open spec fn groups_to_v6(g: Seq<int>) -> IpAddress {
    IpAddress::V6(
        g[0] as u16,
        g[1] as u16,
        g[2] as u16,
        g[3] as u16,
        g[4] as u16,
        g[5] as u16,
        g[6] as u16,
        g[7] as u16,
    )
}

/// An IPv6 literal: either eight groups with no "::", or a single "::"
/// standing for at least one zero group between at most seven explicit
/// groups in all.
pub open spec fn spec_parse_ipv6(s: Seq<u8>) -> Option<IpAddress> {
    let p = dcolon_pos(s, 0);
    if p == -1 {
        match spec_parse_groups(s, 0, s.len() as int, true) {
            Some(g) => if g.len() == 8 {
                Some(groups_to_v6(g))
            } else {
                None
            },
            None => None,
        }
    } else {
        let left = spec_parse_groups(s, 0, p, false);
        let right = spec_parse_groups(s, p + 2, s.len() as int, true);
        match (left, right) {
            (Some(gl), Some(gr)) => if gl.len() + gr.len() <= 7 {
                Some(
                    groups_to_v6(
                        gl + Seq::new((8 - gl.len() - gr.len()) as nat, |x: int| 0int) + gr,
                    ),
                )
            } else {
                None
            },
            _ => None,
        }
    }
}

/// An IP literal: an IPv4 dotted quad, else an IPv6 literal.
pub open spec fn spec_parse_ip(s: Seq<u8>) -> Option<IpAddress> {
    match spec_parse_ipv4_at(s, 0, s.len() as int) {
        Some((a, b, c, d)) => Some(IpAddress::V4(a as u8, b as u8, c as u8, d as u8)),
        None => spec_parse_ipv6(s),
    }
}

pub proof fn lemma_dec_run_digits(s: Seq<u8>, i: int, end: int)
    requires
        0 <= i,
        end <= s.len(),
    ensures
        i + dec_run(s, i, end) <= if i <= end {
            end
        } else {
            i
        },
        forall|x: int| i <= x < i + dec_run(s, i, end) ==> is_dec_digit(s[x]),
    decreases end - i,
{
    if i < end && is_dec_digit(s[i]) {
        lemma_dec_run_digits(s, i + 1, end);
    }
}

proof fn lemma_hex_run_digits(s: Seq<u8>, i: int, end: int)
    requires
        0 <= i,
        end <= s.len(),
    ensures
        i + hex_run(s, i, end) <= if i <= end {
            end
        } else {
            i
        },
        forall|x: int| i <= x < i + hex_run(s, i, end) ==> is_hex_digit(s[x]),
    decreases end - i,
{
    if i < end && is_hex_digit(s[i]) {
        lemma_hex_run_digits(s, i + 1, end);
    }
}

/// Bounds on the value of a short decimal digit run.
pub proof fn lemma_dec_value_bound(s: Seq<u8>, i: int, e: int)
    requires
        0 <= i <= e <= s.len(),
        forall|x: int| i <= x < e ==> is_dec_digit(#[trigger] s[x]),
    ensures
        0 <= dec_value(s, i, e),
        e - i == 0 ==> dec_value(s, i, e) == 0,
        e - i == 1 ==> dec_value(s, i, e) < 10,
        e - i == 2 ==> dec_value(s, i, e) < 100,
        e - i == 3 ==> dec_value(s, i, e) < 1000,
        e - i == 4 ==> dec_value(s, i, e) < 10000,
        e - i == 5 ==> dec_value(s, i, e) < 100000,
    decreases e - i,
{
    if e > i {
        lemma_dec_value_bound(s, i, e - 1);
        assert(is_dec_digit(s[e - 1]));
        assert(0 <= dec_digit_val(s[e - 1]) <= 9);
    }
}

proof fn lemma_hex_value_bound(s: Seq<u8>, i: int, e: int)
    requires
        0 <= i <= e <= s.len(),
        forall|x: int| i <= x < e ==> is_hex_digit(#[trigger] s[x]),
    ensures
        0 <= hex_value(s, i, e),
        e - i == 0 ==> hex_value(s, i, e) == 0,
        e - i <= 1 ==> hex_value(s, i, e) < 16,
        e - i <= 2 ==> hex_value(s, i, e) < 256,
        e - i <= 3 ==> hex_value(s, i, e) < 4096,
        e - i <= 4 ==> hex_value(s, i, e) < 65536,
    decreases e - i,
{
    if e > i {
        lemma_hex_value_bound(s, i, e - 1);
        assert(is_hex_digit(s[e - 1]));
        assert(0 <= hex_digit_val(s[e - 1]) <= 15);
    }
}

fn scan_dec(b: &[u8], i: usize, end: usize) -> (e: usize)
    requires
        i <= end <= b@.len(),
    ensures
        e as int == i + dec_run(b@, i as int, end as int),
        i <= e <= end,
{
    let mut x = i;
    while x < end && 48 <= b[x] && b[x] <= 57
        invariant
            i <= x <= end <= b@.len(),
            dec_run(b@, i as int, end as int) == (x - i) + dec_run(b@, x as int, end as int),
        decreases end - x,
    {
        x = x + 1;
    }
    x
}

fn scan_hex(b: &[u8], i: usize, end: usize) -> (e: usize)
    requires
        i <= end <= b@.len(),
    ensures
        e as int == i + hex_run(b@, i as int, end as int),
        i <= e <= end,
{
    let mut x = i;
    while x < end && (48 <= b[x] && b[x] <= 57 || 97 <= b[x] && b[x] <= 102 || 65 <= b[x] && b[x]
        <= 70)
        invariant
            i <= x <= end <= b@.len(),
            hex_run(b@, i as int, end as int) == (x - i) + hex_run(b@, x as int, end as int),
        decreases end - x,
    {
        x = x + 1;
    }
    x
}

fn scan_seg(b: &[u8], i: usize, end: usize) -> (e: usize)
    requires
        i <= end <= b@.len(),
    ensures
        e as int == i + seg_run(b@, i as int, end as int),
        i <= e <= end,
{
    let mut x = i;
    while x < end && b[x] != 58
        invariant
            i <= x <= end <= b@.len(),
            seg_run(b@, i as int, end as int) == (x - i) + seg_run(b@, x as int, end as int),
        decreases end - x,
    {
        x = x + 1;
    }
    x
}

fn scan_dot(b: &[u8], i: usize, e: usize) -> (r: bool)
    requires
        i <= e <= b@.len(),
    ensures
        r == has_dot(b@, i as int, e as int),
{
    let mut x = i;
    while x < e
        invariant
            i <= x <= e <= b@.len(),
            forall|y: int| i <= y < x ==> b@[y] != 46,
        decreases e - x,
    {
        if b[x] == 46 {
            return true;
        }
        x = x + 1;
    }
    false
}

fn dec_val_of(b: &[u8], i: usize, e: usize) -> (v: u16)
    requires
        i <= e <= b@.len(),
        e - i <= 3,
        forall|x: int| i <= x < e ==> is_dec_digit(#[trigger] b@[x]),
    ensures
        v as int == dec_value(b@, i as int, e as int),
{
    let mut acc: u16 = 0;
    let mut x = i;
    while x < e
        invariant
            i <= x <= e <= b@.len(),
            e - i <= 3,
            forall|y: int| i <= y < e ==> is_dec_digit(#[trigger] b@[y]),
            acc as int == dec_value(b@, i as int, x as int),
        decreases e - x,
    {
        proof {
            lemma_dec_value_bound(b@, i as int, x as int);
        }
        acc = acc * 10 + (b[x] - 48) as u16;
        proof {
            assert(dec_value(b@, i as int, x + 1) == dec_value(b@, i as int, x as int) * 10
                + dec_digit_val(b@[x as int]));
        }
        x = x + 1;
    }
    acc
}

fn hex_val_of(b: &[u8], i: usize, e: usize) -> (v: u32)
    requires
        i <= e <= b@.len(),
        e - i <= 4,
        forall|x: int| i <= x < e ==> is_hex_digit(b@[x]),
    ensures
        v as int == hex_value(b@, i as int, e as int),
{
    let mut acc: u32 = 0;
    let mut x = i;
    while x < e
        invariant
            i <= x <= e <= b@.len(),
            e - i <= 4,
            forall|y: int| i <= y < e ==> is_hex_digit(b@[y]),
            acc as int == hex_value(b@, i as int, x as int),
        decreases e - x,
    {
        proof {
            lemma_hex_value_bound(b@, i as int, x as int);
        }
        let d: u32 = if 48 <= b[x] && b[x] <= 57 {
            (b[x] - 48) as u32
        } else if 97 <= b[x] && b[x] <= 102 {
            (b[x] - 87) as u32
        } else {
            (b[x] - 55) as u32
        };
        acc = acc * 16 + d;
        proof {
            assert(hex_value(b@, i as int, x + 1) == hex_value(b@, i as int, x as int) * 16
                + hex_digit_val(b@[x as int]));
        }
        x = x + 1;
    }
    acc
}

fn parse_octet(b: &[u8], i: usize, end: usize) -> (r: Option<(u8, usize)>)
    requires
        i <= end <= b@.len(),
    ensures
        match r {
            Some(p) => spec_parse_octet(b@, i as int, end as int) == Some(
                (p.0 as int, p.1 as int),
            ) && i < p.1 <= end,
            None => spec_parse_octet(b@, i as int, end as int) is None,
        },
{
    let e = scan_dec(b, i, end);
    if e == i || e - i > 3 || (e - i > 1 && b[i] == 48) {
        return None;
    }
    proof {
        lemma_dec_run_digits(b@, i as int, end as int);
    }
    let v = dec_val_of(b, i, e);
    proof {
        lemma_dec_value_bound(b@, i as int, e as int);
    }
    if v > 255 {
        return None;
    }
    Some(((v as u8), e))
}

fn parse_ipv4_at(b: &[u8], i: usize, end: usize) -> (r: Option<(u8, u8, u8, u8)>)
    requires
        i <= end <= b@.len(),
    ensures
        match r {
            Some(q) => spec_parse_ipv4_at(b@, i as int, end as int) == Some(
                (q.0 as int, q.1 as int, q.2 as int, q.3 as int),
            ),
            None => spec_parse_ipv4_at(b@, i as int, end as int) is None,
        },
{
    let o1 = parse_octet(b, i, end);
    match o1 {
        None => None,
        Some((a, i1)) => {
            if !(i1 < end && b[i1] == 46) {
                return None;
            }
            let o2 = parse_octet(b, i1 + 1, end);
            match o2 {
                None => None,
                Some((a2, i2)) => {
                    if !(i2 < end && b[i2] == 46) {
                        return None;
                    }
                    let o3 = parse_octet(b, i2 + 1, end);
                    match o3 {
                        None => None,
                        Some((a3, i3)) => {
                            if !(i3 < end && b[i3] == 46) {
                                return None;
                            }
                            let o4 = parse_octet(b, i3 + 1, end);
                            match o4 {
                                None => None,
                                Some((a4, i4)) => {
                                    if i4 == end {
                                        Some((a, a2, a3, a4))
                                    } else {
                                        None
                                    }
                                },
                            }
                        },
                    }
                },
            }
        },
    }
}

#[verifier::rlimit(100)]
#[verifier::spinoff_prover]
fn parse_groups(b: &[u8], i: usize, end: usize, allow_v4: bool) -> (r: Option<Vec<u16>>)
    requires
        i <= end <= b@.len(),
    ensures
        match r {
            Some(g) => spec_parse_groups(b@, i as int, end as int, allow_v4) == Some(
                g@.map_values(|v: u16| v as int),
            ),
            None => spec_parse_groups(b@, i as int, end as int, allow_v4) is None,
        },
    decreases end - i,
{
    if i >= end {
        proof {
            assert(Seq::<u16>::empty().map_values(|v: u16| v as int) =~= Seq::<int>::empty());
        }
        return Some(Vec::new());
    }
    let e = scan_seg(b, i, end);
    if allow_v4 && scan_dot(b, i, e) {
        if e == end {
            match parse_ipv4_at(b, i, end) {
                Some((a, b2, c, d)) => {
                    let hi: u16 = (a as u16) * 256 + (b2 as u16);
                    let lo: u16 = (c as u16) * 256 + (d as u16);
                    let mut g: Vec<u16> = Vec::new();
                    g.push(hi);
                    g.push(lo);
                    proof {
                        assert(g@.map_values(|v: u16| v as int) =~= seq![
                            a as int * 256 + b2 as int,
                            c as int * 256 + d as int,
                        ]);
                    }
                    Some(g)
                },
                None => None,
            }
        } else {
            None
        }
    } else {
        let h = scan_hex(b, i, end);
        if h == i || h - i > 4 || h != e {
            return None;
        }
        proof {
            lemma_hex_run_digits(b@, i as int, end as int);
        }
        let v32 = hex_val_of(b, i, h);
        proof {
            lemma_hex_value_bound(b@, i as int, h as int);
        }
        let v: u16 = v32 as u16;
        if e == end {
            let mut g: Vec<u16> = Vec::new();
            g.push(v);
            proof {
                assert(g@.map_values(|x: u16| x as int) =~= seq![v as int]);
            }
            Some(g)
        } else if e + 1 >= end {
            None
        } else {
            match parse_groups(b, e + 1, end, allow_v4) {
                Some(rest) => {
                    let mut g = rest;
                    g.insert(0, v);
                    proof {
                        assert(g@.map_values(|x: u16| x as int) =~= seq![v as int] + g@.subrange(
                            1,
                            g@.len() as int,
                        ).map_values(|x: u16| x as int));
                        assert(g@.subrange(1, g@.len() as int) =~= g@.drop_first());
                    }
                    Some(g)
                },
                None => None,
            }
        }
    }
}

fn find_dcolon(b: &[u8]) -> (p: Option<usize>)
    ensures
        match p {
            Some(x) => dcolon_pos(b@, 0) == x as int && x + 2 <= b@.len(),
            None => dcolon_pos(b@, 0) == -1,
        },
{
    if b.len() < 2 {
        return None;
    }
    let bound = b.len() - 2;
    let mut x: usize = 0;
    while x <= bound
        invariant
            0 <= x <= bound + 1,
            bound == b@.len() - 2,
            dcolon_pos(b@, 0) == dcolon_pos(b@, x as int),
        decreases bound + 1 - x,
    {
        if b[x] == 58 && b[x + 1] == 58 {
            return Some(x);
        }
        x = x + 1;
    }
    None
}

fn parse_ipv6(b: &[u8]) -> (r: Option<IpAddress>)
    ensures
        r == spec_parse_ipv6(b@),
{
    let n = b.len();
    match find_dcolon(b) {
        None => {
            match parse_groups(b, 0, n, true) {
                Some(g) => {
                    if g.len() == 8 {
                        let ghost gm = g@.map_values(|v: u16| v as int);
                        let r = IpAddress::V6(g[0], g[1], g[2], g[3], g[4], g[5], g[6], g[7]);
                        proof {
                            assert(r == groups_to_v6(gm));
                        }
                        Some(r)
                    } else {
                        None
                    }
                },
                None => None,
            }
        },
        Some(p) => {
            let left = parse_groups(b, 0, p, false);
            let right = parse_groups(b, p + 2, n, true);
            match (left, right) {
                (Some(gl), Some(gr)) => {
                    if gl.len() <= 7 && gr.len() <= 7 - gl.len() {
                        let ghost glm = gl@.map_values(|v: u16| v as int);
                        let ghost grm = gr@.map_values(|v: u16| v as int);
                        let zeros = 8 - gl.len() - gr.len();
                        let mut full: Vec<u16> = Vec::new();
                        let mut x: usize = 0;
                        while x < gl.len()
                            invariant
                                0 <= x <= gl@.len(),
                                full@ == gl@.subrange(0, x as int),
                            decreases gl@.len() - x,
                        {
                            full.push(gl[x]);
                            proof {
                                assert(full@ =~= gl@.subrange(0, x + 1));
                            }
                            x = x + 1;
                        }
                        let mut z: usize = 0;
                        while z < zeros
                            invariant
                                0 <= z <= zeros,
                                zeros == 8 - gl@.len() - gr@.len(),
                                full@ == gl@ + Seq::new(z as nat, |y: int| 0u16),
                            decreases zeros - z,
                        {
                            full.push(0);
                            proof {
                                assert(full@ =~= gl@ + Seq::new((z + 1) as nat, |y: int| 0u16));
                            }
                            z = z + 1;
                        }
                        let mut y: usize = 0;
                        while y < gr.len()
                            invariant
                                0 <= y <= gr@.len(),
                                zeros == 8 - gl@.len() - gr@.len(),
                                full@ == gl@ + Seq::new(zeros as nat, |q: int| 0u16) + gr@.subrange(
                                    0,
                                    y as int,
                                ),
                            decreases gr@.len() - y,
                        {
                            full.push(gr[y]);
                            proof {
                                assert(full@ =~= gl@ + Seq::new(zeros as nat, |q: int| 0u16)
                                    + gr@.subrange(0, y + 1));
                            }
                            y = y + 1;
                        }
                        proof {
                            assert(gl@.subrange(0, gl@.len() as int) =~= gl@);
                            assert(gr@.subrange(0, gr@.len() as int) =~= gr@);
                            assert(full@.map_values(|v: u16| v as int) =~= glm + Seq::new(
                                (8 - glm.len() - grm.len()) as nat,
                                |q: int| 0int,
                            ) + grm);
                        }
                        let r = IpAddress::V6(
                            full[0],
                            full[1],
                            full[2],
                            full[3],
                            full[4],
                            full[5],
                            full[6],
                            full[7],
                        );
                        proof {
                            let sg = glm + Seq::new((8 - glm.len() - grm.len()) as nat, |q: int| 0int)
                                + grm;
                            assert(r == groups_to_v6(sg));
                        }
                        Some(r)
                    } else {
                        None
                    }
                },
                _ => None,
            }
        },
    }
}

/// Parses an IP literal from its text bytes.
pub fn parse_ip_bytes(b: &[u8]) -> (r: Option<IpAddress>)
    ensures
        r == spec_parse_ip(b@),
{
    let n = b.len();
    match parse_ipv4_at(b, 0, n) {
        Some((a, b2, c, d)) => Some(IpAddress::V4(a, b2, c, d)),
        None => parse_ipv6(b),
    }
}

/// Parses an IP literal from a string.
pub fn parse_ip_str(s: &str) -> (r: Option<IpAddress>)
    ensures
        r == spec_parse_ip(s.spec_bytes()),
{
    parse_ip_bytes(s.as_bytes())
}

} // verus!
