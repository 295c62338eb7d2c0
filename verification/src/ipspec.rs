//! Target addresses and the expansion of target specifications.
//!
//! An [`IpAddress`] is the monitor's own view of an IP address: the 32- or
//! 128-bit number it denotes. Target specifications — a single literal, a
//! CIDR block, a short range (`A.B.C.x-y`) or a full range (`A-B`) — are
//! parsed and expanded here into address lists.

use crate::chars::chars_of;
use vstd::prelude::*;
use vstd::string::StringExecFns;

verus! {

/// Most addresses a single target specification may expand to.
pub const MAX_EXPANSION: usize = 65536;

/// An IP address as the number it denotes: 32 bits for IPv4,
/// 128 bits for IPv6.
#[derive(Clone, Copy, Debug, PartialEq, Eq, Structural, Hash)]
pub enum IpAddress {
    V4(u32),
    V6(u128),
}

impl IpAddress {
    /// Whether this is an IPv4 address.
    pub fn is_v4(&self) -> (r: bool)
        ensures
            r == (self matches IpAddress::V4(_)),
    {
        match self {
            IpAddress::V4(_) => true,
            IpAddress::V6(_) => false,
        }
    }

    /// The IPv4 address `a.b.c.d`.
    pub fn v4_from_octets(a: u8, b: u8, c: u8, d: u8) -> (r: Self)
        ensures
            r == IpAddress::V4(
                ((a as u32) * 0x100_0000 + (b as u32) * 0x1_0000 + (c as u32) * 0x100
                    + d as u32) as u32,
            ),
    {
        IpAddress::V4(
            (a as u32) * 0x100_0000 + (b as u32) * 0x1_0000 + (c as u32) * 0x100 + (d as u32),
        )
    }
}

/// A decimal digit.
pub open spec fn is_digit(c: char) -> bool {
    '0' <= c && c <= '9'
}

/// Value of a decimal digit.
pub open spec fn digit_val(c: char) -> int {
    c as int - 48
}

/// Every character is a decimal digit.
pub open spec fn all_digits(s: Seq<char>) -> bool {
    forall|i: int| 0 <= i < s.len() ==> is_digit(#[trigger] s[i])
}

/// Value of a decimal digit string, most significant first.
pub open spec fn digits_val(s: Seq<char>) -> int
    decreases s.len(),
{
    if s.len() == 0 {
        0
    } else {
        digits_val(s.drop_last()) * 10 + digit_val(s.last())
    }
}

/// A valid dotted-quad octet: one to three decimal digits, no leading
/// zero (except "0" itself), value at most 255.
pub open spec fn valid_octet(s: Seq<char>) -> bool {
    &&& 1 <= s.len() <= 3
    &&& all_digits(s)
    &&& s.len() > 1 ==> s[0] != '0'
    &&& digits_val(s) <= 255
}

/// Position of the first occurrence of `c` in `s`, or `s.len()` if none.
pub open spec fn find_char(s: Seq<char>, c: char) -> int
    decreases s.len(),
{
    if s.len() == 0 {
        0
    } else if s[0] == c {
        0
    } else {
        1 + find_char(s.drop_first(), c)
    }
}

/// A digit string of up to three digits stays below 1000.
pub proof fn lemma_digits_val_bounds(s: Seq<char>)
    requires
        all_digits(s),
    ensures
        0 <= digits_val(s),
        s.len() <= 1 ==> digits_val(s) < 10,
        s.len() <= 2 ==> digits_val(s) < 100,
        s.len() <= 3 ==> digits_val(s) < 1000,
        s.len() <= 4 ==> digits_val(s) < 10000,
    decreases s.len(),
{
    if s.len() > 0 {
        assert(all_digits(s.drop_last())) by {
            assert(forall|i: int|
                0 <= i < s.len() - 1 ==> s.drop_last()[i] == #[trigger] s[i]);
        }
        lemma_digits_val_bounds(s.drop_last());
        assert(is_digit(s.last()));
    }
}

/// Any position with the first-occurrence property is `find_char`.
pub proof fn lemma_find_char_unique(s: Seq<char>, c: char, k: int)
    requires
        0 <= k <= s.len(),
        forall|j: int| 0 <= j < k ==> s[j] != c,
        k < s.len() ==> s[k] == c,
    ensures
        k == find_char(s, c),
    decreases s.len(),
{
    if s.len() > 0 && s[0] != c {
        lemma_find_char_unique(s.drop_first(), c, k - 1);
    }
}

/// The octets of a dotted decimal string: the dot-separated groups, each
/// a valid octet, values in order; nothing if any group is invalid.
pub open spec fn parse_octets(s: Seq<char>) -> Option<Seq<int>>
    decreases s.len(),
{
    let p = find_char(s, '.');
    if 0 <= p < s.len() {
        let head = s.take(p);
        let rest = s.subrange(p + 1, s.len() as int);
        if !valid_octet(head) {
            None
        } else {
            match parse_octets(rest) {
                Some(t) => Some(seq![digits_val(head)] + t),
                None => None,
            }
        }
    } else {
        if valid_octet(s) {
            Some(seq![digits_val(s)])
        } else {
            None
        }
    }
}

/// An IPv4 literal: four valid octets separated by dots, read as the
/// 32-bit number they denote.
pub open spec fn spec_ipv4(s: Seq<char>) -> Option<u32> {
    match parse_octets(s) {
        Some(o) => if o.len() == 4 {
            Some((o[0] * 0x100_0000 + o[1] * 0x1_0000 + o[2] * 0x100 + o[3]) as u32)
        } else {
            None
        },
        None => None,
    }
}

/// Find the first occurrence of `c` in `v` at or after `from`; `v.len()`
/// if there is none before the end.
fn find_from(v: &Vec<char>, from: usize, to: usize, c: char) -> (r: usize)
    requires
        from <= to <= v@.len(),
    ensures
        from <= r <= to,
        r - from == find_char(v@.subrange(from as int, to as int), c),
{
    let mut i: usize = from;
    while i < to
        invariant
            from <= i <= to <= v@.len(),
            forall|j: int| from <= j < i ==> v@[j] != c,
        decreases to - i,
    {
        if v[i] == c {
            proof {
                assert forall|j: int| 0 <= j < i - from implies v@.subrange(
                    from as int,
                    to as int,
                )[j] != c by {
                    assert(v@.subrange(from as int, to as int)[j] == v@[from + j]);
                }
                lemma_find_char_unique(v@.subrange(from as int, to as int), c, i - from);
            }
            return i;
        }
        i = i + 1;
    }
    proof {
        assert forall|j: int| 0 <= j < to - from implies v@.subrange(from as int, to as int)[j]
            != c by {
            assert(v@.subrange(from as int, to as int)[j] == v@[from + j]);
        }
        lemma_find_char_unique(v@.subrange(from as int, to as int), c, to - from);
    }
    to
}

/// Parse one octet from `v[from .. to]`.
fn parse_octet_at(v: &Vec<char>, from: usize, to: usize) -> (r: Option<u8>)
    requires
        from <= to <= v@.len(),
    ensures
        match r {
            Some(b) => valid_octet(v@.subrange(from as int, to as int)) && b == digits_val(
                v@.subrange(from as int, to as int),
            ),
            None => !valid_octet(v@.subrange(from as int, to as int)),
        },
{
    let ghost sub = v@.subrange(from as int, to as int);
    let len: usize = to - from;
    if len < 1 || len > 3 {
        return None;
    }
    if len > 1 && v[from] == '0' {
        return None;
    }
    let mut acc: u32 = 0;
    let mut i: usize = from;
    while i < to
        invariant
            from <= i <= to <= v@.len(),
            to - from <= 3,
            sub == v@.subrange(from as int, to as int),
            all_digits(sub.take(i - from)),
            acc == digits_val(sub.take(i - from)),
            acc <= 999,
        decreases to - i,
    {
        let c: char = v[i];
        if c < '0' || c > '9' {
            proof {
                assert(sub[i - from] == c);
                assert(!all_digits(sub));
            }
            return None;
        }
        proof {
            let cur = sub.take(i + 1 - from);
            assert(cur.drop_last() =~= sub.take(i - from));
            assert(cur.last() == sub[i - from]);
            assert(sub[i - from] == c);
            lemma_digits_val_bounds(cur);
        }
        acc = acc * 10 + (c as u32 - 48);
        i = i + 1;
    }
    proof {
        assert(sub.take(to - from) =~= sub);
    }
    if acc > 255 {
        return None;
    }
    Some(acc as u8)
}

/// Parse the dot-separated octets of `v[from .. to]`.
fn parse_octets_at(v: &Vec<char>, from: usize, to: usize) -> (r: Option<Vec<u8>>)
    requires
        from <= to <= v@.len(),
    ensures
        match r {
            Some(o) => {
                &&& parse_octets(v@.subrange(from as int, to as int)) matches Some(t)
                &&& o@.len() == t.len()
                &&& forall|i: int| 0 <= i < t.len() ==> o@[i] == t[i]
            },
            None => parse_octets(v@.subrange(from as int, to as int)) is None,
        },
    decreases to - from,
{
    let ghost sub = v@.subrange(from as int, to as int);
    let p: usize = find_from(v, from, to, '.');
    if p < to {
        proof {
            assert(sub.take(p - from) =~= v@.subrange(from as int, p as int));
            assert(sub.subrange(p - from + 1, sub.len() as int) =~= v@.subrange(
                p + 1,
                to as int,
            ));
        }
        let head: Option<u8> = parse_octet_at(v, from, p);
        match head {
            Some(b) => {
                let rest: Option<Vec<u8>> = parse_octets_at(v, p + 1, to);
                match rest {
                    Some(t) => {
                        let mut o: Vec<u8> = Vec::new();
                        o.push(b);
                        let mut i: usize = 0;
                        while i < t.len()
                            invariant
                                i <= t@.len(),
                                o@.len() == i + 1,
                                o@[0] == b,
                                forall|j: int| 0 <= j < i ==> o@[j + 1] == t@[j],
                            decreases t@.len() - i,
                        {
                            o.push(t[i]);
                            i = i + 1;
                        }
                        Some(o)
                    },
                    None => None,
                }
            },
            None => None,
        }
    } else {
        match parse_octet_at(v, from, to) {
            Some(b) => {
                let mut o: Vec<u8> = Vec::new();
                o.push(b);
                Some(o)
            },
            None => None,
        }
    }
}

/// Parse an IPv4 literal from `v[from .. to]`.
fn parse_ipv4_at(v: &Vec<char>, from: usize, to: usize) -> (r: Option<u32>)
    requires
        from <= to <= v@.len(),
    ensures
        r == spec_ipv4(v@.subrange(from as int, to as int)),
{
    match parse_octets_at(v, from, to) {
        Some(o) => {
            if o.len() == 4 {
                Some(
                    (o[0] as u32) * 0x100_0000 + (o[1] as u32) * 0x1_0000 + (o[2] as u32) * 0x100
                        + (o[3] as u32),
                )
            } else {
                None
            }
        },
        None => None,
    }
}

/// A hexadecimal digit.
pub open spec fn is_hex_digit(c: char) -> bool {
    is_digit(c) || ('a' <= c && c <= 'f') || ('A' <= c && c <= 'F')
}

/// Value of a hexadecimal digit.
pub open spec fn hex_val(c: char) -> int {
    if is_digit(c) {
        c as int - 48
    } else if 'a' <= c && c <= 'f' {
        c as int - 87
    } else {
        c as int - 55
    }
}

/// Every character is a hexadecimal digit.
pub open spec fn all_hex(s: Seq<char>) -> bool {
    forall|i: int| 0 <= i < s.len() ==> is_hex_digit(#[trigger] s[i])
}

/// Value of a hexadecimal digit string, most significant first.
pub open spec fn hex_digits_val(s: Seq<char>) -> int
    decreases s.len(),
{
    if s.len() == 0 {
        0
    } else {
        hex_digits_val(s.drop_last()) * 16 + hex_val(s.last())
    }
}

/// A hex digit string of up to four digits stays below 0x10000.
pub proof fn lemma_hex_val_bounds(s: Seq<char>)
    requires
        all_hex(s),
    ensures
        0 <= hex_digits_val(s),
        s.len() <= 1 ==> hex_digits_val(s) < 0x10,
        s.len() <= 2 ==> hex_digits_val(s) < 0x100,
        s.len() <= 3 ==> hex_digits_val(s) < 0x1000,
        s.len() <= 4 ==> hex_digits_val(s) < 0x10000,
    decreases s.len(),
{
    if s.len() > 0 {
        assert(all_hex(s.drop_last())) by {
            assert(forall|i: int|
                0 <= i < s.len() - 1 ==> s.drop_last()[i] == #[trigger] s[i]);
        }
        lemma_hex_val_bounds(s.drop_last());
        assert(is_hex_digit(s.last()));
    }
}

/// A valid IPv6 group: one to four hexadecimal digits.
pub open spec fn valid_hextet(s: Seq<char>) -> bool {
    &&& 1 <= s.len() <= 4
    &&& all_hex(s)
}

/// The groups of a colon-separated hex string: each a valid hextet,
/// values in order; nothing if any group is invalid.
pub open spec fn parse_hextets(s: Seq<char>) -> Option<Seq<int>>
    decreases s.len(),
{
    let p = find_char(s, ':');
    if 0 <= p < s.len() {
        let head = s.take(p);
        let rest = s.subrange(p + 1, s.len() as int);
        if !valid_hextet(head) {
            None
        } else {
            match parse_hextets(rest) {
                Some(t) => Some(seq![hex_digits_val(head)] + t),
                None => None,
            }
        }
    } else {
        if valid_hextet(s) {
            Some(seq![hex_digits_val(s)])
        } else {
            None
        }
    }
}

/// Position of the first "::" in `s`, or `s.len()` if none.
pub open spec fn find_gap(s: Seq<char>) -> int
    decreases s.len(),
{
    if s.len() < 2 {
        s.len() as int
    } else if s[0] == ':' && s[1] == ':' {
        0
    } else {
        1 + find_gap(s.drop_first())
    }
}

/// `find_gap` lies in range and, when short of the length, marks a "::".
pub proof fn lemma_find_gap(s: Seq<char>)
    ensures
        0 <= find_gap(s) <= s.len(),
        find_gap(s) < s.len() ==> find_gap(s) + 1 < s.len() && s[find_gap(s)] == ':' && s[find_gap(
            s,
        ) + 1] == ':',
    decreases s.len(),
{
    if s.len() >= 2 && !(s[0] == ':' && s[1] == ':') {
        lemma_find_gap(s.drop_first());
    }
}

/// Any position with the first-gap property is `find_gap`.
pub proof fn lemma_find_gap_unique(s: Seq<char>, k: int)
    requires
        0 <= k <= s.len(),
        k < s.len() ==> k + 1 < s.len() && s[k] == ':' && s[k + 1] == ':',
        forall|j: int| #![trigger s[j]]
            0 <= j < k && j + 1 < s.len() ==> !(s[j] == ':' && s[j + 1] == ':'),
    ensures
        k == find_gap(s),
    decreases s.len(),
{
    if s.len() < 2 {
        assert(k == s.len());
    } else if s[0] == ':' && s[1] == ':' {
        assert(k == 0);
    } else {
        assert(k > 0 || k == s.len());
        if k == s.len() {
            lemma_find_gap_unique(s.drop_first(), k - 1);
        } else {
            assert(k >= 1);
            lemma_find_gap_unique(s.drop_first(), k - 1);
        }
    }
}

/// The 128-bit number denoted by the groups left of a "::", the groups
/// right of it, and zeros in between.
pub open spec fn ipv6_value(l: Seq<int>, r: Seq<int>) -> int
    recommends
        l.len() + r.len() <= 8,
{
    let p = l + Seq::new((8 - l.len() - r.len()) as nat, |i: int| 0int) + r;
    p[0] * 0x1_0000_0000_0000_0000_0000_0000_0000 + p[1] * 0x1_0000_0000_0000_0000_0000_0000 + p[2]
        * 0x1_0000_0000_0000_0000_0000 + p[3] * 0x1_0000_0000_0000_0000 + p[4] * 0x1_0000_0000_0000
        + p[5] * 0x1_0000_0000 + p[6] * 0x1_0000 + p[7]
}

/// An IPv6 literal: eight hextets separated by colons, or fewer with one
/// "::" standing for the missing zero groups, read as the 128-bit number
/// it denotes. (IPv4-embedded forms are not part of this grammar.)
pub open spec fn spec_ipv6(s: Seq<char>) -> Option<u128> {
    let g = find_gap(s);
    if g == s.len() {
        match parse_hextets(s) {
            Some(h) => if h.len() == 8 {
                Some(ipv6_value(h, Seq::<int>::empty()) as u128)
            } else {
                None
            },
            None => None,
        }
    } else {
        let left = s.take(g);
        let right = s.subrange(g + 2, s.len() as int);
        let lh = if left.len() == 0 {
            Some(Seq::<int>::empty())
        } else {
            parse_hextets(left)
        };
        let rh = if right.len() == 0 {
            Some(Seq::<int>::empty())
        } else {
            parse_hextets(right)
        };
        match (lh, rh) {
            (Some(l), Some(r)) => if l.len() + r.len() <= 7 && find_gap(right) == right.len() {
                Some(ipv6_value(l, r) as u128)
            } else {
                None
            },
            _ => None,
        }
    }
}

/// Find the first "::" in `v[from .. to]`; `to` if there is none.
fn find_gap_at(v: &Vec<char>, from: usize, to: usize) -> (r: usize)
    requires
        from <= to <= v@.len(),
    ensures
        from <= r <= to,
        r - from == find_gap(v@.subrange(from as int, to as int)),
        r < to ==> r + 2 <= to && v@[r as int] == ':' && v@[r + 1] == ':',
{
    let ghost sub = v@.subrange(from as int, to as int);
    proof {
        lemma_find_gap(sub);
    }
    let mut i: usize = from;
    while to - i > 1
        invariant
            from <= i,
            i <= to <= v@.len(),
            sub == v@.subrange(from as int, to as int),
            forall|j: int| #![trigger v@[j]]
                from <= j < i ==> !(v@[j] == ':' && v@[j + 1] == ':'),
        decreases to - i,
    {
        if v[i] == ':' && v[i + 1] == ':' {
            proof {
                assert forall|j: int| #![trigger sub[j]]
                    0 <= j < i - from && j + 1 < sub.len() implies !(sub[j] == ':' && sub[j + 1]
                    == ':') by {
                    assert(sub[j] == v@[from + j]);
                    assert(sub[j + 1] == v@[from + j + 1]);
                }
                assert(sub[i - from] == ':' && sub[i - from + 1] == ':');
                lemma_find_gap_unique(sub, i - from);
            }
            return i;
        }
        i = i + 1;
    }
    proof {
        assert forall|j: int| #![trigger sub[j]]
            0 <= j < to - from && j + 1 < sub.len() implies !(sub[j] == ':' && sub[j + 1]
            == ':') by {
            assert(sub[j] == v@[from + j]);
            assert(sub[j + 1] == v@[from + j + 1]);
        }
        lemma_find_gap_unique(sub, to - from);
    }
    to
}

/// Parse one hextet from `v[from .. to]`.
fn parse_hextet_at(v: &Vec<char>, from: usize, to: usize) -> (r: Option<u16>)
    requires
        from <= to <= v@.len(),
    ensures
        match r {
            Some(b) => valid_hextet(v@.subrange(from as int, to as int)) && b == hex_digits_val(
                v@.subrange(from as int, to as int),
            ),
            None => !valid_hextet(v@.subrange(from as int, to as int)),
        },
{
    let ghost sub = v@.subrange(from as int, to as int);
    let len: usize = to - from;
    if len < 1 || len > 4 {
        return None;
    }
    let mut acc: u32 = 0;
    let mut i: usize = from;
    while i < to
        invariant
            from <= i <= to <= v@.len(),
            to - from <= 4,
            sub == v@.subrange(from as int, to as int),
            all_hex(sub.take(i - from)),
            acc == hex_digits_val(sub.take(i - from)),
            acc < 0x10000,
        decreases to - i,
    {
        let c: char = v[i];
        let d: u32 = if c >= '0' && c <= '9' {
            c as u32 - 48
        } else if c >= 'a' && c <= 'f' {
            c as u32 - 87
        } else if c >= 'A' && c <= 'F' {
            c as u32 - 55
        } else {
            proof {
                assert(sub[i - from] == c);
                assert(!all_hex(sub));
            }
            return None;
        };
        proof {
            let cur = sub.take(i + 1 - from);
            assert(cur.drop_last() =~= sub.take(i - from));
            assert(cur.last() == sub[i - from]);
            assert(sub[i - from] == c);
            lemma_hex_val_bounds(cur);
        }
        acc = acc * 16 + d;
        i = i + 1;
    }
    proof {
        assert(sub.take(to - from) =~= sub);
    }
    Some(acc as u16)
}

/// Parse the colon-separated hextets of `v[from .. to]`.
fn parse_hextets_at(v: &Vec<char>, from: usize, to: usize) -> (r: Option<Vec<u16>>)
    requires
        from <= to <= v@.len(),
    ensures
        match r {
            Some(o) => {
                &&& parse_hextets(v@.subrange(from as int, to as int)) matches Some(t)
                &&& o@.len() == t.len()
                &&& forall|i: int| 0 <= i < t.len() ==> o@[i] == t[i]
            },
            None => parse_hextets(v@.subrange(from as int, to as int)) is None,
        },
    decreases to - from,
{
    let ghost sub = v@.subrange(from as int, to as int);
    let p: usize = find_from(v, from, to, ':');
    if p < to {
        proof {
            assert(sub.take(p - from) =~= v@.subrange(from as int, p as int));
            assert(sub.subrange(p - from + 1, sub.len() as int) =~= v@.subrange(
                p + 1,
                to as int,
            ));
        }
        let head: Option<u16> = parse_hextet_at(v, from, p);
        match head {
            Some(b) => {
                let rest: Option<Vec<u16>> = parse_hextets_at(v, p + 1, to);
                match rest {
                    Some(t) => {
                        let mut o: Vec<u16> = Vec::new();
                        o.push(b);
                        let mut i: usize = 0;
                        while i < t.len()
                            invariant
                                i <= t@.len(),
                                o@.len() == i + 1,
                                o@[0] == b,
                                forall|j: int| 0 <= j < i ==> o@[j + 1] == t@[j],
                            decreases t@.len() - i,
                        {
                            o.push(t[i]);
                            i = i + 1;
                        }
                        Some(o)
                    },
                    None => None,
                }
            },
            None => None,
        }
    } else {
        match parse_hextet_at(v, from, to) {
            Some(b) => {
                let mut o: Vec<u16> = Vec::new();
                o.push(b);
                Some(o)
            },
            None => None,
        }
    }
}

/// Assemble the 128-bit value of eight 16-bit groups, most significant
/// first.
fn groups_value(p: &Vec<u16>) -> (r: u128)
    requires
        p@.len() == 8,
    ensures
        r as int == (p@[0] as int) * 0x1_0000_0000_0000_0000_0000_0000_0000 + (p@[1] as int)
            * 0x1_0000_0000_0000_0000_0000_0000 + (p@[2] as int) * 0x1_0000_0000_0000_0000_0000 + (
        p@[3] as int) * 0x1_0000_0000_0000_0000 + (p@[4] as int) * 0x1_0000_0000_0000 + (
        p@[5] as int) * 0x1_0000_0000 + (p@[6] as int) * 0x1_0000 + (p@[7] as int),
{
    (p[0] as u128) * 0x1_0000_0000_0000_0000_0000_0000_0000 + (p[1] as u128)
        * 0x1_0000_0000_0000_0000_0000_0000 + (p[2] as u128) * 0x1_0000_0000_0000_0000_0000 + (
    p[3] as u128) * 0x1_0000_0000_0000_0000 + (p[4] as u128) * 0x1_0000_0000_0000 + (p[5] as u128)
        * 0x1_0000_0000 + (p[6] as u128) * 0x1_0000 + (p[7] as u128)
}

/// Parse an IPv6 literal from `v[from .. to]`.
#[verifier::rlimit(100)]
fn parse_ipv6_at(v: &Vec<char>, from: usize, to: usize) -> (r: Option<u128>)
    requires
        from <= to <= v@.len(),
    ensures
        r == spec_ipv6(v@.subrange(from as int, to as int)),
{
    let ghost sub = v@.subrange(from as int, to as int);
    let g: usize = find_gap_at(v, from, to);
    if g == to {
        match parse_hextets_at(v, from, to) {
            Some(h) => {
                if h.len() == 8 {
                    let value: u128 = groups_value(&h);
                    proof {
                        let t = parse_hextets(sub)->Some_0;
                        let pd = t + Seq::new(0nat, |i: int| 0int) + Seq::<int>::empty();
                        assert(pd =~= t);
                    }
                    Some(value)
                } else {
                    None
                }
            },
            None => None,
        }
    } else {
        proof {
            assert(sub.take(g - from) =~= v@.subrange(from as int, g as int));
            assert(sub.subrange(g - from + 2, sub.len() as int) =~= v@.subrange(
                g + 2,
                to as int,
            ));
        }
        let lh: Option<Vec<u16>> = if g == from {
            Some(Vec::new())
        } else {
            parse_hextets_at(v, from, g)
        };
        let l: Vec<u16> = match lh {
            Some(l) => l,
            None => {
                return None;
            },
        };
        let rh: Option<Vec<u16>> = if g + 2 == to {
            Some(Vec::new())
        } else {
            parse_hextets_at(v, g + 2, to)
        };
        let r2: Vec<u16> = match rh {
            Some(r2) => r2,
            None => {
                return None;
            },
        };
        if l.len() > 7 || r2.len() > 7 || l.len() + r2.len() > 7 {
            return None;
        }
        let g2: usize = find_gap_at(v, g + 2, to);
        if g2 != to {
            return None;
        }
        let nl: usize = l.len();
        let nr: usize = r2.len();
        let zeros: usize = 8 - nl - nr;
        let mut padded: Vec<u16> = Vec::new();
        let mut i: usize = 0;
        while i < nl
            invariant
                i <= nl == l@.len(),
                padded@.len() == i,
                forall|j: int| 0 <= j < i ==> padded@[j] == l@[j],
            decreases nl - i,
        {
            padded.push(l[i]);
            i = i + 1;
        }
        let mut z: usize = 0;
        while z < zeros
            invariant
                z <= zeros,
                nl == l@.len(),
                padded@.len() == nl + z,
                forall|j: int| 0 <= j < nl ==> padded@[j] == l@[j],
                forall|j: int| nl <= j < padded@.len() ==> padded@[j] == 0u16,
            decreases zeros - z,
        {
            padded.push(0);
            z = z + 1;
        }
        let mut k: usize = 0;
        while k < nr
            invariant
                k <= nr == r2@.len(),
                nl == l@.len(),
                padded@.len() == nl + zeros + k,
                zeros == 8 - nl - nr,
                nl + nr <= 7,
                forall|j: int| 0 <= j < nl ==> padded@[j] == l@[j],
                forall|j: int| nl <= j < nl + zeros ==> padded@[j] == 0u16,
                forall|j: int| 0 <= j < k ==> padded@[nl + zeros + j] == r2@[j],
            decreases nr - k,
        {
            padded.push(r2[k]);
            k = k + 1;
        }
        let value: u128 = groups_value(&padded);
        proof {
            let left = sub.take(g - from);
            let right = sub.subrange(g - from + 2, sub.len() as int);
            let ls = if left.len() == 0 {
                Seq::<int>::empty()
            } else {
                parse_hextets(left)->Some_0
            };
            let rs = if right.len() == 0 {
                Seq::<int>::empty()
            } else {
                parse_hextets(right)->Some_0
            };
            let pd = ls + Seq::new((8 - ls.len() - rs.len()) as nat, |i: int| 0int) + rs;
            assert forall|j: int| 0 <= j < 8 implies pd[j] == padded@[j] as int by {
            }
            assert(pd.len() == 8);
        }
        Some(value)
    }
}

/// Two to the `k`-th power (1 for non-positive `k`).
pub open spec fn pow2int(k: int) -> int
    decreases k,
{
    if k <= 0 {
        1
    } else {
        2 * pow2int(k - 1)
    }
}

proof fn lemma_pow2int_adds(a: int, b: int)
    requires
        a >= 0,
        b >= 0,
    ensures
        pow2int(a + b) == pow2int(a) * pow2int(b),
        pow2int(a) >= 1,
        pow2int(b) >= 1,
    decreases a,
{
    if a > 0 {
        lemma_pow2int_adds(a - 1, b);
        assert(pow2int(a + b) == 2 * pow2int(a - 1 + b));
        assert(2 * (pow2int(a - 1) * pow2int(b)) == (2 * pow2int(a - 1)) * pow2int(b))
            by (nonlinear_arith);
    } else {
        lemma_pow2int_pos(b);
    }
}

proof fn lemma_pow2int_128()
    ensures
        pow2int(128int) == 0x1_0000_0000_0000_0000_0000_0000_0000_0000int,
{
    assert(pow2int(32int) == 0x1_0000_0000) by {
        reveal_with_fuel(pow2int, 33);
    }
    lemma_pow2int_adds(32, 32);
    lemma_pow2int_adds(64, 64);
}

proof fn lemma_pow2int_pos(k: int)
    ensures
        pow2int(k) >= 1,
    decreases k,
{
    if k > 0 {
        lemma_pow2int_pos(k - 1);
    }
}

/// The host addresses of the IPv4 network `a/p`, per the usual CIDR
/// rules: the network and broadcast addresses are excluded for prefixes
/// below 31, and kept for /31 and /32.
pub open spec fn v4_hosts(a: int, p: int) -> Seq<IpAddress> {
    let block = pow2int(32 - p);
    let network = a - a % block;
    if p < 31 {
        Seq::new((block - 2) as nat, |i: int| IpAddress::V4((network + 1 + i) as u32))
    } else {
        Seq::new(block as nat, |i: int| IpAddress::V4((network + i) as u32))
    }
}

/// The host addresses of the IPv6 network `a/p`: every address of the
/// network.
pub open spec fn v6_hosts(a: int, p: int) -> Seq<IpAddress> {
    let block = pow2int(128 - p);
    let network = a - a % block;
    Seq::new(block as nat, |i: int| IpAddress::V6((network + i) as u128))
}

/// `2^shift`, computed by doubling.
fn pow2_u64(shift: usize) -> (r: u64)
    requires
        shift <= 32,
    ensures
        r as int == pow2int(shift as int),
        r >= 1,
{
    let mut block: u64 = 1;
    let mut k: usize = 0;
    while k < shift
        invariant
            k <= shift <= 32,
            block as int == pow2int(k as int),
            1 <= block <= 0x1_0000_0000,
        decreases shift - k,
    {
        proof {
            lemma_pow2int_adds(k as int, (32 - k) as int);
            lemma_pow2int_pos((32 - k - 1) as int);
            assert(pow2int(32int) == 0x1_0000_0000) by {
                reveal_with_fuel(pow2int, 33);
            }
            assert(pow2int((k + 1) as int) <= pow2int(32int)) by {
                lemma_pow2int_adds((k + 1) as int, (32 - k - 1) as int);
                assert(pow2int((k + 1) as int) * pow2int((32 - k - 1) as int) >= pow2int(
                    (k + 1) as int,
                ) * 1) by (nonlinear_arith)
                    requires
                        pow2int((32 - k - 1) as int) >= 1,
                        pow2int((k + 1) as int) >= 0,
                ;
            }
        }
        block = block * 2;
        k = k + 1;
    }
    block
}

/// The network base of `a` for a block of `block` addresses: `a` rounded
/// down to a multiple of `block`. The base plus the block stays within
/// `space = block * pow2int(q)` whenever `a` does.
proof fn lemma_network_block(a: int, block: int, space: int)
    requires
        block >= 1,
        space >= 1,
        0 <= a < space,
        space % block == 0,
    ensures
        0 <= a - a % block <= a,
        (a - a % block) + block <= space,
        (a - a % block) % block == 0,
    decreases 0int,
{
    let n = a - a % block;
    vstd::arithmetic::div_mod::lemma_fundamental_div_mod(a, block);
    vstd::arithmetic::div_mod::lemma_mod_bound(a, block);
    assert(n == block * (a / block));
    assert(n % block == 0) by {
        vstd::arithmetic::div_mod::lemma_mod_multiples_basic(a / block, block);
        assert(block * (a / block) == (a / block) * block) by (nonlinear_arith);
    }
    vstd::arithmetic::div_mod::lemma_fundamental_div_mod(space, block);
    let q = space / block;
    assert(space == block * q);
    assert(a / block < q) by (nonlinear_arith)
        requires
            block >= 1,
            a < space,
            space == block * q,
            a == block * (a / block) + a % block,
            a % block >= 0,
    ;
    assert(block * (a / block) + block <= block * q) by (nonlinear_arith)
        requires
            block >= 1,
            a / block < q,
    ;
}

/// Ten to the `k`-th power (1 for non-positive `k`).
pub open spec fn pow10(k: int) -> int
    decreases k,
{
    if k <= 0 {
        1
    } else {
        10 * pow10(k - 1)
    }
}

/// A digit string's value stays below ten to its length.
pub proof fn lemma_digits_val_pow10(s: Seq<char>)
    requires
        all_digits(s),
    ensures
        0 <= digits_val(s) < pow10(s.len() as int),
    decreases s.len(),
{
    if s.len() == 0 {
    } else {
        assert(all_digits(s.drop_last())) by {
            assert(forall|i: int|
                0 <= i < s.len() - 1 ==> s.drop_last()[i] == #[trigger] s[i]);
        }
        lemma_digits_val_pow10(s.drop_last());
        assert(is_digit(s.last()));
        assert(digits_val(s.drop_last()) * 10 + 9 < pow10(s.len() as int)) by (nonlinear_arith)
            requires
                digits_val(s.drop_last()) < pow10(s.len() - 1),
                pow10(s.len() as int) == 10 * pow10(s.len() - 1),
        ;
    }
}

/// Parse a plain decimal number of one to `max_digits` digits from
/// `v[from .. to]`.
fn parse_decimal_at(v: &Vec<char>, from: usize, to: usize, max_digits: usize) -> (r: Option<u64>)
    requires
        from <= to <= v@.len(),
        1 <= max_digits <= 10,
    ensures
        ({
            let sub = v@.subrange(from as int, to as int);
            match r {
                Some(d) => 1 <= sub.len() <= max_digits && all_digits(sub) && d == digits_val(sub),
                None => !(1 <= sub.len() <= max_digits && all_digits(sub)),
            }
        }),
{
    let ghost sub = v@.subrange(from as int, to as int);
    let len: usize = to - from;
    if len < 1 || len > max_digits {
        return None;
    }
    let mut acc: u64 = 0;
    let mut i: usize = from;
    while i < to
        invariant
            from <= i <= to <= v@.len(),
            to - from <= 10,
            sub == v@.subrange(from as int, to as int),
            all_digits(sub.take(i - from)),
            acc == digits_val(sub.take(i - from)),
            acc < 10_000_000_000,
        decreases to - i,
    {
        let c: char = v[i];
        if c < '0' || c > '9' {
            proof {
                assert(sub[i - from] == c);
                assert(!all_digits(sub));
            }
            return None;
        }
        proof {
            let cur = sub.take(i + 1 - from);
            assert(cur.drop_last() =~= sub.take(i - from));
            assert(cur.last() == sub[i - from]);
            assert(sub[i - from] == c);
            lemma_digits_val_pow10(cur);
            assert(pow10(10int) == 10_000_000_000) by {
                reveal_with_fuel(pow10, 11);
            }
            assert(pow10(cur.len() as int) <= pow10(10int)) by {
                assert forall|k: int| #![trigger pow10(k)] 0 <= k <= 10 implies pow10(k) <= pow10(
                    10int,
                ) by {
                    reveal_with_fuel(pow10, 11);
                }
            }
        }
        acc = acc * 10 + (c as u64 - 48);
        i = i + 1;
    }
    proof {
        assert(sub.take(to - from) =~= sub);
    }
    Some(acc)
}

/// A whitespace character, for trimming the two sides of a range.
pub open spec fn is_space(c: char) -> bool {
    c == ' ' || c == '\t' || c == '\n' || c == '\r'
}

/// Length of the leading whitespace of `s`.
pub open spec fn trim_start_idx(s: Seq<char>) -> int
    decreases s.len(),
{
    if s.len() == 0 {
        0
    } else if is_space(s[0]) {
        1 + trim_start_idx(s.drop_first())
    } else {
        0
    }
}

/// End of `s` with the trailing whitespace removed.
pub open spec fn trim_end_idx(s: Seq<char>) -> int
    decreases s.len(),
{
    if s.len() == 0 {
        0
    } else if is_space(s.last()) {
        trim_end_idx(s.drop_last())
    } else {
        s.len() as int
    }
}

/// `s` without its leading and trailing whitespace.
pub open spec fn spec_trim(s: Seq<char>) -> Seq<char> {
    if trim_start_idx(s) >= trim_end_idx(s) {
        Seq::<char>::empty()
    } else {
        s.subrange(trim_start_idx(s), trim_end_idx(s))
    }
}

proof fn lemma_trim_start_unique(s: Seq<char>, k: int)
    requires
        0 <= k <= s.len(),
        forall|j: int| 0 <= j < k ==> is_space(#[trigger] s[j]),
        k < s.len() ==> !is_space(s[k]),
    ensures
        k == trim_start_idx(s),
    decreases s.len(),
{
    if s.len() > 0 && is_space(s[0]) {
        lemma_trim_start_unique(s.drop_first(), k - 1);
    }
}

proof fn lemma_trim_end_unique(s: Seq<char>, k: int)
    requires
        0 <= k <= s.len(),
        forall|j: int| k <= j < s.len() ==> is_space(#[trigger] s[j]),
        k > 0 ==> !is_space(s[k - 1]),
    ensures
        k == trim_end_idx(s),
    decreases s.len(),
{
    if s.len() > 0 && is_space(s.last()) {
        assert(s.drop_last() =~= s.subrange(0, s.len() - 1));
        lemma_trim_end_unique(s.drop_last(), k);
    }
}

/// The trimmed bounds of `v[from .. to]`: the subrange without leading
/// and trailing whitespace.
fn trim_at(v: &Vec<char>, from: usize, to: usize) -> (r: (usize, usize))
    requires
        from <= to <= v@.len(),
    ensures
        from <= r.0 <= r.1 <= to,
        v@.subrange(r.0 as int, r.1 as int) == spec_trim(v@.subrange(from as int, to as int)),
{
    let ghost sub = v@.subrange(from as int, to as int);
    let mut a: usize = from;
    while a < to && (v[a] == ' ' || v[a] == '\t' || v[a] == '\n' || v[a] == '\r')
        invariant
            from <= a <= to <= v@.len(),
            forall|j: int| from <= j < a ==> is_space(#[trigger] v@[j]),
        decreases to - a,
    {
        a = a + 1;
    }
    let mut b: usize = to;
    while b > a && (v[b - 1] == ' ' || v[b - 1] == '\t' || v[b - 1] == '\n' || v[b - 1] == '\r')
        invariant
            a <= b <= to <= v@.len(),
            forall|j: int| b <= j < to ==> is_space(#[trigger] v@[j]),
        decreases b,
    {
        b = b - 1;
    }
    proof {
        assert forall|j: int| 0 <= j < a - from implies is_space(#[trigger] sub[j]) by {
            assert(sub[j] == v@[from + j]);
        }
        if a < to {
            assert(sub[a - from] == v@[a as int]);
        }
        if b == a {
            lemma_trim_start_unique(sub, a - from);
            if a == to {
                lemma_trim_end_unique(sub, 0);
                assert(trim_start_idx(sub) >= trim_end_idx(sub));
            } else {
                assert(!is_space(sub[a - from]));
                assert forall|j: int| a - from <= j < sub.len() implies is_space(
                    #[trigger] sub[j],
                ) by {
                    assert(sub[j] == v@[from + j]);
                }
                assert(false);
            }
            assert(v@.subrange(a as int, b as int) =~= Seq::<char>::empty());
        } else {
            lemma_trim_start_unique(sub, a - from);
            assert forall|j: int| b - from <= j < sub.len() implies is_space(
                #[trigger] sub[j],
            ) by {
                assert(sub[j] == v@[from + j]);
            }
            assert(!is_space(sub[b - from - 1])) by {
                assert(sub[b - from - 1] == v@[b - 1]);
            }
            lemma_trim_end_unique(sub, b - from);
            assert(v@.subrange(a as int, b as int) =~= sub.subrange(a - from, b - from));
        }
    }
    (a, b)
}

/// A CIDR specification: an IP literal, a slash, and a decimal prefix
/// length, expanded to the network's host addresses. Expansions beyond
/// `MAX_EXPANSION` addresses (prefixes under /16, respectively /112) are
/// rejected.
pub open spec fn spec_cidr(s: Seq<char>) -> Option<Seq<IpAddress>> {
    let p = find_char(s, '/');
    if !(0 <= p < s.len()) {
        None
    } else {
        let addr = s.take(p);
        let pre = s.subrange(p + 1, s.len() as int);
        if !(1 <= pre.len() <= 3 && all_digits(pre)) {
            None
        } else {
            let pv = digits_val(pre);
            if spec_ipv4(addr) is Some {
                if 16 <= pv <= 32 {
                    Some(v4_hosts(spec_ipv4(addr)->0 as int, pv))
                } else {
                    None
                }
            } else if spec_ipv6(addr) is Some {
                if 112 <= pv <= 128 {
                    Some(v6_hosts(spec_ipv6(addr)->0 as int, pv))
                } else {
                    None
                }
            } else {
                None
            }
        }
    }
}

/// All addresses from `start` to `end` inclusive, if both are of the same
/// family, in order, and at most `MAX_EXPANSION` many.
pub open spec fn spec_range_list(start: IpAddress, end: IpAddress) -> Option<Seq<IpAddress>> {
    match (start, end) {
        (IpAddress::V4(a), IpAddress::V4(b)) => if a <= b && b - a + 1 <= MAX_EXPANSION {
            Some(Seq::new((b - a + 1) as nat, |i: int| IpAddress::V4((a + i) as u32)))
        } else {
            None
        },
        (IpAddress::V6(a), IpAddress::V6(b)) => if a <= b && b - a + 1 <= MAX_EXPANSION {
            Some(Seq::new((b - a + 1) as nat, |i: int| IpAddress::V6((a + i) as u128)))
        } else {
            None
        },
        _ => None,
    }
}

/// The range end given in short form: the start address with its last
/// octet (respectively last 16-bit group) replaced by `d`.
pub open spec fn spec_short_end(start: IpAddress, d: int) -> Option<IpAddress> {
    match start {
        IpAddress::V4(a) => if 0 <= d <= 255 {
            Some(IpAddress::V4((a - a % 256 + d) as u32))
        } else {
            None
        },
        IpAddress::V6(a) => if 0 <= d <= 65535 {
            Some(IpAddress::V6((a - a % 0x10000 + d) as u128))
        } else {
            None
        },
    }
}

/// An IP literal, IPv4 or IPv6.
pub open spec fn spec_ip(s: Seq<char>) -> Option<IpAddress> {
    if spec_ipv4(s) is Some {
        Some(IpAddress::V4(spec_ipv4(s)->0))
    } else if spec_ipv6(s) is Some {
        Some(IpAddress::V6(spec_ipv6(s)->0))
    } else {
        None
    }
}

/// A range specification: `start-end` with exactly one dash, both sides
/// trimmed; the end is a full IP literal when it contains a dot or a
/// colon, else the short form (the decimal last octet or group).
pub open spec fn spec_range(s: Seq<char>) -> Option<Seq<IpAddress>> {
    let p = find_char(s, '-');
    if !(0 <= p < s.len()) {
        None
    } else if find_char(s.subrange(p + 1, s.len() as int), '-') != s.len() - p - 1 {
        None
    } else {
        let a = spec_trim(s.take(p));
        let b = spec_trim(s.subrange(p + 1, s.len() as int));
        match spec_ip(a) {
            Some(start) => {
                let endv = if find_char(b, '.') < b.len() || find_char(b, ':') < b.len() {
                    spec_ip(b)
                } else if 1 <= b.len() <= 10 && all_digits(b) {
                    spec_short_end(start, digits_val(b))
                } else {
                    None
                };
                match endv {
                    Some(end) => spec_range_list(start, end),
                    None => None,
                }
            },
            None => None,
        }
    }
}

/// What a target specification denotes: a single literal, a CIDR block's
/// hosts, or an inclusive range; nothing if it is none of these.
pub open spec fn spec_expansion(s: Seq<char>) -> Option<Seq<IpAddress>> {
    if spec_ip(s) is Some {
        Some(seq![spec_ip(s)->0])
    } else if spec_cidr(s) is Some {
        spec_cidr(s)
    } else {
        spec_range(s)
    }
}

/// Build the `count` consecutive IPv4 addresses from `start`.
fn build_v4_list(start: u64, count: u64) -> (r: Vec<IpAddress>)
    requires
        start + count <= 0x1_0000_0000,
    ensures
        r@ == Seq::new(count as nat, |i: int| IpAddress::V4((start + i) as u32)),
{
    let mut out: Vec<IpAddress> = Vec::new();
    let mut i: u64 = 0;
    while i < count
        invariant
            i <= count,
            start + count <= 0x1_0000_0000,
            out@.len() == i,
            forall|j: int| 0 <= j < i ==> out@[j] == IpAddress::V4((start + j) as u32),
        decreases count - i,
    {
        out.push(IpAddress::V4((start + i) as u32));
        i = i + 1;
    }
    proof {
        assert(out@ =~= Seq::new(count as nat, |i: int| IpAddress::V4((start + i) as u32)));
    }
    out
}

/// Build the `count` consecutive IPv6 addresses from `start`.
fn build_v6_list(start: u128, count: u64) -> (r: Vec<IpAddress>)
    requires
        start as int + count as int <= 0x1_0000_0000_0000_0000_0000_0000_0000_0000int,
    ensures
        r@ == Seq::new(count as nat, |i: int| IpAddress::V6((start + i) as u128)),
{
    let mut out: Vec<IpAddress> = Vec::new();
    let mut i: u64 = 0;
    while i < count
        invariant
            i <= count,
            start as int + count as int <= 0x1_0000_0000_0000_0000_0000_0000_0000_0000int,
            out@.len() == i,
            forall|j: int| 0 <= j < i ==> out@[j] == IpAddress::V6((start + j) as u128),
        decreases count - i,
    {
        out.push(IpAddress::V6(start + i as u128));
        i = i + 1;
    }
    proof {
        assert(out@ =~= Seq::new(count as nat, |i: int| IpAddress::V6((start + i) as u128)));
    }
    out
}

/// Expand the IPv4 network `a/p` to its host addresses.
fn expand_v4(a: u32, p: u64) -> (r: Vec<IpAddress>)
    requires
        16 <= p <= 32,
    ensures
        r@ == v4_hosts(a as int, p as int),
{
    let shift: usize = (32 - p) as usize;
    let block: u64 = pow2_u64(shift);
    proof {
        lemma_pow2int_adds(shift as int, p as int);
        assert(pow2int(32int) == 0x1_0000_0000) by {
            reveal_with_fuel(pow2int, 33);
        }
        lemma_pow2int_pos(p as int);
        vstd::arithmetic::div_mod::lemma_mod_multiples_basic(pow2int(p as int), block as int);
        assert((block as int) * pow2int(p as int) == pow2int(p as int) * (block as int))
            by (nonlinear_arith);
        lemma_network_block(a as int, block as int, 0x1_0000_0000);
    }
    let network: u64 = (a as u64) - ((a as u64) % block);
    if p < 31 {
        proof {
            lemma_pow2int_adds(2, (shift - 2) as int);
            lemma_pow2int_pos((shift - 2) as int);
            assert(4 * pow2int((shift - 2) as int) >= 4) by (nonlinear_arith)
                requires
                    pow2int((shift - 2) as int) >= 1,
            ;
        }
        let out = build_v4_list(network + 1, block - 2);
        proof {
            assert(out@ =~= v4_hosts(a as int, p as int));
        }
        out
    } else {
        let out = build_v4_list(network, block);
        proof {
            assert(out@ =~= v4_hosts(a as int, p as int));
        }
        out
    }
}

/// Expand the IPv6 network `a/p` to its addresses.
fn expand_v6(a: u128, p: u64) -> (r: Vec<IpAddress>)
    requires
        112 <= p <= 128,
    ensures
        r@ == v6_hosts(a as int, p as int),
{
    let shift: usize = (128 - p) as usize;
    let block: u64 = pow2_u64(shift);
    proof {
        lemma_pow2int_adds(shift as int, p as int);
        lemma_pow2int_128();
        lemma_pow2int_pos(p as int);
        vstd::arithmetic::div_mod::lemma_mod_multiples_basic(pow2int(p as int), block as int);
        assert((block as int) * pow2int(p as int) == pow2int(p as int) * (block as int))
            by (nonlinear_arith);
        lemma_network_block(a as int, block as int, 0x1_0000_0000_0000_0000_0000_0000_0000_0000int);
    }
    let network: u128 = a - (a % (block as u128));
    let out = build_v6_list(network, block);
    proof {
        assert(out@ =~= v6_hosts(a as int, p as int));
    }
    out
}

/// Parse a single IP literal, IPv4 or IPv6.
pub fn parse_ip(arg: &str) -> (r: Option<IpAddress>)
    ensures
        r == spec_ip(arg@),
{
    let v: Vec<char> = chars_of(arg);
    let n: usize = v.len();
    proof {
        assert(v@.subrange(0, n as int) =~= arg@);
    }
    parse_ip_at(&v, 0, n)
}

/// Parse a single IP literal from `v[from .. to]`.
fn parse_ip_at(v: &Vec<char>, from: usize, to: usize) -> (r: Option<IpAddress>)
    requires
        from <= to <= v@.len(),
    ensures
        r == spec_ip(v@.subrange(from as int, to as int)),
{
    match parse_ipv4_at(v, from, to) {
        Some(a) => Some(IpAddress::V4(a)),
        None => match parse_ipv6_at(v, from, to) {
            Some(a) => Some(IpAddress::V6(a)),
            None => None,
        },
    }
}

/// Generate all addresses from `start` to `end`, inclusive. Errors: the
/// families differ, the range runs backwards, or it holds more than
/// `MAX_EXPANSION` addresses.
pub fn generate_ip_range(start: IpAddress, end: IpAddress) -> (r: Result<Vec<IpAddress>, String>)
    ensures
        match r {
            Ok(v) => spec_range_list(start, end) == Some(v@),
            Err(_) => spec_range_list(start, end) is None,
        },
{
    match (start, end) {
        (IpAddress::V4(a), IpAddress::V4(b)) => {
            if a > b {
                return Err(backwards_range_message());
            }
            let count: u64 = (b - a) as u64 + 1;
            if count > MAX_EXPANSION as u64 {
                return Err(range_too_large_message());
            }
            Ok(build_v4_list(a as u64, count))
        },
        (IpAddress::V6(a), IpAddress::V6(b)) => {
            if a > b {
                return Err(backwards_range_message());
            }
            let diff: u128 = b - a;
            if diff >= MAX_EXPANSION as u128 {
                return Err(range_too_large_message());
            }
            Ok(build_v6_list(a, diff as u64 + 1))
        },
        _ => Err(version_mismatch_message()),
    }
}

/// Parse a range specification `start-end` (both sides trimmed; the end
/// either a full IP literal or the short last-octet/last-group form) and
/// expand it.
pub fn parse_ip_range(arg: &str) -> (r: Result<Vec<IpAddress>, String>)
    ensures
        match r {
            Ok(v) => spec_range(arg@) == Some(v@),
            Err(_) => spec_range(arg@) is None,
        },
{
    let v: Vec<char> = chars_of(arg);
    let n: usize = v.len();
    proof {
        assert(v@.subrange(0, n as int) =~= arg@);
    }
    parse_range_at(&v, 0, n)
}

/// Parse a range specification from `v[from .. to]`.
fn parse_range_at(v: &Vec<char>, from: usize, to: usize) -> (r: Result<Vec<IpAddress>, String>)
    requires
        from <= to <= v@.len(),
    ensures
        ({
            let sub = v@.subrange(from as int, to as int);
            match r {
                Ok(o) => spec_range(sub) == Some(o@),
                Err(_) => spec_range(sub) is None,
            }
        }),
{
    let ghost sub = v@.subrange(from as int, to as int);
    let p: usize = find_from(v, from, to, '-');
    if p == to {
        return Err(invalid_range_message());
    }
    let p2: usize = find_from(v, p + 1, to, '-');
    proof {
        assert(sub.subrange(p - from + 1, sub.len() as int) =~= v@.subrange(p + 1, to as int));
    }
    if p2 != to {
        return Err(invalid_range_message());
    }
    proof {
        assert(sub.take(p - from) =~= v@.subrange(from as int, p as int));
    }
    let (a0, a1) = trim_at(v, from, p);
    let (b0, b1) = trim_at(v, p + 1, to);
    let start: IpAddress = match parse_ip_at(v, a0, a1) {
        Some(ip) => ip,
        None => {
            return Err(invalid_range_start_message());
        },
    };
    let has_sep: bool = {
        let d: usize = find_from(v, b0, b1, '.');
        let c: usize = find_from(v, b0, b1, ':');
        d < b1 || c < b1
    };
    let ghost btrim = v@.subrange(b0 as int, b1 as int);
    let endv: IpAddress = if has_sep {
        match parse_ip_at(v, b0, b1) {
            Some(ip) => ip,
            None => {
                return Err(invalid_range_end_message());
            },
        }
    } else {
        match parse_decimal_at(v, b0, b1, 10) {
            Some(d) => {
                match start {
                    IpAddress::V4(a) => {
                        if d > 255 {
                            return Err(invalid_range_end_message());
                        }
                        IpAddress::V4((a - a % 256) + d as u32)
                    },
                    IpAddress::V6(a) => {
                        if d > 65535 {
                            return Err(invalid_range_end_message());
                        }
                        IpAddress::V6((a - a % 0x10000) + d as u128)
                    },
                }
            },
            None => {
                return Err(invalid_range_end_message());
            },
        }
    };
    generate_ip_range(start, endv)
}

/// Parse a CIDR specification from `v[from .. to]` and expand it to the
/// network's host addresses.
fn parse_cidr_at(v: &Vec<char>, from: usize, to: usize) -> (r: Option<Vec<IpAddress>>)
    requires
        from <= to <= v@.len(),
    ensures
        ({
            let sub = v@.subrange(from as int, to as int);
            match r {
                Some(o) => spec_cidr(sub) == Some(o@),
                None => spec_cidr(sub) is None,
            }
        }),
{
    let ghost sub = v@.subrange(from as int, to as int);
    let p: usize = find_from(v, from, to, '/');
    if p == to {
        return None;
    }
    proof {
        assert(sub.take(p - from) =~= v@.subrange(from as int, p as int));
        assert(sub.subrange(p - from + 1, sub.len() as int) =~= v@.subrange(p + 1, to as int));
    }
    let pv: u64 = match parse_decimal_at(v, p + 1, to, 3) {
        Some(d) => d,
        None => {
            return None;
        },
    };
    match parse_ipv4_at(v, from, p) {
        Some(a) => {
            if pv < 16 || pv > 32 {
                return None;
            }
            Some(expand_v4(a, pv))
        },
        None => {
            match parse_ipv6_at(v, from, p) {
                Some(a) => {
                    if pv < 112 || pv > 128 {
                        return None;
                    }
                    Some(expand_v6(a, pv))
                },
                None => None,
            }
        },
    }
}

/// Parse a target specification — a single IP literal, a CIDR block, a
/// short range (`A.B.C.x-y`) or a full range (`A-B`) — and expand it into
/// the addresses it denotes.
pub fn parse_ip_or_range(arg: &str) -> (r: Result<Vec<IpAddress>, String>)
    ensures
        match r {
            Ok(v) => spec_expansion(arg@) == Some(v@),
            Err(_) => spec_expansion(arg@) is None,
        },
{
    let v: Vec<char> = chars_of(arg);
    let n: usize = v.len();
    proof {
        assert(v@.subrange(0, n as int) =~= arg@);
    }
    match parse_ip_at(&v, 0, n) {
        Some(ip) => {
            let mut out: Vec<IpAddress> = Vec::new();
            out.push(ip);
            proof {
                assert(out@ =~= seq![spec_ip(arg@)->0]);
            }
            return Ok(out);
        },
        None => {},
    }
    match parse_cidr_at(&v, 0, n) {
        Some(out) => {
            return Ok(out);
        },
        None => {},
    }
    match parse_range_at(&v, 0, n) {
        Ok(out) => Ok(out),
        Err(_) => Err(invalid_spec_message(arg)),
    }
}

/// The error value for a range whose start exceeds its end.
fn backwards_range_message() -> (r: String)
    ensures
        r@ == "Start IP is greater than end IP"@,
{
    let s: String = String::from_str("Start IP is greater than end IP");
    s
}

/// The error value for a range with too many addresses.
fn range_too_large_message() -> (r: String)
    ensures
        r@ == "Range too large (max 65536 addresses)"@,
{
    let s: String = String::from_str("Range too large (max 65536 addresses)");
    s
}

/// The error value for a range mixing IPv4 and IPv6.
fn version_mismatch_message() -> (r: String)
    ensures
        r@ == "Cannot mix IPv4 and IPv6 in range"@,
{
    let s: String = String::from_str("Cannot mix IPv4 and IPv6 in range");
    s
}

/// The error value for a malformed range.
fn invalid_range_message() -> (r: String)
    ensures
        r@ == "Invalid range format"@,
{
    let s: String = String::from_str("Invalid range format");
    s
}

/// The error value for a bad range start.
fn invalid_range_start_message() -> (r: String)
    ensures
        r@ == "Invalid start IP in range"@,
{
    let s: String = String::from_str("Invalid start IP in range");
    s
}

/// The error value for a bad range end.
fn invalid_range_end_message() -> (r: String)
    ensures
        r@ == "Invalid end IP in range"@,
{
    let s: String = String::from_str("Invalid end IP in range");
    s
}

/// The error value for a specification that is no IP, CIDR or range.
fn invalid_spec_message(arg: &str) -> (r: String)
    ensures
        r@ == "Invalid IP address, CIDR, or range: "@ + arg@,
{
    let mut s: String = String::from_str("Invalid IP address, CIDR, or range: ");
    s.append(arg);
    s
}

} // verus!
