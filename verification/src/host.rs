//! Hosts: which numeric address a host stands for, and which addresses are internal.
use crate::fixed::{decimal, digit};
use vstd::prelude::*;
use vstd::string::*;

verus! {

/// A numeric address.
#[derive(Clone, Copy, Debug, PartialEq, Eq)]
pub enum HostAddress {
    V4([u8; 4]),
    V6([u16; 8]),
}

/// Four octets of the machine itself or of a private network.
pub open spec fn internal_octets(o: Seq<u8>) -> bool {
    ||| o[0] == 127
    ||| o[0] == 10
    ||| o[0] == 172 && 16 <= o[1] <= 31
    ||| o[0] == 192 && o[1] == 168
    ||| o[0] == 169 && o[1] == 254
    ||| o == seq![0u8, 0u8, 0u8, 0u8]
}

/// An address of the machine itself or of a private network.
pub open spec fn is_internal(a: HostAddress) -> bool {
    match a {
        HostAddress::V4(o) => internal_octets(o@),
        HostAddress::V6(s) => {
            ||| s@ == seq![0u16, 0u16, 0u16, 0u16, 0u16, 0u16, 0u16, 0u16]
            ||| s@ == seq![0u16, 0u16, 0u16, 0u16, 0u16, 0u16, 0u16, 1u16]
        },
    }
}

/// An address of the machine itself or of a private network.
pub fn is_internal_address(a: &HostAddress) -> (r: bool)
    ensures
        r == is_internal(*a),
{
    match a {
        HostAddress::V4(o) => {
            let zero: bool = o[0] == 0 && o[1] == 0 && o[2] == 0 && o[3] == 0;
            proof {
                if zero {
                    assert(o@ =~= seq![0u8, 0u8, 0u8, 0u8]);
                }
            }
            o[0] == 127 || o[0] == 10 || (o[0] == 172 && 16 <= o[1] && o[1] <= 31) || (o[0] == 192
                && o[1] == 168) || (o[0] == 169 && o[1] == 254) || zero
        },
        HostAddress::V6(s) => {
            let blank: bool = s[0] == 0 && s[1] == 0 && s[2] == 0 && s[3] == 0 && s[4] == 0 && s[5]
                == 0 && s[6] == 0;
            proof {
                if blank && s@[7] == 0 {
                    assert(s@ =~= seq![0u16, 0u16, 0u16, 0u16, 0u16, 0u16, 0u16, 0u16]);
                }
                if blank && s@[7] == 1 {
                    assert(s@ =~= seq![0u16, 0u16, 0u16, 0u16, 0u16, 0u16, 0u16, 1u16]);
                }
            }
            blank && (s[7] == 0 || s[7] == 1)
        },
    }
}

/// Octets as they are written: in decimal, with dots between them.
pub open spec fn dotted(o: Seq<u8>) -> Seq<char>
    decreases o.len(),
{
    if o.len() == 0 {
        Seq::empty()
    } else if o.len() == 1 {
        decimal(o[0] as nat)
    } else {
        decimal(o[0] as nat) + seq!['.'] + dotted(o.skip(1))
    }
}

/// The host is written as four octets of the machine itself or of a private network.
pub open spec fn internal_host(host: Seq<char>) -> bool {
    exists|o: Seq<u8>| o.len() == 4 && host == #[trigger] dotted(o) && internal_octets(o)
}

proof fn digits_differ(a: int, b: int)
    requires
        0 <= a < 10,
        0 <= b < 10,
    ensures
        digit(a) == digit(b) ==> a == b,
        digit(a) != '.',
{
}

/// The digits of an octet.
spec fn octet_digits(v: int) -> Seq<char> {
    if v < 10 {
        seq![digit(v)]
    } else if v < 100 {
        seq![digit(v / 10), digit(v % 10)]
    } else {
        seq![digit(v / 100), digit(v / 10 % 10), digit(v % 10)]
    }
}

proof fn octet_is_written(v: u8)
    ensures
        decimal(v as nat) == octet_digits(v as int),
        !decimal(v as nat).contains('.'),
{
    reveal_with_fuel(decimal, 4);
    assert(decimal(v as nat) =~= octet_digits(v as int));
    let s = octet_digits(v as int);
    assert forall|i: int| 0 <= i < s.len() implies s[i] != '.' by {}
}

proof fn octets_differ(a: u8, b: u8)
    requires
        decimal(a as nat) == decimal(b as nat),
    ensures
        a == b,
{
    octet_is_written(a);
    octet_is_written(b);
    let (s, t) = (octet_digits(a as int), octet_digits(b as int));
    assert(s.len() == t.len());
    assert(s[0] == t[0]);
    if a >= 10 {
        assert(s[1] == t[1]);
        if a >= 100 {
            assert(s[2] == t[2]);
            digits_differ(a as int / 100, b as int / 100);
            digits_differ(a as int / 10 % 10, b as int / 10 % 10);
            digits_differ(a as int % 10, b as int % 10);
        } else {
            digits_differ(a as int / 10, b as int / 10);
            digits_differ(a as int % 10, b as int % 10);
        }
    } else {
        digits_differ(a as int, b as int);
    }
}

/// A text falls apart at its first dot in one way only.
proof fn split_once(a: Seq<char>, s: Seq<char>, b: Seq<char>, t: Seq<char>)
    requires
        !a.contains('.'),
        !b.contains('.'),
        a + seq!['.'] + s == b + seq!['.'] + t,
    ensures
        a == b,
        s == t,
{
    let x = a + seq!['.'] + s;
    let y = b + seq!['.'] + t;
    assert(x[a.len() as int] == '.');
    assert(y[b.len() as int] == '.');
    if a.len() < b.len() {
        assert(y[a.len() as int] == b[a.len() as int]);
    } else if b.len() < a.len() {
        assert(x[b.len() as int] == a[b.len() as int]);
    }
    assert(a =~= x.take(a.len() as int));
    assert(b =~= y.take(b.len() as int));
    assert(s =~= x.skip(a.len() as int + 1));
    assert(t =~= y.skip(b.len() as int + 1));
}

/// Different octets are written differently.
pub proof fn dotted_is_unique(o: Seq<u8>, p: Seq<u8>)
    requires
        o.len() == p.len(),
        dotted(o) == dotted(p),
    ensures
        o == p,
    decreases o.len(),
{
    if o.len() == 1 {
        octets_differ(o[0], p[0]);
    } else if o.len() > 1 {
        octet_is_written(o[0]);
        octet_is_written(p[0]);
        split_once(
            decimal(o[0] as nat),
            dotted(o.skip(1)),
            decimal(p[0] as nat),
            dotted(p.skip(1)),
        );
        octets_differ(o[0], p[0]);
        dotted_is_unique(o.skip(1), p.skip(1));
        assert(o =~= seq![o[0]] + o.skip(1));
        assert(p =~= seq![p[0]] + p.skip(1));
    }
    assert(o =~= p);
}

fn digit_value(c: char) -> (r: Option<u8>)
    ensures
        match r {
            Some(d) => d < 10 && c == digit(d as int),
            None => forall|d: int| 0 <= d < 10 ==> c != #[trigger] digit(d),
        },
{
    if c == '0' {
        Some(0)
    } else if c == '1' {
        Some(1)
    } else if c == '2' {
        Some(2)
    } else if c == '3' {
        Some(3)
    } else if c == '4' {
        Some(4)
    } else if c == '5' {
        Some(5)
    } else if c == '6' {
        Some(6)
    } else if c == '7' {
        Some(7)
    } else if c == '8' {
        Some(8)
    } else if c == '9' {
        Some(9)
    } else {
        None
    }
}

/// Reads one octet, written in decimal without leading zeros.
pub fn read_octet(s: &str) -> (r: Option<u8>)
    ensures
        match r {
            Some(v) => s@ == decimal(v as nat),
            None => forall|v: u8| s@ != #[trigger] decimal(v as nat),
        },
{
    let n: usize = s.unicode_len();
    proof {
        assert forall|v: u8| #[trigger] decimal(v as nat) == octet_digits(v as int) by {
            octet_is_written(v);
        }
    }
    if n == 0 || n > 3 {
        return None;
    }
    let mut value: u32 = 0;
    let mut i: usize = 0;
    let mut ds: [u8; 3] = [0, 0, 0];
    while i < n
        invariant
            i <= n <= 3,
            n == s@.len(),
            forall|v: u8| #[trigger] decimal(v as nat) == octet_digits(v as int),
            forall|k: int| 0 <= k < i ==> (#[trigger] ds@[k]) < 10 && s@[k] == digit(ds@[k] as int),
            i == 0 ==> value == 0,
            i == 1 ==> value == ds@[0],
            i == 2 ==> value == 10 * ds@[0] + ds@[1],
            i == 3 ==> value == 100 * ds@[0] + 10 * ds@[1] + ds@[2],
        decreases n - i,
    {
        match digit_value(s.get_char(i)) {
            Some(d) => {
                ds[i] = d;
                value = value * 10 + d as u32;
            },
            None => {
                proof {
                    assert forall|v: u8| s@ != #[trigger] decimal(v as nat) by {
                        let t = octet_digits(v as int);
                        if s@ == decimal(v as nat) {
                            assert(t[i as int] == s@[i as int]);
                        }
                    }
                }
                return None;
            },
        }
        i = i + 1;
    }
    if (n > 1 && ds[0] == 0) || value > 255 {
        proof {
            assert forall|v: u8| s@ != #[trigger] decimal(v as nat) by {
                let t = octet_digits(v as int);
                if s@ == decimal(v as nat) {
                    assert(t[0] == s@[0]);
                    digits_differ(ds@[0] as int, v as int / 10);
                    digits_differ(ds@[0] as int, v as int / 100);
                    if n == 3 {
                        assert(t[1] == s@[1] && t[2] == s@[2]);
                        digits_differ(ds@[1] as int, v as int / 10 % 10);
                        digits_differ(ds@[2] as int, v as int % 10);
                    }
                }
            }
        }
        return None;
    }
    proof {
        assert(s@ =~= octet_digits(value as int));
    }
    Some(value as u8)
}

/// A text in two: what stands before its first dot, and what stands behind it.
fn split_at_dot(s: &str) -> (r: Option<(String, String)>)
    ensures
        match r {
            Some(p) => s@ == p.0@ + seq!['.'] + p.1@ && !p.0@.contains('.'),
            None => !s@.contains('.'),
        },
{
    let n: usize = s.unicode_len();
    let mut i: usize = 0;
    while i < n
        invariant
            i <= n,
            n == s@.len(),
            forall|k: int| 0 <= k < i ==> (#[trigger] s@[k]) != '.',
        decreases n - i,
    {
        if s.get_char(i) == '.' {
            let head: String = s.substring_char(0, i).to_owned();
            let tail: String = s.substring_char(i + 1, n).to_owned();
            assert(s@ =~= head@ + seq!['.'] + tail@);
            return Some((head, tail));
        }
        i = i + 1;
    }
    None
}

/// Reads `n` octets with dots between them.
fn read_octets(s: &str, n: usize) -> (r: Option<Vec<u8>>)
    requires
        n > 0,
    ensures
        match r {
            Some(o) => o@.len() == n && s@ == dotted(o@),
            None => forall|o: Seq<u8>| o.len() == n ==> s@ != #[trigger] dotted(o),
        },
    decreases n,
{
    if n == 1 {
        return match read_octet(s) {
            Some(v) => {
                let mut o: Vec<u8> = Vec::new();
                o.push(v);
                Some(o)
            },
            None => None,
        };
    }
    let (head, tail) = match split_at_dot(s) {
        Some(p) => p,
        None => {
            proof {
                assert forall|o: Seq<u8>| o.len() == n implies s@ != #[trigger] dotted(o) by {
                    assert(dotted(o)[decimal(o[0] as nat).len() as int] == '.');
                }
            }
            return None;
        },
    };
    proof {
        assert forall|o: Seq<u8>| o.len() == n && s@ == #[trigger] dotted(o) implies head@
            == decimal(o[0] as nat) && tail@ == dotted(o.skip(1)) by {
            octet_is_written(o[0]);
            split_once(head@, tail@, decimal(o[0] as nat), dotted(o.skip(1)));
        }
    }
    let first: u8 = match read_octet(head.as_str()) {
        Some(v) => v,
        None => {
            return None;
        },
    };
    let rest: Vec<u8> = match read_octets(tail.as_str(), n - 1) {
        Some(o) => o,
        None => {
            proof {
                assert forall|o: Seq<u8>| o.len() == n implies s@ != #[trigger] dotted(o) by {
                    assert(o.skip(1).len() == n - 1);
                }
            }
            return None;
        },
    };
    let mut o: Vec<u8> = Vec::new();
    o.push(first);
    let mut i: usize = 0;
    while i < rest.len()
        invariant
            i <= rest@.len(),
            o@ == seq![first] + rest@.take(i as int),
        decreases rest@.len() - i,
    {
        o.push(rest[i]);
        proof {
            assert(o@ =~= seq![first] + rest@.take(i + 1));
        }
        i = i + 1;
    }
    proof {
        assert(rest@.take(i as int) =~= rest@);
        assert(o@.skip(1) =~= rest@);
    }
    Some(o)
}

/// The numeric address that a host stands for: the one that it writes as four octets. A host of
/// the newer kind stands in brackets, and is read as none.
pub fn read_host(host: &str) -> (r: Option<HostAddress>)
    ensures
        match r {
            Some(HostAddress::V4(o)) => host@ == dotted(o@),
            Some(HostAddress::V6(_)) => false,
            None => forall|o: Seq<u8>| o.len() == 4 ==> host@ != #[trigger] dotted(o),
        },
        (r matches Some(a) && is_internal(a)) == internal_host(host@),
{
    match read_octets(host, 4) {
        Some(v) => {
            let o: [u8; 4] = [v[0], v[1], v[2], v[3]];
            proof {
                assert(o@ =~= v@);
                assert forall|p: Seq<u8>| p.len() == 4 && host@ == #[trigger] dotted(p) implies p
                    == v@ by {
                    dotted_is_unique(p, v@);
                }
            }
            Some(HostAddress::V4(o))
        },
        None => None,
    }
}

/// The number that four octets make.
pub open spec fn number_of(o: Seq<u8>) -> int {
    ((o[0] * 256 + o[1]) * 256 + o[2]) * 256 + o[3]
}

/// Internal are the blocks 127.0.0.0/8, 10.0.0.0/8, 172.16.0.0/12, 192.168.0.0/16 and
/// 169.254.0.0/16, and the address 0.0.0.0: no other four octets.
pub proof fn internal_blocks(o: Seq<u8>)
    requires
        o.len() == 4,
    ensures
        ({
            let n = number_of(o);
            internal_octets(o) <==> 0x7f00_0000 <= n <= 0x7fff_ffff || 0x0a00_0000 <= n
                <= 0x0aff_ffff || 0xac10_0000 <= n <= 0xac1f_ffff || 0xc0a8_0000 <= n
                <= 0xc0a8_ffff || 0xa9fe_0000 <= n <= 0xa9fe_ffff || n == 0
        }),
{
    if number_of(o) == 0 {
        assert(o =~= seq![0u8, 0u8, 0u8, 0u8]);
    }
}

/// Of the newer addresses, the one of all zeros and the one behind it are internal, and no other.
pub proof fn internal_newer_addresses(s: [u16; 8])
    ensures
        is_internal(HostAddress::V6(s)) <==> s@[7] <= 1 && forall|i: int|
            0 <= i < 7 ==> #[trigger] s@[i] == 0,
{
    if s@[7] <= 1 && forall|i: int| 0 <= i < 7 ==> #[trigger] s@[i] == 0 {
        assert(s@[0] == 0 && s@[1] == 0 && s@[2] == 0 && s@[3] == 0);
        assert(s@[4] == 0 && s@[5] == 0 && s@[6] == 0);
        if s@[7] == 0 {
            assert(s@ =~= seq![0u16, 0u16, 0u16, 0u16, 0u16, 0u16, 0u16, 0u16]);
        } else {
            assert(s@ =~= seq![0u16, 0u16, 0u16, 0u16, 0u16, 0u16, 0u16, 1u16]);
        }
    }
}

/// Octets are written in decimal, with one dot between each two of them.
pub proof fn octets_are_joined_by_dots(o: Seq<u8>, p: Seq<u8>)
    requires
        o.len() > 0,
        p.len() > 0,
    ensures
        dotted(o + p) == dotted(o) + seq!['.'] + dotted(p),
        o.len() == 1 ==> dotted(o) == decimal(o[0] as nat),
    decreases o.len(),
{
    let all = o + p;
    if o.len() == 1 {
        assert(all.skip(1) =~= p);
    } else {
        octets_are_joined_by_dots(o.skip(1), p);
        assert(all.skip(1) =~= o.skip(1) + p);
        assert(dotted(all) =~= dotted(o) + seq!['.'] + dotted(p));
    }
}

/// A host is internal just when it is written as four octets and these are internal.
pub proof fn internal_hosts_are_internal_octets(o: Seq<u8>, host: Seq<char>)
    ensures
        o.len() == 4 ==> (internal_host(dotted(o)) <==> internal_octets(o)),
        (forall|p: Seq<u8>| p.len() == 4 ==> host != #[trigger] dotted(p)) ==> !internal_host(host),
{
    if o.len() == 4 && internal_host(dotted(o)) {
        let p = choose|p: Seq<u8>|
            p.len() == 4 && dotted(o) == #[trigger] dotted(p) && internal_octets(p);
        dotted_is_unique(o, p);
    }
}

} // verus!
