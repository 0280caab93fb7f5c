//! IPv4 addresses as plain octet values: canonical dotted-decimal
//! parsing and rendering, and construction from 32-bit words.

use vstd::prelude::*;
use vstd::string::StrSliceExecFns;
use vstd::string::StringExecFns;
use crate::text::{all_digits, dec_val, parse_decimal, split_seq, split_str};

verus! {

/// An IPv4 address, stored as its four octets in network order:
/// `o0` is the leftmost octet of the dotted form.
#[derive(Clone, Copy, PartialEq, Eq, Structural, Debug)]
pub struct Ipv4 {
    pub o0: u8,
    pub o1: u8,
    pub o2: u8,
    pub o3: u8,
}

/// The address whose big-endian 32-bit representation is `v`.
pub open spec fn ipv4_from_be(v: u32) -> Ipv4 {
    Ipv4 {
        o0: (v >> 24) as u8,
        o1: ((v >> 16) & 0xff) as u8,
        o2: ((v >> 8) & 0xff) as u8,
        o3: (v & 0xff) as u8,
    }
}

impl Ipv4 {
    /// Build an address from its four octets, leftmost first.
    pub fn new(o0: u8, o1: u8, o2: u8, o3: u8) -> (r: Ipv4)
        ensures
            r == (Ipv4 { o0, o1, o2, o3 }),
    {
        Ipv4 { o0, o1, o2, o3 }
    }

    /// Interpret a 32-bit value as an address in big-endian byte
    /// order: the most significant byte becomes the first octet.
    pub fn from_be_u32(v: u32) -> (r: Ipv4)
        ensures
            r == ipv4_from_be(v),
    {
        proof {
            assert((v >> 24) <= 0xff && ((v >> 16) & 0xff) <= 0xff && ((v >> 8) & 0xff) <= 0xff
                && (v & 0xff) <= 0xff) by (bit_vector);
        }
        Ipv4 {
            o0: (v >> 24) as u8,
            o1: ((v >> 16) & 0xff) as u8,
            o2: ((v >> 8) & 0xff) as u8,
            o3: (v & 0xff) as u8,
        }
    }
}

/// A canonical decimal octet: non-empty, digits only, no redundant
/// leading zero, value at most 255.
pub open spec fn octet_ok(g: Seq<char>) -> bool {
    g.len() >= 1 && all_digits(g) && (g[0] == '0' ==> g.len() == 1) && dec_val(g) <= 255
}

/// Parse a dotted-decimal IPv4 address: exactly four canonical
/// octets.  Octal-looking groups and out-of-range values are rejected.
pub open spec fn parse_ipv4_seq(s: Seq<char>) -> Option<Ipv4> {
    let gs = split_seq(s, '.');
    if gs.len() == 4 && octet_ok(gs[0]) && octet_ok(gs[1]) && octet_ok(gs[2]) && octet_ok(gs[3]) {
        Some(
            Ipv4 {
                o0: dec_val(gs[0]) as u8,
                o1: dec_val(gs[1]) as u8,
                o2: dec_val(gs[2]) as u8,
                o3: dec_val(gs[3]) as u8,
            },
        )
    } else {
        None
    }
}

fn parse_octet(g: &str) -> (r: Option<u8>)
    ensures
        match r {
            Some(v) => octet_ok(g@) && v as nat == dec_val(g@),
            None => !octet_ok(g@),
        },
{
    let n = g.unicode_len();
    if n == 0 {
        return None;
    }
    if n > 1 && g.get_char(0) == '0' {
        return None;
    }
    match parse_decimal(g) {
        Some(v) => if v <= 255 {
            Some(v as u8)
        } else {
            None
        },
        None => None,
    }
}

/// Parse a dotted-decimal IPv4 address from a string slice.
pub fn parse_ipv4(s: &str) -> (r: Option<Ipv4>)
    ensures
        r == parse_ipv4_seq(s@),
{
    let gs = split_str(s, '.');
    proof {
        assert(forall|k: int| 0 <= k < gs@.len() ==> gs.deep_view()[k] == gs@[k]@);
    }
    if gs.len() != 4 {
        return None;
    }
    let a0 = parse_octet(gs[0].as_str());
    let a1 = parse_octet(gs[1].as_str());
    let a2 = parse_octet(gs[2].as_str());
    let a3 = parse_octet(gs[3].as_str());
    match (a0, a1, a2, a3) {
        (Some(o0), Some(o1), Some(o2), Some(o3)) => Some(Ipv4 { o0, o1, o2, o3 }),
        _ => None,
    }
}

/// Parse an unsigned 8-bit decimal value, allowing one leading `+`
/// and redundant leading zeros, as `str::parse::<u8>` does.
pub open spec fn parse_u8_seq(g: Seq<char>) -> Option<u8> {
    let d = if g.len() >= 1 && g[0] == '+' {
        g.drop_first()
    } else {
        g
    };
    if d.len() >= 1 && all_digits(d) && dec_val(d) <= 255 {
        Some(dec_val(d) as u8)
    } else {
        None
    }
}

/// Parse an unsigned 8-bit decimal value from a string slice.
pub fn parse_u8_str(g: &str) -> (r: Option<u8>)
    ensures
        r == parse_u8_seq(g@),
{
    let n = g.unicode_len();
    let body: &str = if n >= 1 && g.get_char(0) == '+' {
        g.substring_char(1, n)
    } else {
        g
    };
    proof {
        if n >= 1 && g@[0] == '+' {
            assert(body@ =~= g@.drop_first());
        }
    }
    match parse_decimal(body) {
        Some(v) => if v <= 255 {
            Some(v as u8)
        } else {
            None
        },
        None => None,
    }
}

/// Parse an `address/prefix` pair: the part before the first slash
/// must be a dotted-decimal IPv4 address and the part between the
/// first and second slash a decimal prefix value.  A string without a
/// slash has no prefix part and is rejected.
pub open spec fn parse_address_seq(s: Seq<char>) -> Option<(Ipv4, u8)> {
    let gs = split_seq(s, '/');
    if gs.len() < 2 {
        None
    } else {
        match parse_ipv4_seq(gs[0]) {
            Some(a) => match parse_u8_seq(gs[1]) {
                Some(p) => Some((a, p)),
                None => None,
            },
            None => None,
        }
    }
}

/// Parse an `address/prefix` string.
pub fn parse_address(s: &str) -> (r: Option<(Ipv4, u8)>)
    ensures
        r == parse_address_seq(s@),
{
    let gs = split_str(s, '/');
    proof {
        assert(forall|k: int| 0 <= k < gs@.len() ==> gs.deep_view()[k] == gs@[k]@);
    }
    if gs.len() < 2 {
        return None;
    }
    let a = parse_ipv4(gs[0].as_str());
    let p = parse_u8_str(gs[1].as_str());
    match (a, p) {
        (Some(ip), Some(prefix)) => Some((ip, prefix)),
        _ => None,
    }
}

/// One decimal digit as a character.
pub open spec fn digit_char(d: nat) -> char {
    if d == 0 {
        '0'
    } else if d == 1 {
        '1'
    } else if d == 2 {
        '2'
    } else if d == 3 {
        '3'
    } else if d == 4 {
        '4'
    } else if d == 5 {
        '5'
    } else if d == 6 {
        '6'
    } else if d == 7 {
        '7'
    } else if d == 8 {
        '8'
    } else {
        '9'
    }
}

/// Shortest decimal rendering of a number.
pub open spec fn dec_seq(n: nat) -> Seq<char>
    decreases n,
{
    if n < 10 {
        seq![digit_char(n)]
    } else {
        dec_seq(n / 10).push(digit_char(n % 10))
    }
}

fn digit_str(d: u8) -> (r: &'static str)
    requires
        d < 10,
    ensures
        r@ == seq![digit_char(d as nat)],
{
    let r: &'static str = match d {
        0 => "0",
        1 => "1",
        2 => "2",
        3 => "3",
        4 => "4",
        5 => "5",
        6 => "6",
        7 => "7",
        8 => "8",
        _ => "9",
    };
    proof {
        reveal_strlit("0");
        reveal_strlit("1");
        reveal_strlit("2");
        reveal_strlit("3");
        reveal_strlit("4");
        reveal_strlit("5");
        reveal_strlit("6");
        reveal_strlit("7");
        reveal_strlit("8");
        reveal_strlit("9");
        assert(r@ =~= seq![digit_char(d as nat)]);
    }
    r
}

/// Append the shortest decimal rendering of `n` to `s`.
pub fn push_decimal_u8(s: &mut String, n: u8)
    ensures
        final(s)@ == old(s)@ + dec_seq(n as nat),
{
    let ghost pre = s@;
    if n >= 100 {
        s.append(digit_str(n / 100));
    }
    if n >= 10 {
        s.append(digit_str((n / 10) % 10));
    }
    s.append(digit_str(n % 10));
    proof {
        if n < 10 {
            assert(s@ =~= pre + dec_seq(n as nat));
        } else if n < 100 {
            assert((n / 10) % 10 == n as int / 10);
            assert(dec_seq(n as nat) == dec_seq(n as nat / 10).push(digit_char(n as nat % 10)));
            assert(s@ =~= pre + dec_seq(n as nat));
        } else {
            assert(n as int / 10 / 10 == n as int / 100) by (nonlinear_arith);
            assert(dec_seq(n as nat / 10) == dec_seq(n as nat / 100).push(
                digit_char((n as nat / 10) % 10),
            ));
            assert(s@ =~= pre + dec_seq(n as nat));
        }
    }
}

/// Dotted-decimal rendering of an address.
pub open spec fn ipv4_seq(a: Ipv4) -> Seq<char> {
    dec_seq(a.o0 as nat) + seq!['.'] + dec_seq(a.o1 as nat) + seq!['.'] + dec_seq(a.o2 as nat)
        + seq!['.'] + dec_seq(a.o3 as nat)
}

/// Append the dotted-decimal rendering of `a` to `s`.
pub fn push_ipv4(s: &mut String, a: Ipv4)
    ensures
        final(s)@ == old(s)@ + ipv4_seq(a),
{
    let ghost pre = s@;
    push_decimal_u8(s, a.o0);
    s.append(".");
    push_decimal_u8(s, a.o1);
    s.append(".");
    push_decimal_u8(s, a.o2);
    s.append(".");
    push_decimal_u8(s, a.o3);
    proof {
        reveal_strlit(".");
        assert("."@ =~= seq!['.']);
        assert(s@ =~= pre + ipv4_seq(a));
    }
}

} // verus!
