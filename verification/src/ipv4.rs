use vstd::prelude::*;

use crate::strutil::{
    all_dec_digits, dec_str, dec_value, is_dec_digit, join_with, lemma_dec_str_len_up_to_3,
    lemma_dec_str_value, lemma_dec_value_bound_3, lemma_split_join, push_char, split_on, split_str,
    u64_to_string,
};

verus! {

/// An IPv4 address, held as its four octets.
#[derive(Debug, PartialEq, Eq, Structural, Clone, Copy)]
pub struct Ipv4Address {
    pub a: u8,
    pub b: u8,
    pub c: u8,
    pub d: u8,
}

/// A single dotted-quad component: one to three decimal digits, no leading
/// zero (except "0" itself), value at most 255.
pub open spec fn parse_octet(s: Seq<char>) -> Option<u8> {
    if 1 <= s.len() <= 3 && all_dec_digits(s) && (s[0] != '0' || s.len() == 1) && dec_value(s)
        < 256 {
        Some(dec_value(s) as u8)
    } else {
        None
    }
}

/// Standard dotted-quad notation: exactly four octets separated by '.'.
pub open spec fn parse_ipv4(s: Seq<char>) -> Option<Ipv4Address> {
    let parts = split_on(s, '.');
    if parts.len() == 4 && parse_octet(parts[0]) is Some && parse_octet(parts[1]) is Some
        && parse_octet(parts[2]) is Some && parse_octet(parts[3]) is Some {
        Some(
            Ipv4Address {
                a: parse_octet(parts[0])->0,
                b: parse_octet(parts[1])->0,
                c: parse_octet(parts[2])->0,
                d: parse_octet(parts[3])->0,
            },
        )
    } else {
        None
    }
}

/// The canonical dotted-quad rendering.
pub open spec fn render_ipv4(v: Ipv4Address) -> Seq<char> {
    join_with(
        seq![dec_str(v.a as nat), dec_str(v.b as nat), dec_str(v.c as nat), dec_str(v.d as nat)],
        '.',
    )
}

/// Rendering an address and parsing the result gives the address back.
pub proof fn lemma_ipv4_round_trip(v: Ipv4Address)
    ensures
        parse_ipv4(render_ipv4(v)) == Some(v),
{
    let parts = seq![
        dec_str(v.a as nat),
        dec_str(v.b as nat),
        dec_str(v.c as nat),
        dec_str(v.d as nat),
    ];
    lemma_octet_str_ok(v.a);
    lemma_octet_str_ok(v.b);
    lemma_octet_str_ok(v.c);
    lemma_octet_str_ok(v.d);
    lemma_split_join(parts, '.');
}

/// The decimal rendering of an octet is itself a valid octet component and
/// never contains a dot.
proof fn lemma_octet_str_ok(n: u8)
    ensures
        parse_octet(dec_str(n as nat)) == Some(n),
        !dec_str(n as nat).contains('.'),
{
    lemma_dec_str_value(n as nat);
    lemma_dec_str_len_up_to_3(n as nat);
    let s = dec_str(n as nat);
    if s.contains('.') {
        let j = choose|j: int| 0 <= j < s.len() && s[j] == '.';
        assert(is_dec_digit(s[j]));
    }
}

impl Ipv4Address {
    /// Parses standard dotted-quad notation.
    pub fn parse(s: &str) -> (r: Option<Ipv4Address>)
        ensures
            r == parse_ipv4(s@),
    {
        let parts = split_str(s, '.');
        if parts.len() != 4 {
            return None;
        }
        let a = parse_octet_exec(parts[0].as_str());
        let b = parse_octet_exec(parts[1].as_str());
        let c = parse_octet_exec(parts[2].as_str());
        let d = parse_octet_exec(parts[3].as_str());
        match (a, b, c, d) {
            (Some(a), Some(b), Some(c), Some(d)) => Some(Ipv4Address { a, b, c, d }),
            _ => None,
        }
    }

    /// Renders to dotted-quad text.
    pub fn render(&self) -> (r: String)
        ensures
            r@ == render_ipv4(*self),
    {
        let mut s = u64_to_string(self.a as u64);
        push_char(&mut s, '.');
        let sb = u64_to_string(self.b as u64);
        s.append(sb.as_str());
        push_char(&mut s, '.');
        let sc = u64_to_string(self.c as u64);
        s.append(sc.as_str());
        push_char(&mut s, '.');
        let sd = u64_to_string(self.d as u64);
        s.append(sd.as_str());
        proof {
            let parts = seq![
                dec_str(self.a as nat),
                dec_str(self.b as nat),
                dec_str(self.c as nat),
                dec_str(self.d as nat),
            ];
            assert(parts.drop_first() =~= seq![
                dec_str(self.b as nat),
                dec_str(self.c as nat),
                dec_str(self.d as nat),
            ]);
            assert(parts.drop_first().drop_first() =~= seq![
                dec_str(self.c as nat),
                dec_str(self.d as nat),
            ]);
            assert(parts.drop_first().drop_first().drop_first() =~= seq![dec_str(self.d as nat)]);
            let p1 = parts.drop_first();
            let p2 = p1.drop_first();
            let p3 = p2.drop_first();
            assert(join_with(p3, '.') == dec_str(self.d as nat));
            assert(join_with(p2, '.') == p2[0] + seq!['.'] + join_with(p3, '.'));
            assert(join_with(p1, '.') == p1[0] + seq!['.'] + join_with(p2, '.'));
            assert(join_with(parts, '.') == parts[0] + seq!['.'] + join_with(p1, '.'));
            assert(s@ =~= render_ipv4(*self));
        }
        s
    }
}

/// Parses one dotted-quad component.
fn parse_octet_exec(s: &str) -> (r: Option<u8>)
    ensures
        r == parse_octet(s@),
{
    let n = s.unicode_len();
    if n < 1 || n > 3 {
        return None;
    }
    let mut val: u16 = 0;
    for i in 0..n
        invariant
            n == s@.len(),
            1 <= n <= 3,
            all_dec_digits(s@.take(i as int)),
            val == dec_value(s@.take(i as int)),
            0 <= val < 1000,
    {
        let ch = s.get_char(i);
        let u = ch as u32;
        if u < 48 || u > 57 {
            proof {
                assert(!is_dec_digit(s@[i as int]));
            }
            return None;
        }
        proof {
            assert(s@.take(i + 1).drop_last() =~= s@.take(i as int));
            assert(all_dec_digits(s@.take(i + 1)));
            lemma_dec_value_bound_3(s@.take(i + 1));
        }
        val = val * 10 + (u - 48) as u16;
    }
    proof {
        assert(s@.take(n as int) =~= s@);
    }
    if s.get_char(0) == '0' && n != 1 {
        return None;
    }
    if val < 256 {
        Some(val as u8)
    } else {
        None
    }
}

} // verus!
