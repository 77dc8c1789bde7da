use vstd::prelude::*;

use crate::ipv4::{parse_ipv4, render_ipv4, Ipv4Address};
use crate::strutil::{
    all_hex_digits, dec_str, hex_str, hex_value, is_hex_digit, join_with,
    lemma_hex_str_len_up_to_4, lemma_hex_str_value, lemma_hex_value_bound_4, lemma_join_push,
    lemma_split_join, push_char, split_on, split_str, u16_to_hex_string,
};

verus! {

/// An IPv6 address, held as its eight 16-bit segments.
#[derive(Debug, PartialEq, Eq, Structural, Clone, Copy)]
pub struct Ipv6Address {
    pub s0: u16,
    pub s1: u16,
    pub s2: u16,
    pub s3: u16,
    pub s4: u16,
    pub s5: u16,
    pub s6: u16,
    pub s7: u16,
}

impl Ipv6Address {
    pub open spec fn segments(&self) -> Seq<u16> {
        seq![self.s0, self.s1, self.s2, self.s3, self.s4, self.s5, self.s6, self.s7]
    }

    pub fn seg(&self, i: usize) -> (r: u16)
        requires
            i < 8,
        ensures
            r == self.segments()[i as int],
    {
        match i {
            0 => self.s0,
            1 => self.s1,
            2 => self.s2,
            3 => self.s3,
            4 => self.s4,
            5 => self.s5,
            6 => self.s6,
            _ => self.s7,
        }
    }
}

pub open spec fn from_segments(s: Seq<u16>) -> Ipv6Address
    recommends
        s.len() == 8,
{
    Ipv6Address {
        s0: s[0],
        s1: s[1],
        s2: s[2],
        s3: s[3],
        s4: s[4],
        s5: s[5],
        s6: s[6],
        s7: s[7],
    }
}

// ---------------------------------------------------------------------------
// Parsing.
// ---------------------------------------------------------------------------

/// One colon-separated group: one to four hex digits.
pub open spec fn parse_hex_group(s: Seq<char>) -> Option<u16> {
    if 1 <= s.len() <= 4 && all_hex_digits(s) {
        Some(hex_value(s) as u16)
    } else {
        None
    }
}

/// Parses a sequence of groups that must all be hex groups.
pub open spec fn parse_groups(parts: Seq<Seq<char>>) -> Option<Seq<u16>>
    decreases parts.len(),
{
    if parts.len() == 0 {
        Some(Seq::empty())
    } else {
        match parse_groups(parts.drop_last()) {
            Some(gs) => match parse_hex_group(parts.last()) {
                Some(g) => Some(gs.push(g)),
                None => None,
            },
            None => None,
        }
    }
}

/// The two segments contributed by an embedded dotted-quad tail.
pub open spec fn v4_hi(v: Ipv4Address) -> u16 {
    (v.a as int * 256 + v.b as int) as u16
}

pub open spec fn v4_lo(v: Ipv4Address) -> u16 {
    (v.c as int * 256 + v.d as int) as u16
}

/// Parses a sequence of groups where the final group may instead be an
/// embedded dotted-quad IPv4 address (contributing two segments).
pub open spec fn parse_groups_v4(parts: Seq<Seq<char>>) -> Option<Seq<u16>> {
    if parts.len() == 0 {
        Some(Seq::empty())
    } else {
        match parse_groups(parts.drop_last()) {
            Some(gs) => match parse_hex_group(parts.last()) {
                Some(g) => Some(gs.push(g)),
                None => match parse_ipv4(parts.last()) {
                    Some(v) => Some(gs.push(v4_hi(v)).push(v4_lo(v))),
                    None => None,
                },
            },
            None => None,
        }
    }
}

/// Index of the first "::" in `s` at or after `i`, or `s.len()` if there is
/// none.
pub open spec fn index_of_2colon_from(s: Seq<char>, i: int) -> int
    decreases s.len() - i,
{
    if i < 0 || i + 1 >= s.len() {
        s.len() as int
    } else if s[i] == ':' && s[i + 1] == ':' {
        i
    } else {
        index_of_2colon_from(s, i + 1)
    }
}

pub proof fn lemma_index_of_2colon_from(s: Seq<char>, i: int)
    requires
        0 <= i <= s.len(),
    ensures
        i <= index_of_2colon_from(s, i) <= s.len(),
        index_of_2colon_from(s, i) < s.len() ==> index_of_2colon_from(s, i) + 1 < s.len()
            && s[index_of_2colon_from(s, i)] == ':' && s[index_of_2colon_from(s, i) + 1] == ':',
        forall|j: int|
            i <= j < index_of_2colon_from(s, i) && j + 1 < s.len() ==> !((#[trigger] s[j]) == ':'
                && s[j + 1] == ':'),
    decreases s.len() - i,
{
    if i + 1 < s.len() && !(s[i] == ':' && s[i + 1] == ':') {
        lemma_index_of_2colon_from(s, i + 1);
    }
}

pub proof fn lemma_index_of_2colon_unique(s: Seq<char>, r: int)
    requires
        0 <= r <= s.len(),
        r < s.len() ==> r + 1 < s.len() && s[r] == ':' && s[r + 1] == ':',
        forall|j: int|
            0 <= j < r && j + 1 < s.len() ==> !((#[trigger] s[j]) == ':' && s[j + 1] == ':'),
    ensures
        index_of_2colon_from(s, 0) == r,
{
    lemma_index_of_2colon_from(s, 0);
    let q = index_of_2colon_from(s, 0);
    if q < r {
        assert(!(s[q] == ':' && s[q + 1] == ':'));
    } else if r < q {
        assert(!(s[r] == ':' && s[r + 1] == ':'));
    }
}

/// All-zero segments.
pub open spec fn zero_segments(n: nat) -> Seq<u16> {
    Seq::new(n, |i: int| 0u16)
}

/// Standard IPv6 textual notation: eight hex groups, or a "::" standing for
/// one or more zero groups, with an optional embedded dotted-quad tail.
pub open spec fn parse_ipv6(s: Seq<char>) -> Option<Ipv6Address> {
    let i = index_of_2colon_from(s, 0);
    if i == s.len() {
        match parse_groups_v4(split_on(s, ':')) {
            Some(gs) => if gs.len() == 8 {
                Some(from_segments(gs))
            } else {
                None
            },
            None => None,
        }
    } else {
        let left = s.take(i);
        let right = s.skip(i + 2);
        let lgs = if left.len() == 0 {
            Some(Seq::<u16>::empty())
        } else {
            parse_groups(split_on(left, ':'))
        };
        let rgs = if right.len() == 0 {
            Some(Seq::<u16>::empty())
        } else {
            parse_groups_v4(split_on(right, ':'))
        };
        match lgs {
            Some(l) => match rgs {
                Some(r) => if l.len() + r.len() <= 7 {
                    Some(from_segments(l + zero_segments((8 - l.len() - r.len()) as nat) + r))
                } else {
                    None
                },
                None => None,
            },
            None => None,
        }
    }
}

// ---------------------------------------------------------------------------
// Rendering.
// ---------------------------------------------------------------------------

/// Length of the run of zero segments starting at `i`.
pub open spec fn run_len(s: Seq<u16>, i: int) -> int
    decreases s.len() - i,
{
    if i < 0 || i >= s.len() || s[i] != 0 {
        0
    } else {
        1 + run_len(s, i + 1)
    }
}

/// Start of the leftmost longest run of zero segments in `s` at or after
/// `i` (`s.len()` when `i` is past the end).
pub open spec fn best_run_start(s: Seq<u16>, i: int) -> int
    decreases s.len() - i,
{
    if i >= s.len() {
        i
    } else {
        let b = best_run_start(s, i + 1);
        if run_len(s, i) >= run_len(s, b) {
            i
        } else {
            b
        }
    }
}

pub proof fn lemma_run_len_props(s: Seq<u16>, i: int)
    requires
        0 <= i <= s.len(),
    ensures
        0 <= run_len(s, i),
        i + run_len(s, i) <= s.len(),
        forall|k: int| i <= k < i + run_len(s, i) ==> s[k] == 0,
    decreases s.len() - i,
{
    if i < s.len() && s[i] == 0 {
        lemma_run_len_props(s, i + 1);
    }
}

pub proof fn lemma_best_run_start_bounds(s: Seq<u16>, i: int)
    requires
        0 <= i <= s.len(),
    ensures
        i <= best_run_start(s, i) <= s.len(),
    decreases s.len() - i,
{
    if i < s.len() {
        lemma_best_run_start_bounds(s, i + 1);
    }
}

/// The lowercase hex renderings of the segments.
pub open spec fn hex_groups(s: Seq<u16>) -> Seq<Seq<char>> {
    Seq::new(s.len(), |i: int| hex_str(s[i] as nat))
}

/// An IPv4-mapped address: five zero segments, then 0xffff, then the
/// embedded IPv4 address.
pub open spec fn is_v4_mapped(v: Ipv6Address) -> bool {
    v.s0 == 0 && v.s1 == 0 && v.s2 == 0 && v.s3 == 0 && v.s4 == 0 && v.s5 == 0xffff
}

/// The IPv4 address embedded in the last two segments.
pub open spec fn mapped_quad(v: Ipv6Address) -> Ipv4Address {
    Ipv4Address {
        a: (v.s6 / 256) as u8,
        b: (v.s6 % 256) as u8,
        c: (v.s7 / 256) as u8,
        d: (v.s7 % 256) as u8,
    }
}

/// Canonical textual form: an IPv4-mapped address is written with its
/// dotted-quad tail; otherwise lowercase hex groups separated by ':', with
/// the leftmost longest run of two or more zero groups compressed to "::".
pub open spec fn render_ipv6(v: Ipv6Address) -> Seq<char> {
    if is_v4_mapped(v) {
        seq![':', ':', 'f', 'f', 'f', 'f', ':'] + render_ipv4(mapped_quad(v))
    } else {
        let segs = v.segments();
        let bs = best_run_start(segs, 0);
        let bl = run_len(segs, bs);
        if bl >= 2 {
            join_with(hex_groups(segs.take(bs)), ':') + seq![':', ':'] + join_with(
                hex_groups(segs.skip(bs + bl)),
                ':',
            )
        } else {
            join_with(hex_groups(segs), ':')
        }
    }
}

// ---------------------------------------------------------------------------
// Round trip.
// ---------------------------------------------------------------------------

/// The hex rendering of a segment is a valid hex group, and contains neither
/// ':' nor '.'.
proof fn lemma_hex_group_str_ok(n: u16)
    ensures
        parse_hex_group(hex_str(n as nat)) == Some(n),
        !hex_str(n as nat).contains(':'),
        !hex_str(n as nat).contains('.'),
        hex_str(n as nat).len() >= 1,
{
    lemma_hex_str_value(n as nat);
    lemma_hex_str_len_up_to_4(n as nat);
    let s = hex_str(n as nat);
    if s.contains(':') {
        let j = choose|j: int| 0 <= j < s.len() && s[j] == ':';
        assert(is_hex_digit(s[j]));
    }
    if s.contains('.') {
        let j = choose|j: int| 0 <= j < s.len() && s[j] == '.';
        assert(is_hex_digit(s[j]));
    }
}

proof fn lemma_parse_groups_inverse(segs: Seq<u16>)
    ensures
        parse_groups(hex_groups(segs)) == Some(segs),
    decreases segs.len(),
{
    if segs.len() == 0 {
        assert(hex_groups(segs) =~= Seq::<Seq<char>>::empty());
        assert(parse_groups(hex_groups(segs)) == Some(Seq::<u16>::empty()));
        assert(Seq::<u16>::empty() =~= segs);
    } else {
        let parts = hex_groups(segs);
        assert(parts.drop_last() =~= hex_groups(segs.drop_last()));
        lemma_parse_groups_inverse(segs.drop_last());
        lemma_hex_group_str_ok(segs.last());
        assert(parts.last() == hex_str(segs.last() as nat));
        assert(segs.drop_last().push(segs.last()) =~= segs);
    }
}

proof fn lemma_parse_groups_v4_inverse(segs: Seq<u16>)
    requires
        segs.len() >= 1,
    ensures
        parse_groups_v4(hex_groups(segs)) == Some(segs),
{
    let parts = hex_groups(segs);
    assert(parts.drop_last() =~= hex_groups(segs.drop_last()));
    lemma_parse_groups_inverse(segs.drop_last());
    lemma_hex_group_str_ok(segs.last());
    assert(parts.last() == hex_str(segs.last() as nat));
    assert(segs.drop_last().push(segs.last()) =~= segs);
}

/// A join of nonempty colon-free parts never contains "::", and neither
/// starts nor ends with ':'.
proof fn lemma_join_no_2colon(parts: Seq<Seq<char>>, c: char)
    requires
        parts.len() >= 1,
        forall|k: int| 0 <= k < parts.len() ==> (#[trigger] parts[k]).len() >= 1,
        forall|k: int| 0 <= k < parts.len() ==> !(#[trigger] parts[k]).contains(c),
    ensures
        join_with(parts, c).len() >= 1,
        join_with(parts, c)[0] != c,
        join_with(parts, c).last() != c,
        forall|j: int|
            0 <= j < join_with(parts, c).len() - 1 ==> !((#[trigger] join_with(parts, c)[j]) == c
                && join_with(parts, c)[j + 1] == c),
    decreases parts.len(),
{
    let s = join_with(parts, c);
    let p0 = parts[0];
    assert(!p0.contains(c));
    assert(forall|j: int| 0 <= j < p0.len() ==> p0[j] != c) by {
        assert forall|j: int| 0 <= j < p0.len() implies p0[j] != c by {
            if p0[j] == c {
                assert(p0.contains(c));
            }
        }
    }
    if parts.len() == 1 {
        assert(s == p0);
    } else {
        let rest = parts.drop_first();
        lemma_join_no_2colon(rest, c);
        let rj = join_with(rest, c);
        assert(s == p0 + seq![c] + rj);
        assert(s.len() == p0.len() + 1 + rj.len());
        assert(s[0] == p0[0]);
        assert(s.last() == rj.last());
        assert forall|j: int| 0 <= j < s.len() - 1 implies !((#[trigger] s[j]) == c && s[j + 1]
            == c) by {
            if j + 1 < p0.len() {
                assert(s[j] == p0[j] && s[j + 1] == p0[j + 1]);
            } else if j + 1 == p0.len() {
                assert(s[j] == p0[j]);
            } else if j == p0.len() {
                assert(s[j + 1] == rj[0]);
            } else {
                assert(s[j] == rj[j - p0.len() - 1] && s[j + 1] == rj[j - p0.len()]);
            }
        }
    }
}

/// In the rendering of an IPv4-mapped address the "::" sits in front, and
/// what follows it parses back to the mapped segments.
proof fn lemma_v4_mapped_round_trip(v: Ipv6Address)
    requires
        is_v4_mapped(v),
    ensures
        parse_ipv6(render_ipv6(v)) == Some(v),
{
    let quad = mapped_quad(v);
    let qs = render_ipv4(quad);
    let s = render_ipv6(v);
    crate::ipv4::lemma_ipv4_round_trip(quad);
    lemma_quad_str_shape(quad);
    assert(s[0] == ':' && s[1] == ':');
    lemma_index_of_2colon_unique(s, 0);
    let right = s.skip(2);
    let parts = seq![seq!['f', 'f', 'f', 'f'], qs];
    assert(parts.drop_first() =~= seq![qs]);
    assert(join_with(seq![qs], ':') == qs);
    assert(join_with(parts, ':') == seq!['f', 'f', 'f', 'f'] + seq![':'] + qs);
    assert(right =~= join_with(parts, ':'));
    lemma_split_join(parts, ':');
    assert(parts.drop_last() =~= seq![seq!['f', 'f', 'f', 'f']]);
    assert(seq![seq!['f', 'f', 'f', 'f']].drop_last() =~= Seq::<Seq<char>>::empty());
    assert(parse_hex_group(seq!['f', 'f', 'f', 'f']) == Some(0xffffu16)) by {
        let g = seq!['f', 'f', 'f', 'f'];
        assert(all_hex_digits(g));
        assert(g.drop_last() =~= seq!['f', 'f', 'f']);
        assert(seq!['f', 'f', 'f'].drop_last() =~= seq!['f', 'f']);
        assert(seq!['f', 'f'].drop_last() =~= seq!['f']);
        assert(seq!['f'].drop_last() =~= Seq::<char>::empty());
        assert(hex_value(Seq::<char>::empty()) == 0);
        assert(hex_value(seq!['f']) == 15);
        assert(hex_value(seq!['f', 'f']) == 255);
        assert(hex_value(seq!['f', 'f', 'f']) == 4095);
        assert(hex_value(g) == 0xffff);
    }
    assert(!seq!['f', 'f', 'f', 'f'].contains(':')) by {
        let g = seq!['f', 'f', 'f', 'f'];
        if g.contains(':') {
            let j = choose|j: int| 0 <= j < g.len() && g[j] == ':';
            assert(g[j] == 'f');
        }
    }
    assert(parse_groups(Seq::<Seq<char>>::empty()) == Some(Seq::<u16>::empty()));
    assert(Seq::<u16>::empty().push(0xffffu16) =~= seq![0xffffu16]);
    assert(parse_groups(parts.drop_last()) == Some(seq![0xffffu16]));
    assert(parse_groups_v4(parts) == Some(seq![0xffffu16, v4_hi(quad), v4_lo(quad)]));
    assert(v4_hi(quad) == v.s6 && v4_lo(quad) == v.s7);
    assert(s.take(0) =~= Seq::<char>::empty());
    let gs = seq![0xffffu16, v4_hi(quad), v4_lo(quad)];
    assert(Seq::<u16>::empty() + zero_segments(5) + gs =~= v.segments());
    assert(from_segments(v.segments()) == v);
}

/// The dotted-quad rendering holds only digits and dots: never a colon, and
/// never a hex group (the character after its first component is a dot).
proof fn lemma_quad_str_shape(quad: Ipv4Address)
    ensures
        render_ipv4(quad).len() >= 1,
        !render_ipv4(quad).contains(':'),
        parse_hex_group(render_ipv4(quad)) is None,
{
    let qs = render_ipv4(quad);
    let pa = dec_str(quad.a as nat);
    let pb = dec_str(quad.b as nat);
    let pc = dec_str(quad.c as nat);
    let pd = dec_str(quad.d as nat);
    crate::strutil::lemma_dec_str_value(quad.a as nat);
    crate::strutil::lemma_dec_str_value(quad.b as nat);
    crate::strutil::lemma_dec_str_value(quad.c as nat);
    crate::strutil::lemma_dec_str_value(quad.d as nat);
    let parts = seq![pa, pb, pc, pd];
    let p1 = parts.drop_first();
    let p2 = p1.drop_first();
    let p3 = p2.drop_first();
    assert(p1 =~= seq![pb, pc, pd]);
    assert(p2 =~= seq![pc, pd]);
    assert(p3 =~= seq![pd]);
    assert(join_with(p3, '.') == pd);
    assert(join_with(p2, '.') == pc + seq!['.'] + pd);
    assert(join_with(p1, '.') == pb + seq!['.'] + (pc + seq!['.'] + pd));
    assert(qs == pa + seq!['.'] + (pb + seq!['.'] + (pc + seq!['.'] + pd)));
    let la = pa.len() as int;
    let lb = pb.len() as int;
    let lc = pc.len() as int;
    assert forall|j: int| 0 <= j < qs.len() implies (crate::strutil::is_dec_digit(
        #[trigger] qs[j],
    ) || qs[j] == '.') by {
        if j < la {
            assert(qs[j] == pa[j]);
        } else if j == la {
            assert(qs[j] == '.');
        } else if j < la + 1 + lb {
            assert(qs[j] == pb[j - la - 1]);
        } else if j == la + 1 + lb {
            assert(qs[j] == '.');
        } else if j < la + 1 + lb + 1 + lc {
            assert(qs[j] == pc[j - la - 1 - lb - 1]);
        } else if j == la + 1 + lb + 1 + lc {
            assert(qs[j] == '.');
        } else {
            assert(qs[j] == pd[j - la - 1 - lb - 1 - lc - 1]);
        }
    }
    if qs.contains(':') {
        let j = choose|j: int| 0 <= j < qs.len() && qs[j] == ':';
        assert(crate::strutil::is_dec_digit(qs[j]) || qs[j] == '.');
    }
    // The dot after the first component rules a hex group out.
    assert(qs[la] == '.');
    assert(!crate::strutil::is_hex_digit('.'));
    if parse_hex_group(qs) is Some {
        assert(is_hex_digit(qs[la]));
    }
}

/// Rendering an address and parsing the result gives the address back.
#[verifier::rlimit(60)]
pub proof fn lemma_ipv6_round_trip(v: Ipv6Address)
    ensures
        parse_ipv6(render_ipv6(v)) == Some(v),
{
    if is_v4_mapped(v) {
        lemma_v4_mapped_round_trip(v);
        return ;
    }
    let segs = v.segments();
    assert(segs.len() == 8);
    lemma_best_run_start_bounds(segs, 0);
    let bs = best_run_start(segs, 0);
    lemma_run_len_props(segs, bs);
    let bl = run_len(segs, bs);
    assert forall|k: int| 0 <= k < 8 implies (#[trigger] hex_groups(segs)[k]).len() >= 1
        && !hex_groups(segs)[k].contains(':') && !hex_groups(segs)[k].contains('.') by {
        lemma_hex_group_str_ok(segs[k]);
    }
    if bl >= 2 {
        let lsegs = segs.take(bs);
        let rsegs = segs.skip(bs + bl);
        let lparts = hex_groups(lsegs);
        let rparts = hex_groups(rsegs);
        assert forall|k: int| 0 <= k < lparts.len() implies (#[trigger] lparts[k]).len() >= 1
            && !lparts[k].contains(':') by {
            assert(lparts[k] == hex_groups(segs)[k]);
        }
        assert forall|k: int| 0 <= k < rparts.len() implies (#[trigger] rparts[k]).len() >= 1
            && !rparts[k].contains(':') && !rparts[k].contains('.') by {
            assert(rparts[k] == hex_groups(segs)[k + bs + bl]);
        }
        let lj = join_with(lparts, ':');
        let rj = join_with(rparts, ':');
        let s = render_ipv6(v);
        assert(s == lj + seq![':', ':'] + rj);
        if bs > 0 {
            lemma_join_no_2colon(lparts, ':');
        } else {
            assert(lparts =~= Seq::<Seq<char>>::empty());
            assert(lj =~= Seq::<char>::empty());
        }
        if bs + bl < 8 {
            lemma_join_no_2colon(rparts, ':');
        } else {
            assert(rparts =~= Seq::<Seq<char>>::empty());
            assert(rj =~= Seq::<char>::empty());
        }
        // The first "::" of the rendering sits right after the left join.
        assert(s[lj.len() as int] == ':' && s[lj.len() as int + 1] == ':');
        assert forall|j: int|
            0 <= j < lj.len() && j + 1 < s.len() implies !((#[trigger] s[j]) == ':' && s[j + 1]
                == ':') by {
            if j + 1 < lj.len() {
                assert(s[j] == lj[j] && s[j + 1] == lj[j + 1]);
            } else {
                assert(s[j] == lj.last());
            }
        }
        lemma_index_of_2colon_unique(s, lj.len() as int);
        assert(s.take(lj.len() as int) =~= lj);
        assert(s.skip(lj.len() as int + 2) =~= rj);
        if bs > 0 {
            lemma_split_join(lparts, ':');
            lemma_parse_groups_inverse(lsegs);
        }
        if bs + bl < 8 {
            lemma_split_join(rparts, ':');
            lemma_parse_groups_v4_inverse(rsegs);
        }
        assert(lsegs.len() + rsegs.len() == 8 - bl <= 7);
        assert(lsegs + zero_segments((8 - lsegs.len() - rsegs.len()) as nat) + rsegs =~= segs)
            by {
            assert(forall|k: int| bs <= k < bs + bl ==> segs[k] == 0);
        }
        assert(from_segments(segs) == v);
    } else {
        let parts = hex_groups(segs);
        let s = render_ipv6(v);
        assert(s == join_with(parts, ':'));
        lemma_join_no_2colon(parts, ':');
        assert forall|j: int|
            0 <= j < s.len() && j + 1 < s.len() implies !((#[trigger] s[j]) == ':' && s[j + 1]
                == ':') by {}
        lemma_index_of_2colon_unique(s, s.len() as int);
        lemma_split_join(parts, ':');
        lemma_parse_groups_v4_inverse(segs);
        assert(from_segments(segs) == v);
    }
}

// ---------------------------------------------------------------------------
// Executable parsing and rendering.
// ---------------------------------------------------------------------------

/// Parses one hex group.
fn parse_hex_group_exec(s: &str) -> (r: Option<u16>)
    ensures
        r == parse_hex_group(s@),
{
    let n = s.unicode_len();
    if n < 1 || n > 4 {
        return None;
    }
    let mut val: u32 = 0;
    for i in 0..n
        invariant
            n == s@.len(),
            1 <= n <= 4,
            all_hex_digits(s@.take(i as int)),
            val == hex_value(s@.take(i as int)),
            0 <= val < 0x10000,
    {
        let ch = s.get_char(i);
        let u = ch as u32;
        let d: u32 = if u >= 48 && u <= 57 {
            u - 48
        } else if u >= 97 && u <= 102 {
            u - 97 + 10
        } else if u >= 65 && u <= 70 {
            u - 65 + 10
        } else {
            proof {
                assert(!is_hex_digit(s@[i as int]));
            }
            return None;
        };
        proof {
            assert(is_hex_digit(s@[i as int]));
            assert(d == crate::strutil::hex_val(s@[i as int]));
            assert(s@.take(i + 1).drop_last() =~= s@.take(i as int));
            assert(all_hex_digits(s@.take(i + 1)));
            lemma_hex_value_bound_4(s@.take(i + 1));
        }
        val = val * 16 + d;
    }
    proof {
        assert(s@.take(n as int) =~= s@);
    }
    Some(val as u16)
}

/// Parses a run of groups, the last of which may be an embedded dotted quad
/// when `allow_v4` is set.
fn parse_groups_exec(parts: &Vec<String>, allow_v4: bool) -> (r: Option<Vec<u16>>)
    requires
        parts@.len() >= 1,
    ensures
        ({
            let pseq = Seq::new(parts@.len(), |k: int| parts@[k]@);
            ({
                let expected = if allow_v4 {
                    parse_groups_v4(pseq)
                } else {
                    parse_groups(pseq)
                };
                match r {
                    Some(gs) => expected == Some(gs@),
                    None => expected is None,
                }
            })
        }),
{
    let ghost pseq = Seq::new(parts@.len(), |k: int| parts@[k]@);
    let n = parts.len();
    let mut out: Vec<u16> = Vec::new();
    for i in 0..n - 1
        invariant
            n == parts@.len(),
            n >= 1,
            pseq == Seq::new(parts@.len(), |k: int| parts@[k]@),
            parse_groups(pseq.take(i as int)) == Some(out@),
        decreases n - 1 - i,
    {
        proof {
            assert(pseq.take(i + 1).drop_last() =~= pseq.take(i as int));
            assert(pseq.take(i + 1).last() == parts@[i as int]@);
        }
        match parse_hex_group_exec(parts[i].as_str()) {
            Some(g) => {
                out.push(g);
            },
            None => {
                proof {
                    lemma_parse_groups_prefix_none(pseq, i + 1);
                }
                return None;
            },
        }
    }
    proof {
        assert(pseq.drop_last() =~= pseq.take(n - 1));
        assert(pseq.last() == parts@[n - 1]@);
    }
    let last = &parts[n - 1];
    match parse_hex_group_exec(last.as_str()) {
        Some(g) => {
            out.push(g);
            return Some(out);
        },
        None => {
            if !allow_v4 {
                return None;
            }
            match Ipv4Address::parse(last.as_str()) {
                Some(v) => {
                    out.push((v.a as u16) * 256 + (v.b as u16));
                    out.push((v.c as u16) * 256 + (v.d as u16));
                    return Some(out);
                },
                None => {
                    return None;
                },
            }
        },
    }
}

/// A failed hex group anywhere before the last position makes the whole
/// parse fail, whether or not a dotted-quad tail is allowed.
proof fn lemma_parse_groups_prefix_none(pseq: Seq<Seq<char>>, i: int)
    requires
        0 <= i <= pseq.len(),
        parse_groups(pseq.take(i)) is None,
    ensures
        parse_groups(pseq) is None,
        i < pseq.len() ==> parse_groups_v4(pseq) is None,
    decreases pseq.len() - i,
{
    assert(pseq.take(pseq.len() as int) =~= pseq);
    if i < pseq.len() {
        assert(pseq.take(i + 1).drop_last() =~= pseq.take(i));
        lemma_parse_groups_prefix_none(pseq, i + 1);
        let init = pseq.drop_last();
        assert(init =~= pseq.take(pseq.len() - 1));
        assert(init.take(i) =~= pseq.take(i));
        lemma_parse_groups_prefix_none(init, i);
    }
}

impl Ipv6Address {
    /// Parses standard IPv6 textual notation, including "::" compression and
    /// an embedded dotted-quad tail.
    pub fn parse(s: &str) -> (r: Option<Ipv6Address>)
        ensures
            r == parse_ipv6(s@),
    {
        let n = s.unicode_len();
        let i2 = index_of_2colon_exec(s);
        if i2 == n {
            let parts = split_str(s, ':');
            proof {
                crate::strutil::lemma_split_on_basic(s@, ':');
                assert(Seq::new(parts@.len(), |k: int| parts@[k]@) =~= split_on(s@, ':'));
            }
            match parse_groups_exec(&parts, true) {
                Some(gs) => {
                    if gs.len() == 8 {
                        Some(from_vec8(&gs))
                    } else {
                        None
                    }
                },
                None => None,
            }
        } else {
            proof {
                lemma_index_of_2colon_from(s@, 0);
            }
            let left = s.substring_char(0, i2);
            let right = s.substring_char(i2 + 2, n);
            proof {
                assert(left@ =~= s@.take(i2 as int));
                assert(right@ =~= s@.skip(i2 as int + 2));
            }
            let lgs: Vec<u16> = if left.unicode_len() == 0 {
                Vec::new()
            } else {
                let lparts = split_str(left, ':');
                proof {
                    crate::strutil::lemma_split_on_basic(left@, ':');
                    assert(Seq::new(lparts@.len(), |k: int| lparts@[k]@) =~= split_on(left@, ':'));
                }
                match parse_groups_exec(&lparts, false) {
                    Some(gs) => gs,
                    None => {
                        return None;
                    },
                }
            };
            let rgs: Vec<u16> = if right.unicode_len() == 0 {
                Vec::new()
            } else {
                let rparts = split_str(right, ':');
                proof {
                    crate::strutil::lemma_split_on_basic(right@, ':');
                    assert(Seq::new(rparts@.len(), |k: int| rparts@[k]@) =~= split_on(right@, ':'));
                }
                match parse_groups_exec(&rparts, true) {
                    Some(gs) => gs,
                    None => {
                        return None;
                    },
                }
            };
            if lgs.len() <= 7 && rgs.len() <= 7 - lgs.len() {
                let mut all: Vec<u16> = Vec::new();
                let mut k: usize = 0;
                while k < lgs.len()
                    invariant
                        k <= lgs@.len(),
                        all@ =~= lgs@.take(k as int),
                    decreases lgs@.len() - k,
                {
                    all.push(lgs[k]);
                    k = k + 1;
                }
                let pad = 8 - lgs.len() - rgs.len();
                let mut z: usize = 0;
                while z < pad
                    invariant
                        z <= pad,
                        pad == 8 - lgs@.len() - rgs@.len(),
                        all@ =~= lgs@ + zero_segments(z as nat),
                    decreases pad - z,
                {
                    all.push(0);
                    proof {
                        assert(lgs@ + zero_segments((z + 1) as nat) =~= (lgs@ + zero_segments(
                            z as nat,
                        )).push(0u16));
                    }
                    z = z + 1;
                }
                let mut j: usize = 0;
                while j < rgs.len()
                    invariant
                        j <= rgs@.len(),
                        all@ =~= lgs@ + zero_segments((8 - lgs@.len() - rgs@.len()) as nat)
                            + rgs@.take(j as int),
                    decreases rgs@.len() - j,
                {
                    all.push(rgs[j]);
                    j = j + 1;
                }
                proof {
                    assert(lgs@.take(lgs@.len() as int) =~= lgs@);
                    assert(rgs@.take(rgs@.len() as int) =~= rgs@);
                    assert(all@ =~= lgs@ + zero_segments((8 - lgs@.len() - rgs@.len()) as nat)
                        + rgs@);
                }
                Some(from_vec8(&all))
            } else {
                None
            }
        }
    }

    /// Renders to canonical compressed lowercase text, an IPv4-mapped
    /// address with its dotted-quad tail.
    pub fn render(&self) -> (r: String)
        ensures
            r@ == render_ipv6(*self),
    {
        if self.s0 == 0 && self.s1 == 0 && self.s2 == 0 && self.s3 == 0 && self.s4 == 0
            && self.s5 == 0xffff {
            let quad = Ipv4Address {
                a: (self.s6 / 256) as u8,
                b: (self.s6 % 256) as u8,
                c: (self.s7 / 256) as u8,
                d: (self.s7 % 256) as u8,
            };
            let mut out = "::ffff:".to_owned();
            let q = quad.render();
            out.append(q.as_str());
            proof {
                reveal_strlit("::ffff:");
                assert(quad == mapped_quad(*self));
                assert(out@ =~= render_ipv6(*self));
            }
            return out;
        }
        let ghost segs = self.segments();
        proof {
            lemma_best_run_start_bounds(segs, 0);
            lemma_run_len_props(segs, best_run_start(segs, 0));
        }
        // Find the leftmost longest zero run, scanning right to left.
        let mut bs: usize = 8;
        let mut rb: usize = 0;
        let mut rl: usize = 0;
        let mut i: usize = 8;
        while i > 0
            invariant
                i <= 8,
                segs == self.segments(),
                rl == run_len(segs, i as int),
                rl + i <= 8,
                bs == best_run_start(segs, i as int),
                rb == run_len(segs, bs as int),
                rb <= 8,
                bs <= 8,
            decreases i,
        {
            i = i - 1;
            proof {
                lemma_run_len_props(segs, i as int);
                lemma_run_len_props(segs, best_run_start(segs, i + 1));
            }
            if self.seg(i) == 0 {
                rl = rl + 1;
            } else {
                rl = 0;
            }
            if rl >= rb {
                bs = i;
                rb = rl;
            }
        }
        if rb >= 2 {
            let mut out = String::new();
            let mut k: usize = 0;
            while k < bs
                invariant
                    k <= bs,
                    bs == best_run_start(segs, 0),
                    rb == run_len(segs, bs as int),
                    bs + rb <= 8,
                    segs == self.segments(),
                    out@ == join_with(hex_groups(segs.take(k as int)), ':'),
                decreases bs - k,
            {
                if k > 0 {
                    push_char(&mut out, ':');
                }
                let h = u16_to_hex_string(self.seg(k));
                out.append(h.as_str());
                proof {
                    assert(hex_groups(segs.take(k + 1)) =~= hex_groups(segs.take(k as int)).push(
                        hex_str(segs[k as int] as nat),
                    ));
                    lemma_join_push(hex_groups(segs.take(k as int)), hex_str(segs[k as int] as nat), ':');
                }
                k = k + 1;
            }
            push_char(&mut out, ':');
            push_char(&mut out, ':');
            let ghost mid = out@;
            proof {
                assert(segs.take(bs as int) =~= segs.take(best_run_start(segs, 0)));
                assert(mid =~= join_with(hex_groups(segs.take(bs as int)), ':') + seq![':', ':']);
            }
            let mut j: usize = bs + rb;
            while j < 8
                invariant
                    bs + rb <= j <= 8,
                    bs == best_run_start(segs, 0),
                    rb == run_len(segs, bs as int),
                    segs == self.segments(),
                    mid == join_with(hex_groups(segs.take(bs as int)), ':') + seq![':', ':'],
                    out@ == mid + join_with(
                        hex_groups(segs.skip(bs + rb).take(j - bs - rb)),
                        ':',
                    ),
                decreases 8 - j,
            {
                if j > bs + rb {
                    push_char(&mut out, ':');
                }
                let h = u16_to_hex_string(self.seg(j));
                out.append(h.as_str());
                proof {
                    let tailpart = segs.skip(bs + rb);
                    assert(hex_groups(tailpart.take(j - bs - rb + 1)) =~= hex_groups(
                        tailpart.take(j - bs - rb),
                    ).push(hex_str(segs[j as int] as nat)));
                    lemma_join_push(
                        hex_groups(tailpart.take(j - bs - rb)),
                        hex_str(segs[j as int] as nat),
                        ':',
                    );
                }
                j = j + 1;
            }
            proof {
                assert(segs.skip(bs + rb).take(8 - bs - rb) =~= segs.skip(bs + rb));
                assert(out@ =~= render_ipv6(*self));
            }
            out
        } else {
            let mut out = String::new();
            let mut k: usize = 0;
            while k < 8
                invariant
                    k <= 8,
                    segs == self.segments(),
                    rb == run_len(segs, best_run_start(segs, 0)),
                    rb < 2,
                    out@ == join_with(hex_groups(segs.take(k as int)), ':'),
                decreases 8 - k,
            {
                if k > 0 {
                    push_char(&mut out, ':');
                }
                let h = u16_to_hex_string(self.seg(k));
                out.append(h.as_str());
                proof {
                    assert(hex_groups(segs.take(k + 1)) =~= hex_groups(segs.take(k as int)).push(
                        hex_str(segs[k as int] as nat),
                    ));
                    lemma_join_push(hex_groups(segs.take(k as int)), hex_str(segs[k as int] as nat), ':');
                }
                k = k + 1;
            }
            proof {
                assert(segs.take(8) =~= segs);
                assert(out@ =~= render_ipv6(*self));
            }
            out
        }
    }
}

/// First index of "::" in `s`, or the length if absent.
fn index_of_2colon_exec(s: &str) -> (r: usize)
    ensures
        r == index_of_2colon_from(s@, 0),
{
    let n = s.unicode_len();
    if n < 2 {
        proof {
            lemma_index_of_2colon_unique(s@, s@.len() as int);
        }
        return n;
    }
    let mut i: usize = 0;
    let mut prev: char = s.get_char(0);
    while i + 1 < n
        invariant
            n == s@.len(),
            n >= 2,
            i < n,
            prev == s@[i as int],
            forall|j: int|
                0 <= j < i && j + 1 < s@.len() ==> !((#[trigger] s@[j]) == ':' && s@[j + 1] == ':'),
        decreases n - i,
    {
        let cur = s.get_char(i + 1);
        if prev == ':' && cur == ':' {
            proof {
                lemma_index_of_2colon_unique(s@, i as int);
            }
            return i;
        }
        prev = cur;
        i = i + 1;
    }
    proof {
        lemma_index_of_2colon_unique(s@, s@.len() as int);
    }
    n
}

/// Builds the address out of exactly eight segments.
fn from_vec8(v: &Vec<u16>) -> (r: Ipv6Address)
    requires
        v@.len() == 8,
    ensures
        r == from_segments(v@),
{
    Ipv6Address {
        s0: v[0],
        s1: v[1],
        s2: v[2],
        s3: v[3],
        s4: v[4],
        s5: v[5],
        s6: v[6],
        s7: v[7],
    }
}

} // verus!
