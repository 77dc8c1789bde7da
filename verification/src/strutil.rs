use vstd::prelude::*;

verus! {

// ---------------------------------------------------------------------------
// Decimal digits and decimal rendering of integers.
// ---------------------------------------------------------------------------

pub open spec fn is_dec_digit(c: char) -> bool {
    '0' <= c && c <= '9'
}

pub open spec fn dec_digit(d: int) -> char
    recommends
        0 <= d < 10,
{
    if d == 0 {
        '0'
    } else if d == 1 {
        '1'
    } else if d == 2 {
        '2'
    } else if d == 3 {
        '3'
    } else if d == 4 {
        '4'
    } else if d == 5 {
        '5'
    } else if d == 6 {
        '6'
    } else if d == 7 {
        '7'
    } else if d == 8 {
        '8'
    } else {
        '9'
    }
}

pub open spec fn dec_val(c: char) -> int {
    c as u32 - '0' as u32
}

/// The decimal rendering of `n`, most significant digit first, no leading
/// zeros (except for the single digit `0` itself).
pub open spec fn dec_str(n: nat) -> Seq<char>
    decreases n,
{
    if n < 10 {
        seq![dec_digit(n as int)]
    } else {
        dec_str(n / 10).push(dec_digit((n % 10) as int))
    }
}

/// The value of a digit string read as a decimal number.
pub open spec fn dec_value(s: Seq<char>) -> int
    decreases s.len(),
{
    if s.len() == 0 {
        0
    } else {
        dec_value(s.drop_last()) * 10 + dec_val(s.last())
    }
}

pub open spec fn all_dec_digits(s: Seq<char>) -> bool {
    forall|i: int| 0 <= i < s.len() ==> is_dec_digit(#[trigger] s[i])
}

pub proof fn lemma_dec_digit_val(d: int)
    requires
        0 <= d < 10,
    ensures
        is_dec_digit(dec_digit(d)),
        dec_val(dec_digit(d)) == d,
{
}

pub proof fn lemma_dec_val_range(c: char)
    requires
        is_dec_digit(c),
    ensures
        0 <= dec_val(c) <= 9,
{
}

/// Reading back the decimal rendering of `n` gives `n`; the rendering is
/// nonempty, all digits, and starts with '0' only for `n == 0`.
pub proof fn lemma_dec_str_value(n: nat)
    ensures
        dec_str(n).len() >= 1,
        all_dec_digits(dec_str(n)),
        dec_value(dec_str(n)) == n,
        dec_str(n)[0] == '0' ==> n == 0,
        n < 10 ==> dec_str(n).len() == 1,
        n >= 10 ==> dec_str(n).len() >= 2,
    decreases n,
{
    if n < 10 {
        lemma_dec_digit_val(n as int);
        let s = dec_str(n);
        assert(s.drop_last() =~= Seq::<char>::empty());
        assert(dec_value(s) == dec_value(Seq::<char>::empty()) * 10 + dec_val(s.last()));
    } else {
        lemma_dec_str_value(n / 10);
        lemma_dec_digit_val((n % 10) as int);
        let s = dec_str(n);
        assert(s.drop_last() =~= dec_str(n / 10));
        assert(dec_value(s) == dec_value(dec_str(n / 10)) * 10 + dec_val(s.last()));
        assert(s[0] == dec_str(n / 10)[0]);
    }
}

/// A value below 1000 renders to at most 3 digits.
pub proof fn lemma_dec_str_len_up_to_3(n: nat)
    requires
        n < 1000,
    ensures
        dec_str(n).len() <= 3,
{
    if n < 10 {
        lemma_dec_str_value(n);
    } else if n < 100 {
        lemma_dec_str_value(n / 10);
        assert(dec_str(n) == dec_str(n / 10).push(dec_digit((n % 10) as int)));
    } else {
        lemma_dec_str_value(n / 10 / 10);
        assert(dec_str(n / 10) == dec_str(n / 10 / 10).push(dec_digit((n / 10 % 10) as int)));
        assert(dec_str(n) == dec_str(n / 10).push(dec_digit((n % 10) as int)));
    }
}

pub proof fn lemma_dec_value_nonneg(s: Seq<char>)
    requires
        all_dec_digits(s),
    ensures
        dec_value(s) >= 0,
    decreases s.len(),
{
    if s.len() > 0 {
        assert(all_dec_digits(s.drop_last()));
        lemma_dec_val_range(s.last());
        lemma_dec_value_nonneg(s.drop_last());
    }
}

/// A decimal digit string of at most 3 digits has value below 1000.
pub proof fn lemma_dec_value_bound_3(s: Seq<char>)
    requires
        all_dec_digits(s),
        s.len() <= 3,
    ensures
        0 <= dec_value(s) < 1000,
    decreases s.len(),
{
    lemma_dec_value_nonneg(s);
    if s.len() > 0 {
        let s1 = s.drop_last();
        assert(all_dec_digits(s1));
        lemma_dec_value_bound_3(s1);
        lemma_dec_val_range(s.last());
        assert(dec_value(s) == dec_value(s1) * 10 + dec_val(s.last()));
        if s.len() == 1 {
            assert(s1 =~= Seq::<char>::empty());
            assert(dec_value(s1) == 0);
        } else if s.len() == 2 {
            lemma_dec_value_bound_1(s1);
        } else {
            lemma_dec_value_bound_2(s1);
        }
    }
}

proof fn lemma_dec_value_bound_1(s: Seq<char>)
    requires
        all_dec_digits(s),
        s.len() <= 1,
    ensures
        0 <= dec_value(s) < 10,
{
    lemma_dec_value_nonneg(s);
    if s.len() > 0 {
        assert(s.drop_last() =~= Seq::<char>::empty());
        lemma_dec_val_range(s.last());
        assert(dec_value(s) == dec_value(s.drop_last()) * 10 + dec_val(s.last()));
        assert(dec_value(s.drop_last()) == 0);
    }
}

proof fn lemma_dec_value_bound_2(s: Seq<char>)
    requires
        all_dec_digits(s),
        s.len() <= 2,
    ensures
        0 <= dec_value(s) < 100,
{
    lemma_dec_value_nonneg(s);
    if s.len() > 0 {
        let s1 = s.drop_last();
        assert(all_dec_digits(s1));
        lemma_dec_value_bound_1(s1);
        lemma_dec_val_range(s.last());
        assert(dec_value(s) == dec_value(s1) * 10 + dec_val(s.last()));
    }
}

// ---------------------------------------------------------------------------
// Hexadecimal digits and rendering (lowercase output; parsing accepts both
// cases).
// ---------------------------------------------------------------------------

pub open spec fn is_hex_digit(c: char) -> bool {
    ('0' <= c && c <= '9') || ('a' <= c && c <= 'f') || ('A' <= c && c <= 'F')
}

pub open spec fn hex_digit(d: int) -> char
    recommends
        0 <= d < 16,
{
    if d < 10 {
        dec_digit(d)
    } else if d == 10 {
        'a'
    } else if d == 11 {
        'b'
    } else if d == 12 {
        'c'
    } else if d == 13 {
        'd'
    } else if d == 14 {
        'e'
    } else {
        'f'
    }
}

pub open spec fn hex_val(c: char) -> int {
    if '0' <= c && c <= '9' {
        c as u32 - '0' as u32
    } else if 'a' <= c && c <= 'f' {
        c as u32 - 'a' as u32 + 10
    } else {
        c as u32 - 'A' as u32 + 10
    }
}

/// The lowercase hexadecimal rendering of `n`, no leading zeros.
pub open spec fn hex_str(n: nat) -> Seq<char>
    decreases n,
{
    if n < 16 {
        seq![hex_digit(n as int)]
    } else {
        hex_str(n / 16).push(hex_digit((n % 16) as int))
    }
}

pub open spec fn hex_value(s: Seq<char>) -> int
    decreases s.len(),
{
    if s.len() == 0 {
        0
    } else {
        hex_value(s.drop_last()) * 16 + hex_val(s.last())
    }
}

pub open spec fn all_hex_digits(s: Seq<char>) -> bool {
    forall|i: int| 0 <= i < s.len() ==> is_hex_digit(#[trigger] s[i])
}

pub proof fn lemma_hex_digit_val(d: int)
    requires
        0 <= d < 16,
    ensures
        is_hex_digit(hex_digit(d)),
        hex_val(hex_digit(d)) == d,
{
}

pub proof fn lemma_hex_val_range(c: char)
    requires
        is_hex_digit(c),
    ensures
        0 <= hex_val(c) <= 15,
{
}

pub proof fn lemma_hex_str_value(n: nat)
    ensures
        hex_str(n).len() >= 1,
        all_hex_digits(hex_str(n)),
        hex_value(hex_str(n)) == n,
        n < 16 ==> hex_str(n).len() == 1,
    decreases n,
{
    if n < 16 {
        lemma_hex_digit_val(n as int);
        let s = hex_str(n);
        assert(s.drop_last() =~= Seq::<char>::empty());
        assert(hex_value(s) == hex_value(Seq::<char>::empty()) * 16 + hex_val(s.last()));
    } else {
        lemma_hex_str_value(n / 16);
        lemma_hex_digit_val((n % 16) as int);
        let s = hex_str(n);
        assert(s.drop_last() =~= hex_str(n / 16));
        assert(hex_value(s) == hex_value(hex_str(n / 16)) * 16 + hex_val(s.last()));
    }
}

/// A value below 0x10000 renders to at most 4 hex digits.
pub proof fn lemma_hex_str_len_up_to_4(n: nat)
    requires
        n < 0x10000,
    ensures
        hex_str(n).len() <= 4,
{
    if n < 16 {
        lemma_hex_str_value(n);
    } else if n < 256 {
        lemma_hex_str_value(n / 16);
        assert(hex_str(n) == hex_str(n / 16).push(hex_digit((n % 16) as int)));
    } else if n < 4096 {
        lemma_hex_str_value(n / 16 / 16);
        assert(hex_str(n / 16) == hex_str(n / 16 / 16).push(hex_digit((n / 16 % 16) as int)));
        assert(hex_str(n) == hex_str(n / 16).push(hex_digit((n % 16) as int)));
    } else {
        lemma_hex_str_value(n / 16 / 16 / 16);
        assert(hex_str(n / 16 / 16) == hex_str(n / 16 / 16 / 16).push(
            hex_digit((n / 16 / 16 % 16) as int),
        ));
        assert(hex_str(n / 16) == hex_str(n / 16 / 16).push(hex_digit((n / 16 % 16) as int)));
        assert(hex_str(n) == hex_str(n / 16).push(hex_digit((n % 16) as int)));
    }
}

pub proof fn lemma_hex_value_nonneg(s: Seq<char>)
    requires
        all_hex_digits(s),
    ensures
        hex_value(s) >= 0,
    decreases s.len(),
{
    if s.len() > 0 {
        assert(all_hex_digits(s.drop_last()));
        lemma_hex_val_range(s.last());
        lemma_hex_value_nonneg(s.drop_last());
    }
}

/// A hex digit string of at most 4 digits has value below 0x10000.
pub proof fn lemma_hex_value_bound_4(s: Seq<char>)
    requires
        all_hex_digits(s),
        s.len() <= 4,
    ensures
        0 <= hex_value(s) < 0x10000,
    decreases s.len(),
{
    lemma_hex_value_nonneg(s);
    if s.len() > 0 {
        let s1 = s.drop_last();
        assert(all_hex_digits(s1));
        lemma_hex_val_range(s.last());
        assert(hex_value(s) == hex_value(s1) * 16 + hex_val(s.last()));
        if s.len() == 1 {
            assert(s1 =~= Seq::<char>::empty());
            assert(hex_value(s1) == 0);
        } else if s.len() == 2 {
            lemma_hex_value_bound_k(s1, 16);
        } else if s.len() == 3 {
            lemma_hex_value_bound_k(s1, 256);
        } else {
            lemma_hex_value_bound_k(s1, 4096);
        }
    }
}

proof fn lemma_hex_value_bound_k(s: Seq<char>, bound: int)
    requires
        all_hex_digits(s),
        bound == 16 && s.len() <= 1 || bound == 256 && s.len() <= 2 || bound == 4096 && s.len()
            <= 3,
    ensures
        0 <= hex_value(s) < bound,
    decreases s.len(),
{
    lemma_hex_value_nonneg(s);
    if s.len() > 0 {
        let s1 = s.drop_last();
        assert(all_hex_digits(s1));
        lemma_hex_val_range(s.last());
        assert(hex_value(s) == hex_value(s1) * 16 + hex_val(s.last()));
        if s.len() == 1 {
            assert(s1 =~= Seq::<char>::empty());
            assert(hex_value(s1) == 0);
        } else if s.len() == 2 {
            lemma_hex_value_bound_k(s1, 16);
        } else {
            lemma_hex_value_bound_k(s1, 256);
        }
    }
}

// ---------------------------------------------------------------------------
// Searching and splitting character sequences.
// ---------------------------------------------------------------------------

/// Index of the first occurrence of `c` in `s` at or after `i`, or `s.len()`
/// if there is none.
pub open spec fn index_of_from(s: Seq<char>, c: char, i: int) -> int
    decreases s.len() - i,
{
    if i < 0 || i >= s.len() {
        s.len() as int
    } else if s[i] == c {
        i
    } else {
        index_of_from(s, c, i + 1)
    }
}

pub proof fn lemma_index_of_from(s: Seq<char>, c: char, i: int)
    requires
        0 <= i <= s.len(),
    ensures
        i <= index_of_from(s, c, i) <= s.len(),
        index_of_from(s, c, i) < s.len() ==> s[index_of_from(s, c, i)] == c,
        forall|j: int| i <= j < index_of_from(s, c, i) ==> s[j] != c,
    decreases s.len() - i,
{
    if i < s.len() && s[i] != c {
        lemma_index_of_from(s, c, i + 1);
    }
}

/// The first occurrence is pinned down by its characterization.
pub proof fn lemma_index_of_from_unique(s: Seq<char>, c: char, i: int, r: int)
    requires
        0 <= i <= r <= s.len(),
        r < s.len() ==> s[r] == c,
        forall|j: int| i <= j < r ==> s[j] != c,
    ensures
        index_of_from(s, c, i) == r,
{
    lemma_index_of_from(s, c, i);
    let q = index_of_from(s, c, i);
    if q < r {
        assert(s[q] != c);
    } else if r < q {
        assert(s[r] != c);
    }
}

/// Splits `s` on every occurrence of `c`; the result always has at least one
/// part, parts never contain `c`, and `c`-free input gives one part.
pub open spec fn split_on(s: Seq<char>, c: char) -> Seq<Seq<char>>
    decreases s.len(),
    via split_on_decreases
{
    let i = index_of_from(s, c, 0);
    if i == s.len() {
        seq![s]
    } else {
        seq![s.take(i)] + split_on(s.skip(i + 1), c)
    }
}

#[via_fn]
proof fn split_on_decreases(s: Seq<char>, c: char) {
    lemma_index_of_from(s, c, 0);
}

pub proof fn lemma_split_on_basic(s: Seq<char>, c: char)
    ensures
        split_on(s, c).len() >= 1,
        forall|k: int| 0 <= k < split_on(s, c).len() ==> !(#[trigger] split_on(s, c)[k]).contains(
            c,
        ),
    decreases s.len(),
{
    lemma_index_of_from(s, c, 0);
    let i = index_of_from(s, c, 0);
    if i == s.len() {
        assert forall|k: int| 0 <= k < split_on(s, c).len() implies !(#[trigger] split_on(
            s,
            c,
        )[k]).contains(c) by {
            if split_on(s, c)[k].contains(c) {
                let j = choose|j: int| 0 <= j < s.len() && s[j] == c;
                assert(s[j] != c);
            }
        }
    } else {
        lemma_split_on_basic(s.skip(i + 1), c);
        assert forall|k: int| 0 <= k < split_on(s, c).len() implies !(#[trigger] split_on(
            s,
            c,
        )[k]).contains(c) by {
            if k == 0 {
                if split_on(s, c)[0].contains(c) {
                    let j = choose|j: int|
                        0 <= j < s.take(i).len() && s.take(i)[j] == c;
                    assert(s[j] != c);
                }
            } else {
                assert(split_on(s, c)[k] == split_on(s.skip(i + 1), c)[k - 1]);
            }
        }
    }
}

/// Joins the parts with `c` between them.
pub open spec fn join_with(parts: Seq<Seq<char>>, c: char) -> Seq<char>
    decreases parts.len(),
{
    if parts.len() == 0 {
        Seq::empty()
    } else if parts.len() == 1 {
        parts[0]
    } else {
        parts[0] + seq![c] + join_with(parts.drop_first(), c)
    }
}

/// Splitting a join recovers the parts, provided no part contains the
/// separator.
pub proof fn lemma_split_join(parts: Seq<Seq<char>>, c: char)
    requires
        parts.len() >= 1,
        forall|k: int| 0 <= k < parts.len() ==> !(#[trigger] parts[k]).contains(c),
    ensures
        split_on(join_with(parts, c), c) == parts,
    decreases parts.len(),
{
    let s = join_with(parts, c);
    if parts.len() == 1 {
        assert(s == parts[0]);
        lemma_index_of_from_unique(s, c, 0, s.len() as int);
        assert(split_on(s, c) =~~= parts);
    } else {
        let rest = parts.drop_first();
        let rjoin = join_with(rest, c);
        assert(s == parts[0] + seq![c] + rjoin);
        let p0 = parts[0];
        assert(forall|j: int| 0 <= j < p0.len() ==> s[j] == p0[j] && s[j] != c);
        assert(s[p0.len() as int] == c);
        lemma_index_of_from_unique(s, c, 0, p0.len() as int);
        assert(s.take(p0.len() as int) =~= p0);
        assert(s.skip(p0.len() as int + 1) =~= rjoin);
        assert(forall|k: int| 0 <= k < rest.len() ==> rest[k] == parts[k + 1]);
        lemma_split_join(rest, c);
        assert(split_on(s, c) =~~= parts);
    }
}

/// How a join grows when one part is appended.
pub proof fn lemma_join_push(parts: Seq<Seq<char>>, p: Seq<char>, c: char)
    ensures
        parts.len() == 0 ==> join_with(parts.push(p), c) == p,
        parts.len() > 0 ==> join_with(parts.push(p), c) == join_with(parts, c) + seq![c] + p,
    decreases parts.len(),
{
    let t = parts.push(p);
    if parts.len() == 0 {
        assert(join_with(t, c) == t[0]);
    } else if parts.len() == 1 {
        assert(t.drop_first() =~= seq![p]);
        assert(join_with(t, c) == t[0] + seq![c] + join_with(t.drop_first(), c));
    } else {
        assert(t.drop_first() =~= parts.drop_first().push(p));
        lemma_join_push(parts.drop_first(), p, c);
        assert(join_with(t, c) == t[0] + seq![c] + join_with(parts.drop_first().push(p), c));
        assert(join_with(parts, c) == parts[0] + seq![c] + join_with(parts.drop_first(), c));
        assert(join_with(t, c) =~= join_with(parts, c) + seq![c] + p);
    }
}

/// How a split grows when one character is appended.
pub proof fn lemma_split_on_push(s: Seq<char>, c: char, x: char)
    ensures
        x == c ==> split_on(s.push(x), c) == split_on(s, c).push(Seq::empty()),
        x != c ==> split_on(s.push(x), c) == split_on(s, c).update(
            split_on(s, c).len() - 1,
            split_on(s, c).last().push(x),
        ),
    decreases s.len(),
{
    lemma_index_of_from(s, c, 0);
    lemma_split_on_basic(s, c);
    let i = index_of_from(s, c, 0);
    let t = s.push(x);
    if i == s.len() {
        assert(split_on(s, c) == seq![s]);
        if x == c {
            lemma_index_of_from_unique(t, c, 0, s.len() as int);
            assert(split_on(t, c) == seq![t.take(s.len() as int)] + split_on(
                t.skip(s.len() as int + 1),
                c,
            ));
            assert(t.take(s.len() as int) =~= s);
            assert(t.skip(s.len() as int + 1) =~= Seq::<char>::empty());
            lemma_split_on_empty(c);
            assert(split_on(t, c) =~~= split_on(s, c).push(Seq::empty()));
        } else {
            lemma_index_of_from_unique(t, c, 0, t.len() as int);
            assert(split_on(t, c) == seq![t]);
            assert(split_on(t, c) =~~= split_on(s, c).update(
                split_on(s, c).len() - 1,
                split_on(s, c).last().push(x),
            ));
        }
    } else {
        assert(split_on(s, c) == seq![s.take(i)] + split_on(s.skip(i + 1), c));
        lemma_index_of_from_unique(t, c, 0, i);
        assert(split_on(t, c) == seq![t.take(i)] + split_on(t.skip(i + 1), c));
        assert(t.take(i) =~= s.take(i));
        assert(t.skip(i + 1) =~= s.skip(i + 1).push(x));
        lemma_split_on_push(s.skip(i + 1), c, x);
        lemma_split_on_basic(s.skip(i + 1), c);
        let u = split_on(s.skip(i + 1), c);
        if x == c {
            assert(split_on(t.skip(i + 1), c) == u.push(Seq::empty()));
            assert(split_on(t, c) =~~= split_on(s, c).push(Seq::empty()));
        } else {
            assert(split_on(t.skip(i + 1), c) == u.update(u.len() - 1, u.last().push(x)));
            assert(split_on(s, c).last() == u.last());
            assert(split_on(t, c) =~~= split_on(s, c).update(
                split_on(s, c).len() - 1,
                split_on(s, c).last().push(x),
            ));
        }
    }
}

pub proof fn lemma_split_on_empty(c: char)
    ensures
        split_on(Seq::<char>::empty(), c) == seq![Seq::<char>::empty()],
{
    lemma_index_of_from_unique(Seq::<char>::empty(), c, 0, 0);
}

// ---------------------------------------------------------------------------
// Executable helpers.
// ---------------------------------------------------------------------------

/// Relies on String::push: appends exactly the given character.
#[verifier::external_body]
pub fn push_char(s: &mut String, c: char)
    ensures
        final(s)@ == old(s)@.push(c),
{
    s.push(c);
}

/// Character-by-character string equality, proved against the views.
pub fn str_eq(a: &str, b: &str) -> (r: bool)
    ensures
        r == (a@ == b@),
{
    let alen = a.unicode_len();
    let blen = b.unicode_len();
    if alen != blen {
        return false;
    }
    for i in 0..alen
        invariant
            alen == a@.len(),
            alen == b@.len(),
            forall|j: int| 0 <= j < i ==> a@[j] == b@[j],
    {
        if a.get_char(i) != b.get_char(i) {
            return false;
        }
    }
    proof {
        assert(a@ =~= b@);
    }
    true
}

/// First index of `c` in `s` at or after `from`, or the length if absent.
pub fn index_of_char(s: &str, c: char, from: usize) -> (r: usize)
    requires
        from <= s@.len(),
    ensures
        r == index_of_from(s@, c, from as int),
{
    let n = s.unicode_len();
    let mut i = from;
    while i < n
        invariant
            from <= i <= n,
            n == s@.len(),
            forall|j: int| from <= j < i ==> s@[j] != c,
        decreases n - i,
    {
        if s.get_char(i) == c {
            proof {
                lemma_index_of_from_unique(s@, c, from as int, i as int);
            }
            return i;
        }
        i = i + 1;
    }
    proof {
        lemma_index_of_from_unique(s@, c, from as int, s@.len() as int);
    }
    n
}

/// Splits `s` on `c`; parts are returned in order and never contain `c`.
pub fn split_str(s: &str, c: char) -> (parts: Vec<String>)
    ensures
        parts@.len() == split_on(s@, c).len(),
        forall|k: int| 0 <= k < parts@.len() ==> (#[trigger] parts@[k])@ == split_on(s@, c)[k],
{
    let n = s.unicode_len();
    let mut parts: Vec<String> = Vec::new();
    let mut cur = String::new();
    proof {
        lemma_split_on_empty(c);
    }
    for i in 0..n
        invariant
            n == s@.len(),
            parts@.len() + 1 == split_on(s@.take(i as int), c).len(),
            forall|k: int| 0 <= k < parts@.len() ==> (#[trigger] parts@[k])@ == split_on(
                s@.take(i as int),
                c,
            )[k],
            cur@ == split_on(s@.take(i as int), c).last(),
    {
        let ch = s.get_char(i);
        proof {
            assert(s@.take(i + 1) =~= s@.take(i as int).push(s@[i as int]));
            lemma_split_on_push(s@.take(i as int), c, s@[i as int]);
            lemma_split_on_basic(s@.take(i as int), c);
        }
        if ch == c {
            parts.push(cur);
            cur = String::new();
        } else {
            push_char(&mut cur, ch);
        }
    }
    proof {
        assert(s@.take(n as int) =~= s@);
    }
    parts.push(cur);
    parts
}

/// Decimal rendering of a `u64`.
pub fn u64_to_string(n: u64) -> (r: String)
    ensures
        r@ == dec_str(n as nat),
    decreases n,
{
    let d: &'static str = dec_digit_str((n % 10) as u8);
    if n < 10 {
        let r = d.to_owned();
        proof {
            assert(r@ =~= dec_str(n as nat));
        }
        r
    } else {
        let mut s = u64_to_string(n / 10);
        s.append(d);
        proof {
            assert(s@ =~= dec_str(n as nat));
        }
        s
    }
}

/// The decimal rendering of an `i64`, with a leading '-' when negative.
pub open spec fn dec_str_signed(n: int) -> Seq<char> {
    if n >= 0 {
        dec_str(n as nat)
    } else {
        seq!['-'] + dec_str((-n) as nat)
    }
}

pub fn i64_to_string(n: i64) -> (r: String)
    ensures
        r@ == dec_str_signed(n as int),
{
    if n >= 0 {
        let r = u64_to_string(n as u64);
        r
    } else {
        let m: u64 = if n == i64::MIN {
            9223372036854775808u64
        } else {
            (-n) as u64
        };
        let mut s = String::new();
        push_char(&mut s, '-');
        let digits = u64_to_string(m);
        s.append(digits.as_str());
        proof {
            assert(s@ =~= dec_str_signed(n as int));
        }
        s
    }
}

fn dec_digit_str(d: u8) -> (r: &'static str)
    requires
        d < 10,
    ensures
        r@ == seq![dec_digit(d as int)],
{
    proof {
        reveal_strlit("0");
        reveal_strlit("1");
        reveal_strlit("2");
        reveal_strlit("3");
        reveal_strlit("4");
        reveal_strlit("5");
        reveal_strlit("6");
        reveal_strlit("7");
        reveal_strlit("8");
        reveal_strlit("9");
    }
    let r: &'static str = match d {
        0 => "0",
        1 => "1",
        2 => "2",
        3 => "3",
        4 => "4",
        5 => "5",
        6 => "6",
        7 => "7",
        8 => "8",
        _ => "9",
    };
    proof {
        assert(r@ =~= seq![dec_digit(d as int)]);
    }
    r
}

/// Lowercase hexadecimal rendering of a `u16`.
pub fn u16_to_hex_string(n: u16) -> (r: String)
    ensures
        r@ == hex_str(n as nat),
    decreases n,
{
    let d: &'static str = hex_digit_str((n % 16) as u8);
    if n < 16 {
        let r = d.to_owned();
        proof {
            assert(r@ =~= hex_str(n as nat));
        }
        r
    } else {
        let mut s = u16_to_hex_string(n / 16);
        s.append(d);
        proof {
            assert(s@ =~= hex_str(n as nat));
        }
        s
    }
}

fn hex_digit_str(d: u8) -> (r: &'static str)
    requires
        d < 16,
    ensures
        r@ == seq![hex_digit(d as int)],
{
    proof {
        reveal_strlit("a");
        reveal_strlit("b");
        reveal_strlit("c");
        reveal_strlit("d");
        reveal_strlit("e");
        reveal_strlit("f");
    }
    if d < 10 {
        let r = dec_digit_str(d);
        proof {
            assert(r@ =~= seq![hex_digit(d as int)]);
        }
        r
    } else {
        let r: &'static str = match d {
            10 => "a",
            11 => "b",
            12 => "c",
            13 => "d",
            14 => "e",
            _ => "f",
        };
        proof {
            assert(r@ =~= seq![hex_digit(d as int)]);
        }
        r
    }
}

} // verus!
