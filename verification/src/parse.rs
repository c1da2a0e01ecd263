use vstd::prelude::*;

verus! {

use vstd::arithmetic::power2::{pow2, lemma_pow2_adds, lemma2_to64};

// Textual forms of addresses and networks, over byte ranges `[i, j)` of a
// buffer.  The spec functions here define exactly which byte ranges denote
// an IPv4 address, an IPv6 address, a numeric prefix or a dotted netmask,
// and what value each denotes; the executable parsers are proved to return
// precisely these values.

// ---------------------------------------------------------------------------
// Byte classes.
pub open spec fn is_digit(b: u8) -> bool {
    48 <= b && b <= 57
}

pub open spec fn is_hex_digit(b: u8) -> bool {
    is_digit(b) || (97 <= b && b <= 102) || (65 <= b && b <= 70)
}

pub open spec fn digit_val(b: u8) -> int {
    b - 48
}

pub open spec fn hex_digit_val(b: u8) -> int {
    if is_digit(b) {
        b - 48
    } else if 97 <= b && b <= 102 {
        b - 87
    } else {
        b - 55
    }
}

// ---------------------------------------------------------------------------
// Runs of digits and their numeric value.

/// End of the run of decimal digits starting at `i`, capped at `j`.
pub open spec fn digits_end(s: Seq<u8>, i: int, j: int) -> int
    decreases j - i,
{
    if i < j && is_digit(s[i]) {
        digits_end(s, i + 1, j)
    } else {
        i
    }
}

/// Value of the decimal digits in `[i, j)`, most significant first.
pub open spec fn digits_val(s: Seq<u8>, i: int, j: int) -> int
    decreases j - i,
{
    if i < j {
        digits_val(s, i, j - 1) * 10 + digit_val(s[j - 1])
    } else {
        0
    }
}

/// Value of the hexadecimal digits in `[i, j)`, most significant first.
pub open spec fn hex_val(s: Seq<u8>, i: int, j: int) -> int
    decreases j - i,
{
    if i < j {
        hex_val(s, i, j - 1) * 16 + hex_digit_val(s[j - 1])
    } else {
        0
    }
}

pub proof fn lemma_digits_end(s: Seq<u8>, i: int, j: int)
    requires
        0 <= i <= j <= s.len(),
    ensures
        i <= digits_end(s, i, j) <= j,
        forall|k: int| i <= k < digits_end(s, i, j) ==> is_digit(s[k]),
        digits_end(s, i, j) < j ==> !is_digit(s[digits_end(s, i, j)]),
    decreases j - i,
{
    if i < j && is_digit(s[i]) {
        lemma_digits_end(s, i + 1, j);
    }
}

/// A digit run has a non-negative value, bounded by its length.
pub proof fn lemma_digits_val_bound(s: Seq<u8>, i: int, j: int)
    requires
        0 <= i <= j <= s.len(),
        forall|k: int| i <= k < j ==> is_digit(s[k]),
    ensures
        0 <= digits_val(s, i, j),
        j - i == 1 ==> digits_val(s, i, j) <= 9,
        j - i == 2 ==> digits_val(s, i, j) <= 99,
        j - i == 3 ==> digits_val(s, i, j) <= 999,
    decreases j - i,
{
    if i < j {
        lemma_digits_val_bound(s, i, j - 1);
    }
}

/// A leading zero does not change the value of a digit run.
pub proof fn lemma_digits_val_skip_zero(s: Seq<u8>, i: int, j: int)
    requires
        0 <= i < j <= s.len(),
        s[i] == 48,
    ensures
        digits_val(s, i, j) == digits_val(s, i + 1, j),
    decreases j - i,
{
    if i + 1 < j {
        lemma_digits_val_skip_zero(s, i, j - 1);
    } else {
        assert(digits_val(s, i, i) == 0);
        assert(digits_val(s, i + 1, j) == 0);
    }
}

pub proof fn lemma_digits_val_nonneg(s: Seq<u8>, i: int, j: int)
    requires
        0 <= i <= j <= s.len(),
        forall|k: int| i <= k < j ==> is_digit(s[k]),
    ensures
        0 <= digits_val(s, i, j),
    decreases j - i,
{
    if i < j {
        lemma_digits_val_nonneg(s, i, j - 1);
    }
}

// ---------------------------------------------------------------------------
// IPv4 dotted quads.

/// A decimal octet at `i`: one to three digits, no leading zero unless the
/// octet is exactly "0", value at most 255.  Yields the value and the index
/// just past the octet.
pub open spec fn octet_at(s: Seq<u8>, i: int, j: int) -> Option<(int, int)> {
    let e = digits_end(s, i, j);
    if i < e && e <= i + 3 && !(s[i] == 48 && e > i + 1) && digits_val(s, i, e) <= 255 {
        Some((digits_val(s, i, e), e))
    } else {
        None
    }
}

/// An IPv4 dotted quad starting at `i`: four octets separated by periods.
/// Yields the 32-bit value and the index just past the quad.
pub open spec fn v4_at(s: Seq<u8>, i: int, j: int) -> Option<(int, int)> {
    match octet_at(s, i, j) {
        Some((o0, e0)) => if e0 < j && s[e0] == 46 {
            match octet_at(s, e0 + 1, j) {
                Some((o1, e1)) => if e1 < j && s[e1] == 46 {
                    match octet_at(s, e1 + 1, j) {
                        Some((o2, e2)) => if e2 < j && s[e2] == 46 {
                            match octet_at(s, e2 + 1, j) {
                                Some((o3, e3)) => Some(
                                    (((o0 * 256 + o1) * 256 + o2) * 256 + o3, e3),
                                ),
                                None => None,
                            }
                        } else {
                            None
                        },
                        None => None,
                    }
                } else {
                    None
                },
                None => None,
            }
        } else {
            None
        },
        None => None,
    }
}

/// The range `[i, j)` is exactly an IPv4 dotted quad with this value.
pub open spec fn parse_v4(s: Seq<u8>, i: int, j: int) -> Option<int> {
    match v4_at(s, i, j) {
        Some((v, e)) => if e == j {
            Some(v)
        } else {
            None
        },
        None => None,
    }
}

pub proof fn lemma_octet_at(s: Seq<u8>, i: int, j: int)
    requires
        0 <= i <= j <= s.len(),
        octet_at(s, i, j) is Some,
    ensures
        ({
            let (v, e) = octet_at(s, i, j).unwrap();
            &&& i < e <= j
            &&& e <= i + 3
            &&& 0 <= v <= 255
            &&& forall|k: int| i <= k < e ==> is_digit(s[k])
        }),
{
    lemma_digits_end(s, i, j);
    let e = digits_end(s, i, j);
    lemma_digits_val_bound(s, i, e);
}

pub proof fn lemma_v4_at(s: Seq<u8>, i: int, j: int)
    requires
        0 <= i <= j <= s.len(),
        v4_at(s, i, j) is Some,
    ensures
        ({
            let (v, e) = v4_at(s, i, j).unwrap();
            &&& i < e <= j
            &&& 0 <= v < 0x1_0000_0000
            &&& is_digit(s[i])
        }),
{
    let (o0, e0) = octet_at(s, i, j).unwrap();
    lemma_octet_at(s, i, j);
    let (o1, e1) = octet_at(s, e0 + 1, j).unwrap();
    lemma_octet_at(s, e0 + 1, j);
    let (o2, e2) = octet_at(s, e1 + 1, j).unwrap();
    lemma_octet_at(s, e1 + 1, j);
    let (o3, e3) = octet_at(s, e2 + 1, j).unwrap();
    lemma_octet_at(s, e2 + 1, j);
}

// ---------------------------------------------------------------------------
// Executable scanning helpers.

pub(crate) fn is_digit_x(b: u8) -> (r: bool)
    ensures
        r == is_digit(b),
{
    48 <= b && b <= 57
}

pub(crate) fn is_hex_digit_x(b: u8) -> (r: bool)
    ensures
        r == is_hex_digit(b),
{
    (48 <= b && b <= 57) || (97 <= b && b <= 102) || (65 <= b && b <= 70)
}

/// Index just past the run of decimal digits starting at `i`.
pub(crate) fn digits_end_x(s: &[u8], i: usize, j: usize) -> (r: usize)
    requires
        i <= j <= s.len(),
    ensures
        r == digits_end(s@, i as int, j as int),
        i <= r <= j,
{
    proof {
        lemma_digits_end(s@, i as int, j as int);
    }
    let mut cur = i;
    while cur < j && is_digit_x(s[cur])
        invariant
            i <= cur <= j <= s.len(),
            digits_end(s@, i as int, j as int) == digits_end(s@, cur as int, j as int),
        decreases j - cur,
    {
        cur = cur + 1;
    }
    cur
}

/// Parse the octet at `i`, returning its value and the index just past it.
pub(crate) fn octet_at_x(s: &[u8], i: usize, j: usize) -> (r: Option<(u32, usize)>)
    requires
        i <= j <= s.len(),
    ensures
        match (r, octet_at(s@, i as int, j as int)) {
            (Some((v, e)), Some((sv, se))) => v == sv && e == se && i < e <= j,
            (None, None) => true,
            _ => false,
        },
{
    proof {
        lemma_digits_end(s@, i as int, j as int);
    }
    let e = digits_end_x(s, i, j);
    if i < e && e - i <= 3 && !(s[i] == 48 && e > i + 1) {
        proof {
            lemma_digits_val_bound(s@, i as int, e as int);
        }
        let mut cur = i;
        let mut val: u32 = 0;
        while cur < e
            invariant
                i <= cur <= e <= s.len(),
                e <= i + 3,
                forall|k: int| i <= k < e ==> is_digit(s@[k]),
                val == digits_val(s@, i as int, cur as int),
                val <= 999,
            decreases e - cur,
        {
            proof {
                lemma_digits_val_bound(s@, i as int, cur as int);
                lemma_digits_val_bound(s@, i as int, (cur + 1) as int);
            }
            val = val * 10 + (s[cur] - 48) as u32;
            cur = cur + 1;
        }
        if val <= 255 {
            Some((val, e))
        } else {
            None
        }
    } else {
        None
    }
}

/// Parse the IPv4 dotted quad at `i`, returning its value and the index just
/// past it.
pub(crate) fn v4_at_x(s: &[u8], i: usize, j: usize) -> (r: Option<(u32, usize)>)
    requires
        i <= j <= s.len(),
    ensures
        match (r, v4_at(s@, i as int, j as int)) {
            (Some((v, e)), Some((sv, se))) => v == sv && e == se && i < e <= j,
            (None, None) => true,
            _ => false,
        },
{
    proof {
        if v4_at(s@, i as int, j as int) is Some {
            lemma_v4_at(s@, i as int, j as int);
        }
    }
    let (o0, e0) = match octet_at_x(s, i, j) {
        Some(x) => x,
        None => {
            return None;
        },
    };
    if !(e0 < j && s[e0] == 46) {
        return None;
    }
    let (o1, e1) = match octet_at_x(s, e0 + 1, j) {
        Some(x) => x,
        None => {
            return None;
        },
    };
    if !(e1 < j && s[e1] == 46) {
        return None;
    }
    let (o2, e2) = match octet_at_x(s, e1 + 1, j) {
        Some(x) => x,
        None => {
            return None;
        },
    };
    if !(e2 < j && s[e2] == 46) {
        return None;
    }
    let (o3, e3) = match octet_at_x(s, e2 + 1, j) {
        Some(x) => x,
        None => {
            return None;
        },
    };
    Some((((o0 * 256 + o1) * 256 + o2) * 256 + o3, e3))
}

// ---------------------------------------------------------------------------
// IPv6 textual form: hexadecimal groups separated by colons, at most one
// `::` standing for a run of zero groups, and optionally an embedded IPv4
// dotted quad as the last two groups.

/// Index of the first colon in `[i, j)`, or `j` if there is none.
pub open spec fn first_colon(s: Seq<u8>, i: int, j: int) -> int
    decreases j - i,
{
    if i < j {
        if s[i] == 58 {
            i
        } else {
            first_colon(s, i + 1, j)
        }
    } else {
        i
    }
}

/// Index of the first `::` in `[i, j)`, or `j` if there is none.
pub open spec fn first_dcolon(s: Seq<u8>, i: int, j: int) -> int
    decreases j - i,
{
    if i + 1 < j {
        if s[i] == 58 && s[i + 1] == 58 {
            i
        } else {
            first_dcolon(s, i + 1, j)
        }
    } else {
        j
    }
}

/// The range `[i, j)` is one hexadecimal group: one to four hex digits.
pub open spec fn hex_group_ok(s: Seq<u8>, i: int, j: int) -> bool {
    i < j && j <= i + 4 && (forall|k: int| i <= k < j ==> is_hex_digit(s[k]))
}

pub proof fn lemma_first_colon(s: Seq<u8>, i: int, j: int)
    requires
        0 <= i <= j <= s.len(),
    ensures
        i <= first_colon(s, i, j) <= j,
        first_colon(s, i, j) < j ==> s[first_colon(s, i, j)] == 58,
        forall|k: int| i <= k < first_colon(s, i, j) ==> s[k] != 58,
    decreases j - i,
{
    if i < j && s[i] != 58 {
        lemma_first_colon(s, i + 1, j);
    }
}

pub proof fn lemma_first_dcolon(s: Seq<u8>, i: int, j: int)
    requires
        0 <= i <= j <= s.len(),
    ensures
        ({
            let d = first_dcolon(s, i, j);
            &&& i <= d <= j
            &&& d < j ==> d + 1 < j && s[d] == 58 && s[d + 1] == 58
            &&& forall|k: int| #![trigger s[k]] i <= k < d && k + 1 < j ==> !(s[k] == 58 && s[
                k + 1] == 58)
        }),
    decreases j - i,
{
    if i + 1 < j && !(s[i] == 58 && s[i + 1] == 58) {
        lemma_first_dcolon(s, i + 1, j);
    }
}

pub proof fn lemma_hex_val_bound(s: Seq<u8>, i: int, j: int)
    requires
        0 <= i <= j <= s.len(),
        forall|k: int| i <= k < j ==> is_hex_digit(s[k]),
    ensures
        0 <= hex_val(s, i, j),
        j - i == 1 ==> hex_val(s, i, j) <= 0xf,
        j - i == 2 ==> hex_val(s, i, j) <= 0xff,
        j - i == 3 ==> hex_val(s, i, j) <= 0xfff,
        j - i == 4 ==> hex_val(s, i, j) <= 0xffff,
    decreases j - i,
{
    if i < j {
        lemma_hex_val_bound(s, i, j - 1);
    }
}

/// The list of groups in `[i, j)`: hexadecimal groups separated by single
/// colons, with an embedded IPv4 quad allowed as the final element when
/// `allow_v4` is set (it contributes two groups).  `None` when the range is
/// not exactly such a list.
pub open spec fn glist(s: Seq<u8>, i: int, j: int, allow_v4: bool) -> Option<Seq<u16>>
    decreases j - i,
        when 0 <= i <= j <= s.len()
        via glist_decreases
{
    let c = first_colon(s, i, j);
    if c == j {
        if hex_group_ok(s, i, j) {
            Some(seq![hex_val(s, i, j) as u16])
        } else {
            match parse_v4(s, i, j) {
                Some(v) => if allow_v4 {
                    Some(seq![(v / 0x10000) as u16, (v % 0x10000) as u16])
                } else {
                    None
                },
                None => None,
            }
        }
    } else {
        if hex_group_ok(s, i, c) && c + 1 < j {
            match glist(s, c + 1, j, allow_v4) {
                Some(rest) => Some(seq![hex_val(s, i, c) as u16] + rest),
                None => None,
            }
        } else {
            None
        }
    }
}

#[via_fn]
proof fn glist_decreases(s: Seq<u8>, i: int, j: int, allow_v4: bool) {
    lemma_first_colon(s, i, j);
}

/// The 128-bit value of a list of 16-bit groups, most significant first.
pub open spec fn groups_val(gs: Seq<u16>) -> int
    decreases gs.len(),
{
    if gs.len() == 0 {
        0
    } else {
        groups_val(gs.drop_last()) * 0x10000 + gs.last()
    }
}

pub open spec fn zero_groups(n: nat) -> Seq<u16> {
    Seq::new(n, |k: int| 0u16)
}

/// The range `[i, j)` is exactly an IPv6 address with this value.
pub open spec fn parse_v6(s: Seq<u8>, i: int, j: int) -> Option<int> {
    let d = first_dcolon(s, i, j);
    if d == j {
        match glist(s, i, j, true) {
            Some(gs) => if gs.len() == 8 {
                Some(groups_val(gs))
            } else {
                None
            },
            None => None,
        }
    } else {
        let lg = if d == i {
            Some(Seq::<u16>::empty())
        } else {
            glist(s, i, d, false)
        };
        let rg = if d + 2 == j {
            Some(Seq::<u16>::empty())
        } else {
            glist(s, d + 2, j, true)
        };
        match (lg, rg) {
            (Some(l), Some(r)) => if l.len() + r.len() <= 7 {
                Some(groups_val(l + zero_groups((8 - l.len() - r.len()) as nat) + r))
            } else {
                None
            },
            _ => None,
        }
    }
}

pub proof fn lemma_groups_val_bound(gs: Seq<u16>)
    ensures
        0 <= groups_val(gs),
        groups_val(gs) < pow2(16 * gs.len()),
    decreases gs.len(),
{
    if gs.len() == 0 {
        lemma2_to64();
    } else {
        let prev = gs.drop_last();
        lemma_groups_val_bound(prev);
        lemma_pow2_adds(16 * prev.len(), 16);
        lemma2_to64();
        assert(groups_val(prev) * 0x10000 <= (pow2(16 * prev.len()) - 1) * 0x10000) by {
            vstd::arithmetic::mul::lemma_mul_inequality(
                groups_val(prev),
                pow2(16 * prev.len()) - 1,
                0x10000,
            );
        }
        assert((pow2(16 * prev.len()) - 1) * 0x10000 == pow2(16 * prev.len()) * 0x10000
            - 0x10000) by {
            vstd::arithmetic::mul::lemma_mul_is_distributive_sub_other_way(
                0x10000,
                pow2(16 * prev.len()) as int,
                1,
            );
        }
    }
}

/// Index of the first colon in `[i, j)`, or `j` if there is none.
pub(crate) fn first_colon_x(s: &[u8], i: usize, j: usize) -> (r: usize)
    requires
        i <= j <= s.len(),
    ensures
        r == first_colon(s@, i as int, j as int),
        i <= r <= j,
{
    proof {
        lemma_first_colon(s@, i as int, j as int);
    }
    let mut cur = i;
    while cur < j && s[cur] != 58
        invariant
            i <= cur <= j <= s.len(),
            first_colon(s@, i as int, j as int) == first_colon(s@, cur as int, j as int),
        decreases j - cur,
    {
        cur = cur + 1;
    }
    cur
}

/// Index of the first `::` in `[i, j)`, or `j` if there is none.
pub(crate) fn first_dcolon_x(s: &[u8], i: usize, j: usize) -> (r: usize)
    requires
        i <= j <= s.len(),
    ensures
        r == first_dcolon(s@, i as int, j as int),
        i <= r <= j,
{
    proof {
        lemma_first_dcolon(s@, i as int, j as int);
    }
    let mut cur = i;
    while cur < j && cur + 1 < j && !(s[cur] == 58 && s[cur + 1] == 58)
        invariant
            i <= cur <= j <= s.len(),
            first_dcolon(s@, i as int, j as int) == first_dcolon(s@, cur as int, j as int),
        decreases j - cur,
    {
        cur = cur + 1;
    }
    if cur < j && cur + 1 < j {
        cur
    } else {
        j
    }
}

/// Parse the range `[i, j)` as exactly one hexadecimal group.
pub(crate) fn hex_group_x(s: &[u8], i: usize, j: usize) -> (r: Option<u16>)
    requires
        i <= j <= s.len(),
    ensures
        hex_group_ok(s@, i as int, j as int) ==> r == Some(hex_val(s@, i as int, j as int) as u16),
        !hex_group_ok(s@, i as int, j as int) ==> r is None,
{
    if i == j || j - i > 4 {
        return None;
    }
    let mut cur = i;
    let mut val: u16 = 0;
    while cur < j
        invariant
            i <= cur <= j <= s.len(),
            j - i <= 4,
            forall|k: int| i <= k < cur ==> is_hex_digit(s@[k]),
            val == hex_val(s@, i as int, cur as int),
        decreases j - cur,
    {
        let b = s[cur];
        let d: u16 = if 48 <= b && b <= 57 {
            (b - 48) as u16
        } else if 97 <= b && b <= 102 {
            (b - 87) as u16
        } else if 65 <= b && b <= 70 {
            (b - 55) as u16
        } else {
            return None;
        };
        proof {
            lemma_hex_val_bound(s@, i as int, cur as int);
            lemma_hex_val_bound(s@, i as int, (cur + 1) as int);
        }
        val = val * 16 + d;
        cur = cur + 1;
        proof {
            if cur < j {
                lemma_hex_val_bound(s@, i as int, cur as int);
            }
        }
    }
    proof {
        lemma_hex_val_bound(s@, i as int, j as int);
    }
    Some(val)
}

/// Parse the range `[i, j)` as exactly a colon-separated group list.
pub(crate) fn glist_x(s: &[u8], i: usize, j: usize, allow_v4: bool) -> (r: Option<Vec<u16>>)
    requires
        i <= j <= s.len(),
    ensures
        match (r, glist(s@, i as int, j as int, allow_v4)) {
            (Some(v), Some(gs)) => v@ == gs,
            (None, None) => true,
            _ => false,
        },
{
    let mut acc: Vec<u16> = Vec::new();
    let mut cur = i;
    loop
        invariant
            i <= cur <= j <= s.len(),
            ({
                let whole = glist(s@, i as int, j as int, allow_v4);
                match glist(s@, cur as int, j as int, allow_v4) {
                    Some(rest) => whole == Some(acc@ + rest),
                    None => whole is None,
                }
            }),
        decreases j - cur,
    {
        let ghost a0 = acc@;
        let c = first_colon_x(s, cur, j);
        if c == j {
            match hex_group_x(s, cur, j) {
                Some(g) => {
                    acc.push(g);
                    proof {
                        assert(acc@ =~= a0 + seq![g]);
                    }
                    return Some(acc);
                },
                None => {
                    match parse_v4_x(s, cur, j) {
                        Some(v) => if allow_v4 {
                            acc.push((v / 0x10000) as u16);
                            acc.push((v % 0x10000) as u16);
                            proof {
                                assert(acc@ =~= a0 + seq![
                                    (v / 0x10000) as u16,
                                    (v % 0x10000) as u16,
                                ]);
                            }
                            return Some(acc);
                        } else {
                            return None;
                        },
                        None => {
                            return None;
                        },
                    }
                },
            }
        } else {
            match hex_group_x(s, cur, c) {
                Some(g) => {
                    if c + 1 < j {
                        acc.push(g);
                        cur = c + 1;
                        proof {
                            assert(acc@ =~= a0 + seq![g]);
                            if glist(s@, cur as int, j as int, allow_v4) is Some {
                                let rest = glist(s@, cur as int, j as int, allow_v4).unwrap();
                                assert(a0 + (seq![g] + rest) =~= (a0 + seq![g]) + rest);
                            }
                        }
                    } else {
                        return None;
                    }
                },
                None => {
                    return None;
                },
            }
        }
    }
}

/// The 128-bit value of exactly eight groups.
pub(crate) fn groups_to_u128(gs: &Vec<u16>) -> (r: u128)
    requires
        gs@.len() == 8,
    ensures
        r == groups_val(gs@),
{
    let mut k: usize = 0;
    let mut val: u128 = 0;
    proof {
        lemma2_to64();
    }
    while k < 8
        invariant
            k <= 8,
            gs@.len() == 8,
            val == groups_val(gs@.take(k as int)),
            val < pow2((16 * k) as nat),
        decreases 8 - k,
    {
        proof {
            lemma_groups_val_bound(gs@.take(k as int));
            lemma_groups_val_bound(gs@.take((k + 1) as int));
            assert(gs@.take((k + 1) as int).drop_last() =~= gs@.take(k as int));
            assert(gs@.take((k + 1) as int).last() == gs@[k as int]);
            lemma_pow2_adds((16 * k) as nat, 16);
            lemma2_to64();
            crate::net::lemma_pow2_128();
            if 16 * k + 16 < 128 {
                vstd::arithmetic::power2::lemma_pow2_strictly_increases(
                    (16 * k + 16) as nat,
                    128,
                );
            }
            assert(val * 0x10000 <= (pow2((16 * k) as nat) - 1) * 0x10000) by {
                vstd::arithmetic::mul::lemma_mul_inequality(
                    val as int,
                    pow2((16 * k) as nat) - 1,
                    0x10000,
                );
            }
            assert((pow2((16 * k) as nat) - 1) * 0x10000 == pow2((16 * k) as nat) * 0x10000
                - 0x10000) by {
                vstd::arithmetic::mul::lemma_mul_is_distributive_sub_other_way(
                    0x10000,
                    pow2((16 * k) as nat) as int,
                    1,
                );
            }
        }
        val = val * 0x10000 + (gs[k] as u128);
        k = k + 1;
    }
    proof {
        assert(gs@.take(8) =~= gs@);
    }
    val
}

/// Parse the range `[i, j)` as exactly an IPv6 address.
pub(crate) fn parse_v6_x(s: &[u8], i: usize, j: usize) -> (r: Option<u128>)
    requires
        i <= j <= s.len(),
    ensures
        match (r, parse_v6(s@, i as int, j as int)) {
            (Some(v), Some(sv)) => v == sv,
            (None, None) => true,
            _ => false,
        },
{
    proof {
        lemma_first_dcolon(s@, i as int, j as int);
    }
    let d = first_dcolon_x(s, i, j);
    if d == j {
        match glist_x(s, i, j, true) {
            Some(gs) => if gs.len() == 8 {
                Some(groups_to_u128(&gs))
            } else {
                None
            },
            None => None,
        }
    } else {
        let mut l: Vec<u16> = if d == i {
            Vec::new()
        } else {
            match glist_x(s, i, d, false) {
                Some(v) => v,
                None => {
                    return None;
                },
            }
        };
        let rv: Vec<u16> = if d + 2 == j {
            Vec::new()
        } else {
            match glist_x(s, d + 2, j, true) {
                Some(v) => v,
                None => {
                    return None;
                },
            }
        };
        let ghost lgs = l@;
        let ghost rgs = rv@;
        if l.len() <= 7 && rv.len() <= 7 - l.len() {
            let zeros = 8 - l.len() - rv.len();
            let mut z: usize = 0;
            while z < zeros
                invariant
                    z <= zeros,
                    l@ =~= lgs + zero_groups(z as nat),
                decreases zeros - z,
            {
                l.push(0u16);
                proof {
                    assert(l@ =~= lgs + zero_groups((z + 1) as nat));
                }
                z = z + 1;
            }
            let mut m: usize = 0;
            while m < rv.len()
                invariant
                    m <= rv.len(),
                    rv@ == rgs,
                    l@ =~= lgs + zero_groups(zeros as nat) + rgs.take(m as int),
                decreases rv.len() - m,
            {
                l.push(rv[m]);
                proof {
                    assert(l@ =~= lgs + zero_groups(zeros as nat) + rgs.take((m + 1) as int));
                }
                m = m + 1;
            }
            proof {
                assert(rgs.take(rgs.len() as int) =~= rgs);
                assert(l@ =~= lgs + zero_groups(zeros as nat) + rgs);
            }
            Some(groups_to_u128(&l))
        } else {
            None
        }
    }
}

/// The range `[i, j)` as exactly an IPv4 dotted quad.
pub(crate) fn parse_v4_x(s: &[u8], i: usize, j: usize) -> (r: Option<u32>)
    requires
        i <= j <= s.len(),
    ensures
        match (r, parse_v4(s@, i as int, j as int)) {
            (Some(v), Some(sv)) => v == sv,
            (None, None) => true,
            _ => false,
        },
{
    match v4_at_x(s, i, j) {
        Some((v, e)) => if e == j {
            Some(v)
        } else {
            None
        },
        None => None,
    }
}

// ---------------------------------------------------------------------------
// Whole network values: `address`, `address/prefix-number`, or
// `v4-address/dotted-mask`.

/// Index of the first `/` in `[i, j)`, or `j` if there is none.
pub open spec fn first_slash(s: Seq<u8>, i: int, j: int) -> int
    decreases j - i,
{
    if i < j {
        if s[i] == 47 {
            i
        } else {
            first_slash(s, i + 1, j)
        }
    } else {
        i
    }
}

pub open spec fn all_digits(s: Seq<u8>, i: int, j: int) -> bool {
    forall|k: int| i <= k < j ==> is_digit(s[k])
}

/// Numeric value of a non-empty all-digit range (leading zeros allowed).
pub open spec fn prefix_val(s: Seq<u8>, i: int, j: int) -> Option<int> {
    if i < j && all_digits(s, i, j) {
        Some(digits_val(s, i, j))
    } else {
        None
    }
}

/// `m` is the 32-bit netmask with `p` leading one bits.
pub open spec fn is_mask(m: int, p: int) -> bool {
    0 <= p <= 32 && m == 0x1_0000_0000 - pow2((32 - p) as nat)
}

/// The prefix length denoted by a contiguous 32-bit netmask, or `None`
/// for a non-contiguous mask.
pub open spec fn mask_prefix(m: int) -> Option<int> {
    if exists|p: int| is_mask(m, p) {
        Some(choose|p: int| is_mask(m, p))
    } else {
        None
    }
}

/// The network value denoted by the byte range `[i, j)`: a bare address
/// (maximum prefix), an address with a numeric prefix length, or a v4
/// address with a dotted netmask.
pub open spec fn parse_net(s: Seq<u8>, i: int, j: int) -> Option<crate::net::Net> {
    let sl = first_slash(s, i, j);
    if sl == j {
        match parse_v4(s, i, j) {
            Some(a) => Some(
                crate::net::Net { family: crate::net::Family::V4, addr: a as u128, prefix: 32 },
            ),
            None => match parse_v6(s, i, j) {
                Some(a) => Some(
                    crate::net::Net {
                        family: crate::net::Family::V6,
                        addr: a as u128,
                        prefix: 128,
                    },
                ),
                None => None,
            },
        }
    } else if all_digits(s, sl + 1, j) {
        match prefix_val(s, sl + 1, j) {
            Some(p) => match parse_v4(s, i, sl) {
                Some(a) => if p <= 32 {
                    Some(
                        crate::net::Net {
                            family: crate::net::Family::V4,
                            addr: a as u128,
                            prefix: p as u8,
                        },
                    )
                } else {
                    None
                },
                None => match parse_v6(s, i, sl) {
                    Some(a) => if p <= 128 {
                        Some(
                            crate::net::Net {
                                family: crate::net::Family::V6,
                                addr: a as u128,
                                prefix: p as u8,
                            },
                        )
                    } else {
                        None
                    },
                    None => None,
                },
            },
            None => None,
        }
    } else {
        match (parse_v4(s, i, sl), parse_v4(s, sl + 1, j)) {
            (Some(a), Some(m)) => match mask_prefix(m) {
                Some(p) => Some(
                    crate::net::Net {
                        family: crate::net::Family::V4,
                        addr: a as u128,
                        prefix: p as u8,
                    },
                ),
                None => None,
            },
            _ => None,
        }
    }
}

pub proof fn lemma_first_slash(s: Seq<u8>, i: int, j: int)
    requires
        0 <= i <= j <= s.len(),
    ensures
        i <= first_slash(s, i, j) <= j,
        first_slash(s, i, j) < j ==> s[first_slash(s, i, j)] == 47,
        forall|k: int| i <= k < first_slash(s, i, j) ==> s[k] != 47,
    decreases j - i,
{
    if i < j && s[i] != 47 {
        lemma_first_slash(s, i + 1, j);
    }
}

/// A digit run with a nonzero leading digit is at least as large as the
/// smallest number of its width.
pub proof fn lemma_digits_val_lower(s: Seq<u8>, i: int, j: int)
    requires
        0 <= i < j <= s.len(),
        forall|k: int| i <= k < j ==> is_digit(s[k]),
        s[i] != 48,
    ensures
        j - i >= 1 ==> digits_val(s, i, j) >= 1,
        j - i >= 2 ==> digits_val(s, i, j) >= 10,
        j - i >= 3 ==> digits_val(s, i, j) >= 100,
        j - i >= 4 ==> digits_val(s, i, j) >= 1000,
    decreases j - i,
{
    if i + 1 < j {
        lemma_digits_val_lower(s, i, j - 1);
        if j - i >= 5 {
            lemma_digits_val_nonneg(s, i, j - 1);
            assert(digits_val(s, i, j - 1) >= 1000);
        }
    } else {
        assert(digits_val(s, i, i) == 0);
    }
}

/// Two prefix lengths cannot denote the same netmask.
pub proof fn lemma_mask_unique(m: int, p1: int, p2: int)
    requires
        is_mask(m, p1),
        is_mask(m, p2),
    ensures
        p1 == p2,
{
    if p1 < p2 {
        vstd::arithmetic::power2::lemma_pow2_strictly_increases((32 - p2) as nat, (32 - p1) as nat);
    }
    if p2 < p1 {
        vstd::arithmetic::power2::lemma_pow2_strictly_increases((32 - p1) as nat, (32 - p2) as nat);
    }
}

/// A parsed network value is well formed.
pub proof fn lemma_parse_net_wf(s: Seq<u8>, i: int, j: int)
    requires
        0 <= i <= j <= s.len(),
        parse_net(s, i, j) is Some,
    ensures
        parse_net(s, i, j).unwrap().wf(),
{
    let sl = first_slash(s, i, j);
    lemma_first_slash(s, i, j);
    crate::net::lemma_pow2_128();
    if sl == j {
        if parse_v4(s, i, j) is Some {
            lemma_v4_at(s, i, j);
        } else {
            lemma_parse_v6_bound(s, i, j);
        }
    } else if all_digits(s, sl + 1, j) {
        if sl + 1 < j {
            lemma_digits_val_nonneg(s, sl + 1, j);
        }
        if parse_v4(s, i, sl) is Some {
            lemma_v4_at(s, i, sl);
        } else if parse_v6(s, i, sl) is Some {
            lemma_parse_v6_bound(s, i, sl);
        }
    } else {
        if parse_v4(s, i, sl) is Some && parse_v4(s, sl + 1, j) is Some {
            lemma_v4_at(s, i, sl);
            let m = parse_v4(s, sl + 1, j).unwrap();
            if mask_prefix(m) is Some {
                let p = choose|q: int| is_mask(m, q);
                assert(is_mask(m, p));
                assert(mask_prefix(m) == Some(p));
            }
        }
    }
}

/// A parsed IPv6 address fits in 128 bits.
pub proof fn lemma_parse_v6_bound(s: Seq<u8>, i: int, j: int)
    requires
        0 <= i <= j <= s.len(),
        parse_v6(s, i, j) is Some,
    ensures
        0 <= parse_v6(s, i, j).unwrap() < pow2(128),
{
    let d = first_dcolon(s, i, j);
    lemma_first_dcolon(s, i, j);
    if d == j {
        let gs = glist(s, i, j, true).unwrap();
        lemma_groups_val_bound(gs);
    } else {
        let l = if d == i {
            Seq::<u16>::empty()
        } else {
            glist(s, i, d, false).unwrap()
        };
        let r = if d + 2 == j {
            Seq::<u16>::empty()
        } else {
            glist(s, d + 2, j, true).unwrap()
        };
        let whole = l + zero_groups((8 - l.len() - r.len()) as nat) + r;
        assert(whole.len() == 8);
        lemma_groups_val_bound(whole);
    }
}

/// Index of the first `/` in `[i, j)`, or `j` if there is none.
pub(crate) fn first_slash_x(s: &[u8], i: usize, j: usize) -> (r: usize)
    requires
        i <= j <= s.len(),
    ensures
        r == first_slash(s@, i as int, j as int),
        i <= r <= j,
{
    proof {
        lemma_first_slash(s@, i as int, j as int);
    }
    let mut cur = i;
    while cur < j && s[cur] != 47
        invariant
            i <= cur <= j <= s.len(),
            first_slash(s@, i as int, j as int) == first_slash(s@, cur as int, j as int),
        decreases j - cur,
    {
        cur = cur + 1;
    }
    cur
}

pub(crate) fn all_digits_x(s: &[u8], i: usize, j: usize) -> (r: bool)
    requires
        i <= j <= s.len(),
    ensures
        r == all_digits(s@, i as int, j as int),
{
    let mut cur = i;
    while cur < j
        invariant
            i <= cur <= j <= s.len(),
            forall|k: int| i <= k < cur ==> is_digit(s@[k]),
        decreases j - cur,
    {
        if !is_digit_x(s[cur]) {
            return false;
        }
        cur = cur + 1;
    }
    true
}

/// Numeric value of a non-empty all-digit range, saturated to 1000 so the
/// result always fits: every prefix length of interest is below that.
pub(crate) fn prefix_val_x(s: &[u8], i: usize, j: usize) -> (r: Option<u32>)
    requires
        i <= j <= s.len(),
    ensures
        match (r, prefix_val(s@, i as int, j as int)) {
            (Some(v), Some(sv)) => (v == sv && sv <= 999) || (v == 1000 && sv >= 1000),
            (None, None) => true,
            _ => false,
        },
{
    if i == j || !all_digits_x(s, i, j) {
        return None;
    }
    let mut z = i;
    while z < j && s[z] == 48 && z + 1 < j
        invariant
            i <= z <= j <= s.len(),
            z < j,
            digits_val(s@, i as int, j as int) == digits_val(s@, z as int, j as int),
        decreases j - z,
    {
        proof {
            lemma_digits_val_skip_zero(s@, z as int, j as int);
        }
        z = z + 1;
    }
    if j - z > 3 {
        proof {
            lemma_digits_val_lower(s@, z as int, j as int);
        }
        return Some(1000);
    }
    proof {
        lemma_digits_val_bound(s@, z as int, j as int);
    }
    let mut cur = z;
    let mut val: u32 = 0;
    while cur < j
        invariant
            z <= cur <= j <= s.len(),
            j - z <= 3,
            forall|k: int| z as int <= k < j ==> is_digit(s@[k]),
            val == digits_val(s@, z as int, cur as int),
            val <= 999,
        decreases j - cur,
    {
        proof {
            lemma_digits_val_bound(s@, z as int, cur as int);
            lemma_digits_val_bound(s@, z as int, (cur + 1) as int);
        }
        val = val * 10 + (s[cur] - 48) as u32;
        cur = cur + 1;
    }
    Some(val)
}

/// The prefix length denoted by a contiguous 32-bit netmask.
pub(crate) fn mask_prefix_x(m: u32) -> (r: Option<u8>)
    ensures
        match (r, mask_prefix(m as int)) {
            (Some(p), Some(sp)) => p == sp,
            (None, None) => true,
            _ => false,
        },
{
    let mut p: u8 = 0;
    while p <= 32
        invariant
            p <= 33,
            forall|q: int| 0 <= q < p ==> !is_mask(m as int, q),
        decreases 33 - p,
    {
        let pw = crate::net::pow2_u128((32 - p));
        proof {
            lemma2_to64();
            if 32 - p < 32 {
                vstd::arithmetic::power2::lemma_pow2_strictly_increases((32 - p) as nat, 32);
            }
        }
        let mask_p: u128 = 0x1_0000_0000u128 - pw;
        if (m as u128) == mask_p {
            proof {
                assert(is_mask(m as int, p as int));
                let q = choose|q: int| is_mask(m as int, q);
                lemma_mask_unique(m as int, q, p as int);
            }
            return Some(p);
        }
        p = p + 1;
    }
    proof {
        assert(forall|q: int| is_mask(m as int, q) ==> 0 <= q < 33);
    }
    None
}

/// The network value denoted by the byte range `[i, j)`.
pub(crate) fn parse_net_x(s: &[u8], i: usize, j: usize) -> (r: Option<crate::net::Net>)
    requires
        i <= j <= s.len(),
    ensures
        r == parse_net(s@, i as int, j as int),
        r is Some ==> r.unwrap().wf(),
{
    proof {
        if parse_net(s@, i as int, j as int) is Some {
            lemma_parse_net_wf(s@, i as int, j as int);
        }
    }
    let sl = first_slash_x(s, i, j);
    if sl == j {
        match parse_v4_x(s, i, j) {
            Some(a) => Some(
                crate::net::Net { family: crate::net::Family::V4, addr: a as u128, prefix: 32 },
            ),
            None => match parse_v6_x(s, i, j) {
                Some(a) => Some(
                    crate::net::Net { family: crate::net::Family::V6, addr: a, prefix: 128 },
                ),
                None => None,
            },
        }
    } else if all_digits_x(s, sl + 1, j) {
        match prefix_val_x(s, sl + 1, j) {
            Some(p) => match parse_v4_x(s, i, sl) {
                Some(a) => if p <= 32 {
                    Some(
                        crate::net::Net {
                            family: crate::net::Family::V4,
                            addr: a as u128,
                            prefix: p as u8,
                        },
                    )
                } else {
                    None
                },
                None => match parse_v6_x(s, i, sl) {
                    Some(a) => if p <= 128 {
                        Some(
                            crate::net::Net {
                                family: crate::net::Family::V6,
                                addr: a,
                                prefix: p as u8,
                            },
                        )
                    } else {
                        None
                    },
                    None => None,
                },
            },
            None => None,
        }
    } else {
        match parse_v4_x(s, i, sl) {
            Some(a) => match parse_v4_x(s, sl + 1, j) {
                Some(m) => match mask_prefix_x(m) {
                    Some(p) => Some(
                        crate::net::Net {
                            family: crate::net::Family::V4,
                            addr: a as u128,
                            prefix: p,
                        },
                    ),
                    None => None,
                },
                None => None,
            },
            None => None,
        }
    }
}

// ---------------------------------------------------------------------------
// Canonical text form.  An address is rendered as a dotted quad (v4) or as
// eight uncompressed hexadecimal groups (v6), always followed by `/` and the
// prefix length in decimal.  Parsing this form gives back exactly the same
// value; the literal text of the original input may of course differ.

/// Decimal digits of `v`, for `0 <= v <= 999`, without leading zeros.
pub open spec fn dec_digits(v: int) -> Seq<u8> {
    if v < 10 {
        seq![(48 + v) as u8]
    } else if v < 100 {
        seq![(48 + v / 10) as u8, (48 + v % 10) as u8]
    } else {
        seq![(48 + v / 100) as u8, (48 + (v / 10) % 10) as u8, (48 + v % 10) as u8]
    }
}

pub open spec fn hex_digit_chr(v: int) -> u8 {
    if v < 10 {
        (48 + v) as u8
    } else {
        (87 + v) as u8
    }
}

/// Lowercase hexadecimal digits of `v`, for `0 <= v <= 0xffff`, without
/// leading zeros.
pub open spec fn hex_digits(v: int) -> Seq<u8> {
    if v < 0x10 {
        seq![hex_digit_chr(v)]
    } else if v < 0x100 {
        seq![hex_digit_chr(v / 0x10), hex_digit_chr(v % 0x10)]
    } else if v < 0x1000 {
        seq![
            hex_digit_chr(v / 0x100),
            hex_digit_chr((v / 0x10) % 0x10),
            hex_digit_chr(v % 0x10),
        ]
    } else {
        seq![
            hex_digit_chr(v / 0x1000),
            hex_digit_chr((v / 0x100) % 0x10),
            hex_digit_chr((v / 0x10) % 0x10),
            hex_digit_chr(v % 0x10),
        ]
    }
}

/// The text of an IPv4 address.
pub open spec fn fmt_v4(a: int) -> Seq<u8> {
    dec_digits(a / 0x1000000) + seq![46u8] + dec_digits((a / 0x10000) % 256) + seq![46u8]
        + dec_digits((a / 256) % 256) + seq![46u8] + dec_digits(a % 256)
}

/// The eight 16-bit groups of an IPv6 address, most significant first.
pub open spec fn v6_groups(a: int) -> Seq<u16> {
    Seq::new(8, |k: int| ((a / pow2((16 * (7 - k)) as nat) as int) % 0x10000) as u16)
}

/// Groups rendered in minimal hexadecimal, separated by single colons.
pub open spec fn fmt_groups(gs: Seq<u16>) -> Seq<u8>
    decreases gs.len(),
{
    if gs.len() == 0 {
        Seq::empty()
    } else if gs.len() == 1 {
        hex_digits(gs[0] as int)
    } else {
        hex_digits(gs[0] as int) + seq![58u8] + fmt_groups(gs.drop_first())
    }
}

/// The text of an IPv6 address: eight uncompressed groups.
pub open spec fn fmt_v6(a: int) -> Seq<u8> {
    fmt_groups(v6_groups(a))
}

/// The canonical text of a network value.
pub open spec fn fmt_net(n: crate::net::Net) -> Seq<u8> {
    (if n.family is V4 {
        fmt_v4(n.addr as int)
    } else {
        fmt_v6(n.addr as int)
    }) + seq![47u8] + dec_digits(n.prefix as int)
}

/// Groups render left to right: adding a group at the end appends its text
/// (and a separating colon when it is not the first).
pub proof fn lemma_fmt_groups_snoc(gs: Seq<u16>, g: u16)
    ensures
        gs.len() == 0 ==> fmt_groups(gs.push(g)) == hex_digits(g as int),
        gs.len() > 0 ==> fmt_groups(gs.push(g)) =~= fmt_groups(gs) + seq![58u8] + hex_digits(
            g as int,
        ),
    decreases gs.len(),
{
    if gs.len() == 0 {
        assert(gs.push(g) =~= seq![g]);
        assert(fmt_groups(seq![g]) == hex_digits(g as int));
    } else {
        lemma_fmt_groups_snoc(gs.drop_first(), g);
        assert(gs.push(g).drop_first() =~= gs.drop_first().push(g));
        assert(gs.push(g).len() == gs.len() + 1);
        assert(gs.push(g)[0] == gs[0]);
        if gs.len() == 1 {
            assert(gs.drop_first().len() == 0);
            assert(fmt_groups(gs.push(g)) == hex_digits(gs[0] as int) + seq![58u8] + hex_digits(
                g as int,
            ));
            assert(fmt_groups(gs) == hex_digits(gs[0] as int));
        } else {
            assert(fmt_groups(gs.push(g)) == hex_digits(gs[0] as int) + seq![58u8] + fmt_groups(
                gs.drop_first().push(g),
            ));
            assert(fmt_groups(gs.drop_first().push(g)) =~= fmt_groups(gs.drop_first())
                + seq![58u8] + hex_digits(g as int));
            assert(fmt_groups(gs) == hex_digits(gs[0] as int) + seq![58u8] + fmt_groups(
                gs.drop_first(),
            ));
            assert(fmt_groups(gs.push(g)) =~= fmt_groups(gs) + seq![58u8] + hex_digits(g as int));
        }
    }
}

/// Append the decimal digits of `v` (at most 999).
pub(crate) fn push_dec(out: &mut Vec<u8>, v: u32)
    requires
        v <= 999,
    ensures
        final(out)@ == old(out)@ + dec_digits(v as int),
{
    let ghost o0 = out@;
    if v < 10 {
        out.push((48 + v) as u8);
    } else if v < 100 {
        out.push((48 + v / 10) as u8);
        out.push((48 + v % 10) as u8);
    } else {
        out.push((48 + v / 100) as u8);
        out.push((48 + (v / 10) % 10) as u8);
        out.push((48 + v % 10) as u8);
    }
    proof {
        assert(out@ =~= o0 + dec_digits(v as int));
    }
}

/// Append the minimal hexadecimal digits of a 16-bit group.
pub(crate) fn push_hex(out: &mut Vec<u8>, v: u16)
    ensures
        final(out)@ == old(out)@ + hex_digits(v as int),
{
    let ghost o0 = out@;
    if v < 0x10 {
        out.push(hex_digit_chr_x(v as u32));
    } else if v < 0x100 {
        out.push(hex_digit_chr_x((v / 0x10) as u32));
        out.push(hex_digit_chr_x((v % 0x10) as u32));
    } else if v < 0x1000 {
        out.push(hex_digit_chr_x((v / 0x100) as u32));
        out.push(hex_digit_chr_x(((v / 0x10) % 0x10) as u32));
        out.push(hex_digit_chr_x((v % 0x10) as u32));
    } else {
        out.push(hex_digit_chr_x((v / 0x1000) as u32));
        out.push(hex_digit_chr_x(((v / 0x100) % 0x10) as u32));
        out.push(hex_digit_chr_x(((v / 0x10) % 0x10) as u32));
        out.push(hex_digit_chr_x((v % 0x10) as u32));
    }
    proof {
        assert(out@ =~= o0 + hex_digits(v as int));
    }
}

pub(crate) fn hex_digit_chr_x(v: u32) -> (r: u8)
    requires
        v <= 15,
    ensures
        r == hex_digit_chr(v as int),
{
    if v < 10 {
        (48 + v) as u8
    } else {
        (87 + v) as u8
    }
}

// ---------------------------------------------------------------------------
// Round trip: parsing the canonical text of a well-formed value gives back
// exactly that value.

/// Converse characterization of `digits_end`.
proof fn lemma_digits_end_conv(s: Seq<u8>, i: int, e: int, j: int)
    requires
        0 <= i <= e <= j <= s.len(),
        forall|k: int| i <= k < e ==> is_digit(s[k]),
        e < j ==> !is_digit(s[e]),
    ensures
        digits_end(s, i, j) == e,
    decreases e - i,
{
    if i < e {
        lemma_digits_end_conv(s, i + 1, e, j);
    }
}

/// Converse characterization of `first_slash`.
proof fn lemma_first_slash_conv(s: Seq<u8>, i: int, e: int, j: int)
    requires
        0 <= i <= e <= j <= s.len(),
        forall|k: int| i <= k < e ==> s[k] != 47,
        e < j ==> s[e] == 47,
    ensures
        first_slash(s, i, j) == e,
    decreases e - i,
{
    if i < e {
        lemma_first_slash_conv(s, i + 1, e, j);
    }
}

/// Converse characterization of `first_colon`.
proof fn lemma_first_colon_conv(s: Seq<u8>, i: int, e: int, j: int)
    requires
        0 <= i <= e <= j <= s.len(),
        forall|k: int| i <= k < e ==> s[k] != 58,
        e < j ==> s[e] == 58,
    ensures
        first_colon(s, i, j) == e,
    decreases e - i,
{
    if i < e {
        lemma_first_colon_conv(s, i + 1, e, j);
    }
}

/// `first_dcolon` finds nothing when no two adjacent colons exist.
proof fn lemma_first_dcolon_none(s: Seq<u8>, i: int, j: int)
    requires
        0 <= i <= j <= s.len(),
        forall|k: int| #![trigger s[k]] i <= k < j - 1 ==> !(s[k] == 58 && s[k + 1] == 58),
    ensures
        first_dcolon(s, i, j) == j,
    decreases j - i,
{
    if i + 1 < j {
        lemma_first_dcolon_none(s, i + 1, j);
    }
}

/// Every byte of `dec_digits(v)` is a decimal digit, and the first one is
/// `0` only for the one-digit text "0".
proof fn lemma_dec_digits_class(v: int)
    requires
        0 <= v <= 999,
    ensures
        1 <= dec_digits(v).len() <= 3,
        forall|k: int| 0 <= k < dec_digits(v).len() ==> is_digit(#[trigger] dec_digits(v)[k]),
        dec_digits(v)[0] == 48 ==> dec_digits(v).len() == 1,
{
}

/// Parsing the decimal text of `v` embedded in `s` gives back `v`.
proof fn lemma_dec_val(s: Seq<u8>, i: int, j: int, v: int)
    requires
        0 <= i <= j <= s.len(),
        0 <= v <= 999,
        s.subrange(i, j) == dec_digits(v),
    ensures
        all_digits(s, i, j),
        i < j,
        digits_val(s, i, j) == v,
        s[i] == 48 ==> j == i + 1,
    decreases j - i,
{
    lemma_dec_digits_class(v);
    let d = dec_digits(v);
    assert(j - i == d.len());
    assert(forall|k: int| i <= k < j ==> s[k] == d[k - i]);
    assert(digits_val(s, i, i) == 0);
    if d.len() == 1 {
        assert(digits_val(s, i, j) == digit_val(s[i]));
    } else if d.len() == 2 {
        assert(digits_val(s, i, i + 1) == digit_val(s[i]));
        assert(digits_val(s, i, j) == digits_val(s, i, i + 1) * 10 + digit_val(s[i + 1]));
        assert(digits_val(s, i, j) == (v / 10) * 10 + v % 10);
    } else {
        assert(digits_val(s, i, i + 1) == digit_val(s[i]));
        assert(digits_val(s, i, i + 2) == digits_val(s, i, i + 1) * 10 + digit_val(s[i + 1]));
        assert(digits_val(s, i, j) == digits_val(s, i, i + 2) * 10 + digit_val(s[i + 2]));
        assert(digits_val(s, i, j) == ((v / 100) * 10 + (v / 10) % 10) * 10 + v % 10);
        assert(v / 100 == (v / 10) / 10) by {
            vstd::arithmetic::div_mod::lemma_div_denominator(v, 10, 10);
        }
        assert((v / 10) == ((v / 10) / 10) * 10 + (v / 10) % 10) by {
            vstd::arithmetic::div_mod::lemma_fundamental_div_mod(v / 10, 10);
        }
        assert(v == (v / 10) * 10 + v % 10) by {
            vstd::arithmetic::div_mod::lemma_fundamental_div_mod(v, 10);
        }
    }
}

/// Parsing the decimal text of an octet value embedded in `s` finds exactly
/// that octet.
proof fn lemma_octet_embed(s: Seq<u8>, i: int, j: int, v: int)
    requires
        0 <= i <= s.len(),
        0 <= v <= 255,
        i + dec_digits(v).len() <= j <= s.len(),
        s.subrange(i, i + dec_digits(v).len()) == dec_digits(v),
        i + dec_digits(v).len() < j ==> !is_digit(s[i + dec_digits(v).len()]),
    ensures
        octet_at(s, i, j) == Some((v, i + dec_digits(v).len())),
{
    let e = i + dec_digits(v).len();
    lemma_dec_val(s, i, e, v);
    lemma_dec_digits_class(v);
    lemma_digits_end_conv(s, i, e, j);
}

/// The four octets of a 32-bit value recombine to that value.
proof fn lemma_v4_recompose(a: int)
    requires
        0 <= a < 0x1_0000_0000,
    ensures
        ((((a / 0x1000000) * 256 + (a / 0x10000) % 256) * 256 + (a / 256) % 256) * 256 + a % 256)
            == a,
        a / 0x1000000 <= 255,
        0 <= a / 0x1000000,
        0 <= (a / 0x10000) % 256 <= 255,
        0 <= (a / 256) % 256 <= 255,
        0 <= a % 256 <= 255,
{
    vstd::arithmetic::div_mod::lemma_fundamental_div_mod(a, 256);
    vstd::arithmetic::div_mod::lemma_fundamental_div_mod(a / 256, 256);
    vstd::arithmetic::div_mod::lemma_fundamental_div_mod(a / 0x10000, 256);
    vstd::arithmetic::div_mod::lemma_div_denominator(a, 256, 256);
    vstd::arithmetic::div_mod::lemma_div_denominator(a, 0x10000, 256);
    vstd::arithmetic::div_mod::lemma_mod_division_less_than_divisor(a, 256);
    vstd::arithmetic::div_mod::lemma_mod_division_less_than_divisor(a / 256, 256);
    vstd::arithmetic::div_mod::lemma_mod_division_less_than_divisor(a / 0x10000, 256);
    vstd::arithmetic::div_mod::lemma_div_pos_is_pos(a, 256);
    vstd::arithmetic::div_mod::lemma_div_pos_is_pos(a / 256, 256);
    vstd::arithmetic::div_mod::lemma_div_pos_is_pos(a / 0x10000, 256);
}

/// Parsing the text of an IPv4 value gives back that value.
proof fn lemma_v4_embed(s: Seq<u8>, i: int, j: int, a: int)
    requires
        0 <= i <= j <= s.len(),
        0 <= a < 0x1_0000_0000,
        s.subrange(i, j) == fmt_v4(a),
    ensures
        parse_v4(s, i, j) == Some(a),
{
    let o0 = a / 0x1000000;
    let o1 = (a / 0x10000) % 256;
    let o2 = (a / 256) % 256;
    let o3 = a % 256;
    lemma_v4_recompose(a);
    lemma_dec_digits_class(o0);
    lemma_dec_digits_class(o1);
    lemma_dec_digits_class(o2);
    lemma_dec_digits_class(o3);
    let l0 = dec_digits(o0).len();
    let l1 = dec_digits(o1).len();
    let l2 = dec_digits(o2).len();
    let l3 = dec_digits(o3).len();
    let f = fmt_v4(a);
    assert(f.len() == l0 + 1 + l1 + 1 + l2 + 1 + l3);
    assert(forall|k: int| i <= k < j ==> s[k] == f[k - i]);
    let p0 = i;
    let p1 = i + l0 + 1;
    let p2 = p1 + l1 + 1;
    let p3 = p2 + l2 + 1;
    assert(s.subrange(p0, p0 + l0) =~= dec_digits(o0));
    assert(s.subrange(p1, p1 + l1) =~= dec_digits(o1));
    assert(s.subrange(p2, p2 + l2) =~= dec_digits(o2));
    assert(s.subrange(p3, p3 + l3) =~= dec_digits(o3));
    assert(s[p0 + l0] == 46);
    assert(s[p1 + l1] == 46);
    assert(s[p2 + l2] == 46);
    lemma_octet_embed(s, p0, j, o0);
    lemma_octet_embed(s, p1, j, o1);
    lemma_octet_embed(s, p2, j, o2);
    lemma_octet_embed(s, p3, j, o3);
    assert(v4_at(s, i, j) == Some((((o0 * 256 + o1) * 256 + o2) * 256 + o3, p3 + l3)));
}

/// Every byte of `hex_digits(v)` is a hexadecimal digit.
proof fn lemma_hex_digits_class(v: int)
    requires
        0 <= v <= 0xffff,
    ensures
        1 <= hex_digits(v).len() <= 4,
        forall|k: int| 0 <= k < hex_digits(v).len() ==> is_hex_digit(#[trigger] hex_digits(v)[k]),
{
    assert(0 <= v % 0x10 < 0x10);
    assert(0 <= (v / 0x10) % 0x10 < 0x10);
    assert(0 <= (v / 0x100) % 0x10 < 0x10);
    assert(v / 0x1000 < 0x10);
}

/// Parsing the hexadecimal text of `v` embedded in `s` gives back `v`.
proof fn lemma_hex_val(s: Seq<u8>, i: int, j: int, v: int)
    requires
        0 <= i <= j <= s.len(),
        0 <= v <= 0xffff,
        s.subrange(i, j) == hex_digits(v),
    ensures
        hex_group_ok(s, i, j),
        hex_val(s, i, j) == v,
{
    lemma_hex_digits_class(v);
    let d = hex_digits(v);
    assert(j - i == d.len());
    assert(forall|k: int| i <= k < j ==> s[k] == d[k - i]);
    assert(hex_val(s, i, i) == 0);
    if d.len() == 1 {
        assert(hex_val(s, i, j) == hex_digit_val(s[i]));
        assert(hex_digit_val(hex_digit_chr(v)) == v);
    } else if d.len() == 2 {
        assert(hex_val(s, i, i + 1) == hex_digit_val(s[i]));
        assert(hex_val(s, i, j) == hex_val(s, i, i + 1) * 16 + hex_digit_val(s[i + 1]));
        assert(hex_digit_val(hex_digit_chr(v / 0x10)) == v / 0x10);
        assert(hex_digit_val(hex_digit_chr(v % 0x10)) == v % 0x10);
        assert(v == (v / 0x10) * 16 + v % 0x10) by {
            vstd::arithmetic::div_mod::lemma_fundamental_div_mod(v, 16);
        }
    } else if d.len() == 3 {
        assert(hex_val(s, i, i + 1) == hex_digit_val(s[i]));
        assert(hex_val(s, i, i + 2) == hex_val(s, i, i + 1) * 16 + hex_digit_val(s[i + 1]));
        assert(hex_val(s, i, j) == hex_val(s, i, i + 2) * 16 + hex_digit_val(s[i + 2]));
        assert(v / 0x100 == (v / 0x10) / 0x10) by {
            vstd::arithmetic::div_mod::lemma_div_denominator(v, 0x10, 0x10);
        }
        assert((v / 0x10) == ((v / 0x10) / 0x10) * 16 + (v / 0x10) % 0x10) by {
            vstd::arithmetic::div_mod::lemma_fundamental_div_mod(v / 0x10, 16);
        }
        assert(v == (v / 0x10) * 16 + v % 0x10) by {
            vstd::arithmetic::div_mod::lemma_fundamental_div_mod(v, 16);
        }
    } else {
        assert(hex_val(s, i, i + 1) == hex_digit_val(s[i]));
        assert(hex_val(s, i, i + 2) == hex_val(s, i, i + 1) * 16 + hex_digit_val(s[i + 1]));
        assert(hex_val(s, i, i + 3) == hex_val(s, i, i + 2) * 16 + hex_digit_val(s[i + 2]));
        assert(hex_val(s, i, j) == hex_val(s, i, i + 3) * 16 + hex_digit_val(s[i + 3]));
        assert(v / 0x1000 == (v / 0x100) / 0x10) by {
            vstd::arithmetic::div_mod::lemma_div_denominator(v, 0x100, 0x10);
        }
        assert(v / 0x100 == (v / 0x10) / 0x10) by {
            vstd::arithmetic::div_mod::lemma_div_denominator(v, 0x10, 0x10);
        }
        assert((v / 0x100) == ((v / 0x100) / 0x10) * 16 + (v / 0x100) % 0x10) by {
            vstd::arithmetic::div_mod::lemma_fundamental_div_mod(v / 0x100, 16);
        }
        assert((v / 0x10) == ((v / 0x10) / 0x10) * 16 + (v / 0x10) % 0x10) by {
            vstd::arithmetic::div_mod::lemma_fundamental_div_mod(v / 0x10, 16);
        }
        assert(v == (v / 0x10) * 16 + v % 0x10) by {
            vstd::arithmetic::div_mod::lemma_fundamental_div_mod(v, 16);
        }
    }
}

/// The text of a group list has at least one byte, starts with a hex digit,
/// and every byte is a hex digit or a colon, with no two adjacent colons.
proof fn lemma_fmt_groups_class(gs: Seq<u16>)
    requires
        gs.len() >= 1,
    ensures
        fmt_groups(gs).len() >= 1,
        is_hex_digit(fmt_groups(gs)[0]),
        forall|k: int| 0 <= k < fmt_groups(gs).len() ==> (is_hex_digit(
            #[trigger] fmt_groups(gs)[k],
        ) || fmt_groups(gs)[k] == 58),
        forall|k: int| #![trigger fmt_groups(gs)[k]] 0 <= k < fmt_groups(gs).len() - 1 ==> !(
        fmt_groups(gs)[k] == 58 && fmt_groups(gs)[k + 1] == 58),
    decreases gs.len(),
{
    lemma_hex_digits_class(gs[0] as int);
    if gs.len() > 1 {
        lemma_fmt_groups_class(gs.drop_first());
        let h = hex_digits(gs[0] as int);
        let rest = fmt_groups(gs.drop_first());
        let f = fmt_groups(gs);
        assert(f == h + seq![58u8] + rest);
        assert(forall|k: int| 0 <= k < h.len() ==> f[k] == h[k]);
        assert(f[h.len() as int] == 58);
        assert(forall|k: int| h.len() + 1 <= k < f.len() ==> f[k] == rest[k - h.len() - 1]);
    }
}

/// Parsing the text of a group list gives back exactly those groups.
#[verifier::rlimit(100)]
proof fn lemma_glist_embed(s: Seq<u8>, i: int, j: int, gs: Seq<u16>)
    requires
        0 <= i <= j <= s.len(),
        gs.len() >= 1,
        s.subrange(i, j) == fmt_groups(gs),
    ensures
        glist(s, i, j, true) == Some(gs),
        glist(s, i, j, false) == Some(gs),
    decreases gs.len(),
{
    lemma_fmt_groups_class(gs);
    lemma_hex_digits_class(gs[0] as int);
    let f = fmt_groups(gs);
    assert(j - i == f.len());
    assert(forall|k: int| i <= k < j ==> s[k] == f[k - i]);
    let h = hex_digits(gs[0] as int);
    if gs.len() == 1 {
        assert(f == h);
        assert(forall|k: int| i <= k < j ==> s[k] != 58) by {
            assert(forall|k: int| 0 <= k < h.len() ==> is_hex_digit(#[trigger] h[k]));
        }
        lemma_first_colon_conv(s, i, j, j);
        assert(s.subrange(i, j) =~= hex_digits(gs[0] as int));
        lemma_hex_val(s, i, j, gs[0] as int);
        assert(seq![(hex_val(s, i, j) as u16)] =~= gs);
    } else {
        let rest = gs.drop_first();
        let fr = fmt_groups(rest);
        assert(f == h + seq![58u8] + fr);
        let c = i + h.len();
        assert(forall|k: int| 0 <= k < h.len() ==> f[k] == h[k]);
        assert(f[h.len() as int] == 58);
        assert(forall|k: int| h.len() + 1 <= k < f.len() ==> f[k] == fr[k - h.len() - 1]);
        assert(forall|k: int| i <= k < c ==> s[k] != 58) by {
            assert(forall|k: int| 0 <= k < h.len() ==> is_hex_digit(#[trigger] h[k]));
        }
        assert(s[c] == 58);
        lemma_first_colon_conv(s, i, c, j);
        assert(s.subrange(i, c) =~= hex_digits(gs[0] as int));
        lemma_hex_val(s, i, c, gs[0] as int);
        lemma_fmt_groups_class(rest);
        assert(c + 1 < j);
        assert(s.subrange(c + 1, j) =~= fmt_groups(rest));
        lemma_glist_embed(s, c + 1, j, rest);
        assert(seq![(hex_val(s, i, c) as u16)] + rest =~= gs);
    }
}

/// The eight groups of a 128-bit value recombine to that value.
proof fn lemma_groups_val_decompose(a: int)
    requires
        0 <= a < pow2(128),
    ensures
        groups_val(v6_groups(a)) == a,
{
    let gs = v6_groups(a);
    assert forall|m: int| 0 <= m <= 8 implies groups_val(gs.take(m)) == a / pow2(
        (16 * (8 - m)) as nat,
    ) as int by {
        lemma_groups_val_take(a, m);
    }
    assert(gs.take(8) =~= gs);
    assert(groups_val(gs) == a / pow2(0) as int);
    lemma2_to64();
    assert(a / 1 == a) by {
        vstd::arithmetic::div_mod::lemma_div_basics_1(a);
    }
}

proof fn lemma_groups_val_take(a: int, m: int)
    requires
        0 <= a < pow2(128),
        0 <= m <= 8,
    ensures
        groups_val(v6_groups(a).take(m)) == a / pow2((16 * (8 - m)) as nat) as int,
    decreases m,
{
    let gs = v6_groups(a);
    if m == 0 {
        assert(gs.take(0) =~= Seq::<u16>::empty());
        assert(groups_val(gs.take(0)) == 0);
        crate::net::lemma_pow2_128();
        assert(a / pow2(128) as int == 0) by {
            vstd::arithmetic::div_mod::lemma_basic_div(a, pow2(128) as int);
        }
    } else {
        lemma_groups_val_take(a, m - 1);
        let p_small = pow2((16 * (8 - m)) as nat) as int;
        let b = a / p_small;
        assert(gs.take(m).drop_last() =~= gs.take(m - 1));
        assert(gs.take(m).last() == gs[m - 1]);
        assert(gs[m - 1] == ((a / pow2((16 * (7 - (m - 1))) as nat) as int) % 0x10000) as u16);
        assert(16 * (7 - (m - 1)) == 16 * (8 - m));
        lemma_pow2_adds((16 * (8 - m)) as nat, 16);
        lemma2_to64();
        assert(pow2((16 * (9 - m)) as nat) as int == p_small * 0x10000);
        assert(b / 0x10000 == a / (p_small * 0x10000)) by {
            vstd::arithmetic::power2::lemma_pow2_pos((16 * (8 - m)) as nat);
            vstd::arithmetic::div_mod::lemma_div_denominator(a, p_small, 0x10000);
        }
        assert(0 <= b % 0x10000 < 0x10000) by {
            vstd::arithmetic::div_mod::lemma_mod_division_less_than_divisor(b, 0x10000);
        }
        assert(b == (b / 0x10000) * 0x10000 + b % 0x10000) by {
            vstd::arithmetic::div_mod::lemma_fundamental_div_mod(b, 0x10000);
        }
        assert(groups_val(gs.take(m)) == groups_val(gs.take(m - 1)) * 0x10000 + gs[m - 1]);
    }
}

/// Parsing the text of an IPv6 value gives back that value.
proof fn lemma_v6_embed(s: Seq<u8>, i: int, j: int, a: int)
    requires
        0 <= i <= j <= s.len(),
        0 <= a < pow2(128),
        s.subrange(i, j) == fmt_v6(a),
    ensures
        parse_v6(s, i, j) == Some(a),
{
    let gs = v6_groups(a);
    assert(gs.len() == 8);
    lemma_fmt_groups_class(gs);
    let f = fmt_groups(gs);
    assert(forall|k: int| i <= k < j ==> s[k] == f[k - i]);
    assert(forall|k: int| #![trigger s[k]] i <= k < j - 1 ==> !(s[k] == 58 && s[k + 1] == 58)) by {
        assert(forall|k: int| #![trigger f[k]] 0 <= k < f.len() - 1 ==> !(f[k] == 58 && f[k + 1]
            == 58));
    }
    lemma_first_dcolon_none(s, i, j);
    lemma_glist_embed(s, i, j, gs);
    lemma_groups_val_decompose(a);
}

/// Parsing the canonical text of a well-formed network value gives back
/// exactly that value: the round trip through text form is the identity,
/// even where the original input text was written differently.
#[verifier::rlimit(100)]
pub proof fn lemma_text_roundtrip(n: crate::net::Net)
    requires
        n.wf(),
    ensures
        parse_net(fmt_net(n), 0, fmt_net(n).len() as int) == Some(n),
{
    let s = fmt_net(n);
    let a = n.addr as int;
    let ap = if n.family is V4 {
        fmt_v4(a)
    } else {
        fmt_v6(a)
    };
    let sl = ap.len() as int;
    let j = s.len() as int;
    assert(s == ap + seq![47u8] + dec_digits(n.prefix as int));
    lemma_dec_digits_class(n.prefix as int);
    assert(forall|k: int| 0 <= k < sl ==> s[k] == ap[k]);
    assert(s[sl] == 47);
    assert(forall|k: int| sl + 1 <= k < j ==> s[k] == dec_digits(n.prefix as int)[k - sl - 1]);
    crate::net::lemma_pow2_128();
    // The single slash separates the address from the prefix.
    if n.family is V4 {
        lemma_v4_recompose(a);
        lemma_dec_digits_class(a / 0x1000000);
        lemma_dec_digits_class((a / 0x10000) % 256);
        lemma_dec_digits_class((a / 256) % 256);
        lemma_dec_digits_class(a % 256);
        assert(forall|k: int| 0 <= k < sl ==> #[trigger] ap[k] != 47) by {
            lemma_fmt_v4_class(a);
        }
        assert(forall|k: int| 0 <= k < sl ==> s[k] != 47);
        lemma_first_slash_conv(s, 0, sl, j);
        assert(s.subrange(0, sl) =~= fmt_v4(a));
        lemma_v4_embed(s, 0, sl, a);
        assert(s.subrange(sl + 1, j) =~= dec_digits(n.prefix as int));
        lemma_dec_val(s, sl + 1, j, n.prefix as int);
        assert(all_digits(s, sl + 1, j));
        assert(prefix_val(s, sl + 1, j) == Some(n.prefix as int));
        assert(parse_net(s, 0, j) == Some(
            crate::net::Net {
                family: crate::net::Family::V4,
                addr: (a as u128),
                prefix: (n.prefix as int) as u8,
            },
        ));
    } else {
        let gs = v6_groups(a);
        lemma_fmt_groups_class(gs);
        assert(forall|k: int| 0 <= k < sl ==> (is_hex_digit(#[trigger] ap[k]) || ap[k] == 58));
        assert(forall|k: int| 0 <= k < sl ==> s[k] != 47);
        lemma_first_slash_conv(s, 0, sl, j);
        assert(s.subrange(0, sl) =~= fmt_v6(a));
        lemma_v6_embed(s, 0, sl, a);
        // The hex-and-colon text cannot parse as a dotted quad: a quad needs
        // a period after its first octet.
        assert(parse_v4(s, 0, sl) is None) by {
            if v4_at(s, 0, sl) is Some {
                lemma_digits_end(s, 0, sl);
                let e0 = digits_end(s, 0, sl);
                assert(octet_at(s, 0, sl) is Some ==> e0 < sl && s[e0] == 46);
                assert(forall|k: int| 0 <= k < sl ==> s[k] != 46);
            }
        }
        assert(s.subrange(sl + 1, j) =~= dec_digits(n.prefix as int));
        lemma_dec_val(s, sl + 1, j, n.prefix as int);
        assert(prefix_val(s, sl + 1, j) == Some(n.prefix as int));
        assert(parse_net(s, 0, j) == Some(
            crate::net::Net {
                family: crate::net::Family::V6,
                addr: (a as u128),
                prefix: (n.prefix as int) as u8,
            },
        ));
    }
}

/// Any byte range accepted as a network value round-trips: rendering the
/// value back to text and parsing that text yields an equal value.
pub proof fn lemma_accepted_text_roundtrip(s: Seq<u8>, i: int, j: int)
    requires
        0 <= i <= j <= s.len(),
        parse_net(s, i, j) is Some,
    ensures
        ({
            let n = parse_net(s, i, j).unwrap();
            parse_net(fmt_net(n), 0, fmt_net(n).len() as int) == Some(n)
        }),
{
    lemma_parse_net_wf(s, i, j);
    lemma_text_roundtrip(parse_net(s, i, j).unwrap());
}

/// Every byte of an IPv4 text is a digit or a period.
proof fn lemma_fmt_v4_class(a: int)
    requires
        0 <= a < 0x1_0000_0000,
    ensures
        forall|k: int| 0 <= k < fmt_v4(a).len() ==> (is_digit(#[trigger] fmt_v4(a)[k]) || fmt_v4(
            a,
        )[k] == 46),
{
    lemma_v4_recompose(a);
    lemma_dec_digits_class(a / 0x1000000);
    lemma_dec_digits_class((a / 0x10000) % 256);
    lemma_dec_digits_class((a / 256) % 256);
    lemma_dec_digits_class(a % 256);
}

} // verus!
