use vstd::prelude::*;

verus! {

use crate::parse::{digits_end, is_digit, is_hex_digit, is_digit_x, is_hex_digit_x,
    lemma_digits_end};

// The lexical scanner walks a byte buffer once, left to right, and yields
// candidate spans that are shaped like an IP address or network.  The spec
// functions below are an explicit state machine with one function per state
// (idle scan, IPv4 run, IPv6 run, numeric suffix, dotted-mask suffix): they
// define, for every buffer and cursor, exactly which span the next step
// yields and where the cursor lands.  The executable scanner is proved equal
// to this machine, so the full span sequence of a scan (`scan_spans`) is
// pinned down by the contracts.

// ---------------------------------------------------------------------------
// Byte classes of the scanner.

pub open spec fn is_letter(b: u8) -> bool {
    (97 <= b && b <= 122) || (65 <= b && b <= 90)
}

pub open spec fn is_hex_letter(b: u8) -> bool {
    (97 <= b && b <= 102) || (65 <= b && b <= 70)
}

/// A byte that can start an IPv6-shaped run.
pub open spec fn scan_class(b: u8) -> bool {
    is_hex_digit(b) || b == 58
}

/// The byte just before `p` is a colon.
pub open spec fn delim_at(s: Seq<u8>, p: int) -> bool {
    1 <= p <= s.len() && s[p - 1] == 58
}

// ---------------------------------------------------------------------------
// Cursor positions after skipping a rejected run.  Each skip places the
// cursor one past the end of the offending run, capped at the buffer end.

/// End of the run of digits and periods starting at `i`.
pub open spec fn digit_period_end(s: Seq<u8>, i: int, j: int) -> int
    decreases j - i,
{
    if i < j && (is_digit(s[i]) || s[i] == 46) {
        digit_period_end(s, i + 1, j)
    } else {
        i
    }
}

/// End of the run of letters starting at `i`.
pub open spec fn letter_end(s: Seq<u8>, i: int, j: int) -> int
    decreases j - i,
{
    if i < j && is_letter(s[i]) {
        letter_end(s, i + 1, j)
    } else {
        i
    }
}

pub open spec fn seek_digits_pos(s: Seq<u8>, x: int) -> int {
    let e = digits_end(s, x, s.len() as int);
    if e < s.len() {
        e + 1
    } else {
        s.len() as int
    }
}

pub open spec fn seek_digits_periods_pos(s: Seq<u8>, x: int) -> int {
    let e = digit_period_end(s, x, s.len() as int);
    if e < s.len() {
        e + 1
    } else {
        s.len() as int
    }
}

pub open spec fn seek_letters_pos(s: Seq<u8>, x: int) -> int {
    let e = letter_end(s, x, s.len() as int);
    if e < s.len() {
        e + 1
    } else {
        s.len() as int
    }
}

proof fn lemma_digit_period_end(s: Seq<u8>, i: int, j: int)
    requires
        0 <= i <= j <= s.len(),
    ensures
        i <= digit_period_end(s, i, j) <= j,
    decreases j - i,
{
    if i < j && (is_digit(s[i]) || s[i] == 46) {
        lemma_digit_period_end(s, i + 1, j);
    }
}

proof fn lemma_letter_end(s: Seq<u8>, i: int, j: int)
    requires
        0 <= i <= j <= s.len(),
    ensures
        i <= letter_end(s, i, j) <= j,
    decreases j - i,
{
    if i < j && is_letter(s[i]) {
        lemma_letter_end(s, i + 1, j);
    }
}

proof fn lemma_seek_positions(s: Seq<u8>, x: int)
    requires
        0 <= x <= s.len(),
    ensures
        x <= seek_digits_pos(s, x) <= s.len(),
        x <= seek_digits_periods_pos(s, x) <= s.len(),
        x <= seek_letters_pos(s, x) <= s.len(),
{
    lemma_digits_end(s, x, s.len() as int);
    lemma_digit_period_end(s, x, s.len() as int);
    lemma_letter_end(s, x, s.len() as int);
}

// ---------------------------------------------------------------------------
// One step of the machine: each state function returns the yielded span (or
// none) together with the new cursor.

/// Walk a dotted-mask suffix: digits grow the current group, a period closes
/// a group of one to three digits, anything else ends the walk.  The mask is
/// shaped right once a digit lands in the fourth group.  Returns the index
/// where the walk stopped and whether the shape was reached.
pub open spec fn mask_slurp(s: Seq<u8>, i: int, nd: int, dots: int, valid: bool) -> (int, bool)
    decreases s.len() - i,
        when 0 <= i <= s.len()
{
    if i >= s.len() {
        (i, valid)
    } else {
        let b = s[i];
        if is_digit(b) {
            mask_slurp(
                s,
                i + 1,
                nd + 1,
                dots,
                if dots == 3 {
                    true
                } else {
                    valid
                },
            )
        } else if b == 46 {
            if nd > 3 {
                mask_slurp(s, i + 1, nd, dots, false)
            } else if nd == 0 {
                (i, valid)
            } else {
                mask_slurp(s, i + 1, 0, dots + 1, valid)
            }
        } else {
            (i, valid)
        }
    }
}

/// After a `/` at `end - 1`: up to three digits are a numeric prefix
/// length; none or more than three roll the token back to just before the
/// slash; a digit run followed by `.`+digit is attempted as a dotted mask
/// when `oldnet` allows, keeping the whole mask on success and rolling back
/// on failure.  Always yields a span starting at `start`.
pub open spec fn netmask_spec(s: Seq<u8>, start: int, end: int, oldnet: bool) -> (
    Option<(int, int)>,
    int,
) {
    let len = s.len() as int;
    let de = digits_end(s, end, len);
    let i1 = if de > end + 4 {
        end + 4
    } else {
        de
    };
    let nd = i1 - end;
    if nd == 0 || nd > 3 {
        (Some((start, end - 1)), end)
    } else if i1 < len && s[i1] == 46 && i1 + 1 < len && is_digit(s[i1 + 1]) {
        if !oldnet {
            (Some((start, end - 1)), end)
        } else {
            let sl = mask_slurp(s, i1 + 1, 0, 1, false);
            let p2 = if sl.0 < len {
                sl.0 + 1
            } else {
                len
            };
            if sl.1 {
                (Some((start, sl.0)), p2)
            } else {
                (Some((start, end - 1)), p2)
            }
        }
    } else {
        (
            Some((start, i1)),
            if i1 < len {
                i1 + 1
            } else {
                len
            },
        )
    }
}

/// Legal endings of an IPv4 run whose last group ended at `end`: the buffer
/// end or a `/` suffix keep the span; a letter (word-embedded digits) or a
/// fifth dotted group reject the whole run; anything else ends the span at
/// `end`.
pub open spec fn v4_finish(s: Seq<u8>, start: int, end: int, numsize: int, oldnet: bool) -> (
    Option<(int, int)>,
    int,
) {
    let len = s.len() as int;
    if numsize == 0 {
        (
            None,
            if end < len {
                end + 1
            } else {
                len
            },
        )
    } else if end >= len {
        (Some((start, len)), len)
    } else if s[end] == 47 {
        netmask_spec(s, start, end + 1, oldnet)
    } else if is_letter(s[end]) {
        (None, seek_letters_pos(s, end + 1))
    } else if s[end] == 46 && end + 1 < len && is_digit(s[end + 1]) {
        (None, seek_digits_periods_pos(s, end + 1))
    } else {
        (Some((start, end)), end + 1)
    }
}

/// The fourth digit group of an IPv4 run: up to three digits, a fourth
/// digit rejects the run.
pub open spec fn v4_fourth(s: Seq<u8>, start: int, end: int, numsize: int, oldnet: bool) -> (
    Option<(int, int)>,
    int,
)
    decreases s.len() - end,
        when end <= s.len()
{
    if end >= s.len() {
        v4_finish(s, start, end, numsize, oldnet)
    } else if is_digit(s[end]) {
        if numsize + 1 > 3 {
            (None, seek_digits_pos(s, end + 1))
        } else {
            v4_fourth(s, start, end + 1, numsize + 1, oldnet)
        }
    } else {
        v4_finish(s, start, end, numsize, oldnet)
    }
}

/// The first three digit groups of an IPv4 run, separated by periods: a
/// fourth digit in a group, an empty group, or a foreign byte reject the
/// run; the third period hands over to the fourth group.
pub open spec fn v4_groups(
    s: Seq<u8>,
    start: int,
    end: int,
    numsize: int,
    dots: int,
    oldnet: bool,
) -> (Option<(int, int)>, int)
    decreases s.len() - end,
        when end <= s.len()
{
    if end >= s.len() {
        v4_fourth(s, start, end, numsize, oldnet)
    } else {
        let b = s[end];
        if is_digit(b) {
            if numsize + 1 > 3 {
                (None, seek_digits_pos(s, end + 1))
            } else {
                v4_groups(s, start, end + 1, numsize + 1, dots, oldnet)
            }
        } else if b == 46 {
            if numsize == 0 {
                (None, end)
            } else if dots + 1 == 3 {
                v4_fourth(s, start, end + 1, 0, oldnet)
            } else {
                v4_groups(s, start, end + 1, 0, dots + 1, oldnet)
            }
        } else {
            (None, end)
        }
    }
}

/// The IPv4 path, entered at a digit.
pub open spec fn try_ipv4_spec(s: Seq<u8>, start: int, oldnet: bool) -> (Option<(int, int)>, int) {
    v4_groups(s, start, start + 1, 1, 0, oldnet)
}

/// The run starts with the IPv4-mapped opening `::ffff:` (case-insensitive).
pub open spec fn mapped_opening(s: Seq<u8>, start: int) -> bool {
    s[start] == 58 && s[start + 1] == 58 && (s[start + 2] == 102 || s[start + 2] == 70) && (s[start
        + 3] == 102 || s[start + 3] == 70) && (s[start + 4] == 102 || s[start + 4] == 70) && (s[
    start + 5] == 102 || s[start + 5] == 70) && s[start + 6] == 58
}

/// The IPv6 path: hex digits and colons extend the run; a period ends the
/// token just before it unless the run opened with `::ffff:`; a `/` starts
/// a numeric suffix once two colons were seen, else rejects; a letter
/// beyond the hex range rejects; the run is a span only with two or more
/// colons.
pub open spec fn v6_run(s: Seq<u8>, start: int, end: int, colons: int) -> (Option<(int, int)>, int)
    decreases s.len() - end,
        when end <= s.len()
{
    let len = s.len() as int;
    if end >= len {
        (
            if colons >= 2 {
                Some((start, end))
            } else {
                None
            },
            len,
        )
    } else {
        let b = s[end];
        if is_hex_digit(b) {
            v6_run(s, start, end + 1, colons)
        } else if b == 58 {
            v6_run(s, start, end + 1, colons + 1)
        } else if b == 46 {
            if len - start > 7 && !mapped_opening(s, start) {
                (Some((start, end)), end + 1)
            } else {
                v6_run(s, start, end + 1, colons)
            }
        } else if b == 47 {
            if colons >= 2 {
                netmask_spec(s, start, end + 1, false)
            } else {
                (None, end + 1)
            }
        } else if (103 <= b && b <= 122) || (71 <= b && b <= 90) {
            (None, end + 1)
        } else {
            (
                if colons >= 2 {
                    Some((start, end))
                } else {
                    None
                },
                end + 1,
            )
        }
    }
}

/// The IPv6 path, entered at a hex digit or colon.
pub open spec fn try_ipv6_spec(s: Seq<u8>, start: int) -> (Option<(int, int)>, int) {
    v6_run(s, start, start, 0)
}

/// At a digit with at least seven bytes left: peek up to three bytes ahead
/// to route to the IPv4 or IPv6 path, or reject the short digit run.
pub open spec fn peek_spec(s: Seq<u8>, pos: int, oldnet: bool) -> (Option<(int, int)>, int) {
    let b1 = s[pos + 1];
    if is_digit(b1) {
        let b2 = s[pos + 2];
        if is_digit(b2) {
            let b3 = s[pos + 3];
            if is_digit(b3) || is_hex_letter(b3) || b3 == 58 {
                try_ipv6_spec(s, pos)
            } else if b3 == 46 {
                try_ipv4_spec(s, pos, oldnet)
            } else {
                (None, pos + 4)
            }
        } else if is_hex_letter(b2) || b2 == 58 {
            try_ipv6_spec(s, pos)
        } else if b2 == 46 {
            try_ipv4_spec(s, pos, oldnet)
        } else {
            (None, pos + 3)
        }
    } else if is_hex_letter(b1) || b1 == 58 {
        try_ipv6_spec(s, pos)
    } else if b1 == 46 {
        try_ipv4_spec(s, pos, oldnet)
    } else {
        (None, pos + 2)
    }
}

/// With fewer than seven bytes left: only an IPv6-shaped token fits; a
/// failed attempt ends the scan for good.
pub open spec fn short_scan(s: Seq<u8>, pos: int) -> (Option<(int, int)>, int)
    decreases s.len() - pos,
        when 0 <= pos <= s.len()
{
    let len = s.len() as int;
    if pos >= len {
        (None, pos)
    } else if scan_class(s[pos]) {
        let step = try_ipv6_spec(s, pos);
        if step.0 is Some {
            step
        } else {
            (None, len)
        }
    } else {
        short_scan(s, pos + 1)
    }
}

/// The closing byte-by-byte sweep over the last six bytes.
pub open spec fn tail_scan(s: Seq<u8>, pos: int) -> (Option<(int, int)>, int)
    decreases s.len() - pos,
        when 0 <= pos <= s.len()
        via tail_scan_decreases
{
    let len = s.len() as int;
    if pos >= len {
        (None, pos)
    } else if scan_class(s[pos]) {
        let step = try_ipv6_spec(s, pos);
        if step.0 is Some {
            step
        } else {
            tail_scan(
                s,
                if step.1 < len {
                    step.1 + 1
                } else {
                    len
                },
            )
        }
    } else {
        tail_scan(s, pos + 1)
    }
}

#[via_fn]
proof fn tail_scan_decreases(s: Seq<u8>, pos: int) {
    let len = s.len() as int;
    if 0 <= pos < len && scan_class(s[pos]) {
        lemma_try_ipv6_spec(s, pos);
    }
}

/// The main sweep, while at least seven bytes remain: a digit not preceded
/// by a colon peeks ahead; a hex letter or a colon pair starts the IPv6
/// path; a digit right after a colon takes the IPv4 path directly.
pub open spec fn main_scan(s: Seq<u8>, pos: int, delim: bool, oldnet: bool) -> (
    Option<(int, int)>,
    int,
)
    decreases s.len() - pos,
        when 0 <= pos <= s.len()
        via main_scan_decreases
{
    let len = s.len() as int;
    if pos >= len - 6 {
        tail_scan(s, pos)
    } else {
        let b = s[pos];
        if !delim {
            if is_digit(b) {
                let step = peek_spec(s, pos, oldnet);
                if step.0 is Some {
                    step
                } else {
                    main_scan(s, step.1, delim_at(s, step.1), oldnet)
                }
            } else if is_hex_letter(b) || (b == 58 && s[pos + 1] == 58) {
                let step = try_ipv6_spec(s, pos);
                if step.0 is Some {
                    step
                } else {
                    main_scan(s, step.1, delim_at(s, step.1), oldnet)
                }
            } else {
                main_scan(s, pos + 1, false, oldnet)
            }
        } else if is_digit(b) {
            let step = try_ipv4_spec(s, pos, oldnet);
            if step.0 is Some {
                step
            } else {
                main_scan(s, step.1, delim_at(s, step.1), oldnet)
            }
        } else {
            main_scan(s, pos + 1, false, oldnet)
        }
    }
}

#[via_fn]
proof fn main_scan_decreases(s: Seq<u8>, pos: int, delim: bool, oldnet: bool) {
    let len = s.len() as int;
    if 0 <= pos < len - 6 {
        let b = s[pos];
        if !delim {
            if is_digit(b) {
                lemma_peek_spec(s, pos, oldnet);
            } else if is_hex_letter(b) || (b == 58 && s[pos + 1] == 58) {
                lemma_try_ipv6_spec(s, pos);
            }
        } else if is_digit(b) {
            lemma_try_ipv4_spec(s, pos, oldnet);
        }
    }
}

/// One step of the scan from cursor `pos`: the yielded span, if any, and
/// the new cursor.
pub open spec fn next_spec(s: Seq<u8>, pos: int, oldnet: bool) -> (Option<(int, int)>, int) {
    let len = s.len() as int;
    if pos >= len {
        (None, pos)
    } else if len - pos < 7 {
        short_scan(s, pos)
    } else {
        main_scan(s, pos, delim_at(s, pos), oldnet)
    }
}

/// The whole span sequence of a scan started at `pos`.
#[verifier::opaque]
pub open spec fn scan_spans(s: Seq<u8>, pos: int, oldnet: bool) -> Seq<(int, int)>
    decreases s.len() + 1 - pos,
        when 0 <= pos <= s.len()
        via scan_spans_decreases
{
    let step = next_spec(s, pos, oldnet);
    match step.0 {
        Some(sp) => seq![sp] + scan_spans(s, step.1, oldnet),
        None => Seq::empty(),
    }
}

#[via_fn]
proof fn scan_spans_decreases(s: Seq<u8>, pos: int, oldnet: bool) {
    lemma_next_spec(s, pos, oldnet);
}

// ---------------------------------------------------------------------------
// Bounds and progress of each state, by induction over the machine.

/// A step that consumed a token: the span starts at the entry position and
/// the cursor lands at or past its end, within the buffer.
pub open spec fn step_ok(r: (Option<(int, int)>, int), start: int, len: int) -> bool {
    match r.0 {
        Some(sp) => sp.0 == start && start < sp.1 <= len && sp.1 <= r.1 && r.1 <= len,
        None => start < r.1 <= len,
    }
}

proof fn lemma_mask_slurp(s: Seq<u8>, i: int, nd: int, dots: int, valid: bool)
    requires
        0 <= i <= s.len(),
    ensures
        i <= mask_slurp(s, i, nd, dots, valid).0 <= s.len(),
    decreases s.len() - i,
{
    if i < s.len() {
        let b = s[i];
        if is_digit(b) {
            lemma_mask_slurp(
                s,
                i + 1,
                nd + 1,
                dots,
                if dots == 3 {
                    true
                } else {
                    valid
                },
            );
        } else if b == 46 {
            if nd > 3 {
                lemma_mask_slurp(s, i + 1, nd, dots, false);
            } else if nd != 0 {
                lemma_mask_slurp(s, i + 1, 0, dots + 1, valid);
            }
        }
    }
}

proof fn lemma_netmask_spec(s: Seq<u8>, start: int, end: int, oldnet: bool)
    requires
        0 <= start,
        start + 2 <= end <= s.len(),
    ensures
        step_ok(netmask_spec(s, start, end, oldnet), start, s.len() as int),
        netmask_spec(s, start, end, oldnet).0 is Some,
{
    let len = s.len() as int;
    lemma_digits_end(s, end, len);
    let de = digits_end(s, end, len);
    let i1 = if de > end + 4 {
        end + 4
    } else {
        de
    };
    if !(i1 - end == 0 || i1 - end > 3) && i1 < len && s[i1] == 46 && i1 + 1 < len && is_digit(
        s[i1 + 1],
    ) && oldnet {
        lemma_mask_slurp(s, i1 + 1, 0, 1, false);
    }
}

proof fn lemma_v4_finish(s: Seq<u8>, start: int, end: int, numsize: int, oldnet: bool)
    requires
        0 <= start < end <= s.len(),
    ensures
        step_ok(v4_finish(s, start, end, numsize, oldnet), start, s.len() as int),
{
    let len = s.len() as int;
    if numsize != 0 && end < len {
        if s[end] == 47 {
            lemma_netmask_spec(s, start, end + 1, oldnet);
        } else if is_letter(s[end]) {
            lemma_seek_positions(s, end + 1);
        } else if s[end] == 46 && end + 1 < len && is_digit(s[end + 1]) {
            lemma_seek_positions(s, end + 1);
        }
    }
}

proof fn lemma_v4_fourth(s: Seq<u8>, start: int, end: int, numsize: int, oldnet: bool)
    requires
        0 <= start < end <= s.len(),
    ensures
        step_ok(v4_fourth(s, start, end, numsize, oldnet), start, s.len() as int),
    decreases s.len() - end,
{
    if end < s.len() && is_digit(s[end]) {
        if numsize + 1 > 3 {
            lemma_seek_positions(s, end + 1);
        } else {
            lemma_v4_fourth(s, start, end + 1, numsize + 1, oldnet);
        }
    } else {
        lemma_v4_finish(s, start, end, numsize, oldnet);
    }
}

proof fn lemma_v4_groups(s: Seq<u8>, start: int, end: int, numsize: int, dots: int, oldnet: bool)
    requires
        0 <= start < end <= s.len(),
    ensures
        step_ok(v4_groups(s, start, end, numsize, dots, oldnet), start, s.len() as int),
    decreases s.len() - end,
{
    if end >= s.len() {
        lemma_v4_fourth(s, start, end, numsize, oldnet);
    } else {
        let b = s[end];
        if is_digit(b) {
            if numsize + 1 > 3 {
                lemma_seek_positions(s, end + 1);
            } else {
                lemma_v4_groups(s, start, end + 1, numsize + 1, dots, oldnet);
            }
        } else if b == 46 && numsize != 0 {
            if dots + 1 == 3 {
                lemma_v4_fourth(s, start, end + 1, 0, oldnet);
            } else {
                lemma_v4_groups(s, start, end + 1, 0, dots + 1, oldnet);
            }
        }
    }
}

proof fn lemma_try_ipv4_spec(s: Seq<u8>, start: int, oldnet: bool)
    requires
        0 <= start < s.len(),
    ensures
        step_ok(try_ipv4_spec(s, start, oldnet), start, s.len() as int),
{
    lemma_v4_groups(s, start, start + 1, 1, 0, oldnet);
}

proof fn lemma_v6_run(s: Seq<u8>, start: int, end: int, colons: int)
    requires
        0 <= start <= end <= s.len(),
        start < s.len(),
        colons <= end - start,
        scan_class(s[start]),
    ensures
        step_ok(v6_run(s, start, end, colons), start, s.len() as int),
    decreases s.len() - end,
{
    let len = s.len() as int;
    if end < len {
        let b = s[end];
        if is_hex_digit(b) {
            lemma_v6_run(s, start, end + 1, colons);
        } else if b == 58 {
            lemma_v6_run(s, start, end + 1, colons + 1);
        } else if b == 46 {
            if !(len - start > 7 && !mapped_opening(s, start)) {
                lemma_v6_run(s, start, end + 1, colons);
            }
        } else if b == 47 {
            if colons >= 2 {
                lemma_netmask_spec(s, start, end + 1, false);
            }
        }
    }
}

proof fn lemma_try_ipv6_spec(s: Seq<u8>, start: int)
    requires
        0 <= start < s.len(),
        scan_class(s[start]),
    ensures
        step_ok(try_ipv6_spec(s, start), start, s.len() as int),
{
    lemma_v6_run(s, start, start, 0);
}

proof fn lemma_peek_spec(s: Seq<u8>, pos: int, oldnet: bool)
    requires
        0 <= pos,
        pos + 7 <= s.len(),
        is_digit(s[pos]),
    ensures
        step_ok(peek_spec(s, pos, oldnet), pos, s.len() as int),
{
    let b1 = s[pos + 1];
    if is_digit(b1) {
        let b2 = s[pos + 2];
        if is_digit(b2) {
            let b3 = s[pos + 3];
            if is_digit(b3) || is_hex_letter(b3) || b3 == 58 {
                lemma_try_ipv6_spec(s, pos);
            } else if b3 == 46 {
                lemma_try_ipv4_spec(s, pos, oldnet);
            }
        } else if is_hex_letter(b2) || b2 == 58 {
            lemma_try_ipv6_spec(s, pos);
        } else if b2 == 46 {
            lemma_try_ipv4_spec(s, pos, oldnet);
        }
    } else if is_hex_letter(b1) || b1 == 58 {
        lemma_try_ipv6_spec(s, pos);
    } else if b1 == 46 {
        lemma_try_ipv4_spec(s, pos, oldnet);
    }
}

proof fn lemma_short_scan(s: Seq<u8>, pos: int)
    requires
        0 <= pos <= s.len(),
    ensures
        ({
            let r = short_scan(s, pos);
            match r.0 {
                Some(sp) => pos <= sp.0 < sp.1 <= s.len() && sp.1 <= r.1 <= s.len() && pos < r.1,
                None => r.1 == s.len(),
            }
        }),
    decreases s.len() - pos,
{
    let len = s.len() as int;
    if pos < len {
        if scan_class(s[pos]) {
            lemma_try_ipv6_spec(s, pos);
        } else {
            lemma_short_scan(s, pos + 1);
        }
    }
}

proof fn lemma_tail_scan(s: Seq<u8>, pos: int)
    requires
        0 <= pos <= s.len(),
    ensures
        ({
            let r = tail_scan(s, pos);
            match r.0 {
                Some(sp) => pos <= sp.0 < sp.1 <= s.len() && sp.1 <= r.1 <= s.len() && pos < r.1,
                None => r.1 == s.len(),
            }
        }),
    decreases s.len() - pos,
{
    let len = s.len() as int;
    if pos < len {
        if scan_class(s[pos]) {
            lemma_try_ipv6_spec(s, pos);
            let step = try_ipv6_spec(s, pos);
            if step.0 is None {
                lemma_tail_scan(
                    s,
                    if step.1 < len {
                        step.1 + 1
                    } else {
                        len
                    },
                );
            }
        } else {
            lemma_tail_scan(s, pos + 1);
        }
    }
}

proof fn lemma_main_scan(s: Seq<u8>, pos: int, delim: bool, oldnet: bool)
    requires
        0 <= pos <= s.len(),
    ensures
        ({
            let r = main_scan(s, pos, delim, oldnet);
            match r.0 {
                Some(sp) => pos <= sp.0 < sp.1 <= s.len() && sp.1 <= r.1 <= s.len() && pos < r.1,
                None => r.1 == s.len(),
            }
        }),
    decreases s.len() - pos,
{
    let len = s.len() as int;
    if pos >= len - 6 {
        lemma_tail_scan(s, pos);
    } else {
        let b = s[pos];
        if !delim {
            if is_digit(b) {
                lemma_peek_spec(s, pos, oldnet);
                let step = peek_spec(s, pos, oldnet);
                if step.0 is None {
                    lemma_main_scan(s, step.1, delim_at(s, step.1), oldnet);
                }
            } else if is_hex_letter(b) || (b == 58 && s[pos + 1] == 58) {
                lemma_try_ipv6_spec(s, pos);
                let step = try_ipv6_spec(s, pos);
                if step.0 is None {
                    lemma_main_scan(s, step.1, delim_at(s, step.1), oldnet);
                }
            } else {
                lemma_main_scan(s, pos + 1, false, oldnet);
            }
        } else if is_digit(b) {
            lemma_try_ipv4_spec(s, pos, oldnet);
            let step = try_ipv4_spec(s, pos, oldnet);
            if step.0 is None {
                lemma_main_scan(s, step.1, delim_at(s, step.1), oldnet);
            }
        } else {
            lemma_main_scan(s, pos + 1, false, oldnet);
        }
    }
}

/// Bounds and progress of one scan step: a yielded span lies at or after
/// the cursor and within the buffer, with the new cursor at or past its
/// end; a step without a span ends the scan at the buffer end.
pub proof fn lemma_next_spec(s: Seq<u8>, pos: int, oldnet: bool)
    requires
        0 <= pos <= s.len(),
    ensures
        ({
            let r = next_spec(s, pos, oldnet);
            match r.0 {
                Some(sp) => pos <= sp.0 < sp.1 <= s.len() && sp.1 <= r.1 <= s.len() && pos < r.1,
                None => r.1 == s.len(),
            }
        }),
{
    let len = s.len() as int;
    if pos < len {
        if len - pos < 7 {
            lemma_short_scan(s, pos);
        } else {
            lemma_main_scan(s, pos, delim_at(s, pos), oldnet);
        }
    }
}

/// Every span of a scan lies within the buffer, at or after the start
/// cursor, and the spans are disjoint and strictly increasing.
pub proof fn lemma_scan_spans(s: Seq<u8>, pos: int, oldnet: bool)
    requires
        0 <= pos <= s.len(),
    ensures
        ({
            let spans = scan_spans(s, pos, oldnet);
            &&& forall|k: int|
                0 <= k < spans.len() ==> pos <= (#[trigger] spans[k]).0 < spans[k].1 <= s.len()
            &&& forall|k1: int, k2: int|
                0 <= k1 < k2 < spans.len() ==> (#[trigger] spans[k1]).1 <= (
                #[trigger] spans[k2]).0
        }),
    decreases s.len() + 1 - pos,
{
    reveal(scan_spans);
    lemma_next_spec(s, pos, oldnet);
    let step = next_spec(s, pos, oldnet);
    let spans = scan_spans(s, pos, oldnet);
    if step.0 is Some {
        let sp = step.0.unwrap();
        lemma_scan_spans(s, step.1, oldnet);
        let rest = scan_spans(s, step.1, oldnet);
        assert(spans == seq![sp] + rest);
        assert forall|k: int| 0 <= k < spans.len() implies pos <= (#[trigger] spans[k]).0
            < spans[k].1 <= s.len() by {
            if k == 0 {
                assert(spans[0] == sp);
            } else {
                assert(spans[k] == rest[k - 1]);
            }
        }
        assert forall|k1: int, k2: int| 0 <= k1 < k2 < spans.len() implies (
        #[trigger] spans[k1]).1 <= (#[trigger] spans[k2]).0 by {
            assert(spans[k2] == rest[k2 - 1]);
            if k1 == 0 {
                assert(spans[0] == sp);
            } else {
                assert(spans[k1] == rest[k1 - 1]);
            }
        }
    }
}

// ---------------------------------------------------------------------------
// The executable scanner, proved equal to the machine above.

#[derive(Clone, Copy, PartialEq, Eq, Structural)]
enum NetLikeRestriction {
    IpsAndCidrs,
    AlsoOldNets,
}

/// A cursor-driven scanner for IP-shaped byte ranges.
pub struct NetLikeScanner<'a> {
    buf: &'a [u8],
    pos: usize,
    restrict: NetLikeRestriction,
}

/// The exec step `r` with cursor `p` equals the spec step `step`.
pub open spec fn step_matches(r: Option<(usize, usize)>, p: int, step: (
    Option<(int, int)>,
    int,
)) -> bool {
    &&& p == step.1
    &&& match r {
        Some((a, b)) => step.0 == Some((a as int, b as int)),
        None => step.0 is None,
    }
}

impl<'a> NetLikeScanner<'a> {
    /// The buffer being scanned.
    pub closed spec fn buf_seq(self) -> Seq<u8> {
        self.buf@
    }

    /// The cursor: no span yielded later starts before it.
    pub closed spec fn pos(self) -> int {
        self.pos as int
    }

    /// Whether dotted-netmask suffixes are recognized.
    pub closed spec fn is_oldnet(self) -> bool {
        self.restrict is AlsoOldNets
    }

    pub fn new(buf: &'a [u8]) -> (r: Self)
        ensures
            r.buf_seq() == buf@,
            r.pos() == 0,
            !r.is_oldnet(),
    {
        Self { buf, pos: 0, restrict: NetLikeRestriction::IpsAndCidrs }
    }

    /// Enables recognition of dotted-netmask suffixes such as
    /// `128.128.0.0/255.255.0.0`.  The flag reaches the scan only through
    /// `next_spec`, whose dotted-mask state is the one place that reads it:
    /// on every other input the scan is unchanged.
    pub fn with_oldnet(self) -> (r: Self)
        ensures
            r.buf_seq() == self.buf_seq(),
            r.pos() == self.pos(),
            r.is_oldnet(),
    {
        Self { restrict: NetLikeRestriction::AlsoOldNets, ..self }
    }

    /// True when the byte just before the cursor is a colon.
    fn delim_colon(&self) -> (r: bool)
        ensures
            r == delim_at(self.buf@, self.pos as int),
    {
        self.pos >= 1 && self.pos <= self.buf.len() && self.buf[self.pos - 1] == 58
    }

    /// The next candidate span, or `None` when the scan is over.  The result
    /// and the new cursor are exactly one step of the spec machine: together
    /// with `scan_spans` this pins the whole yielded sequence.  A yielded
    /// span is non-empty, lies within the buffer at or after the cursor, and
    /// the cursor moves to or past its end; once the scan is over it stays
    /// over.
    pub fn next(&mut self) -> (r: Option<(usize, usize)>)
        ensures
            final(self).buf_seq() == old(self).buf_seq(),
            final(self).is_oldnet() == old(self).is_oldnet(),
            final(self).pos() >= old(self).pos(),
            old(self).pos() <= old(self).buf_seq().len() ==> final(self).pos() <= old(
                self,
            ).buf_seq().len(),
            step_matches(
                r,
                final(self).pos(),
                next_spec(old(self).buf_seq(), old(self).pos(), old(self).is_oldnet()),
            ),
            match r {
                Some((s, e)) => old(self).pos() <= s && s < e && e <= old(self).buf_seq().len()
                    && e <= final(self).pos() && old(self).pos() < final(self).pos(),
                None => final(self).pos() >= old(self).buf_seq().len(),
            },
    {
        let ghost on = self.is_oldnet();
        let ghost target = next_spec(self.buf@, self.pos as int, self.is_oldnet());
        proof {
            assert(target == next_spec(
                old(self).buf_seq(),
                old(self).pos(),
                old(self).is_oldnet(),
            ));
        }
        let len = self.buf.len();
        if self.pos >= len {
            return None;
        }
        // Shortest IPv4 is 7 bytes ("1.1.1.1"): with less left, only an
        // IPv6-shaped token can still fit.
        if len - self.pos < 7 {
            while self.pos < len
                invariant
                    self.pos <= len,
                    len == self.buf@.len(),
                    self.buf@ == old(self).buf_seq(),
                    self.restrict == old(self).restrict,
                    self.pos >= old(self).pos(),
                    target == short_scan(self.buf@, self.pos as int),
                    target == next_spec(
                        old(self).buf_seq(),
                        old(self).pos(),
                        old(self).is_oldnet(),
                    ),
                decreases len - self.pos,
            {
                let ghost p0 = self.pos as int;
                let b = self.buf[self.pos];
                if is_hex_digit_x(b) || b == 58 {
                    proof {
                        assert(target == short_scan(self.buf@, p0));
                        assert(scan_class(self.buf@[p0]));
                    }
                    match self.try_ipv6() {
                        Some(res) => {
                            proof {
                                assert(target == try_ipv6_spec(self.buf@, p0));
                                assert(step_matches(Some(res), self.pos as int, target));
                            }
                            return Some(res);
                        },
                        None => {
                            proof {
                                assert(target == (None::<(int, int)>, len as int));
                            }
                            // Terminal is sticky: a failed attempt this close
                            // to the end finishes the scan for good.
                            self.pos = len;
                            proof {
                                assert(step_matches(
                                    None::<(usize, usize)>,
                                    self.pos as int,
                                    target,
                                ));
                            }
                            return None;
                        },
                    }
                }
                self.pos = self.pos + 1;
            }
            return None;
        }
        let len_minus_6 = len - 6;
        let mut delim_is_colon = self.delim_colon();
        while self.pos < len_minus_6
            invariant
                len == self.buf@.len(),
                len >= 7,
                len_minus_6 == len - 6,
                self.pos <= len,
                self.buf@ == old(self).buf_seq(),
                self.restrict == old(self).restrict,
                self.pos >= old(self).pos(),
                target == main_scan(self.buf@, self.pos as int, delim_is_colon, on),
                target == next_spec(
                    old(self).buf_seq(),
                    old(self).pos(),
                    old(self).is_oldnet(),
                ),
                on == old(self).is_oldnet(),
            ensures
                target == tail_scan(self.buf@, self.pos as int),
                target == next_spec(
                    old(self).buf_seq(),
                    old(self).pos(),
                    old(self).is_oldnet(),
                ),
            decreases len - self.pos,
        {
            let ghost p0 = self.pos as int;
            let ghost d0 = delim_is_colon;
            let b = self.buf[self.pos];
            if !delim_is_colon {
                if is_digit_x(b) {
                    proof {
                        assert(target == main_scan(self.buf@, p0, d0, on));
                        assert(is_digit(self.buf@[p0]));
                    }
                    match self.try_ipv4_or_ipv6() {
                        Some(res) => {
                            proof {
                                assert(target == peek_spec(self.buf@, p0, on));
                            }
                            return Some(res);
                        },
                        None => {
                            delim_is_colon = self.delim_colon();
                        },
                    }
                } else if (97 <= b && b <= 102) || (65 <= b && b <= 70) || (b == 58 && self.buf[
                    self.pos + 1] == 58) {
                    proof {
                        assert(target == main_scan(self.buf@, p0, d0, on));
                        assert(is_hex_letter(self.buf@[p0]) || (self.buf@[p0] == 58 && self.buf@[
                            p0 + 1] == 58));
                    }
                    match self.try_ipv6() {
                        Some(res) => {
                            proof {
                                assert(target == try_ipv6_spec(self.buf@, p0));
                            }
                            return Some(res);
                        },
                        None => {
                            delim_is_colon = self.delim_colon();
                        },
                    }
                } else {
                    self.pos = self.pos + 1;
                }
            } else if is_digit_x(b) {
                proof {
                    assert(target == main_scan(self.buf@, p0, d0, on));
                    assert(is_digit(self.buf@[p0]));
                }
                match self.try_ipv4() {
                    Some(res) => {
                        proof {
                            assert(target == try_ipv4_spec(self.buf@, p0, on));
                        }
                        return Some(res);
                    },
                    None => {
                        delim_is_colon = self.delim_colon();
                    },
                }
            } else {
                delim_is_colon = false;
                self.pos = self.pos + 1;
            }
        }
        while self.pos < len
            invariant
                self.pos <= len,
                len == self.buf@.len(),
                self.buf@ == old(self).buf_seq(),
                self.restrict == old(self).restrict,
                self.pos >= old(self).pos(),
                target == tail_scan(self.buf@, self.pos as int),
                target == next_spec(
                    old(self).buf_seq(),
                    old(self).pos(),
                    old(self).is_oldnet(),
                ),
            decreases len - self.pos,
        {
            let ghost p0 = self.pos as int;
            let b = self.buf[self.pos];
            if is_hex_digit_x(b) || b == 58 {
                proof {
                    assert(target == tail_scan(self.buf@, p0));
                    assert(scan_class(self.buf@[p0]));
                }
                match self.try_ipv6() {
                    Some(res) => {
                        proof {
                            assert(target == try_ipv6_spec(self.buf@, p0));
                        }
                        return Some(res);
                    },
                    None => {},
                }
            }
            self.pos = if self.pos < len {
                self.pos + 1
            } else {
                len
            };
        }
        None
    }

    /// Skip past a run of digits; the position invalidated, no span comes of
    /// it.
    fn seek_to_non_digit(&mut self, start: usize) -> (r: Option<(usize, usize)>)
        requires
            start <= old(self).buf_seq().len(),
        ensures
            final(self).buf_seq() == old(self).buf_seq(),
            final(self).is_oldnet() == old(self).is_oldnet(),
            r is None,
            final(self).pos() == seek_digits_pos(old(self).buf_seq(), start as int),
            start <= final(self).pos() <= old(self).buf_seq().len(),
    {
        proof {
            lemma_digits_end(self.buf@, start as int, self.buf@.len() as int);
        }
        let len = self.buf.len();
        let mut i = start;
        while i < len && is_digit_x(self.buf[i])
            invariant
                start <= i <= len,
                len == self.buf@.len(),
                digits_end(self.buf@, start as int, len as int) == digits_end(
                    self.buf@,
                    i as int,
                    len as int,
                ),
            decreases len - i,
        {
            i = i + 1;
        }
        self.pos = if i < len {
            i + 1
        } else {
            len
        };
        None
    }

    /// Skip past a run of digits and periods.
    fn seek_to_non_digit_period(&mut self, start: usize) -> (r: Option<(usize, usize)>)
        requires
            start <= old(self).buf_seq().len(),
        ensures
            final(self).buf_seq() == old(self).buf_seq(),
            final(self).is_oldnet() == old(self).is_oldnet(),
            r is None,
            final(self).pos() == seek_digits_periods_pos(old(self).buf_seq(), start as int),
            start <= final(self).pos() <= old(self).buf_seq().len(),
    {
        proof {
            lemma_digit_period_end(self.buf@, start as int, self.buf@.len() as int);
        }
        let len = self.buf.len();
        let mut i = start;
        while i < len && (is_digit_x(self.buf[i]) || self.buf[i] == 46)
            invariant
                start <= i <= len,
                len == self.buf@.len(),
                digit_period_end(self.buf@, start as int, len as int) == digit_period_end(
                    self.buf@,
                    i as int,
                    len as int,
                ),
            decreases len - i,
        {
            i = i + 1;
        }
        self.pos = if i < len {
            i + 1
        } else {
            len
        };
        None
    }

    /// Skip past a run of letters.
    fn seek_to_non_letter(&mut self, start: usize) -> (r: Option<(usize, usize)>)
        requires
            start <= old(self).buf_seq().len(),
        ensures
            final(self).buf_seq() == old(self).buf_seq(),
            final(self).is_oldnet() == old(self).is_oldnet(),
            r is None,
            final(self).pos() == seek_letters_pos(old(self).buf_seq(), start as int),
            start <= final(self).pos() <= old(self).buf_seq().len(),
    {
        proof {
            lemma_letter_end(self.buf@, start as int, self.buf@.len() as int);
        }
        let len = self.buf.len();
        let mut i = start;
        while i < len && ((97 <= self.buf[i] && self.buf[i] <= 122) || (65 <= self.buf[i]
            && self.buf[i] <= 90))
            invariant
                start <= i <= len,
                len == self.buf@.len(),
                letter_end(self.buf@, start as int, len as int) == letter_end(
                    self.buf@,
                    i as int,
                    len as int,
                ),
            decreases len - i,
        {
            i = i + 1;
        }
        self.pos = if i < len {
            i + 1
        } else {
            len
        };
        None
    }

    /// After a `/`: take up to three digits as a numeric prefix length, or,
    /// when enabled, a full dotted netmask.  `end` is the index just past
    /// the slash.  Always yields a span; a suffix that turns out invalid
    /// rolls the end back to just before the slash.
    fn maybe_netmask(&mut self, end: usize, restrict: NetLikeRestriction) -> (r: Option<
        (usize, usize),
    >)
        requires
            old(self).pos() + 2 <= end <= old(self).buf_seq().len(),
        ensures
            final(self).buf_seq() == old(self).buf_seq(),
            final(self).is_oldnet() == old(self).is_oldnet(),
            final(self).pos() <= old(self).buf_seq().len(),
            step_matches(
                r,
                final(self).pos(),
                netmask_spec(
                    old(self).buf_seq(),
                    old(self).pos(),
                    end as int,
                    restrict is AlsoOldNets,
                ),
            ),
            match r {
                Some((s, e)) => s == old(self).pos() && s < e && e <= old(self).buf_seq().len()
                    && e <= final(self).pos(),
                None => false,
            },
    {
        proof {
            lemma_netmask_spec(
                self.buf@,
                self.pos as int,
                end as int,
                restrict is AlsoOldNets,
            );
            lemma_digits_end(self.buf@, end as int, self.buf@.len() as int);
        }
        let len = self.buf.len();
        let start = self.pos;
        let mut i = end;
        let mut numdigits: usize = 0;
        while i < len && is_digit_x(self.buf[i]) && numdigits <= 3
            invariant
                end <= i <= len,
                len == self.buf@.len(),
                self.buf@ == old(self).buf_seq(),
                self.restrict == old(self).restrict,
                self.pos == old(self).pos(),
                numdigits == i - end,
                numdigits <= 4,
                digits_end(self.buf@, end as int, len as int) == digits_end(
                    self.buf@,
                    i as int,
                    len as int,
                ),
                start == old(self).pos(),
            decreases len - i,
        {
            numdigits = numdigits + 1;
            i = i + 1;
        }
        proof {
            // The loop stops exactly where the spec's capped digit run does.
            let de = digits_end(self.buf@, end as int, len as int);
            let i1 = if de > end + 4 {
                end + 4
            } else {
                de
            };
            lemma_digits_end(self.buf@, i as int, len as int);
            assert(i as int == i1);
        }
        // No digits, or more than three: not a prefix length after all.
        if numdigits == 0 || numdigits > 3 {
            self.pos = end;
            return Some((start, end - 1));
        }
        // One to three digits, then a period and a digit: possibly an
        // old-style dotted netmask.
        if i < len && self.buf[i] == 46 && i + 1 < len && is_digit_x(self.buf[i + 1]) {
            match restrict {
                NetLikeRestriction::IpsAndCidrs => {
                    // Dotted masks not accepted: roll back to the bare token.
                    self.pos = end;
                    return Some((start, end - 1));
                },
                NetLikeRestriction::AlsoOldNets => {
                    // Slurp digits and periods; the mask is shaped right only
                    // if a fourth dotted group is reached.
                    let ghost i0 = i + 1;
                    let mut valid = false;
                    let mut dots: usize = 1;
                    let mut nd: usize = 0;
                    i = i + 1;
                    while i < len
                        invariant
                            end <= i <= len,
                            len == self.buf@.len(),
                            self.buf@ == old(self).buf_seq(),
                            self.restrict == old(self).restrict,
                            self.pos == old(self).pos(),
                            dots <= i,
                            nd <= i,
                            start == old(self).pos(),
                            mask_slurp(self.buf@, i0 as int, 0, 1, false) == mask_slurp(
                                self.buf@,
                                i as int,
                                nd as int,
                                dots as int,
                                valid,
                            ),
                        ensures
                            mask_slurp(self.buf@, i0 as int, 0, 1, false) == (i as int, valid),
                        decreases len - i,
                    {
                        let b = self.buf[i];
                        if is_digit_x(b) {
                            nd = nd + 1;
                            if dots == 3 {
                                valid = true;
                            }
                        } else if b == 46 {
                            if nd > 3 {
                                valid = false;
                            } else if nd == 0 {
                                break ;
                            } else {
                                nd = 0;
                                dots = dots + 1;
                            }
                        } else {
                            break ;
                        }
                        i = i + 1;
                    }
                    self.pos = if i < len {
                        i + 1
                    } else {
                        len
                    };
                    if valid {
                        return Some((start, i));
                    } else {
                        return Some((start, end - 1));
                    }
                },
            }
        }
        self.pos = if i < len {
            i + 1
        } else {
            len
        };
        Some((start, i))
    }

    /// Consume an IPv4-shaped run: up to four groups of one to three digits
    /// separated by periods, then an optional suffix.
    fn try_ipv4(&mut self) -> (r: Option<(usize, usize)>)
        requires
            old(self).pos() < old(self).buf_seq().len(),
        ensures
            final(self).buf_seq() == old(self).buf_seq(),
            final(self).is_oldnet() == old(self).is_oldnet(),
            final(self).pos() <= old(self).buf_seq().len(),
            step_matches(
                r,
                final(self).pos(),
                try_ipv4_spec(old(self).buf_seq(), old(self).pos(), old(self).is_oldnet()),
            ),
            match r {
                Some((s, e)) => s == old(self).pos() && s < e && e <= old(self).buf_seq().len()
                    && e <= final(self).pos(),
                None => old(self).pos() < final(self).pos(),
            },
    {
        proof {
            lemma_try_ipv4_spec(self.buf@, self.pos as int, self.is_oldnet());
        }
        let ghost on = self.is_oldnet();
        let ghost target = try_ipv4_spec(self.buf@, self.pos as int, self.is_oldnet());
        let len = self.buf.len();
        let start = self.pos;
        let mut dots: usize = 0;
        let mut numsize: usize = 1;  // the byte at `start` is a digit
        let mut end = start + 1;
        while end < len
            invariant_except_break
                dots <= 2,
                target == v4_groups(
                    self.buf@,
                    start as int,
                    end as int,
                    numsize as int,
                    dots as int,
                    on,
                ),
            invariant
                target == try_ipv4_spec(
                    old(self).buf_seq(),
                    old(self).pos(),
                    old(self).is_oldnet(),
                ),
                start < end <= len,
                len == self.buf@.len(),
                self.buf@ == old(self).buf_seq(),
                self.restrict == old(self).restrict,
                self.pos == start,
                start == old(self).pos(),
                numsize <= 3,
                on == old(self).is_oldnet(),
            ensures
                target == v4_fourth(self.buf@, start as int, end as int, numsize as int, on),
                target == try_ipv4_spec(
                    old(self).buf_seq(),
                    old(self).pos(),
                    old(self).is_oldnet(),
                ),
            decreases len - end,
        {
            let b = self.buf[end];
            if is_digit_x(b) {
                if numsize + 1 > 3 {
                    proof {
                        assert(target == (
                            None::<(int, int)>,
                            seek_digits_pos(self.buf@, end as int + 1),
                        ));
                    }
                    return self.seek_to_non_digit(end + 1);
                }
                numsize = numsize + 1;
            } else if b == 46 {
                if numsize == 0 {
                    proof {
                        assert(target == (None::<(int, int)>, end as int));
                    }
                    self.pos = end;
                    return None;
                }
                if dots + 1 == 3 {
                    numsize = 0;
                    dots = dots + 1;
                    end = end + 1;
                    break ;
                }
                numsize = 0;
                dots = dots + 1;
            } else {
                proof {
                    assert(target == (None::<(int, int)>, end as int));
                }
                self.pos = end;
                return None;
            }
            end = end + 1;
        }
        // Fourth group.
        while end < len
            invariant
                start < end <= len,
                len == self.buf@.len(),
                self.buf@ == old(self).buf_seq(),
                self.restrict == old(self).restrict,
                self.pos == start,
                start == old(self).pos(),
                numsize <= 3,
                on == old(self).is_oldnet(),
                target == v4_fourth(
                    self.buf@,
                    start as int,
                    end as int,
                    numsize as int,
                    on,
                ),
                target == try_ipv4_spec(
                    old(self).buf_seq(),
                    old(self).pos(),
                    old(self).is_oldnet(),
                ),
            ensures
                target == v4_finish(self.buf@, start as int, end as int, numsize as int, on),
                target == try_ipv4_spec(
                    old(self).buf_seq(),
                    old(self).pos(),
                    old(self).is_oldnet(),
                ),
            decreases len - end,
        {
            if !is_digit_x(self.buf[end]) {
                break ;
            }
            if numsize + 1 > 3 {
                proof {
                    assert(target == (
                        None::<(int, int)>,
                        seek_digits_pos(self.buf@, end as int + 1),
                    ));
                }
                return self.seek_to_non_digit(end + 1);
            }
            numsize = numsize + 1;
            end = end + 1;
        }
        proof {
            assert(target == v4_finish(self.buf@, start as int, end as int, numsize as int, on));
        }
        if numsize == 0 {
            self.pos = if end < len {
                end + 1
            } else {
                len
            };
            return None;
        }
        if end == len {
            self.pos = len;
            return Some((start, len));
        }
        // Check for legal endings.
        let b = self.buf[end];
        if b == 47 {
            proof {
                assert(target == netmask_spec(self.buf@, start as int, end as int + 1, on));
            }
            return self.maybe_netmask(end + 1, self.restrict);
        } else if (97 <= b && b <= 122) || (65 <= b && b <= 90) {
            // Word-embedded digits: reject the whole run.
            proof {
                assert(target == (
                    None::<(int, int)>,
                    seek_letters_pos(self.buf@, end as int + 1),
                ));
            }
            return self.seek_to_non_letter(end + 1);
        } else if b == 46 {
            // A fifth dotted group invalidates the quad outright.
            if end + 1 < len && is_digit_x(self.buf[end + 1]) {
                proof {
                    assert(target == (
                        None::<(int, int)>,
                        seek_digits_periods_pos(self.buf@, end as int + 1),
                    ));
                }
                return self.seek_to_non_digit_period(end + 1);
            }
        }
        proof {
            assert(target == (Some((start as int, end as int)), end as int + 1));
        }
        self.pos = end + 1;
        Some((start, end))
    }

    /// Consume an IPv6-shaped run: hex digits, colons, and conditionally a
    /// dotted IPv4 tail after a `::ffff:` opening.  At least two colons must
    /// appear, or the run is rejected.
    fn try_ipv6(&mut self) -> (r: Option<(usize, usize)>)
        requires
            old(self).pos() < old(self).buf_seq().len(),
            scan_class(old(self).buf_seq()[old(self).pos()]),
        ensures
            final(self).buf_seq() == old(self).buf_seq(),
            final(self).is_oldnet() == old(self).is_oldnet(),
            final(self).pos() <= old(self).buf_seq().len(),
            step_matches(
                r,
                final(self).pos(),
                try_ipv6_spec(old(self).buf_seq(), old(self).pos()),
            ),
            match r {
                Some((s, e)) => s == old(self).pos() && s < e && e <= old(self).buf_seq().len()
                    && e <= final(self).pos(),
                None => old(self).pos() < final(self).pos(),
            },
    {
        proof {
            lemma_try_ipv6_spec(self.buf@, self.pos as int);
        }
        let ghost target = try_ipv6_spec(self.buf@, self.pos as int);
        let len = self.buf.len();
        let start = self.pos;
        let mut end = start;
        let mut colons: usize = 0;
        while end < len
            invariant
                start <= end <= len,
                len == self.buf@.len(),
                self.buf@ == old(self).buf_seq(),
                self.restrict == old(self).restrict,
                self.pos == start,
                start == old(self).pos(),
                colons <= end - start,
                scan_class(self.buf@[start as int]),
                target == v6_run(self.buf@, start as int, end as int, colons as int),
                target == try_ipv6_spec(old(self).buf_seq(), old(self).pos()),
            ensures
                target == try_ipv6_spec(old(self).buf_seq(), old(self).pos()),
                target == (
                    (if colons >= 2 {
                        Some((start as int, end as int))
                    } else {
                        None
                    }),
                    if end < len {
                        end + 1
                    } else {
                        len as int
                    },
                ),
            decreases len - end,
        {
            let b = self.buf[end];
            if is_hex_digit_x(b) {
                // part of the run
            } else if b == 58 {
                colons = colons + 1;
            } else if b == 46 {
                // A dotted run: only an IPv4-mapped opening ("::ffff:") may
                // absorb it; otherwise the token ends just before the dots.
                if len - start > 7 && !(self.buf[start] == 58 && self.buf[start + 1] == 58 && (
                self.buf[start + 2] == 102 || self.buf[start + 2] == 70) && (self.buf[start + 3]
                    == 102 || self.buf[start + 3] == 70) && (self.buf[start + 4] == 102 || self.buf[
                start + 4] == 70) && (self.buf[start + 5] == 102 || self.buf[start + 5] == 70)
                    && self.buf[start + 6] == 58) {
                    proof {
                        assert(!mapped_opening(self.buf@, start as int));
                        assert(target == (
                            Some((start as int, end as int)),
                            end as int + 1,
                        ));
                    }
                    self.pos = end + 1;
                    return Some((start, end));
                }
            } else if b == 47 {
                if colons >= 2 {
                    proof {
                        assert(target == netmask_spec(
                            self.buf@,
                            start as int,
                            end as int + 1,
                            false,
                        ));
                    }
                    return self.maybe_netmask(end + 1, NetLikeRestriction::IpsAndCidrs);
                } else {
                    proof {
                        assert(target == (None::<(int, int)>, end as int + 1));
                    }
                    self.pos = end + 1;
                    return None;
                }
            } else if (103 <= b && b <= 122) || (71 <= b && b <= 90) {
                // A letter beyond the hex range invalidates the run.
                colons = 0;
                break ;
            } else {
                break ;
            }
            end = end + 1;
        }
        self.pos = if end < len {
            end + 1
        } else {
            len
        };
        if colons >= 2 {
            Some((start, end))
        } else {
            None
        }
    }

    /// At a digit with at least seven bytes left: peek up to three bytes
    /// ahead to decide between the IPv4 and IPv6 paths.
    fn try_ipv4_or_ipv6(&mut self) -> (r: Option<(usize, usize)>)
        requires
            old(self).pos() + 7 <= old(self).buf_seq().len(),
            crate::parse::is_digit(old(self).buf_seq()[old(self).pos()]),
        ensures
            final(self).buf_seq() == old(self).buf_seq(),
            final(self).is_oldnet() == old(self).is_oldnet(),
            final(self).pos() <= old(self).buf_seq().len(),
            step_matches(
                r,
                final(self).pos(),
                peek_spec(old(self).buf_seq(), old(self).pos(), old(self).is_oldnet()),
            ),
            match r {
                Some((s, e)) => s == old(self).pos() && s < e && e <= old(self).buf_seq().len()
                    && e <= final(self).pos(),
                None => old(self).pos() < final(self).pos(),
            },
    {
        let len = self.buf.len();
        let b1 = self.buf[self.pos + 1];
        if is_digit_x(b1) {
            // undecided
        } else if (97 <= b1 && b1 <= 102) || (65 <= b1 && b1 <= 70) || b1 == 58 {
            return self.try_ipv6();
        } else if b1 == 46 {
            return self.try_ipv4();
        } else {
            self.pos = self.pos + 2;
            return None;
        }
        let b2 = self.buf[self.pos + 2];
        if is_digit_x(b2) {
            // undecided
        } else if (97 <= b2 && b2 <= 102) || (65 <= b2 && b2 <= 70) || b2 == 58 {
            return self.try_ipv6();
        } else if b2 == 46 {
            return self.try_ipv4();
        } else {
            self.pos = self.pos + 3;
            return None;
        }
        let b3 = self.buf[self.pos + 3];
        if is_digit_x(b3) || (97 <= b3 && b3 <= 102) || (65 <= b3 && b3 <= 70) || b3 == 58 {
            self.try_ipv6()
        } else if b3 == 46 {
            self.try_ipv4()
        } else {
            self.pos = self.pos + 4;
            None
        }
    }
}

} // verus!
