use vstd::prelude::*;

verus! {

use crate::matching::{AcceptSet, InterfaceMode};
use crate::net::Net;
use crate::netlike::{NetLikeScanner, scan_spans, next_spec, step_matches, lemma_next_spec,
    lemma_scan_spans};
use crate::parse::{
    is_digit, is_hex_digit, is_digit_x, is_hex_digit_x, first_slash, first_slash_x, parse_net,
    parse_net_x,
};

// The candidate validator: drives the prefilter and the lexical scanner over
// one buffer and turns each span that the acceptance policy and the semantic
// parse let through into a typed, position-tagged match.

/// A surviving match: the byte range of the token and its parsed value.
#[derive(Debug, PartialEq, Eq)]
pub struct NetCandidate {
    pub range: (usize, usize),
    pub net: Net,
}

/// What becomes of one candidate span under a given configuration.
pub enum SpanOutcome {
    /// Filtered out, silently.
    Skip,
    /// Reported as a match, with the (possibly normalized) value.
    Emit(Net),
    /// Discarded with a diagnostic: an interface address under the
    /// complain-and-skip policy, carrying the un-normalized value.
    Complain(Net),
}

/// There is a period in `[i, j)`.
pub open spec fn has_dot(s: Seq<u8>, i: int, j: int) -> bool {
    exists|k: int| i <= k < j && s[k] == 46
}

/// `c` is a correct match for its range under this configuration.
pub open spec fn emit_ok(
    inc4: bool,
    inc6: bool,
    accept: AcceptSet,
    imode: InterfaceMode,
    buf: Seq<u8>,
    c: NetCandidate,
) -> bool {
    &&& validate_span(inc4, inc6, accept, imode, buf, c.range.0 as int, c.range.1 as int)
        == SpanOutcome::Emit(c.net)
    &&& c.range.0 < c.range.1 <= buf.len()
    &&& c.net.wf()
}

/// `c` is a correct complain-and-skip report for its range.
pub open spec fn complain_ok(
    inc4: bool,
    inc6: bool,
    accept: AcceptSet,
    imode: InterfaceMode,
    buf: Seq<u8>,
    c: NetCandidate,
) -> bool {
    &&& validate_span(inc4, inc6, accept, imode, buf, c.range.0 as int, c.range.1 as int)
        == SpanOutcome::Complain(c.net)
    &&& c.range.0 < c.range.1 <= buf.len()
    &&& c.net.wf()
}

/// Which prefilter pass the family configuration selects, and its verdict.
pub open spec fn spec_prefilter_pass(inc4: bool, inc6: bool, s: Seq<u8>) -> bool {
    if inc4 && inc6 {
        could_be_v4(s) || could_be_v6(s)
    } else if inc4 {
        could_be_v4(s)
    } else {
        could_be_v6(s)
    }
}

/// The matches that a span sequence produces: for each span in order, the
/// candidate that `validate_span` emits, if any.
#[verifier::opaque]
pub open spec fn matches_of_spans(
    inc4: bool,
    inc6: bool,
    accept: AcceptSet,
    imode: InterfaceMode,
    buf: Seq<u8>,
    spans: Seq<(int, int)>,
) -> Seq<NetCandidate>
    decreases spans.len(),
{
    if spans.len() == 0 {
        Seq::empty()
    } else {
        let rest = matches_of_spans(inc4, inc6, accept, imode, buf, spans.drop_first());
        match validate_span(inc4, inc6, accept, imode, buf, spans[0].0, spans[0].1) {
            SpanOutcome::Emit(n) => seq![
                NetCandidate { range: ((spans[0].0) as usize, (spans[0].1) as usize), net: n },
            ] + rest,
            _ => rest,
        }
    }
}

/// The complain-and-skip reports that a span sequence produces, in order.
#[verifier::opaque]
pub open spec fn complaints_of_spans(
    inc4: bool,
    inc6: bool,
    accept: AcceptSet,
    imode: InterfaceMode,
    buf: Seq<u8>,
    spans: Seq<(int, int)>,
) -> Seq<NetCandidate>
    decreases spans.len(),
{
    if spans.len() == 0 {
        Seq::empty()
    } else {
        let rest = complaints_of_spans(inc4, inc6, accept, imode, buf, spans.drop_first());
        match validate_span(inc4, inc6, accept, imode, buf, spans[0].0, spans[0].1) {
            SpanOutcome::Complain(n) => seq![
                NetCandidate { range: ((spans[0].0) as usize, (spans[0].1) as usize), net: n },
            ] + rest,
            _ => rest,
        }
    }
}

/// The fate of the span `[start, end)` of `buf`: policy steps first (bare
/// addresses or networks wanted, dotted-mask-only restriction, truncation to
/// the part before a slash), then the semantic parse, then host-bit handling
/// under the interface policy, then the family filter.
#[verifier::opaque]
pub open spec fn validate_span(
    inc4: bool,
    inc6: bool,
    accept: AcceptSet,
    imode: InterfaceMode,
    buf: Seq<u8>,
    start: int,
    end: int,
) -> SpanOutcome {
    let sl = first_slash(buf, start, end);
    let nonet = !(accept.net || accept.oldnet || accept.iface);
    let pend = if sl < end && nonet {
        sl
    } else {
        end
    };
    if sl == end && !accept.ip {
        SpanOutcome::Skip
    } else if sl < end && !nonet && accept.oldnet && !accept.net && !has_dot(buf, sl, end) {
        SpanOutcome::Skip
    } else {
        match parse_net(buf, start, pend) {
            Some(n) => if n.spec_has_host_bits() && !accept.iface {
                SpanOutcome::Skip
            } else if n.spec_has_host_bits() && imode is ComplainAndSkip {
                SpanOutcome::Complain(n)
            } else {
                let n2 = if !n.spec_has_host_bits() {
                    n
                } else if imode is TreatAsIp {
                    n.spec_as_ip()
                } else {
                    n.spec_as_network()
                };
                if !inc6 && n2.family is V6 {
                    SpanOutcome::Skip
                } else if !inc4 && n2.family is V4 {
                    SpanOutcome::Skip
                } else {
                    SpanOutcome::Emit(n2)
                }
            },
            None => SpanOutcome::Skip,
        }
    }
}

/// A byte pattern that any IPv4 token must contain: a period with a decimal
/// digit on both sides.
pub open spec fn v4pat_at(s: Seq<u8>, k: int) -> bool {
    0 < k && k + 1 < s.len() && s[k] == 46 && is_digit(s[k - 1]) && is_digit(s[k + 1])
}

/// A byte pattern that any IPv6 token must contain: a colon followed by a
/// colon or a hexadecimal digit.
pub open spec fn v6pat_at(s: Seq<u8>, k: int) -> bool {
    0 <= k && k + 1 < s.len() && s[k] == 58 && (s[k + 1] == 58 || is_hex_digit(s[k + 1]))
}

pub open spec fn could_be_v4(s: Seq<u8>) -> bool {
    exists|k: int| v4pat_at(s, k)
}

pub open spec fn could_be_v6(s: Seq<u8>) -> bool {
    exists|k: int| v6pat_at(s, k)
}

/// Any range parsed as an IPv4 quad contains a period with digits on both
/// sides.
proof fn lemma_v4_needs_pattern(s: Seq<u8>, i: int, j: int)
    requires
        0 <= i <= j <= s.len(),
        crate::parse::parse_v4(s, i, j) is Some,
    ensures
        could_be_v4(s),
{
    let (o0, e0) = crate::parse::octet_at(s, i, j).unwrap();
    crate::parse::lemma_octet_at(s, i, j);
    crate::parse::lemma_octet_at(s, e0 + 1, j);
    assert(v4pat_at(s, e0));
}

/// A non-empty group list starts with a hexadecimal digit.
proof fn lemma_glist_first(s: Seq<u8>, i: int, j: int, allow_v4: bool)
    requires
        0 <= i <= j <= s.len(),
        crate::parse::glist(s, i, j, allow_v4) is Some,
    ensures
        i < j,
        is_hex_digit(s[i]),
{
    let c = crate::parse::first_colon(s, i, j);
    crate::parse::lemma_first_colon(s, i, j);
    if c == j {
        if !crate::parse::hex_group_ok(s, i, j) {
            crate::parse::lemma_v4_at(s, i, j);
        }
    }
}

/// A group list of three or more groups contains a colon followed by a
/// hexadecimal digit.
proof fn lemma_glist_pattern(s: Seq<u8>, i: int, j: int, allow_v4: bool)
    requires
        0 <= i <= j <= s.len(),
        crate::parse::glist(s, i, j, allow_v4) is Some,
        crate::parse::glist(s, i, j, allow_v4).unwrap().len() >= 3,
    ensures
        could_be_v6(s),
{
    let c = crate::parse::first_colon(s, i, j);
    crate::parse::lemma_first_colon(s, i, j);
    if c == j {
        if !crate::parse::hex_group_ok(s, i, j) {
            crate::parse::lemma_v4_at(s, i, j);
        }
    } else {
        lemma_glist_first(s, c + 1, j, allow_v4);
        assert(v6pat_at(s, c));
    }
}

/// Any range parsed as an IPv6 address contains a colon followed by a colon
/// or a hexadecimal digit.
proof fn lemma_v6_needs_pattern(s: Seq<u8>, i: int, j: int)
    requires
        0 <= i <= j <= s.len(),
        crate::parse::parse_v6(s, i, j) is Some,
    ensures
        could_be_v6(s),
{
    let d = crate::parse::first_dcolon(s, i, j);
    crate::parse::lemma_first_dcolon(s, i, j);
    if d < j {
        assert(v6pat_at(s, d));
    } else {
        lemma_glist_pattern(s, i, j, true);
    }
}

/// The prefilter patterns are complete: any range that parses as a network
/// value contains its family's byte pattern somewhere in the buffer.
pub proof fn lemma_prefilter_complete(buf: Seq<u8>, i: int, j: int)
    requires
        0 <= i <= j <= buf.len(),
        parse_net(buf, i, j) is Some,
    ensures
        parse_net(buf, i, j).unwrap().family is V4 ==> could_be_v4(buf),
        parse_net(buf, i, j).unwrap().family is V6 ==> could_be_v6(buf),
{
    let sl = first_slash(buf, i, j);
    crate::parse::lemma_first_slash(buf, i, j);
    if sl == j {
        if crate::parse::parse_v4(buf, i, j) is Some {
            lemma_v4_needs_pattern(buf, i, j);
        } else {
            lemma_v6_needs_pattern(buf, i, j);
        }
    } else if crate::parse::all_digits(buf, sl + 1, j) {
        if crate::parse::parse_v4(buf, i, sl) is Some {
            lemma_v4_needs_pattern(buf, i, sl);
        } else if crate::parse::parse_v6(buf, i, sl) is Some {
            lemma_v6_needs_pattern(buf, i, sl);
        }
    } else {
        if crate::parse::parse_v4(buf, i, sl) is Some {
            lemma_v4_needs_pattern(buf, i, sl);
        }
    }
}

/// The prefilter is only an optimization: a buffer in which no pattern of an
/// interesting family occurs has no span that would be reported as a match,
/// so skipping the scan entirely yields the same set of matches as running
/// it.
pub proof fn lemma_no_pattern_no_match(
    inc4: bool,
    inc6: bool,
    accept: AcceptSet,
    imode: InterfaceMode,
    buf: Seq<u8>,
    start: int,
    end: int,
)
    requires
        0 <= start <= end <= buf.len(),
        inc4 ==> !could_be_v4(buf),
        inc6 ==> !could_be_v6(buf),
    ensures
        !(validate_span(inc4, inc6, accept, imode, buf, start, end) is Emit),
{
    reveal(validate_span);
    let sl = first_slash(buf, start, end);
    crate::parse::lemma_first_slash(buf, start, end);
    let nonet = !(accept.net || accept.oldnet || accept.iface);
    let pend = if sl < end && nonet {
        sl
    } else {
        end
    };
    if parse_net(buf, start, pend) is Some {
        lemma_prefilter_complete(buf, start, pend);
    }
}

/// A value that `validate_span` emits or reports is well formed.
proof fn lemma_validate_wf(
    inc4: bool,
    inc6: bool,
    accept: AcceptSet,
    imode: InterfaceMode,
    buf: Seq<u8>,
    start: int,
    end: int,
)
    requires
        0 <= start <= end <= buf.len(),
    ensures
        validate_span(inc4, inc6, accept, imode, buf, start, end) matches SpanOutcome::Emit(n)
            ==> n.wf(),
        validate_span(inc4, inc6, accept, imode, buf, start, end) matches SpanOutcome::Complain(
            n,
        ) ==> n.wf(),
{
    reveal(validate_span);
    let sl = first_slash(buf, start, end);
    crate::parse::lemma_first_slash(buf, start, end);
    let nonet = !(accept.net || accept.oldnet || accept.iface);
    let pend = if sl < end && nonet {
        sl
    } else {
        end
    };
    if parse_net(buf, start, pend) is Some {
        crate::parse::lemma_parse_net_wf(buf, start, pend);
        let n = parse_net(buf, start, pend).unwrap();
        crate::net::lemma_block_bounds(n);
    }
}

/// The match list of an ordered in-bounds span sequence is itself well
/// formed: every entry is `validate_span`-correct for its range, in strict
/// left-to-right order, starting no earlier than the first span.
#[verifier::rlimit(100)]
proof fn lemma_matches_list_ok(
    inc4: bool,
    inc6: bool,
    accept: AcceptSet,
    imode: InterfaceMode,
    buf: Seq<u8>,
    spans: Seq<(int, int)>,
)
    requires
        buf.len() <= usize::MAX,
        forall|k: int| 0 <= k < spans.len() ==> 0 <= (#[trigger] spans[k]).0 < spans[k].1
            <= buf.len(),
        forall|k1: int, k2: int|
            0 <= k1 < k2 < spans.len() ==> (#[trigger] spans[k1]).1 <= (#[trigger] spans[k2]).0,
    ensures
        ({
            let m = matches_of_spans(inc4, inc6, accept, imode, buf, spans);
            &&& forall|k: int| 0 <= k < m.len() ==> emit_ok(
                inc4,
                inc6,
                accept,
                imode,
                buf,
                #[trigger] m[k],
            )
            &&& forall|k1: int, k2: int|
                0 <= k1 < k2 < m.len() ==> (#[trigger] m[k1]).range.1 <= (#[trigger] m[k2]).range.0
            &&& (spans.len() > 0 ==> forall|k: int|
                0 <= k < m.len() ==> spans[0].0 <= (#[trigger] m[k]).range.0)
        }),
    decreases spans.len(),
{
    reveal(matches_of_spans);
    if spans.len() > 0 {
        let sp = spans[0];
        let rest = spans.drop_first();
        assert(forall|k: int|
            0 <= k < rest.len() ==> 0 <= (#[trigger] rest[k]).0 < rest[k].1 <= buf.len());
        assert(forall|k1: int, k2: int|
            0 <= k1 < k2 < rest.len() ==> (#[trigger] rest[k1]).1 <= (#[trigger] rest[k2]).0);
        lemma_matches_list_ok(inc4, inc6, accept, imode, buf, rest);
        lemma_validate_wf(inc4, inc6, accept, imode, buf, sp.0, sp.1);
        let m = matches_of_spans(inc4, inc6, accept, imode, buf, spans);
        let m_rest = matches_of_spans(inc4, inc6, accept, imode, buf, rest);
        if rest.len() > 0 {
            assert(rest[0] == spans[1]);
            assert(sp.1 <= rest[0].0);
        }
        match validate_span(inc4, inc6, accept, imode, buf, sp.0, sp.1) {
            SpanOutcome::Emit(n) => {
                let cand = NetCandidate { range: (sp.0 as usize, sp.1 as usize), net: n };
                assert(m =~= seq![cand] + m_rest) by {
                    reveal_with_fuel(matches_of_spans, 2);
                }
                assert(m[0] == cand);
                assert(forall|k: int| 1 <= k < m.len() ==> m[k] == m_rest[k - 1]);
                assert(emit_ok(inc4, inc6, accept, imode, buf, cand));
            },
            _ => {},
        }
    }
}

/// The complaint list of an in-bounds span sequence holds only
/// `validate_span`-correct reports.
#[verifier::rlimit(100)]
proof fn lemma_complaints_list_ok(
    inc4: bool,
    inc6: bool,
    accept: AcceptSet,
    imode: InterfaceMode,
    buf: Seq<u8>,
    spans: Seq<(int, int)>,
)
    requires
        buf.len() <= usize::MAX,
        forall|k: int| 0 <= k < spans.len() ==> 0 <= (#[trigger] spans[k]).0 < spans[k].1
            <= buf.len(),
    ensures
        ({
            let c = complaints_of_spans(inc4, inc6, accept, imode, buf, spans);
            forall|k: int| 0 <= k < c.len() ==> complain_ok(
                inc4,
                inc6,
                accept,
                imode,
                buf,
                #[trigger] c[k],
            )
        }),
    decreases spans.len(),
{
    reveal(complaints_of_spans);
    if spans.len() > 0 {
        let sp = spans[0];
        let rest = spans.drop_first();
        assert(forall|k: int|
            0 <= k < rest.len() ==> 0 <= (#[trigger] rest[k]).0 < rest[k].1 <= buf.len());
        lemma_complaints_list_ok(inc4, inc6, accept, imode, buf, rest);
        lemma_validate_wf(inc4, inc6, accept, imode, buf, sp.0, sp.1);
        let c = complaints_of_spans(inc4, inc6, accept, imode, buf, spans);
        let c_rest = complaints_of_spans(inc4, inc6, accept, imode, buf, rest);
        match validate_span(inc4, inc6, accept, imode, buf, sp.0, sp.1) {
            SpanOutcome::Complain(n) => {
                let cand = NetCandidate { range: (sp.0 as usize, sp.1 as usize), net: n };
                assert(c =~= seq![cand] + c_rest) by {
                    reveal_with_fuel(complaints_of_spans, 2);
                }
                assert(c[0] == cand);
                assert(forall|k: int| 1 <= k < c.len() ==> c[k] == c_rest[k - 1]);
                assert(complain_ok(inc4, inc6, accept, imode, buf, cand));
            },
            _ => {},
        }
    }
}

/// Unrolling one scan step: the lists of the whole scan are the verdict of
/// the first span followed by the lists of the remaining scan.
proof fn lemma_lists_step(
    inc4: bool,
    inc6: bool,
    accept: AcceptSet,
    imode: InterfaceMode,
    buf: Seq<u8>,
    pos: int,
    oldnet: bool,
)
    requires
        0 <= pos <= buf.len(),
        next_spec(buf, pos, oldnet).0 is Some,
    ensures
        ({
            let step = next_spec(buf, pos, oldnet);
            let sp = step.0.unwrap();
            let rest = scan_spans(buf, step.1, oldnet);
            let oc = validate_span(inc4, inc6, accept, imode, buf, sp.0, sp.1);
            &&& scan_spans(buf, pos, oldnet) == seq![sp] + rest
            &&& matches_of_spans(inc4, inc6, accept, imode, buf, scan_spans(buf, pos, oldnet))
                == (match oc {
                SpanOutcome::Emit(n) => seq![
                    NetCandidate { range: ((sp.0) as usize, (sp.1) as usize), net: n },
                ] + matches_of_spans(inc4, inc6, accept, imode, buf, rest),
                _ => matches_of_spans(inc4, inc6, accept, imode, buf, rest),
            })
            &&& complaints_of_spans(inc4, inc6, accept, imode, buf, scan_spans(buf, pos, oldnet))
                == (match oc {
                SpanOutcome::Complain(n) => seq![
                    NetCandidate { range: ((sp.0) as usize, (sp.1) as usize), net: n },
                ] + complaints_of_spans(inc4, inc6, accept, imode, buf, rest),
                _ => complaints_of_spans(inc4, inc6, accept, imode, buf, rest),
            })
        }),
{
    reveal(crate::netlike::scan_spans);
    reveal(matches_of_spans);
    reveal(complaints_of_spans);
    lemma_next_spec(buf, pos, oldnet);
    let step = next_spec(buf, pos, oldnet);
    let sp = step.0.unwrap();
    let rest = scan_spans(buf, step.1, oldnet);
    let whole = scan_spans(buf, pos, oldnet);
    assert(whole =~= seq![sp] + rest);
    assert(whole.drop_first() =~= rest);
    assert(whole[0] == sp);
    match validate_span(inc4, inc6, accept, imode, buf, sp.0, sp.1) {
        SpanOutcome::Emit(n) => {
            assert(matches_of_spans(inc4, inc6, accept, imode, buf, whole) =~= seq![
                NetCandidate { range: ((sp.0) as usize, (sp.1) as usize), net: n },
            ] + matches_of_spans(inc4, inc6, accept, imode, buf, rest));
        },
        SpanOutcome::Complain(n) => {
            assert(complaints_of_spans(inc4, inc6, accept, imode, buf, whole) =~= seq![
                NetCandidate { range: ((sp.0) as usize, (sp.1) as usize), net: n },
            ] + complaints_of_spans(inc4, inc6, accept, imode, buf, rest));
        },
        SpanOutcome::Skip => {},
    }
}

/// A step without a span ends the scan: no spans remain.
proof fn lemma_scan_done(
    inc4: bool,
    inc6: bool,
    accept: AcceptSet,
    imode: InterfaceMode,
    buf: Seq<u8>,
    pos: int,
    oldnet: bool,
)
    requires
        0 <= pos <= buf.len(),
        next_spec(buf, pos, oldnet).0 is None,
    ensures
        scan_spans(buf, pos, oldnet) == Seq::<(int, int)>::empty(),
        matches_of_spans(inc4, inc6, accept, imode, buf, scan_spans(buf, pos, oldnet))
            == Seq::<NetCandidate>::empty(),
        complaints_of_spans(inc4, inc6, accept, imode, buf, scan_spans(buf, pos, oldnet))
            == Seq::<NetCandidate>::empty(),
{
    reveal(crate::netlike::scan_spans);
    reveal(matches_of_spans);
    reveal(complaints_of_spans);
}

/// Spans over a buffer without the interesting patterns produce no match.
proof fn lemma_spans_no_emit_rec(
    inc4: bool,
    inc6: bool,
    accept: AcceptSet,
    imode: InterfaceMode,
    buf: Seq<u8>,
    spans: Seq<(int, int)>,
)
    requires
        forall|k: int| 0 <= k < spans.len() ==> 0 <= (#[trigger] spans[k]).0 <= spans[k].1
            <= buf.len(),
        inc4 ==> !could_be_v4(buf),
        inc6 ==> !could_be_v6(buf),
    ensures
        matches_of_spans(inc4, inc6, accept, imode, buf, spans) == Seq::<NetCandidate>::empty(),
    decreases spans.len(),
{
    reveal(matches_of_spans);
    if spans.len() > 0 {
        lemma_no_pattern_no_match(inc4, inc6, accept, imode, buf, spans[0].0, spans[0].1);
        assert(forall|k: int|
            0 <= k < spans.drop_first().len() ==> 0 <= (#[trigger] spans.drop_first()[k]).0
                <= spans.drop_first()[k].1 <= buf.len());
        lemma_spans_no_emit_rec(inc4, inc6, accept, imode, buf, spans.drop_first());
    }
}

/// The prefilter is purely an optimization: when the pass selected by the
/// family configuration rejects a buffer, the full scan would not have
/// produced a single match either, so skipping it changes nothing.
pub proof fn lemma_prefilter_is_optimization(
    inc4: bool,
    inc6: bool,
    accept: AcceptSet,
    imode: InterfaceMode,
    buf: Seq<u8>,
    oldnet: bool,
)
    requires
        !spec_prefilter_pass(inc4, inc6, buf),
        inc4 || inc6,
    ensures
        matches_of_spans(inc4, inc6, accept, imode, buf, scan_spans(buf, 0, oldnet))
            == Seq::<NetCandidate>::empty(),
{
    lemma_scan_spans(buf, 0, oldnet);
    lemma_spans_no_emit_rec(inc4, inc6, accept, imode, buf, scan_spans(buf, 0, oldnet));
}

/// Relies on memchr::memchr2: the index of the first occurrence of either
/// needle byte in the haystack, or `None` when neither occurs.
#[verifier::external_body]
fn find_byte2(n1: u8, n2: u8, haystack: &[u8]) -> (r: Option<usize>)
    ensures
        match r {
            Some(i) => i < haystack@.len() && (haystack@[i as int] == n1 || haystack@[i as int]
                == n2) && forall|j: int|
                0 <= j < i ==> haystack@[j] != n1 && haystack@[j] != n2,
            None => forall|j: int| 0 <= j < haystack@.len() ==> haystack@[j] != n1 && haystack@[j]
                != n2,
        },
{
    memchr::memchr2(n1, n2, haystack)
}

/// Relies on memchr::memchr: the index of the first occurrence of the needle
/// byte in the haystack, or `None` when it does not occur.
#[verifier::external_body]
fn find_byte(n1: u8, haystack: &[u8]) -> (r: Option<usize>)
    ensures
        match r {
            Some(i) => i < haystack@.len() && haystack@[i as int] == n1 && forall|j: int|
                0 <= j < i ==> haystack@[j] != n1,
            None => forall|j: int| 0 <= j < haystack@.len() ==> haystack@[j] != n1,
        },
{
    memchr::memchr(n1, haystack)
}

/// A single pass that can rule out both address families.
fn prefilter_could_be_ip(line: &[u8]) -> (r: bool)
    ensures
        r == (could_be_v4(line@) || could_be_v6(line@)),
{
    let len = line.len();
    if len == 0 {
        return false;
    }
    let mut from: usize = 0;
    loop
        invariant
            from <= len,
            len == line@.len(),
            forall|k: int| 0 <= k < from ==> !v4pat_at(line@, k) && !v6pat_at(line@, k),
        decreases len - from,
    {
        let sub = vstd::slice::slice_subrange(line, from, len);
        match find_byte2(46, 58, sub) {
            Some(idx) => {
                let pos = from + idx;
                proof {
                    assert forall|k: int| from <= k < pos implies line@[k] != 46 && line@[k]
                        != 58 by {
                        assert(sub@[k - from] == line@[k]);
                    }
                }
                if line[pos] == 46 {
                    if pos + 1 < len && is_digit_x(line[pos + 1]) && pos > 0 && is_digit_x(
                        line[pos - 1],
                    ) {
                        proof {
                            assert(v4pat_at(line@, pos as int));
                        }
                        return true;
                    }
                } else {
                    if pos + 1 < len && (is_hex_digit_x(line[pos + 1]) || line[pos + 1] == 58) {
                        proof {
                            assert(v6pat_at(line@, pos as int));
                        }
                        return true;
                    }
                }
                from = pos + 1;
            },
            None => {
                proof {
                    assert forall|k: int| from <= k < len implies line@[k] != 46 && line@[k]
                        != 58 by {
                        assert(sub@[k - from] == line@[k]);
                    }
                }
                return false;
            },
        }
    }
}

/// A single pass that can rule out IPv4 tokens.
fn prefilter_could_be_ip4(line: &[u8]) -> (r: bool)
    ensures
        r == could_be_v4(line@),
{
    let len = line.len();
    if len == 0 {
        return false;
    }
    let mut from: usize = 0;
    loop
        invariant
            from <= len,
            len == line@.len(),
            forall|k: int| 0 <= k < from ==> !v4pat_at(line@, k),
        decreases len - from,
    {
        let sub = vstd::slice::slice_subrange(line, from, len);
        match find_byte(46, sub) {
            Some(idx) => {
                let pos = from + idx;
                proof {
                    assert forall|k: int| from <= k < pos implies line@[k] != 46 by {
                        assert(sub@[k - from] == line@[k]);
                    }
                }
                if pos + 1 < len && is_digit_x(line[pos + 1]) && pos > 0 && is_digit_x(
                    line[pos - 1],
                ) {
                    proof {
                        assert(v4pat_at(line@, pos as int));
                    }
                    return true;
                }
                from = pos + 1;
            },
            None => {
                proof {
                    assert forall|k: int| from <= k < len implies line@[k] != 46 by {
                        assert(sub@[k - from] == line@[k]);
                    }
                }
                return false;
            },
        }
    }
}

/// A single pass that can rule out IPv6 tokens.
fn prefilter_could_be_ip6(line: &[u8]) -> (r: bool)
    ensures
        r == could_be_v6(line@),
{
    let len = line.len();
    if len == 0 {
        return false;
    }
    let mut from: usize = 0;
    loop
        invariant
            from <= len,
            len == line@.len(),
            forall|k: int| 0 <= k < from ==> !v6pat_at(line@, k),
        decreases len - from,
    {
        let sub = vstd::slice::slice_subrange(line, from, len);
        match find_byte(58, sub) {
            Some(idx) => {
                let pos = from + idx;
                proof {
                    assert forall|k: int| from <= k < pos implies line@[k] != 58 by {
                        assert(sub@[k - from] == line@[k]);
                    }
                }
                if pos + 1 < len && (is_hex_digit_x(line[pos + 1]) || line[pos + 1] == 58) {
                    proof {
                        assert(v6pat_at(line@, pos as int));
                    }
                    return true;
                }
                from = pos + 1;
            },
            None => {
                proof {
                    assert forall|k: int| from <= k < len implies line@[k] != 58 by {
                        assert(sub@[k - from] == line@[k]);
                    }
                }
                return false;
            },
        }
    }
}

/// There is a period in `[i, j)` of `s`.
fn has_dot_x(s: &[u8], i: usize, j: usize) -> (r: bool)
    requires
        i <= j <= s.len(),
    ensures
        r == has_dot(s@, i as int, j as int),
{
    let mut cur = i;
    while cur < j
        invariant
            i <= cur <= j <= s.len(),
            forall|k: int| i <= k < cur ==> s@[k] != 46,
        decreases j - cur,
    {
        if s[cur] == 46 {
            return true;
        }
        cur = cur + 1;
    }
    false
}

/// The scanner configuration: which families are of interest, which textual
/// forms are accepted, and what to do with interface addresses.
pub struct NetCandidateScanner {
    include_ipv4: bool,
    include_ipv6: bool,
    accept: AcceptSet,
    interface_mode: InterfaceMode,
}

impl NetCandidateScanner {
    pub closed spec fn inc4(self) -> bool {
        self.include_ipv4
    }

    pub closed spec fn inc6(self) -> bool {
        self.include_ipv6
    }

    pub closed spec fn spec_accept(self) -> AcceptSet {
        self.accept
    }

    pub closed spec fn spec_imode(self) -> InterfaceMode {
        self.interface_mode
    }

    pub fn new() -> (r: Self)
        ensures
            r.inc4(),
            r.inc6(),
            r.spec_accept() == (AcceptSet { ip: false, net: false, oldnet: false, iface: false }),
            r.spec_imode() == InterfaceMode::TreatAsIp,
    {
        Self {
            include_ipv4: true,
            include_ipv6: true,
            accept: AcceptSet::default(),
            interface_mode: InterfaceMode::default(),
        }
    }

    /// Drop IPv4 candidates.  At least one family must stay of interest.
    pub fn ignore_ipv4(self, value: bool) -> (r: Self)
        requires
            value ==> self.inc6(),
        ensures
            r.inc4() == !value,
            r.inc6() == self.inc6(),
            r.spec_accept() == self.spec_accept(),
            r.spec_imode() == self.spec_imode(),
    {
        Self { include_ipv4: !value, ..self }
    }

    /// Drop IPv6 candidates.  At least one family must stay of interest.
    pub fn ignore_ipv6(self, value: bool) -> (r: Self)
        requires
            value ==> self.inc4(),
        ensures
            r.inc6() == !value,
            r.inc4() == self.inc4(),
            r.spec_accept() == self.spec_accept(),
            r.spec_imode() == self.spec_imode(),
    {
        Self { include_ipv6: !value, ..self }
    }

    /// Choose the accepted textual forms.  An all-false set is a
    /// configuration error.
    pub fn set_accept(self, accept: AcceptSet) -> (r: Self)
        requires
            accept.ip || accept.net || accept.oldnet || accept.iface,
        ensures
            r.spec_accept() == accept,
            r.inc4() == self.inc4(),
            r.inc6() == self.inc6(),
            r.spec_imode() == self.spec_imode(),
    {
        Self { accept, ..self }
    }

    pub fn set_interface_mode(self, interface_mode: InterfaceMode) -> (r: Self)
        ensures
            r.spec_imode() == interface_mode,
            r.inc4() == self.inc4(),
            r.inc6() == self.inc6(),
            r.spec_accept() == self.spec_accept(),
    {
        Self { interface_mode, ..self }
    }

    /// Decide the fate of one candidate span, exactly as `validate_span`
    /// assigns it.
    fn classify_span(&self, buf: &[u8], start: usize, end: usize) -> (r: SpanOutcome)
        requires
            start < end <= buf@.len(),
        ensures
            r == validate_span(
                self.inc4(),
                self.inc6(),
                self.spec_accept(),
                self.spec_imode(),
                buf@,
                start as int,
                end as int,
            ),
            r matches SpanOutcome::Emit(n) ==> n.wf(),
            r matches SpanOutcome::Complain(n) ==> n.wf(),
    {
        proof {
            reveal(validate_span);
        }
        let nonet = !(self.accept.net || self.accept.oldnet || self.accept.iface);
        let sl = first_slash_x(buf, start, end);
        let mut pend = end;
        if sl < end {
            if nonet {
                pend = sl;
            } else if self.accept.oldnet && !self.accept.net {
                // Only dotted-mask networks wanted: a purely numeric suffix
                // is a CIDR, not an old-style mask.
                if !has_dot_x(buf, sl, end) {
                    return SpanOutcome::Skip;
                }
            }
        } else {
            if !self.accept.ip {
                return SpanOutcome::Skip;
            }
        }
        let net = match parse_net_x(buf, start, pend) {
            Some(n) => n,
            None => {
                return SpanOutcome::Skip;
            },
        };
        let mut net2 = net;
        if net.has_host_bits() {
            if !self.accept.iface {
                return SpanOutcome::Skip;
            }
            match self.interface_mode {
                InterfaceMode::TreatAsIp => {
                    net2 = net.as_ip();
                },
                InterfaceMode::TreatAsNetwork => {
                    net2 = net.as_network();
                },
                InterfaceMode::ComplainAndSkip => {
                    return SpanOutcome::Complain(net);
                },
            }
        }
        if !self.include_ipv6 && net2.is_ipv6() {
            return SpanOutcome::Skip;
        }
        if !self.include_ipv4 && net2.is_ipv4() {
            return SpanOutcome::Skip;
        }
        SpanOutcome::Emit(net2)
    }

    /// Scan one buffer.  The returned lists are pinned exactly: the first
    /// is the match that `validate_span` emits for each span of the scan, in
    /// order, and the second likewise holds the complain-and-skip reports
    /// (empty when the prefilter skipped the scan, which by
    /// `lemma_prefilter_is_optimization` can only happen when the match list
    /// is empty anyway: the prefilter affects speed and diagnostics, never
    /// the matches).
    #[verifier::rlimit(100)]
    pub fn find_all(&self, buf: &[u8]) -> (r: (Vec<NetCandidate>, Vec<NetCandidate>))
        requires
            self.inc4() || self.inc6(),
        ensures
            r.0@ == matches_of_spans(
                self.inc4(),
                self.inc6(),
                self.spec_accept(),
                self.spec_imode(),
                buf@,
                scan_spans(buf@, 0, self.spec_accept().oldnet),
            ),
            r.1@ == if spec_prefilter_pass(self.inc4(), self.inc6(), buf@) {
                complaints_of_spans(
                    self.inc4(),
                    self.inc6(),
                    self.spec_accept(),
                    self.spec_imode(),
                    buf@,
                    scan_spans(buf@, 0, self.spec_accept().oldnet),
                )
            } else {
                Seq::<NetCandidate>::empty()
            },
            forall|k: int| 0 <= k < r.0@.len() ==> emit_ok(
                self.inc4(),
                self.inc6(),
                self.spec_accept(),
                self.spec_imode(),
                buf@,
                #[trigger] r.0@[k],
            ),
            forall|k1: int, k2: int|
                0 <= k1 < k2 < r.0@.len() ==> (#[trigger] r.0@[k1]).range.1 <= (
                #[trigger] r.0@[k2]).range.0,
            forall|k: int| 0 <= k < r.1@.len() ==> complain_ok(
                self.inc4(),
                self.inc6(),
                self.spec_accept(),
                self.spec_imode(),
                buf@,
                #[trigger] r.1@[k],
            ),
            !could_be_v4(buf@) && !could_be_v6(buf@) ==> r.0@.len() == 0 && r.1@.len() == 0,
    {
        let ghost i4 = self.inc4();
        let ghost i6 = self.inc6();
        let ghost acc = self.spec_accept();
        let ghost im = self.spec_imode();
        let ghost on = self.spec_accept().oldnet;
        let ghost all_spans = scan_spans(buf@, 0, on);
        let ghost total_m = matches_of_spans(i4, i6, acc, im, buf@, all_spans);
        let ghost total_c = complaints_of_spans(i4, i6, acc, im, buf@, all_spans);
        let mut out: Vec<NetCandidate> = Vec::new();
        let mut skipped: Vec<NetCandidate> = Vec::new();
        let len = buf.len();

        // The prefilter: one cheap pass that can prove the buffer holds
        // nothing IP-shaped for the families of interest.
        let pass = if self.include_ipv4 && self.include_ipv6 {
            prefilter_could_be_ip(buf)
        } else if self.include_ipv4 {
            prefilter_could_be_ip4(buf)
        } else {
            prefilter_could_be_ip6(buf)
        };
        proof {
            assert(pass == spec_prefilter_pass(i4, i6, buf@));
            lemma_scan_spans(buf@, 0, on);
            lemma_matches_list_ok(i4, i6, acc, im, buf@, all_spans);
            lemma_complaints_list_ok(i4, i6, acc, im, buf@, all_spans);
            if !could_be_v4(buf@) && !could_be_v6(buf@) {
                lemma_spans_no_emit_rec(i4, i6, acc, im, buf@, all_spans);
            }
        }
        if !pass {
            proof {
                lemma_prefilter_is_optimization(i4, i6, acc, im, buf@, on);
                assert(out@ =~= total_m);
            }
            return (out, skipped);
        }

        let scanner0 = if self.accept.oldnet {
            NetLikeScanner::new(buf).with_oldnet()
        } else {
            NetLikeScanner::new(buf)
        };
        let mut scanner = scanner0;
        proof {
            assert(out@ + matches_of_spans(i4, i6, acc, im, buf@, all_spans) =~= total_m);
            assert(skipped@ + complaints_of_spans(i4, i6, acc, im, buf@, all_spans) =~= total_c);
        }

        loop
            invariant_except_break
                total_m == out@ + matches_of_spans(
                    i4,
                    i6,
                    acc,
                    im,
                    buf@,
                    scan_spans(buf@, scanner.pos(), on),
                ),
                total_c == skipped@ + complaints_of_spans(
                    i4,
                    i6,
                    acc,
                    im,
                    buf@,
                    scan_spans(buf@, scanner.pos(), on),
                ),
            invariant
                len == buf@.len(),
                scanner.buf_seq() == buf@,
                scanner.is_oldnet() == on,
                0 <= scanner.pos() <= len,
                i4 == self.inc4(),
                i6 == self.inc6(),
                acc == self.spec_accept(),
                im == self.spec_imode(),
                on == acc.oldnet,
                total_m == matches_of_spans(i4, i6, acc, im, buf@, all_spans),
                total_c == complaints_of_spans(i4, i6, acc, im, buf@, all_spans),
            ensures
                out@ == total_m,
                skipped@ == total_c,
            decreases len - scanner.pos(),
        {
            let ghost p0 = scanner.pos();
            let (start, end) = match scanner.next() {
                Some(span) => span,
                None => {
                    proof {
                        lemma_scan_done(i4, i6, acc, im, buf@, p0, on);
                        assert(out@ =~= total_m);
                        assert(skipped@ =~= total_c);
                    }
                    break ;
                },
            };
            let ghost sp = (start as int, end as int);
            let ghost rest = scan_spans(buf@, scanner.pos(), on);
            let ghost oc = validate_span(i4, i6, acc, im, buf@, start as int, end as int);
            let ghost m_rest = matches_of_spans(i4, i6, acc, im, buf@, rest);
            let ghost c_rest = complaints_of_spans(i4, i6, acc, im, buf@, rest);
            proof {
                assert(next_spec(buf@, p0, on).0 == Some(sp));
                lemma_lists_step(i4, i6, acc, im, buf@, p0, on);
            }
            match self.classify_span(buf, start, end) {
                SpanOutcome::Skip => {
                },
                SpanOutcome::Emit(n) => {
                    let ghost o0 = out@;
                    out.push(NetCandidate { range: (start, end), net: n });
                    proof {
                        assert(out@ =~= o0 + seq![NetCandidate { range: (start, end), net: n }]);
                        assert(o0 + (seq![NetCandidate { range: (start, end), net: n }] + m_rest)
                            =~= out@ + m_rest);
                    }
                },
                SpanOutcome::Complain(n) => {
                    let ghost s0 = skipped@;
                    skipped.push(NetCandidate { range: (start, end), net: n });
                    proof {
                        assert(skipped@ =~= s0 + seq![
                            NetCandidate { range: (start, end), net: n },
                        ]);
                        assert(s0 + (seq![NetCandidate { range: (start, end), net: n }] + c_rest)
                            =~= skipped@ + c_rest);
                    }
                },
            }
        }
        (out, skipped)
    }
}

} // verus!
