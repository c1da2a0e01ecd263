use vstd::prelude::*;

verus! {

use crate::net::{Family, Net, net_contains};

/// Which textual forms of a network value are accepted by a scan.
#[derive(Clone, Copy, Debug, PartialEq, Eq, Structural)]
pub struct AcceptSet {
    pub ip: bool,
    pub net: bool,
    pub oldnet: bool,
    pub iface: bool,
}

impl Default for AcceptSet {
    fn default() -> (r: Self)
        ensures
            r == (AcceptSet { ip: false, net: false, oldnet: false, iface: false }),
    {
        AcceptSet { ip: false, net: false, oldnet: false, iface: false }
    }
}

/// What to do with a scanned network value whose host bits are set.
#[derive(Clone, Copy, Debug, PartialEq, Eq, Structural)]
pub enum InterfaceMode {
    TreatAsIp,
    TreatAsNetwork,
    ComplainAndSkip,
}

impl Default for InterfaceMode {
    fn default() -> (r: Self)
        ensures
            r == InterfaceMode::TreatAsIp,
    {
        InterfaceMode::TreatAsIp
    }
}

/// Comparison mode between a scanned value (haystack) and a user-supplied
/// value (needle).
#[derive(Clone, Copy, Debug, PartialEq, Eq, Structural)]
pub enum MatchMode {
    Equals,
    Contains,
    Within,
    Overlaps,
}

/// The value of each comparison mode, over the network blocks of the two
/// operands:
/// - `Equals`: identity of (family, address bits, prefix length);
/// - `Contains`: the needle's lowest and highest addresses both lie in the
///   haystack's block;
/// - `Within`: the mirror image, with the operands swapped;
/// - `Overlaps`: either block's lowest address lies in the other block.
pub open spec fn matches_of(mode: MatchMode, haystack: Net, needle: Net) -> bool {
    match mode {
        MatchMode::Equals => needle == haystack,
        MatchMode::Contains => net_contains(haystack, needle.family, needle.base())
            && net_contains(haystack, needle.family, needle.top()),
        MatchMode::Within => net_contains(needle, haystack.family, haystack.base())
            && net_contains(needle, haystack.family, haystack.top()),
        MatchMode::Overlaps => net_contains(haystack, needle.family, needle.base())
            || net_contains(needle, haystack.family, haystack.base()),
    }
}

impl MatchMode {
    /// Decide the comparison between `haystack` and `needle`.  The operand
    /// that a mode reads as a proper network must not have host bits set.
    pub fn matches(&self, haystack: &Net, needle: &Net) -> (r: bool)
        requires
            haystack.wf(),
            needle.wf(),
            self is Contains ==> !needle.spec_has_host_bits(),
            self is Within ==> !haystack.spec_has_host_bits(),
        ensures
            r == matches_of(*self, *haystack, *needle),
    {
        match self {
            MatchMode::Equals => *needle == *haystack,
            MatchMode::Contains => {
                if !Self::same_family(haystack, needle) {
                    false
                } else {
                    let (hb, ht) = haystack.range();
                    let (nb, nt) = needle.range();
                    hb <= nb && nb <= ht && hb <= nt && nt <= ht
                }
            },
            MatchMode::Within => {
                if !Self::same_family(haystack, needle) {
                    false
                } else {
                    let (nb, nt) = needle.range();
                    let (hb, ht) = haystack.range();
                    nb <= hb && hb <= nt && nb <= ht && ht <= nt
                }
            },
            MatchMode::Overlaps => {
                if !Self::same_family(haystack, needle) {
                    false
                } else {
                    let (hb, ht) = haystack.range();
                    let (nb, nt) = needle.range();
                    (hb <= nb && nb <= ht) || (nb <= hb && hb <= nt)
                }
            },
        }
    }

    fn same_family(a: &Net, b: &Net) -> (r: bool)
        ensures
            r == (a.family == b.family),
    {
        match (a.family, b.family) {
            (Family::V4, Family::V4) => true,
            (Family::V6, Family::V6) => true,
            _ => false,
        }
    }
}

/// `Contains` and `Within` agree with the operands swapped: the haystack
/// contains the needle exactly when the needle lies within the haystack.
pub proof fn lemma_contains_within_agree(h: Net, n: Net)
    ensures
        matches_of(MatchMode::Contains, h, n) == matches_of(MatchMode::Within, n, h),
{
}

/// `Overlaps` is symmetric in its two operands.
pub proof fn lemma_overlaps_symmetric(a: Net, b: Net)
    ensures
        matches_of(MatchMode::Overlaps, a, b) == matches_of(MatchMode::Overlaps, b, a),
{
}

/// Operands of different address families never match, in any mode.
pub proof fn lemma_mixed_family_never_matches(mode: MatchMode, h: Net, n: Net)
    requires
        h.family != n.family,
    ensures
        !matches_of(mode, h, n),
{
}

} // verus!
