use vstd::prelude::*;

verus! {

use vstd::arithmetic::power2::{pow2, lemma_pow2_adds, lemma_pow2_pos, lemma2_to64};
use vstd::string::StringSliceAdditionalSpecFns;
use vstd::arithmetic::div_mod::{
    lemma_fundamental_div_mod, lemma_mod_division_less_than_divisor, lemma_mod_multiples_basic,
    lemma_small_mod, lemma_div_pos_is_pos,
};
use vstd::arithmetic::mul::{lemma_mul_inequality, lemma_mul_nonnegative};

/// Address family of a network value.
#[derive(Clone, Copy, Debug, PartialEq, Eq, Structural)]
pub enum Family {
    V4,
    V6,
}

/// A parse failure for a textual network value.  The payload carries the
/// offending input bytes.
#[derive(Clone, Debug, PartialEq, Eq)]
pub enum NetError {
    /// Kept for API parity; the byte-level parser classifies every
    /// syntactic failure, non-UTF-8 input included, as `NotAnIp`.
    InvalidUtf8,
    NotAnIp(Vec<u8>),
    HostBitsSet(Vec<u8>),
}

/// A normalized network value: an address family, the address bits
/// (IPv4 addresses live in the low 32 bits), and a prefix length.
/// Two values are equal exactly when family, address bits and prefix
/// length all agree, so `10.0.0.0/23` and `10.0.0.0/24` differ.
#[derive(Clone, Copy, Debug, PartialEq, Eq, Structural)]
pub struct Net {
    pub family: Family,
    pub addr: u128,
    pub prefix: u8,
}

/// Number of address bits of a family.
pub open spec fn family_bits(f: Family) -> int {
    match f {
        Family::V4 => 32,
        Family::V6 => 128,
    }
}

/// `c` covers address `x` of family `f`: same family, and `x` lies in
/// the block `[c.base(), c.top()]`.
pub open spec fn net_contains(c: Net, f: Family, x: int) -> bool {
    c.family == f && c.base() <= x <= c.top()
}

impl Net {
    /// Well-formedness: the prefix fits the family and a v4 address
    /// uses only the low 32 bits.
    pub open spec fn wf(self) -> bool {
        &&& self.prefix <= family_bits(self.family)
        &&& self.family is V4 ==> self.addr < 0x1_0000_0000
    }

    /// Number of host bits (address bits outside the prefix).
    pub open spec fn host_len(self) -> nat {
        (family_bits(self.family) - self.prefix) as nat
    }

    /// Lowest address of the network block designated by the prefix.
    pub open spec fn base(self) -> int {
        self.addr - (self.addr as int % pow2(self.host_len()) as int)
    }

    /// Highest address of the network block designated by the prefix.
    pub open spec fn top(self) -> int {
        self.base() + pow2(self.host_len()) - 1
    }

    /// True iff some address bit outside the prefix is set, i.e. the
    /// stored address differs from the network base address.
    pub open spec fn spec_has_host_bits(self) -> bool {
        self.addr as int != self.base()
    }

    /// The value of `as_ip`: the same address as a single host.
    pub open spec fn spec_as_ip(self) -> Net {
        Net { family: self.family, addr: self.addr, prefix: family_bits(self.family) as u8 }
    }

    /// The value of `as_network`: the network base of the same block.
    pub open spec fn spec_as_network(self) -> Net {
        Net { family: self.family, addr: self.base() as u128, prefix: self.prefix }
    }

    /// The network block of a well-formed value, as the pair
    /// (lowest address, highest address).
    pub fn range(&self) -> (r: (u128, u128))
        requires
            self.wf(),
        ensures
            r.0 == self.base(),
            r.1 == self.top(),
    {
        proof {
            lemma_block_bounds(*self);
            lemma_pow2_pos(self.host_len());
        }
        let hl: u8 = match self.family {
            Family::V4 => 32 - self.prefix,
            Family::V6 => 128 - self.prefix,
        };
        if hl == 128 {
            proof {
                lemma_pow2_128();
                lemma_small_mod(self.addr as nat, pow2(128));
            }
            (0, u128::MAX)
        } else {
            let p = pow2_u128(hl);
            let m = self.addr % p;
            let base = self.addr - m;
            proof {
                assert(base == self.base());
                lemma_pow2_128();
                if self.family is V4 {
                    lemma2_to64();
                    vstd::arithmetic::power2::lemma_pow2_strictly_increases(32, 128);
                }
            }
            (base, base + (p - 1))
        }
    }

    /// True iff the address has bits set outside the prefix.
    pub fn has_host_bits(&self) -> (r: bool)
        requires
            self.wf(),
        ensures
            r == self.spec_has_host_bits(),
    {
        let (base, _top) = self.range();
        self.addr != base
    }

    pub fn is_ipv4(&self) -> (r: bool)
        ensures
            r == (self.family is V4),
    {
        match self.family {
            Family::V4 => true,
            Family::V6 => false,
        }
    }

    pub fn is_ipv6(&self) -> (r: bool)
        ensures
            r == (self.family is V6),
    {
        match self.family {
            Family::V4 => false,
            Family::V6 => true,
        }
    }

    /// The same address as a single host: the prefix is forced to the
    /// family's maximum, the address is unchanged.
    pub fn as_ip(&self) -> (r: Net)
        requires
            self.wf(),
        ensures
            r == self.spec_as_ip(),
            r.prefix == family_bits(self.family),
            r.wf(),
            !r.spec_has_host_bits(),
    {
        let prefix: u8 = match self.family {
            Family::V4 => 32,
            Family::V6 => 128,
        };
        let r = Net { family: self.family, addr: self.addr, prefix };
        proof {
            assert(pow2(0) == 1) by {
                lemma2_to64();
            }
            lemma_mod_division_less_than_divisor(r.addr as int, 1);
        }
        r
    }

    /// The network base of the same block: the address is masked down to
    /// the prefix, the prefix is unchanged.
    pub fn as_network(&self) -> (r: Net)
        requires
            self.wf(),
        ensures
            r == self.spec_as_network(),
            r.addr == self.base(),
            r.wf(),
            !r.spec_has_host_bits(),
            r.base() == self.base(),
            r.top() == self.top(),
    {
        proof {
            lemma_block_bounds(*self);
        }
        let (base, _top) = self.range();
        let r = Net { family: self.family, addr: base, prefix: self.prefix };
        proof {
            lemma_pow2_pos(self.host_len());
            lemma_mod_multiples_basic(
                self.addr as int / pow2(self.host_len()) as int,
                pow2(self.host_len()) as int,
            );
            lemma_fundamental_div_mod(self.addr as int, pow2(self.host_len()) as int);
        }
        r
    }
}

impl Net {
    /// Parse a byte slice as a network value; any failure yields the
    /// offending bytes back as a `NotAnIp` error.
    pub fn try_from(s: &[u8]) -> (r: Result<Net, NetError>)
        ensures
            match r {
                Ok(n) => crate::parse::parse_net(s@, 0, s@.len() as int) == Some(n) && n.wf(),
                Err(NetError::NotAnIp(v)) => crate::parse::parse_net(s@, 0, s@.len() as int)
                    is None && v@ == s@,
                Err(_) => false,
            },
    {
        match crate::parse::parse_net_x(s, 0, s.len()) {
            Some(n) => Ok(n),
            None => Err(NetError::NotAnIp(vstd::slice::slice_to_vec(s))),
        }
    }

    /// Parse a string that is known to hold a valid network value.
    pub fn from_str_unchecked(s: &str) -> (r: Net)
        requires
            crate::parse::parse_net(s.spec_bytes(), 0, s.spec_bytes().len() as int) is Some,
        ensures
            Some(r) == crate::parse::parse_net(s.spec_bytes(), 0, s.spec_bytes().len() as int),
            r.wf(),
    {
        let b = s.as_bytes();
        match Net::try_from(b) {
            Ok(n) => n,
            Err(_) => {
                proof {
                    assert(false);
                }
                Net { family: Family::V4, addr: 0, prefix: 0 }
            },
        }
    }
}

impl Net {
    /// The canonical text of this value, always with an explicit prefix
    /// length, e.g. `10.0.0.0/24` or `0:0:0:0:0:0:0:1/128`.
    pub fn to_text(&self) -> (r: Vec<u8>)
        requires
            self.wf(),
        ensures
            r@ == crate::parse::fmt_net(*self),
    {
        let mut out: Vec<u8> = Vec::new();
        match self.family {
            Family::V4 => {
                let a = self.addr as u32;
                crate::parse::push_dec(&mut out, a / 0x1000000);
                out.push(46);
                crate::parse::push_dec(&mut out, (a / 0x10000) % 256);
                out.push(46);
                crate::parse::push_dec(&mut out, (a / 256) % 256);
                out.push(46);
                crate::parse::push_dec(&mut out, a % 256);
                proof {
                    assert(out@ =~= crate::parse::fmt_v4(self.addr as int));
                }
            },
            Family::V6 => {
                let ghost gs = crate::parse::v6_groups(self.addr as int);
                let mut k: usize = 0;
                while k < 8
                    invariant
                        k <= 8,
                        self.wf(),
                        self.family is V6,
                        gs == crate::parse::v6_groups(self.addr as int),
                        out@ == crate::parse::fmt_groups(gs.take(k as int)),
                    decreases 8 - k,
                {
                    if k > 0 {
                        out.push(58);
                    }
                    let sh: u8 = (112 - 16 * (k as u8));
                    let p = pow2_u128(sh);
                    proof {
                        lemma_pow2_pos(sh as nat);
                    }
                    let g: u16 = ((self.addr / p) % 0x10000) as u16;
                    proof {
                        assert(16 * (7 - k as int) == sh as int);
                        assert(g == gs[k as int]);
                        crate::parse::lemma_fmt_groups_snoc(gs.take(k as int), gs[k as int]);
                        assert(gs.take(k as int).push(gs[k as int]) =~= gs.take(k as int + 1));
                    }
                    crate::parse::push_hex(&mut out, g);
                    k = k + 1;
                }
                proof {
                    assert(gs.take(8) =~= gs);
                    assert(out@ == crate::parse::fmt_v6(self.addr as int));
                }
            },
        }
        let ghost addr_part = out@;
        out.push(47);
        let p32: u32 = self.prefix as u32;
        crate::parse::push_dec(&mut out, p32);
        proof {
            assert(out@ =~= addr_part + seq![47u8] + crate::parse::dec_digits(
                self.prefix as int,
            ));
        }
        out
    }
}

/// pow2(128) written out, one above `u128::MAX`.
pub proof fn lemma_pow2_128()
    ensures
        pow2(128) == 0x1_0000_0000_0000_0000_0000_0000_0000_0000,
{
    lemma2_to64();
    lemma_pow2_adds(64, 64);
}

/// The block `[base, top]` of a well-formed value surrounds its address,
/// is aligned to the block size, and stays within the family's address
/// space.
pub proof fn lemma_block_bounds(n: Net)
    requires
        n.wf(),
    ensures
        0 <= n.base() <= n.addr,
        n.addr <= n.top(),
        n.top() < pow2(family_bits(n.family) as nat),
        n.base() % pow2(n.host_len()) as int == 0,
{
    let p = pow2(n.host_len()) as int;
    let bits = family_bits(n.family) as nat;
    let m2 = pow2((bits - n.host_len()) as nat) as int;
    lemma_pow2_pos(n.host_len());
    lemma_pow2_pos((bits - n.host_len()) as nat);
    lemma_pow2_adds(n.host_len(), (bits - n.host_len()) as nat);
    let big = pow2(bits) as int;
    assert(big == p * m2) by {
        vstd::arithmetic::mul::lemma_mul_is_commutative(p, m2);
    }
    let a = n.addr as int;
    assert(a < big) by {
        if n.family is V6 {
            lemma_pow2_128();
        } else {
            lemma2_to64();
        }
    }
    lemma_mod_division_less_than_divisor(a, p);
    lemma_fundamental_div_mod(a, p);
    let q = a / p;
    lemma_div_pos_is_pos(a, p);
    lemma_mul_nonnegative(p, q);
    assert(n.base() == p * q);
    lemma_mod_multiples_basic(q, p);
    // q < m2: otherwise the base would already lie beyond the address space.
    assert(q < m2) by {
        if q >= m2 {
            lemma_mul_inequality(m2, q, p);
            vstd::arithmetic::mul::lemma_mul_is_commutative(m2, p);
            vstd::arithmetic::mul::lemma_mul_is_commutative(q, p);
        }
    }
    lemma_mul_inequality(q, m2 - 1, p);
    vstd::arithmetic::mul::lemma_mul_is_commutative(q, p);
    vstd::arithmetic::mul::lemma_mul_is_commutative(m2 - 1, p);
    assert((m2 - 1) * p == m2 * p - p) by {
        vstd::arithmetic::mul::lemma_mul_is_distributive_sub_other_way(p, m2, 1);
    }
}

/// 2 to the power `k`, computed by repeated doubling.
pub fn pow2_u128(k: u8) -> (r: u128)
    requires
        k <= 127,
    ensures
        r == pow2(k as nat),
{
    let mut i: u8 = 0;
    let mut p: u128 = 1;
    proof {
        assert(pow2(0) == 1) by {
            lemma2_to64();
        }
    }
    while i < k
        invariant
            i <= k <= 127,
            p == pow2(i as nat),
        decreases k - i,
    {
        proof {
            assert(pow2((i + 1) as nat) == pow2(i as nat) * 2) by {
                lemma_pow2_adds(i as nat, 1);
                lemma2_to64();
            }
            assert(pow2((i + 1) as nat) <= pow2(127)) by {
                if i + 1 < 127 {
                    vstd::arithmetic::power2::lemma_pow2_strictly_increases((i + 1) as nat, 127);
                }
            }
            assert(pow2(127) < pow2(128)) by {
                vstd::arithmetic::power2::lemma_pow2_strictly_increases(127, 128);
            }
            lemma_pow2_128();
        }
        p = p * 2;
        i = i + 1;
    }
    p
}

} // verus!
