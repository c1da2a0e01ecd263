use vstd::prelude::*;

verus! {

use vstd::string::StringSliceAdditionalSpecFns;
use crate::net::{Net, NetError};

// A needle is a user-supplied network value to match scanned values
// against.  Its load-bearing invariant: it never has host bits set, so the
// containment modes may read it as a proper network.

/// A user-supplied target network, with the text it was written as.
#[derive(Debug)]
pub struct Needle {
    pub src: String,
    pub net: Net,
}

impl Needle {
    /// Parse a needle.  The text must denote a network value without host
    /// bits: an interface address is rejected rather than normalized.
    pub fn try_from(s: &str) -> (r: Result<Needle, NetError>)
        ensures
            match r {
                Ok(n) => {
                    &&& crate::parse::parse_net(s.spec_bytes(), 0, s.spec_bytes().len() as int)
                        == Some(n.net)
                    &&& n.net.wf()
                    &&& !n.net.spec_has_host_bits()
                    &&& n.src@ == s@
                },
                Err(NetError::NotAnIp(v)) => {
                    &&& crate::parse::parse_net(s.spec_bytes(), 0, s.spec_bytes().len() as int)
                        is None
                    &&& v@ == s.spec_bytes()
                },
                Err(NetError::HostBitsSet(v)) => {
                    &&& ({
                        let p = crate::parse::parse_net(
                            s.spec_bytes(),
                            0,
                            s.spec_bytes().len() as int,
                        );
                        p is Some && p.unwrap().spec_has_host_bits()
                    })
                    &&& v@ == s.spec_bytes()
                },
                Err(_) => false,
            },
    {
        let b = s.as_bytes();
        let net = match Net::try_from(b) {
            Ok(n) => n,
            Err(e) => {
                return Err(e);
            },
        };
        if net.has_host_bits() {
            return Err(NetError::HostBitsSet(vstd::slice::slice_to_vec(b)));
        }
        Ok(Needle { src: s.to_owned(), net })
    }
}

} // verus!
