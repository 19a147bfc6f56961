//! The node's role, shown by the informational command.
use rand::Rng;
use vstd::prelude::*;

verus! {

pub open spec fn is_alphanumeric(b: u8) -> bool {
    (48 <= b <= 57) || (65 <= b <= 90) || (97 <= b <= 122)
}

/// Relies on rand::rng and Rng::sample_iter with rand's `Alphanumeric`
/// distribution: `n` bytes, each an ASCII letter or digit. (The thread's
/// generator panics only where the system gives it no seed.)
#[verifier::external_body]
fn random_alphanumeric(n: usize) -> (r: Vec<u8>)
    ensures
        r@.len() == n,
        forall|i: int| 0 <= i < r@.len() ==> is_alphanumeric(#[trigger] r@[i]),
{
    rand::rng().sample_iter(rand::distr::Alphanumeric).take(n).collect()
}

/// A fresh replication id: forty random letters and digits.
pub fn generate_rep_id() -> (r: Vec<u8>)
    ensures
        r@.len() == 40,
        forall|i: int| 0 <= i < r@.len() ==> is_alphanumeric(#[trigger] r@[i]),
{
    random_alphanumeric(40)
}

#[derive(Clone)]
pub struct MasterProperties {
    pub replid: Vec<u8>,
    pub repl_offset: i32,
}

#[derive(Clone)]
pub enum Role {
    Master(MasterProperties),
    /// A follower, with the address of its primary.
    Slave(Vec<u8>),
}

/// A peer address as given, with blanks turned into colons (`host port`
/// becomes `host:port`).
pub open spec fn peer_address(s: Seq<u8>) -> Seq<u8> {
    s.map_values(|b: u8| if b == 32u8 { 58u8 } else { b })
}

impl Role {
    /// A follower of `role_str` where one is given, else a primary with a
    /// fresh replication id and offset 0.
    pub fn new(role_str: Option<Vec<u8>>) -> (r: Role)
        ensures
            match role_str {
                Some(s) => r matches Role::Slave(a) && a@ == peer_address(s@),
                None => r matches Role::Master(m) && m.replid@.len() == 40 && m.repl_offset == 0
                    && forall|i: int| 0 <= i < 40 ==> is_alphanumeric(#[trigger] m.replid@[i]),
            },
    {
        match role_str {
            Some(s) => {
                let mut out: Vec<u8> = Vec::new();
                let mut i: usize = 0;
                while i < s.len()
                    invariant
                        0 <= i <= s@.len(),
                        out@ == peer_address(s@.subrange(0, i as int)),
                    decreases s@.len() - i,
                {
                    let b = s[i];
                    out.push(if b == 32u8 { 58u8 } else { b });
                    i = i + 1;
                    assert(out@ =~= peer_address(s@.subrange(0, i as int)));
                }
                assert(s@.subrange(0, s@.len() as int) =~= s@);
                Role::Slave(out)
            },
            None => Role::Master(MasterProperties { replid: generate_rep_id(), repl_offset: 0 }),
        }
    }
}

} // verus!
