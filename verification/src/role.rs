//! The server's role, fixed at startup: a primary with a replication
//! identifier and offset, or a follower pointed at its primary.
use vstd::prelude::*;

verus! {

use rand::Rng;

/// Is `b` an ASCII letter or digit?
pub open spec fn is_alnum(b: u8) -> bool {
    (48 <= b <= 57) || (65 <= b <= 90) || (97 <= b <= 122)
}

/// A replication identifier: 40 alphanumeric characters.
pub open spec fn valid_replid(s: Seq<u8>) -> bool {
    s.len() == 40 && forall|i: int| 0 <= i < s.len() ==> is_alnum(#[trigger] s[i])
}

/// The role a server runs in, immutable after startup.
#[derive(Clone)]
pub enum Role {
    Master { master_replid: Vec<u8>, master_repl_offset: u64 },
    Slave { host: Vec<u8>, port: u16 },
}

impl Role {
    /// A primary's identifier has the documented shape.
    pub open spec fn wf(self) -> bool {
        match self {
            Role::Master { master_replid, .. } => valid_replid(master_replid@),
            Role::Slave { .. } => true,
        }
    }
}

/// Relies on rand's `Alphanumeric` distribution sampled from `thread_rng`:
/// every drawn byte is an ASCII letter or digit. Which bytes come out is
/// chance, so nothing more is assumed.
#[verifier::external_body]
fn random_alnum_bytes(count: usize) -> (r: Vec<u8>)
    ensures
        r@.len() == count,
        forall|i: int| 0 <= i < r@.len() ==> is_alnum(#[trigger] r@[i]),
{
    rand::thread_rng().sample_iter(&rand::distributions::Alphanumeric).take(count).collect()
}

/// Decides the role from configuration: a configured primary address
/// makes the server a follower; otherwise it is a primary with a fresh
/// 40-character identifier and offset zero.
pub fn init_role(replicaof: Option<(Vec<u8>, u16)>) -> (r: Role)
    ensures
        r.wf(),
        match replicaof {
            Some((h, p)) => r matches Role::Slave { host, port } && host@ == h@ && port == p,
            None => r matches Role::Master { master_replid, master_repl_offset }
                && valid_replid(master_replid@) && master_repl_offset == 0,
        },
{
    match replicaof {
        Some((host, port)) => Role::Slave { host, port },
        None => Role::Master { master_replid: random_alnum_bytes(40), master_repl_offset: 0 },
    }
}

} // verus!
