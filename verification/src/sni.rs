//! Certificate selection for TLS termination.
//!
//! On each handshake the acceptor hands over the client's `server_name`
//! extension, if any. The resolver picks the first named identity whose name
//! matches, falls back to the default identity, and with neither the
//! handshake is rejected (that one connection is discarded; the acceptor
//! lives on).

use vstd::prelude::*;
use crate::config::TlsServerIdentity;
use crate::namerd::bytes_eq;

verus! {

/// What a handshake is to do.
#[derive(Clone, Copy, PartialEq, Eq, Structural, Debug)]
pub enum SniChoice {
    /// Use the named identity at this index.
    Named(usize),
    /// Use the default identity.
    UseDefault,
    /// No identity fits: abort the handshake.
    Reject,
}

/// The SNI resolver: named identities in configuration order, and an
/// optional default.
#[derive(Debug)]
pub struct Sni {
    pub identities: Vec<(Vec<u8>, TlsServerIdentity)>,
    pub default_identity: Option<TlsServerIdentity>,
}

/// Whether some named identity of `ids` matches `name`.
pub open spec fn has_named(ids: Seq<(Vec<u8>, TlsServerIdentity)>, name: Seq<u8>) -> bool {
    exists|i: int| 0 <= i < ids.len() && ids[i].0@ == name
}

impl Sni {
    /// Picks the identity for one handshake: the first named identity
    /// matching `server_name`, else the default, else rejection. A missing
    /// `server_name` goes straight to the default.
    pub fn select_identity(&self, server_name: Option<&Vec<u8>>) -> (r: SniChoice)
        ensures
            match r {
                SniChoice::Named(k) => {
                    &&& server_name is Some
                    &&& k < self.identities@.len()
                    &&& self.identities@[k as int].0@ == server_name->0@
                    &&& forall|j: int|
                        0 <= j < k ==> (#[trigger] self.identities@[j]).0@ != server_name->0@
                },
                SniChoice::UseDefault => {
                    &&& self.default_identity is Some
                    &&& (server_name matches Some(n) ==> !has_named(self.identities@, n@))
                },
                SniChoice::Reject => {
                    &&& self.default_identity is None
                    &&& (server_name matches Some(n) ==> !has_named(self.identities@, n@))
                },
            },
    {
        match server_name {
            Some(name) => {
                let mut i: usize = 0;
                while i < self.identities.len()
                    invariant
                        server_name == Some(name),
                        i <= self.identities@.len(),
                        forall|j: int|
                            0 <= j < i ==> (#[trigger] self.identities@[j]).0@ != name@,
                    decreases self.identities@.len() - i,
                {
                    if bytes_eq(&self.identities[i].0, name) {
                        return SniChoice::Named(i);
                    }
                    i += 1;
                }
                if self.default_identity.is_some() {
                    SniChoice::UseDefault
                } else {
                    SniChoice::Reject
                }
            },
            None => {
                if self.default_identity.is_some() {
                    SniChoice::UseDefault
                } else {
                    SniChoice::Reject
                }
            },
        }
    }
}

} // verus!
