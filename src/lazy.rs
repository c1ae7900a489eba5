//! Indexes opened on first use.
use vstd::prelude::*;
use crate::address::{IndexAddress, is_resolvable_name};
use crate::catalog::{FromAddress, open_effect};
use crate::db::Fork;
use crate::error::Error;

verus! {

/// An index of kind `T` at a fixed address, opened at the first `get` and kept
/// for later ones. Creating it reads and writes nothing.
pub struct Lazy<T> {
    addr: IndexAddress,
    index: Option<T>,
}

impl<T: FromAddress> Lazy<T> {
    /// The address of the index.
    pub closed spec fn address(&self) -> (Seq<u8>, Seq<u8>) {
        self.addr@
    }

    /// The keyspace of the index once opened.
    pub closed spec fn opened(&self) -> Option<Seq<u8>> {
        match self.index {
            Some(t) => Some(t.keyspace()),
            None => None,
        }
    }

    /// The index at `addr`, not yet opened.
    pub fn new(addr: &IndexAddress) -> (r: Self)
        ensures
            r.address() == addr@,
            r.opened() is None,
    {
        Lazy { addr: addr.duplicate(), index: None }
    }

    /// The index: opened in `fork` at the first call, as `T::from_address` opens
    /// it, and given back unchanged, with nothing read or written, afterwards.
    pub fn get(&mut self, fork: &mut Fork) -> (r: Result<&T, Error>)
        requires
            is_resolvable_name(old(self).address().0),
        ensures
            final(self).address() == old(self).address(),
            old(self).opened() matches Some(ks) ==> (r matches Ok(t) && t.keyspace() == ks
                && final(fork)@ == old(fork)@ && final(self).opened() == old(self).opened()),
            old(self).opened() is None ==> open_effect(
                old(fork)@,
                final(fork)@,
                old(self).address().0,
                old(self).address().1,
                T::kind(),
                match r {
                    Ok(t) => Ok(t.keyspace()),
                    Err(e) => Err(e.kind),
                },
            ),
            r matches Ok(t) ==> final(self).opened() == Some(t.keyspace()),
    {
        if self.index.is_none() {
            match T::from_address(fork, &self.addr) {
                Ok(t) => {
                    self.index = Some(t);
                },
                Err(e) => return Err(e),
            }
        }
        match &self.index {
            Some(t) => Ok(t),
            None => Err(Error::new("index missing after opening".to_owned())),
        }
    }
}

} // verus!
