//! The record that filters are tested against.
use vstd::prelude::*;

verus! {

/// One stored account: its address, its owner program, its declared data length and
/// its data.
pub struct Account {
    pub pubkey: Vec<u8>,
    pub owner: Vec<u8>,
    pub data_len: u64,
    pub data: Vec<u8>,
}

impl Account {
    /// Address and owner are 32-byte public keys.
    pub open spec fn wf(&self) -> bool {
        self.pubkey@.len() == 32 && self.owner@.len() == 32
    }
}

} // verus!
