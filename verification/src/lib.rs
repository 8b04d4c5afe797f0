//! CLSAG ring signatures over the Ristretto group, with commitment linking for
//! confidential transactions (RingCT).

pub mod bytes;
pub mod clsag;
pub mod clsag_laws;
pub mod group;
pub mod hash;
pub mod keys;
pub mod modular;
pub mod prime;
pub mod ring;
pub mod ringct;
pub mod ringct_call_laws;
pub mod ringct_laws;
