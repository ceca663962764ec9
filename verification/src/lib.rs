//! A recursive DNS resolver core: the 512-byte packet buffer with the
//! compressed-name codec, the typed models of DNS headers, questions and
//! resource records with their wire codecs, and the decision logic of the
//! iterative resolution loop.

pub mod header;
pub mod name;
pub mod packet;
pub mod pb;
pub mod question;
pub mod record;
pub mod rc;
pub mod resolver;
