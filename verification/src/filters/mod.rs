//! Filter rules: the network rules that block requests and the cosmetic rules
//! that hide page elements.

pub mod cosmetic;
pub mod network;
pub mod network_parser;
pub mod pattern;
