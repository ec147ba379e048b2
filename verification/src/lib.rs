//! Logic of a TCP connect scanner and LAN recon tool.

pub mod arp;
pub mod banner;
pub mod cli;
pub mod dns;
pub mod maps;
pub mod net;
pub mod report;
pub mod scan;
pub mod sort;
pub mod table;
pub mod text;
