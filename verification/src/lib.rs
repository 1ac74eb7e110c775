pub mod bencode;
pub mod digest;
pub mod utf8;
pub mod render;
pub mod torrent;
pub mod tracker;
pub mod peer;
