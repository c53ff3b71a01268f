pub mod bencode;
pub mod sha1;
pub mod text;
pub mod torrent;
pub mod tracker;
pub mod wire;
pub mod peer_state;
pub mod download;
pub mod query;
pub mod statement;
pub mod wal;
pub mod task_queue;
pub mod kv;
pub mod logs;
pub mod scrape;
