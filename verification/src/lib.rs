//! A log-structured key/value store library.
//!
//! The store persists `Set` and `Remove` operations as self-delimited
//! records appended to generation-numbered log segments, keeps an
//! in-memory index from keys to record locations, and compacts the log
//! once enough dead bytes accumulate.
//!
//! The pieces, leaves first: the record codec (`Command` and its
//! serialized form), log segments and their replay semantics
//! (`Segment`), segment file names, the concurrent index, the storage
//! engine (`KvStore`), the engine interface (`KvsEngine`), the wire
//! protocol (`Request` and the responses), the server's per-request
//! step (`handle_request`), and the worker pool contract
//! (`thread_pool`).

use vstd::prelude::*;

mod error;
mod codec;
mod log;
mod index;
mod store;
mod engines;
mod gen_files;
mod protocol;
mod server;
pub mod thread_pool;

pub use error::KvsError;
pub use codec::{decode_command_at, encode_command, Command};
pub use codec::{dec_rec, enc_rec, esc, lemma_dec_rec_of_enc, lemma_dec_rec_sound, lemma_enc_rec_len, rec_utf8, Rec};
pub use store::KvStore;
pub use engines::KvsEngine;
pub use gen_files::{log_path, parse_log_name, sorted_gen_list};
pub use protocol::{
    decode_request_at, decode_response_at, encode_get_response, encode_remove_response,
    encode_request, encode_set_response, interpret_ack_response, interpret_get_response,
    scan_request, scan_response, GetResponse, RemoveResponse, Request, RespValue, ScanOutcome,
    SetResponse,
};
pub use server::handle_request;
pub use log::Segment;
pub use log::{
    apply_rec, apply_recs, capped, datas, dead_of_files, dead_of_recs, disk_ok, displaced_len,
    enc_total, lemma_seg_size, log_map, records_of, seg_ok, total_size,
};
pub use store::{
    compacted_disk, disk_append, lemma_get_after_remove, lemma_get_after_set, names_key, rec_key,
    rec_value,
};
pub use protocol::{dec_req, dec_resp, enc_req, enc_resp, Req, Resp};
pub use gen_files::log_name;
pub use index::CommandPos;

verus! {

/// The number of dead bytes that triggers a compaction.
pub const COMPACTION_THRESHOLD: u64 = 1048576;

} // verus!
