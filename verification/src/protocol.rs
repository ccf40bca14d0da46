//! The wire protocol.
//!
//! Requests and responses travel as self-delimited JSON values in the
//! same escaped form the log records use:
//!
//! - requests: `{"Get":{"key":"..."}}`, `{"Set":{"key":"...","value":"..."}}`,
//!   `{"Remove":{"key":"..."}}`;
//! - responses: `{"Ok":"..."}` for a found value, `{"Ok":null}` for a
//!   missing value or a plain acknowledgement, `{"Err":"..."}` for an
//!   error message.
//!
//! The protocol is request/response with no identifiers: the client
//! reads exactly one response per request, in order.

use vstd::prelude::*;

use crate::codec::{
    append_escaped, bytes_match, bytes_to_string, dec_str, decode_str_at, esc, esc_byte,
    hex_digit, hex_val, is_hex_lower, lemma_dec_str_of_esc, lemma_dec_str_sound,
    lemma_esc_prefix_cancel, lemma_esc_snoc, lemma_hex_digit_val, lemma_hex_val_digit,
    lemma_starts_at_concat, lemma_starts_at_index, rec_close, starts_at, str_end,
};
use crate::error::KvsError;

verus! {

/// A request from a client.
#[derive(Debug, Clone, PartialEq, Eq)]
pub enum Request {
    /// Look up a key.
    Get { key: String },
    /// Bind a key to a value.
    SetReq { key: String, value: String },
    /// Unbind a key.
    Remove { key: String },
}

/// The model of a request: the raw byte strings it carries.
pub enum Req {
    Get { key: Seq<u8> },
    SetReq { key: Seq<u8>, value: Seq<u8> },
    Remove { key: Seq<u8> },
}

impl View for Request {
    type V = Req;

    open spec fn view(&self) -> Req {
        match self {
            Request::Get { key } => Req::Get { key: vstd::utf8::encode_utf8(key@) },
            Request::SetReq { key, value } => Req::SetReq {
                key: vstd::utf8::encode_utf8(key@),
                value: vstd::utf8::encode_utf8(value@),
            },
            Request::Remove { key } => Req::Remove { key: vstd::utf8::encode_utf8(key@) },
        }
    }
}

/// The response to a `Get` request.
#[derive(Debug, Clone, PartialEq, Eq)]
pub enum GetResponse {
    /// The value, or `None` where the key is absent.
    Done(Option<String>),
    /// The error message the server reported.
    Failed(String),
}

/// The response to a `Set` request.
#[derive(Debug, Clone, PartialEq, Eq)]
pub enum SetResponse {
    /// The write was applied.
    Done,
    /// The error message the server reported.
    Failed(String),
}

/// The response to a `Remove` request.
#[derive(Debug, Clone, PartialEq, Eq)]
pub enum RemoveResponse {
    /// The removal was applied.
    Done,
    /// The error message the server reported.
    Failed(String),
}

/// The model of a response value on the wire.
pub enum Resp {
    /// `{"Ok":"..."}`: a value.
    Found { value: Seq<u8> },
    /// `{"Ok":null}`: no value, or a plain acknowledgement.
    Nothing,
    /// `{"Err":"..."}`: an error message.
    Failed { msg: Seq<u8> },
}

impl View for GetResponse {
    type V = Resp;

    open spec fn view(&self) -> Resp {
        match self {
            GetResponse::Done(Some(v)) => Resp::Found { value: vstd::utf8::encode_utf8(v@) },
            GetResponse::Done(None) => Resp::Nothing,
            GetResponse::Failed(m) => Resp::Failed { msg: vstd::utf8::encode_utf8(m@) },
        }
    }
}

impl View for SetResponse {
    type V = Resp;

    open spec fn view(&self) -> Resp {
        match self {
            SetResponse::Done => Resp::Nothing,
            SetResponse::Failed(m) => Resp::Failed { msg: vstd::utf8::encode_utf8(m@) },
        }
    }
}

impl View for RemoveResponse {
    type V = Resp;

    open spec fn view(&self) -> Resp {
        match self {
            RemoveResponse::Done => Resp::Nothing,
            RemoveResponse::Failed(m) => Resp::Failed { msg: vstd::utf8::encode_utf8(m@) },
        }
    }
}

/// The bytes of `{"Get":{"key":"`.
pub open spec fn req_get_open() -> Seq<u8> {
    seq![
        0x7bu8, 0x22u8, 0x47u8, 0x65u8, 0x74u8, 0x22u8, 0x3au8, 0x7bu8, 0x22u8, 0x6bu8, 0x65u8,
        0x79u8, 0x22u8, 0x3au8, 0x22u8,
    ]
}

/// The bytes of `{"Set":{"key":"`.
pub open spec fn req_set_open() -> Seq<u8> {
    seq![
        0x7bu8, 0x22u8, 0x53u8, 0x65u8, 0x74u8, 0x22u8, 0x3au8, 0x7bu8, 0x22u8, 0x6bu8, 0x65u8,
        0x79u8, 0x22u8, 0x3au8, 0x22u8,
    ]
}

/// The bytes of `{"Remove":{"key":"`.
pub open spec fn req_remove_open() -> Seq<u8> {
    seq![
        0x7bu8, 0x22u8, 0x52u8, 0x65u8, 0x6du8, 0x6fu8, 0x76u8, 0x65u8, 0x22u8, 0x3au8, 0x7bu8,
        0x22u8, 0x6bu8, 0x65u8, 0x79u8, 0x22u8, 0x3au8, 0x22u8,
    ]
}

/// The bytes of `","value":"`.
pub open spec fn req_val_mid() -> Seq<u8> {
    seq![
        0x2cu8, 0x22u8, 0x76u8, 0x61u8, 0x6cu8, 0x75u8, 0x65u8, 0x22u8, 0x3au8, 0x22u8,
    ]
}

/// The bytes of `{"Ok":"`.
pub open spec fn resp_found_open() -> Seq<u8> {
    seq![0x7bu8, 0x22u8, 0x4fu8, 0x6bu8, 0x22u8, 0x3au8, 0x22u8]
}

/// The bytes of `{"Ok":null}`.
pub open spec fn resp_nothing() -> Seq<u8> {
    seq![
        0x7bu8, 0x22u8, 0x4fu8, 0x6bu8, 0x22u8, 0x3au8, 0x6eu8, 0x75u8, 0x6cu8, 0x6cu8, 0x7du8,
    ]
}

/// The bytes of `{"Err":"`.
pub open spec fn resp_failed_open() -> Seq<u8> {
    seq![0x7bu8, 0x22u8, 0x45u8, 0x72u8, 0x72u8, 0x22u8, 0x3au8, 0x22u8]
}

/// The canonical encoding of a request.
pub open spec fn enc_req(r: Req) -> Seq<u8> {
    match r {
        Req::Get { key } => req_get_open() + esc(key) + str_end() + rec_close(),
        Req::SetReq { key, value } => req_set_open() + esc(key) + str_end() + req_val_mid() + esc(
            value,
        ) + str_end() + rec_close(),
        Req::Remove { key } => req_remove_open() + esc(key) + str_end() + rec_close(),
    }
}

/// The canonical encoding of a response.
pub open spec fn enc_resp(r: Resp) -> Seq<u8> {
    match r {
        Resp::Found { value } => resp_found_open() + esc(value) + seq![0x22u8, 0x7du8],
        Resp::Nothing => resp_nothing(),
        Resp::Failed { msg } => resp_failed_open() + esc(msg) + seq![0x22u8, 0x7du8],
    }
}

/// True when both byte strings a request carries are valid UTF-8.
pub open spec fn req_utf8(r: Req) -> bool {
    match r {
        Req::Get { key } => vstd::utf8::valid_utf8(key),
        Req::SetReq { key, value } => vstd::utf8::valid_utf8(key) && vstd::utf8::valid_utf8(value),
        Req::Remove { key } => vstd::utf8::valid_utf8(key),
    }
}

/// True when the byte string a response carries is valid UTF-8.
pub open spec fn resp_utf8(r: Resp) -> bool {
    match r {
        Resp::Found { value } => vstd::utf8::valid_utf8(value),
        Resp::Nothing => true,
        Resp::Failed { msg } => vstd::utf8::valid_utf8(msg),
    }
}

/// Decodes one request starting at `i`.
pub open spec fn dec_req(s: Seq<u8>, i: int) -> Option<(Req, int)> {
    if starts_at(s, i, req_get_open()) {
        match dec_str(s, i + req_get_open().len()) {
            Some((key, e)) => if starts_at(s, e, rec_close()) && vstd::utf8::valid_utf8(key) {
                Some((Req::Get { key }, e + rec_close().len()))
            } else {
                None
            },
            None => None,
        }
    } else if starts_at(s, i, req_set_open()) {
        match dec_str(s, i + req_set_open().len()) {
            Some((key, j)) => if starts_at(s, j, req_val_mid()) {
                match dec_str(s, j + req_val_mid().len()) {
                    Some((value, e)) => if starts_at(s, e, rec_close()) && vstd::utf8::valid_utf8(
                        key,
                    ) && vstd::utf8::valid_utf8(value) {
                        Some((Req::SetReq { key, value }, e + rec_close().len()))
                    } else {
                        None
                    },
                    None => None,
                }
            } else {
                None
            },
            None => None,
        }
    } else if starts_at(s, i, req_remove_open()) {
        match dec_str(s, i + req_remove_open().len()) {
            Some((key, e)) => if starts_at(s, e, rec_close()) && vstd::utf8::valid_utf8(key) {
                Some((Req::Remove { key }, e + rec_close().len()))
            } else {
                None
            },
            None => None,
        }
    } else {
        None
    }
}

/// Decodes one response starting at `i`.
pub open spec fn dec_resp(s: Seq<u8>, i: int) -> Option<(Resp, int)> {
    if starts_at(s, i, resp_nothing()) {
        Some((Resp::Nothing, i + resp_nothing().len()))
    } else if starts_at(s, i, resp_found_open()) {
        match dec_str(s, i + resp_found_open().len()) {
            Some((value, e)) => if starts_at(s, e, seq![0x7du8]) && vstd::utf8::valid_utf8(value) {
                Some((Resp::Found { value }, e + 1))
            } else {
                None
            },
            None => None,
        }
    } else if starts_at(s, i, resp_failed_open()) {
        match dec_str(s, i + resp_failed_open().len()) {
            Some((msg, e)) => if starts_at(s, e, seq![0x7du8]) && vstd::utf8::valid_utf8(msg) {
                Some((Resp::Failed { msg }, e + 1))
            } else {
                None
            },
            None => None,
        }
    } else {
        None
    }
}

/// Where the encoding of a request sits at `i`, decoding yields
/// exactly that request and stops just after it.
#[verifier::rlimit(60)]
pub proof fn lemma_dec_req_of_enc(s: Seq<u8>, i: int, r: Req)
    requires
        starts_at(s, i, enc_req(r)),
        req_utf8(r),
    ensures
        dec_req(s, i) == Some((r, i + enc_req(r).len())),
{
    match r {
        Req::Get { key } => {
            let r1 = esc(key) + str_end() + rec_close();
            assert(enc_req(r) =~= req_get_open() + r1);
            lemma_starts_at_concat(s, i, req_get_open(), r1);
            let i2 = i + req_get_open().len();
            assert(r1 =~= (esc(key) + str_end()) + rec_close());
            lemma_starts_at_concat(s, i2, esc(key) + str_end(), rec_close());
            lemma_dec_str_of_esc(s, i2, key);
        },
        Req::SetReq { key, value } => {
            assert(!starts_at(s, i, req_get_open())) by {
                assert(enc_req(r) =~= req_set_open() + (esc(key) + str_end() + req_val_mid()
                    + esc(value) + str_end() + rec_close()));
                lemma_starts_at_concat(
                    s,
                    i,
                    req_set_open(),
                    esc(key) + str_end() + req_val_mid() + esc(value) + str_end() + rec_close(),
                );
                lemma_starts_at_index(s, i, req_set_open(), 2);
                if starts_at(s, i, req_get_open()) {
                    lemma_starts_at_index(s, i, req_get_open(), 2);
                }
            }
            let r1 = esc(key) + str_end() + req_val_mid() + esc(value) + str_end() + rec_close();
            assert(enc_req(r) =~= req_set_open() + r1);
            lemma_starts_at_concat(s, i, req_set_open(), r1);
            let i2 = i + req_set_open().len();
            let r2 = req_val_mid() + esc(value) + str_end() + rec_close();
            assert(r1 =~= (esc(key) + str_end()) + r2);
            lemma_starts_at_concat(s, i2, esc(key) + str_end(), r2);
            lemma_dec_str_of_esc(s, i2, key);
            let j = i2 + esc(key).len() + 1;
            let r3 = esc(value) + str_end() + rec_close();
            assert(r2 =~= req_val_mid() + r3);
            lemma_starts_at_concat(s, j, req_val_mid(), r3);
            let j2 = j + req_val_mid().len();
            assert(r3 =~= (esc(value) + str_end()) + rec_close());
            lemma_starts_at_concat(s, j2, esc(value) + str_end(), rec_close());
            lemma_dec_str_of_esc(s, j2, value);
        },
        Req::Remove { key } => {
            assert(!starts_at(s, i, req_get_open()) && !starts_at(s, i, req_set_open())) by {
                assert(enc_req(r) =~= req_remove_open() + (esc(key) + str_end() + rec_close()));
                lemma_starts_at_concat(
                    s,
                    i,
                    req_remove_open(),
                    esc(key) + str_end() + rec_close(),
                );
                lemma_starts_at_index(s, i, req_remove_open(), 2);
                if starts_at(s, i, req_get_open()) {
                    lemma_starts_at_index(s, i, req_get_open(), 2);
                }
                if starts_at(s, i, req_set_open()) {
                    lemma_starts_at_index(s, i, req_set_open(), 2);
                }
            }
            let r1 = esc(key) + str_end() + rec_close();
            assert(enc_req(r) =~= req_remove_open() + r1);
            lemma_starts_at_concat(s, i, req_remove_open(), r1);
            let i2 = i + req_remove_open().len();
            assert(r1 =~= (esc(key) + str_end()) + rec_close());
            lemma_starts_at_concat(s, i2, esc(key) + str_end(), rec_close());
            lemma_dec_str_of_esc(s, i2, key);
        },
    }
}

/// Where the encoding of a response sits at `i`, decoding yields
/// exactly that response and stops just after it.
pub proof fn lemma_dec_resp_of_enc(s: Seq<u8>, i: int, r: Resp)
    requires
        starts_at(s, i, enc_resp(r)),
        resp_utf8(r),
    ensures
        dec_resp(s, i) == Some((r, i + enc_resp(r).len())),
{
    match r {
        Resp::Nothing => {
        },
        Resp::Found { value } => {
            assert(!starts_at(s, i, resp_nothing())) by {
                assert(enc_resp(r) =~= resp_found_open() + (esc(value) + seq![0x22u8, 0x7du8]));
                lemma_starts_at_concat(
                    s,
                    i,
                    resp_found_open(),
                    esc(value) + seq![0x22u8, 0x7du8],
                );
                lemma_starts_at_index(s, i, resp_found_open(), 6);
                if starts_at(s, i, resp_nothing()) {
                    lemma_starts_at_index(s, i, resp_nothing(), 6);
                }
            }
            let r1 = esc(value) + seq![0x22u8, 0x7du8];
            assert(enc_resp(r) =~= resp_found_open() + r1);
            lemma_starts_at_concat(s, i, resp_found_open(), r1);
            let i2 = i + resp_found_open().len();
            assert(r1 =~= (esc(value) + str_end()) + seq![0x7du8]);
            lemma_starts_at_concat(s, i2, esc(value) + str_end(), seq![0x7du8]);
            lemma_dec_str_of_esc(s, i2, value);
        },
        Resp::Failed { msg } => {
            assert(!starts_at(s, i, resp_nothing()) && !starts_at(s, i, resp_found_open())) by {
                assert(enc_resp(r) =~= resp_failed_open() + (esc(msg) + seq![0x22u8, 0x7du8]));
                lemma_starts_at_concat(s, i, resp_failed_open(), esc(msg) + seq![0x22u8, 0x7du8]);
                lemma_starts_at_index(s, i, resp_failed_open(), 2);
                if starts_at(s, i, resp_nothing()) {
                    lemma_starts_at_index(s, i, resp_nothing(), 2);
                }
                if starts_at(s, i, resp_found_open()) {
                    lemma_starts_at_index(s, i, resp_found_open(), 2);
                }
            }
            let r1 = esc(msg) + seq![0x22u8, 0x7du8];
            assert(enc_resp(r) =~= resp_failed_open() + r1);
            lemma_starts_at_concat(s, i, resp_failed_open(), r1);
            let i2 = i + resp_failed_open().len();
            assert(r1 =~= (esc(msg) + str_end()) + seq![0x7du8]);
            lemma_starts_at_concat(s, i2, esc(msg) + str_end(), seq![0x7du8]);
            lemma_dec_str_of_esc(s, i2, msg);
        },
    }
}


/// The bytes of `{"Get":{"key":"`, as a value.
fn lit_req_get_open() -> (r: Vec<u8>)
    ensures
        r@ == req_get_open(),
{
    let mut v: Vec<u8> = Vec::new();
    v.push(0x7b);
    v.push(0x22);
    v.push(0x47);
    v.push(0x65);
    v.push(0x74);
    v.push(0x22);
    v.push(0x3a);
    v.push(0x7b);
    v.push(0x22);
    v.push(0x6b);
    v.push(0x65);
    v.push(0x79);
    v.push(0x22);
    v.push(0x3a);
    v.push(0x22);
    proof {
        assert(v@ =~= req_get_open());
    }
    v
}

/// The bytes of `{"Set":{"key":"`, as a value.
fn lit_req_set_open() -> (r: Vec<u8>)
    ensures
        r@ == req_set_open(),
{
    let mut v: Vec<u8> = Vec::new();
    v.push(0x7b);
    v.push(0x22);
    v.push(0x53);
    v.push(0x65);
    v.push(0x74);
    v.push(0x22);
    v.push(0x3a);
    v.push(0x7b);
    v.push(0x22);
    v.push(0x6b);
    v.push(0x65);
    v.push(0x79);
    v.push(0x22);
    v.push(0x3a);
    v.push(0x22);
    proof {
        assert(v@ =~= req_set_open());
    }
    v
}

/// The bytes of `{"Remove":{"key":"`, as a value.
fn lit_req_remove_open() -> (r: Vec<u8>)
    ensures
        r@ == req_remove_open(),
{
    let mut v: Vec<u8> = Vec::new();
    v.push(0x7b);
    v.push(0x22);
    v.push(0x52);
    v.push(0x65);
    v.push(0x6d);
    v.push(0x6f);
    v.push(0x76);
    v.push(0x65);
    v.push(0x22);
    v.push(0x3a);
    v.push(0x7b);
    v.push(0x22);
    v.push(0x6b);
    v.push(0x65);
    v.push(0x79);
    v.push(0x22);
    v.push(0x3a);
    v.push(0x22);
    proof {
        assert(v@ =~= req_remove_open());
    }
    v
}

/// The bytes of `","value":"`, as a value.
fn lit_req_val_mid() -> (r: Vec<u8>)
    ensures
        r@ == req_val_mid(),
{
    let mut v: Vec<u8> = Vec::new();
    v.push(0x2c);
    v.push(0x22);
    v.push(0x76);
    v.push(0x61);
    v.push(0x6c);
    v.push(0x75);
    v.push(0x65);
    v.push(0x22);
    v.push(0x3a);
    v.push(0x22);
    proof {
        assert(v@ =~= req_val_mid());
    }
    v
}

/// The bytes of `{"Ok":"`, as a value.
fn lit_resp_found_open() -> (r: Vec<u8>)
    ensures
        r@ == resp_found_open(),
{
    let mut v: Vec<u8> = Vec::new();
    v.push(0x7b);
    v.push(0x22);
    v.push(0x4f);
    v.push(0x6b);
    v.push(0x22);
    v.push(0x3a);
    v.push(0x22);
    proof {
        assert(v@ =~= resp_found_open());
    }
    v
}

/// The bytes of `{"Ok":null}`, as a value.
fn lit_resp_nothing() -> (r: Vec<u8>)
    ensures
        r@ == resp_nothing(),
{
    let mut v: Vec<u8> = Vec::new();
    v.push(0x7b);
    v.push(0x22);
    v.push(0x4f);
    v.push(0x6b);
    v.push(0x22);
    v.push(0x3a);
    v.push(0x6e);
    v.push(0x75);
    v.push(0x6c);
    v.push(0x6c);
    v.push(0x7d);
    proof {
        assert(v@ =~= resp_nothing());
    }
    v
}

/// The bytes of `{"Err":"`, as a value.
fn lit_resp_failed_open() -> (r: Vec<u8>)
    ensures
        r@ == resp_failed_open(),
{
    let mut v: Vec<u8> = Vec::new();
    v.push(0x7b);
    v.push(0x22);
    v.push(0x45);
    v.push(0x72);
    v.push(0x72);
    v.push(0x22);
    v.push(0x3a);
    v.push(0x22);
    proof {
        assert(v@ =~= resp_failed_open());
    }
    v
}

/// Encodes a request into its canonical serialized form.
pub fn encode_request(req: &Request) -> (r: Vec<u8>)
    ensures
        r@ == enc_req(req@),
{
    broadcast use vstd::string::group_string_axioms;

    let mut out: Vec<u8> = Vec::new();
    match req {
        Request::Get { key } => {
            let mut f = lit_req_get_open();
            out.append(&mut f);
            append_escaped(&mut out, key.as_str().as_bytes());
            out.push(0x22);
            out.push(0x7d);
            out.push(0x7d);
            proof {
                assert(out@ =~= enc_req(req@));
            }
        },
        Request::SetReq { key, value } => {
            let mut f = lit_req_set_open();
            out.append(&mut f);
            append_escaped(&mut out, key.as_str().as_bytes());
            out.push(0x22);
            let mut m = lit_req_val_mid();
            out.append(&mut m);
            append_escaped(&mut out, value.as_str().as_bytes());
            out.push(0x22);
            out.push(0x7d);
            out.push(0x7d);
            proof {
                assert(out@ =~= enc_req(req@));
            }
        },
        Request::Remove { key } => {
            let mut f = lit_req_remove_open();
            out.append(&mut f);
            append_escaped(&mut out, key.as_str().as_bytes());
            out.push(0x22);
            out.push(0x7d);
            out.push(0x7d);
            proof {
                assert(out@ =~= enc_req(req@));
            }
        },
    }
    out
}

/// Encodes the response to a `Get` request.
pub fn encode_get_response(resp: &GetResponse) -> (r: Vec<u8>)
    ensures
        r@ == enc_resp(resp@),
{
    broadcast use vstd::string::group_string_axioms;

    match resp {
        GetResponse::Done(Some(v)) => {
            let mut out = lit_resp_found_open();
            append_escaped(&mut out, v.as_str().as_bytes());
            out.push(0x22);
            out.push(0x7d);
            proof {
                assert(out@ =~= enc_resp(resp@));
            }
            out
        },
        GetResponse::Done(None) => lit_resp_nothing(),
        GetResponse::Failed(m) => {
            let mut out = lit_resp_failed_open();
            append_escaped(&mut out, m.as_str().as_bytes());
            out.push(0x22);
            out.push(0x7d);
            proof {
                assert(out@ =~= enc_resp(resp@));
            }
            out
        },
    }
}

/// Encodes the response to a `Set` request.
pub fn encode_set_response(resp: &SetResponse) -> (r: Vec<u8>)
    ensures
        r@ == enc_resp(resp@),
{
    broadcast use vstd::string::group_string_axioms;

    match resp {
        SetResponse::Done => lit_resp_nothing(),
        SetResponse::Failed(m) => {
            let mut out = lit_resp_failed_open();
            append_escaped(&mut out, m.as_str().as_bytes());
            out.push(0x22);
            out.push(0x7d);
            proof {
                assert(out@ =~= enc_resp(resp@));
            }
            out
        },
    }
}

/// Encodes the response to a `Remove` request.
pub fn encode_remove_response(resp: &RemoveResponse) -> (r: Vec<u8>)
    ensures
        r@ == enc_resp(resp@),
{
    broadcast use vstd::string::group_string_axioms;

    match resp {
        RemoveResponse::Done => lit_resp_nothing(),
        RemoveResponse::Failed(m) => {
            let mut out = lit_resp_failed_open();
            append_escaped(&mut out, m.as_str().as_bytes());
            out.push(0x22);
            out.push(0x7d);
            proof {
                assert(out@ =~= enc_resp(resp@));
            }
            out
        },
    }
}


/// Decodes one request starting at `pos` of a serialized stream.
pub fn decode_request_at(s: &Vec<u8>, pos: usize) -> (r: Result<(Request, usize), KvsError>)
    requires
        pos <= s.len(),
    ensures
        r matches Ok((req, end)) ==> dec_req(s@, pos as int) == Some((req@, end as int)) && pos
            < end <= s.len(),
        r is Err ==> dec_req(s@, pos as int) is None,
        r matches Err(e) ==> e is Serde,
{
    broadcast use vstd::utf8::decode_utf8_encode_utf8;

    let go = lit_req_get_open();
    let so = lit_req_set_open();
    let ro = lit_req_remove_open();
    let vm = lit_req_val_mid();
    if bytes_match(s, pos, &go) {
        match decode_str_at(s, pos + 15) {
            Some((kb, e)) => {
                if s.len() - e >= 2 && {
                    let c1 = s[e];
                    let c2 = s[e + 1];
                    c1 == 0x7d && c2 == 0x7d
                } {
                    proof {
                        assert(s@.subrange(e as int, e + 2 as int) =~= rec_close());
                        assert(starts_at(s@, e as int, rec_close()));
                    }
                    let ghost kseq = kb@;
                    match bytes_to_string(kb) {
                        Some(key) => {
                            proof {
                                assert(vstd::utf8::encode_utf8(key@) == kseq);
                            }
                            Ok((Request::Get { key }, e + 2))
                        },
                        None => Err(KvsError::Serde("request key is not UTF-8".to_owned())),
                    }
                } else {
                    proof {
                        if starts_at(s@, e as int, rec_close()) {
                            lemma_starts_at_index(s@, e as int, rec_close(), 0);
                            lemma_starts_at_index(s@, e as int, rec_close(), 1);
                        }
                    }
                    Err(KvsError::Serde("unterminated request".to_owned()))
                }
            },
            None => Err(KvsError::Serde("malformed key string".to_owned())),
        }
    } else if bytes_match(s, pos, &so) {
        match decode_str_at(s, pos + 15) {
            Some((kb, j)) => {
                if bytes_match(s, j, &vm) {
                    match decode_str_at(s, j + 10) {
                        Some((vb, e)) => {
                            if s.len() - e >= 2 && {
                                let c1 = s[e];
                                let c2 = s[e + 1];
                                c1 == 0x7d && c2 == 0x7d
                            } {
                                proof {
                                    assert(s@.subrange(e as int, e + 2 as int) =~= rec_close());
                                    assert(starts_at(s@, e as int, rec_close()));
                                }
                                let ghost kseq = kb@;
                                let ghost vseq = vb@;
                                match bytes_to_string(kb) {
                                    Some(key) => match bytes_to_string(vb) {
                                        Some(value) => {
                                            proof {
                                                assert(vstd::utf8::encode_utf8(key@) == kseq);
                                                assert(vstd::utf8::encode_utf8(value@) == vseq);
                                            }
                                            Ok((Request::SetReq { key, value }, e + 2))
                                        },
                                        None => Err(
                                            KvsError::Serde(
                                                "request value is not UTF-8".to_owned(),
                                            ),
                                        ),
                                    },
                                    None => Err(
                                        KvsError::Serde("request key is not UTF-8".to_owned()),
                                    ),
                                }
                            } else {
                                proof {
                                    if starts_at(s@, e as int, rec_close()) {
                                        lemma_starts_at_index(s@, e as int, rec_close(), 0);
                                        lemma_starts_at_index(s@, e as int, rec_close(), 1);
                                    }
                                }
                                Err(KvsError::Serde("unterminated request".to_owned()))
                            }
                        },
                        None => Err(KvsError::Serde("malformed value string".to_owned())),
                    }
                } else {
                    Err(KvsError::Serde("malformed request".to_owned()))
                }
            },
            None => Err(KvsError::Serde("malformed key string".to_owned())),
        }
    } else if bytes_match(s, pos, &ro) {
        match decode_str_at(s, pos + 18) {
            Some((kb, e)) => {
                if s.len() - e >= 2 && {
                    let c1 = s[e];
                    let c2 = s[e + 1];
                    c1 == 0x7d && c2 == 0x7d
                } {
                    proof {
                        assert(s@.subrange(e as int, e + 2 as int) =~= rec_close());
                        assert(starts_at(s@, e as int, rec_close()));
                    }
                    let ghost kseq = kb@;
                    match bytes_to_string(kb) {
                        Some(key) => {
                            proof {
                                assert(vstd::utf8::encode_utf8(key@) == kseq);
                            }
                            Ok((Request::Remove { key }, e + 2))
                        },
                        None => Err(KvsError::Serde("request key is not UTF-8".to_owned())),
                    }
                } else {
                    proof {
                        if starts_at(s@, e as int, rec_close()) {
                            lemma_starts_at_index(s@, e as int, rec_close(), 0);
                            lemma_starts_at_index(s@, e as int, rec_close(), 1);
                        }
                    }
                    Err(KvsError::Serde("unterminated request".to_owned()))
                }
            },
            None => Err(KvsError::Serde("malformed key string".to_owned())),
        }
    } else {
        Err(KvsError::Serde("unrecognized request".to_owned()))
    }
}

/// One response value, as decoded off the wire.
#[derive(Debug, Clone, PartialEq, Eq)]
pub enum RespValue {
    /// `{"Ok":"..."}`.
    Found(String),
    /// `{"Ok":null}`.
    Nothing,
    /// `{"Err":"..."}`.
    Failed(String),
}

impl View for RespValue {
    type V = Resp;

    open spec fn view(&self) -> Resp {
        match self {
            RespValue::Found(v) => Resp::Found { value: vstd::utf8::encode_utf8(v@) },
            RespValue::Nothing => Resp::Nothing,
            RespValue::Failed(m) => Resp::Failed { msg: vstd::utf8::encode_utf8(m@) },
        }
    }
}

/// Decodes one response value starting at `pos` of a serialized
/// stream.
pub fn decode_response_at(s: &Vec<u8>, pos: usize) -> (r: Result<(RespValue, usize), KvsError>)
    requires
        pos <= s.len(),
    ensures
        r matches Ok((resp, end)) ==> dec_resp(s@, pos as int) == Some((resp@, end as int)) && pos
            < end <= s.len(),
        r is Err ==> dec_resp(s@, pos as int) is None,
        r matches Err(e) ==> e is Serde,
{
    broadcast use vstd::utf8::decode_utf8_encode_utf8;

    let nul = lit_resp_nothing();
    let fo = lit_resp_found_open();
    let eo = lit_resp_failed_open();
    if bytes_match(s, pos, &nul) {
        Ok((RespValue::Nothing, pos + 11))
    } else if bytes_match(s, pos, &fo) {
        match decode_str_at(s, pos + 7) {
            Some((vb, e)) => {
                if s.len() - e >= 1 && s[e] == 0x7d {
                    proof {
                        assert(s@.subrange(e as int, e + 1 as int) =~= seq![0x7du8]);
                        assert(starts_at(s@, e as int, seq![0x7du8]));
                    }
                    let ghost vseq = vb@;
                    match bytes_to_string(vb) {
                        Some(v) => {
                            proof {
                                assert(vstd::utf8::encode_utf8(v@) == vseq);
                            }
                            Ok((RespValue::Found(v), e + 1))
                        },
                        None => Err(KvsError::Serde("response value is not UTF-8".to_owned())),
                    }
                } else {
                    proof {
                        if starts_at(s@, e as int, seq![0x7du8]) {
                            lemma_starts_at_index(s@, e as int, seq![0x7du8], 0);
                        }
                    }
                    Err(KvsError::Serde("unterminated response".to_owned()))
                }
            },
            None => Err(KvsError::Serde("malformed response string".to_owned())),
        }
    } else if bytes_match(s, pos, &eo) {
        match decode_str_at(s, pos + 8) {
            Some((mb, e)) => {
                if s.len() - e >= 1 && s[e] == 0x7d {
                    proof {
                        assert(s@.subrange(e as int, e + 1 as int) =~= seq![0x7du8]);
                        assert(starts_at(s@, e as int, seq![0x7du8]));
                    }
                    let ghost mseq = mb@;
                    match bytes_to_string(mb) {
                        Some(m) => {
                            proof {
                                assert(vstd::utf8::encode_utf8(m@) == mseq);
                            }
                            Ok((RespValue::Failed(m), e + 1))
                        },
                        None => Err(KvsError::Serde("response message is not UTF-8".to_owned())),
                    }
                } else {
                    proof {
                        if starts_at(s@, e as int, seq![0x7du8]) {
                            lemma_starts_at_index(s@, e as int, seq![0x7du8], 0);
                        }
                    }
                    Err(KvsError::Serde("unterminated response".to_owned()))
                }
            },
            None => Err(KvsError::Serde("malformed response string".to_owned())),
        }
    } else {
        Err(KvsError::Serde("unrecognized response".to_owned()))
    }
}

/// What a `Get` reply means to the client: a value, a miss, or the
/// server's error carried as a `StringError`.
pub fn interpret_get_response(resp: RespValue) -> (r: Result<Option<String>, KvsError>)
    ensures
        resp matches RespValue::Found(v) ==> r == Ok::<Option<String>, KvsError>(Some(v)),
        resp is Nothing ==> r == Ok::<Option<String>, KvsError>(None::<String>),
        resp matches RespValue::Failed(m) ==> r == Err::<Option<String>, KvsError>(
            KvsError::StringError(m),
        ),
{
    match resp {
        RespValue::Found(v) => Ok(Some(v)),
        RespValue::Nothing => Ok(None),
        RespValue::Failed(m) => Err(KvsError::StringError(m)),
    }
}

/// What a `Set` or `Remove` acknowledgement means to the client.  A
/// value where none is expected is a malformed reply.
pub fn interpret_ack_response(resp: RespValue) -> (r: Result<(), KvsError>)
    ensures
        resp is Nothing ==> r is Ok,
        resp matches RespValue::Failed(m) ==> r == Err::<(), KvsError>(KvsError::StringError(m)),
        resp is Found ==> (r matches Err(e) && e is Serde),
{
    match resp {
        RespValue::Nothing => Ok(()),
        RespValue::Failed(m) => Err(KvsError::StringError(m)),
        RespValue::Found(_) => Err(KvsError::Serde("unexpected response value".to_owned())),
    }
}


/// How far a value at the head of a read buffer can be taken.
#[derive(Debug, Clone, Copy, PartialEq, Eq)]
pub enum ScanOutcome {
    /// A whole value ends at this position.
    Complete(usize),
    /// No extension of these bytes is a value: the peer sent garbage.
    Malformed,
    /// The bytes so far look like a proper prefix; read on.
    NeedMore,
}

/// How a byte pattern sits at `pos`: fully present, a proper prefix of
/// the buffer's tail, or contradicted by some byte already read.
enum FrameMatch {
    Full,
    Partial,
    Mismatch,
}

/// Compares `pat` against the buffer from `pos`, stopping at whichever
/// ends first.
fn frame_match(s: &Vec<u8>, pos: usize, pat: &Vec<u8>) -> (r: FrameMatch)
    requires
        pos <= s.len(),
    ensures
        r is Full ==> pos + pat@.len() <= s@.len() && starts_at(s@, pos as int, pat@),
        r is Partial ==> s@.len() - pos < pat@.len(),
        r is Mismatch ==> exists|k: int|
            0 <= k && pos + k < s@.len() && k < pat@.len() && s@[pos + k] != #[trigger] pat@[k],
{
    let avail = s.len() - pos;
    let upto = if avail < pat.len() {
        avail
    } else {
        pat.len()
    };
    let mut i: usize = 0;
    while i < upto
        invariant
            i <= upto,
            upto <= pat.len(),
            pos + upto <= s.len(),
            forall|k: int| 0 <= k < i ==> s@[pos + k] == #[trigger] pat@[k],
        decreases upto - i,
    {
        if s[pos + i] != pat[i] {
            proof {
                assert(s@[pos + i] != pat@[i as int]);
            }
            return FrameMatch::Mismatch;
        }
        i += 1;
    }
    if avail < pat.len() {
        FrameMatch::Partial
    } else {
        proof {
            assert(s@.subrange(pos as int, pos + pat@.len()) =~= pat@);
        }
        FrameMatch::Full
    }
}

/// True when the bytes already read at `cur` fit no escaped unit and
/// no closing quote, whatever bytes may still arrive.
spec fn no_unit_at(s: Seq<u8>, cur: int) -> bool {
    &&& 0 <= cur < s.len()
    &&& s[cur] != 0x22
    &&& if s[cur] == 0x5c {
        cur + 1 < s.len() && {
            ||| (s[cur + 1] != 0x22 && s[cur + 1] != 0x5c && s[cur + 1] != 0x75)
            ||| (s[cur + 1] == 0x75 && {
                ||| (cur + 2 < s.len() && s[cur + 2] != 0x30)
                ||| (cur + 3 < s.len() && s[cur + 3] != 0x30)
                ||| (cur + 4 < s.len() && !(s[cur + 4] == 0x30 || s[cur + 4] == 0x31))
                ||| (cur + 5 < s.len() && !is_hex_lower(s[cur + 5]))
            })
        }
    } else {
        s[cur] < 0x20
    }
}

/// Where the scan has consumed an exact escape prefix and then stopped
/// on bytes no escaped unit can continue with, the buffer's tail from
/// `pos` is a prefix of no escaped string with its closing quote.
proof fn string_scan_refute(s: Seq<u8>, pos: int, cur: int, content: Seq<u8>)
    requires
        0 <= pos <= cur < s.len(),
        s.subrange(pos, cur) == esc(content),
        no_unit_at(s, cur),
    ensures
        forall|c: Seq<u8>, u: Seq<u8>|
            !(#[trigger] s.skip(pos).is_prefix_of(esc(c) + str_end() + u)),
{
    assert forall|c: Seq<u8>, u: Seq<u8>|
        !(#[trigger] s.skip(pos).is_prefix_of(esc(c) + str_end() + u)) by {
        if s.skip(pos).is_prefix_of(esc(c) + str_end() + u) {
            let target = esc(c) + str_end() + u;
            assert(s.skip(pos) =~= target.subrange(0, s.len() - pos));
            assert forall|j: int|
                0 <= j && pos + j < s.len() implies s[pos + j] == #[trigger] target[j] by {
                assert(s.skip(pos)[j] == s[pos + j]);
                assert(s.skip(pos)[j] == target.subrange(0, s.len() - pos)[j]);
                assert(target.subrange(0, s.len() - pos)[j] == target[j]);
            }
            assert(esc(content).is_prefix_of(target)) by {
                assert(esc(content).len() == cur - pos);
                assert(esc(content) =~= target.subrange(0, cur - pos)) by {
                    assert forall|k: int|
                        0 <= k < cur - pos implies esc(content)[k] == target[k] by {
                        assert(esc(content)[k] == s.subrange(pos, cur)[k]);
                        assert(s.subrange(pos, cur)[k] == s[pos + k]);
                    }
                }
            }
            lemma_esc_prefix_cancel(content, c, u);
            let c2 = choose|c2: Seq<u8>|
                c == content + c2 && target.skip(esc(content).len() as int) == (#[trigger] esc(
                    c2,
                )) + str_end() + u;
            let x = esc(c2) + str_end() + u;
            assert(x == target.skip(cur - pos));
            assert forall|k: int|
                0 <= k && cur + k < s.len() implies s[cur + k] == #[trigger] x[k] by {
                assert(x[k] == target.skip(cur - pos)[k]);
                assert(target.skip(cur - pos)[k] == target[cur - pos + k]);
                assert(s[cur + k] == target[cur - pos + k]);
            }
            if c2.len() == 0 {
                assert(x =~= str_end() + u);
                assert(x[0] == 0x22);
                assert(s[cur] == x[0]);
            } else {
                let c0 = c2[0];
                assert(esc(c2) == esc_byte(c0) + esc(c2.drop_first()));
                assert(forall|k: int|
                    0 <= k < esc_byte(c0).len() ==> #[trigger] x[k] == esc_byte(c0)[k]);
                assert(s[cur] == x[0]);
                if s[cur] == 0x5c {
                    assert(s[cur + 1] == x[1]) by {
                        assert(esc_byte(c0).len() >= 2) by {
                            if !(c0 == 0x22 || c0 == 0x5c || c0 < 0x20) {
                                assert(esc_byte(c0) =~= seq![c0]);
                                assert(x[0] == c0);
                            }
                        }
                    }
                    if s[cur + 1] != 0x22 && s[cur + 1] != 0x5c && s[cur + 1] != 0x75 {
                        assert(c0 == 0x22 || c0 == 0x5c || c0 < 0x20);
                        assert(x[1] == 0x22 || x[1] == 0x5c || x[1] == 0x75);
                    } else {
                        assert(s[cur + 1] == 0x75);
                        assert(c0 < 0x20) by {
                            if c0 == 0x22 || c0 == 0x5c {
                                assert(x[1] == c0);
                            } else if !(c0 < 0x20) {
                                assert(x[0] == c0);
                            }
                        }
                        assert(esc_byte(c0) =~= seq![
                            0x5cu8,
                            0x75u8,
                            0x30u8,
                            0x30u8,
                            hex_digit(c0 / 16),
                            hex_digit(c0 % 16),
                        ]);
                        lemma_hex_digit_val(c0 / 16);
                        lemma_hex_digit_val(c0 % 16);
                        assert(x[2] == 0x30 && x[3] == 0x30);
                        assert(x[4] == hex_digit(c0 / 16) && x[5] == hex_digit(c0 % 16));
                        assert(x[4] == 0x30 || x[4] == 0x31) by {
                            assert(c0 / 16 == 0 || c0 / 16 == 1);
                        }
                        assert(is_hex_lower(x[5]));
                        if cur + 2 < s.len() && s[cur + 2] != 0x30 {
                            assert(s[cur + 2] == x[2]);
                        } else if cur + 3 < s.len() && s[cur + 3] != 0x30 {
                            assert(s[cur + 3] == x[3]);
                        } else if cur + 4 < s.len() && !(s[cur + 4] == 0x30 || s[cur + 4]
                            == 0x31) {
                            assert(s[cur + 4] == x[4]);
                        } else {
                            assert(cur + 5 < s.len() && !is_hex_lower(s[cur + 5]));
                            assert(s[cur + 5] == x[5]);
                        }
                    }
                } else {
                    assert(s[cur] < 0x20);
                    if c0 == 0x22 || c0 == 0x5c || c0 < 0x20 {
                        assert(x[0] == 0x5c);
                    } else {
                        assert(esc_byte(c0) =~= seq![c0]);
                        assert(x[0] == c0 && c0 >= 0x20);
                    }
                }
            }
        }
    }
}

/// Scans an escaped string from `pos` up to its closing quote, telling
/// a truncated string apart from one no further bytes could repair: a
/// buffer that is a prefix of some escaped string with its closing
/// quote is never `Malformed`, and a `Complete` scan consumed exactly
/// an escaped string and its quote.
fn string_scan(s: &Vec<u8>, pos: usize) -> (r: ScanOutcome)
    requires
        pos <= s.len(),
    ensures
        r matches ScanOutcome::Complete(e) ==> pos < e <= s.len() && s@[e - 1] == 0x22 && (
        exists|c: Seq<u8>| s@.subrange(pos as int, e - 1) == #[trigger] esc(c)),
        r is Malformed ==> forall|c: Seq<u8>, u: Seq<u8>|
            !(#[trigger] s@.skip(pos as int).is_prefix_of(esc(c) + str_end() + u)),
{
    let mut cur = pos;
    let ghost mut content: Seq<u8> = Seq::empty();
    proof {
        assert(s@.subrange(pos as int, pos as int) =~= esc(content));
    }
    loop
        invariant
            pos <= cur <= s.len(),
            s@.subrange(pos as int, cur as int) == esc(content),
        decreases s.len() - cur,
    {
        if cur == s.len() {
            return ScanOutcome::NeedMore;
        }
        let b = s[cur];
        if b == 0x22 {
            proof {
                assert(s@.subrange(pos as int, cur as int) == esc(content));
            }
            return ScanOutcome::Complete(cur + 1);
        } else if b == 0x5c {
            if s.len() - cur < 2 {
                return ScanOutcome::NeedMore;
            }
            let b2 = s[cur + 1];
            if b2 == 0x22 || b2 == 0x5c {
                proof {
                    lemma_esc_snoc(content, b2);
                    assert(s@.subrange(pos as int, cur + 2 as int) =~= esc(content) + seq![
                        0x5cu8,
                        b2,
                    ]);
                    assert(esc_byte(b2) =~= seq![0x5cu8, b2]);
                    content = content.push(b2);
                }
                cur = cur + 2;
            } else if b2 == 0x75 {
                // a canonical \u00xx escape: every byte already read
                // must agree with it, and missing bytes may still come
                if s.len() - cur >= 3 && s[cur + 2] != 0x30 {
                    proof {
                        string_scan_refute(s@, pos as int, cur as int, content);
                    }
                    return ScanOutcome::Malformed;
                }
                if s.len() - cur >= 4 && s[cur + 3] != 0x30 {
                    proof {
                        string_scan_refute(s@, pos as int, cur as int, content);
                    }
                    return ScanOutcome::Malformed;
                }
                if s.len() - cur >= 5 && !(s[cur + 4] == 0x30 || s[cur + 4] == 0x31) {
                    proof {
                        string_scan_refute(s@, pos as int, cur as int, content);
                    }
                    return ScanOutcome::Malformed;
                }
                if s.len() - cur >= 6 && !((0x30 <= s[cur + 5] && s[cur + 5] <= 0x39) || (0x61
                    <= s[cur + 5] && s[cur + 5] <= 0x66)) {
                    proof {
                        string_scan_refute(s@, pos as int, cur as int, content);
                    }
                    return ScanOutcome::Malformed;
                }
                if s.len() - cur < 6 {
                    return ScanOutcome::NeedMore;
                }
                let ghost d = (((s@[cur + 4] - 0x30) * 16 + hex_val(s@[cur + 5])) as u8);
                proof {
                    assert(d < 0x20) by {
                        assert(s@[cur + 4] == 0x30 || s@[cur + 4] == 0x31);
                        assert(is_hex_lower(s@[cur + 5]));
                    }
                    lemma_hex_val_digit(s@[cur + 5]);
                    assert(hex_digit(d / 16) == s@[cur + 4] && hex_digit(d % 16) == s@[cur + 5])
                        by {
                        assert(d / 16 == s@[cur + 4] - 0x30 && d % 16 == hex_val(s@[cur + 5]));
                    }
                    lemma_esc_snoc(content, d);
                    assert(esc_byte(d) =~= seq![
                        0x5cu8,
                        0x75u8,
                        0x30u8,
                        0x30u8,
                        hex_digit(d / 16),
                        hex_digit(d % 16),
                    ]);
                    assert(s@.subrange(pos as int, cur + 6 as int) =~= esc(content) + esc_byte(d));
                    content = content.push(d);
                }
                cur = cur + 6;
            } else {
                proof {
                    string_scan_refute(s@, pos as int, cur as int, content);
                }
                return ScanOutcome::Malformed;
            }
        } else if b < 0x20 {
            proof {
                string_scan_refute(s@, pos as int, cur as int, content);
            }
            return ScanOutcome::Malformed;
        } else {
            proof {
                lemma_esc_snoc(content, b);
                assert(esc_byte(b) =~= seq![b]);
                assert(s@.subrange(pos as int, cur + 1 as int) =~= esc(content) + seq![b]);
                content = content.push(b);
            }
            cur = cur + 1;
        }
    }
}

/// Scans for the closing `}}` (or `}`) after a string, with the same
/// three-way outcome.
fn close_scan(s: &Vec<u8>, pos: usize, braces: usize) -> (r: ScanOutcome)
    requires
        pos <= s.len(),
        braces <= 2,
    ensures
        r matches ScanOutcome::Complete(e) ==> e == pos + braces && pos + braces <= s.len(),
        r is Malformed ==> exists|k: int|
            0 <= k < braces && pos + k < s@.len() && #[trigger] s@[pos + k] != 0x7d,
{
    let mut i: usize = 0;
    while i < braces
        invariant
            i <= braces,
            pos <= s.len(),
            pos + i <= s.len(),
        decreases braces - i,
    {
        if pos + i == s.len() {
            return ScanOutcome::NeedMore;
        }
        if s[pos + i] != 0x7d {
            proof {
                assert(s@[pos + i] != 0x7d);
            }
            return ScanOutcome::Malformed;
        }
        i += 1;
    }
    ScanOutcome::Complete(pos + braces)
}

/// The closing braces after a value's last string.
spec fn braces_frame(braces: int) -> Seq<u8> {
    if braces == 2 {
        seq![0x7du8, 0x7du8]
    } else {
        seq![0x7du8]
    }
}

/// A completed string scan over a buffer that is a prefix of one
/// escaped string pins the content and the position: the scan consumed
/// exactly that string's escape and quote, and the rest of the buffer
/// is a prefix of what follows.
proof fn string_complete_align(
    s: Seq<u8>,
    pos: int,
    e: int,
    content: Seq<u8>,
    k: Seq<u8>,
    u: Seq<u8>,
)
    requires
        0 <= pos < e <= s.len(),
        s.subrange(pos, e - 1) == esc(content),
        s[e - 1] == 0x22,
        s.skip(pos).is_prefix_of(esc(k) + str_end() + u),
    ensures
        content == k,
        e == pos + esc(k).len() + 1,
        s.skip(e).is_prefix_of(u),
{
    let target = esc(k) + str_end() + u;
    assert(s.skip(pos) =~= target.subrange(0, s.len() - pos));
    assert forall|j: int|
        0 <= j && pos + j < s.len() implies s[pos + j] == #[trigger] target[j] by {
        assert(s.skip(pos)[j] == s[pos + j]);
        assert(s.skip(pos)[j] == target.subrange(0, s.len() - pos)[j]);
        assert(target.subrange(0, s.len() - pos)[j] == target[j]);
    }
    assert(esc(content).is_prefix_of(target)) by {
        assert(esc(content).len() == e - 1 - pos);
        assert(esc(content) =~= target.subrange(0, e - 1 - pos)) by {
            assert forall|j: int| 0 <= j < e - 1 - pos implies esc(content)[j] == target[j] by {
                assert(esc(content)[j] == s.subrange(pos, e - 1)[j]);
                assert(s.subrange(pos, e - 1)[j] == s[pos + j]);
            }
        }
    }
    lemma_esc_prefix_cancel(content, k, u);
    let c2 = choose|c2: Seq<u8>|
        k == content + c2 && target.skip(esc(content).len() as int) == (#[trigger] esc(c2))
            + str_end() + u;
    let x = esc(c2) + str_end() + u;
    assert(x == target.skip(e - 1 - pos));
    assert forall|j: int|
        0 <= j && e - 1 + j < s.len() implies s[e - 1 + j] == #[trigger] x[j] by {
        assert(x[j] == target.skip(e - 1 - pos)[j]);
        assert(target.skip(e - 1 - pos)[j] == target[e - 1 - pos + j]);
        assert(s[e - 1 + j] == target[e - 1 - pos + j]);
    }
    assert(c2.len() == 0) by {
        if c2.len() > 0 {
            let c0 = c2[0];
            assert(esc(c2) == esc_byte(c0) + esc(c2.drop_first()));
            assert(x[0] == esc_byte(c0)[0]);
            assert(s[e - 1] == x[0]);
            if c0 == 0x22 || c0 == 0x5c || c0 < 0x20 {
                assert(esc_byte(c0)[0] == 0x5c);
            } else {
                assert(esc_byte(c0) =~= seq![c0]);
            }
        }
    }
    assert(content =~= k);
    assert(esc(c2) =~= Seq::<u8>::empty());
    assert(x =~= str_end() + u);
    assert(s.skip(e).is_prefix_of(u)) by {
        assert(s.len() - pos <= target.len());
        assert(s.skip(e).len() == s.len() - e);
        assert(s.skip(e) =~= u.subrange(0, s.len() - e)) by {
            assert forall|j: int| 0 <= j < s.len() - e implies s.skip(e)[j] == u[j] by {
                assert(s.skip(e)[j] == s[e + j]);
                assert(s[e - 1 + (1 + j)] == x[1 + j]);
                assert(x[1 + j] == (str_end() + u)[1 + j]);
                assert((str_end() + u)[1 + j] == u[j]);
            }
        }
    }
}

/// Scans one string and the given number of closing braces.
fn one_string_tail(s: &Vec<u8>, pos: usize, braces: usize) -> (r: ScanOutcome)
    requires
        1 <= braces <= 2,
    ensures
        r is Complete ==> r->Complete_0 <= s@.len(),
        forall|c: Seq<u8>|
            (#[trigger] s@.skip(pos as int).is_prefix_of(esc(c) + str_end() + braces_frame(
                braces as int,
            ))) ==> !(r is Malformed) && (r is Complete ==> r->Complete_0 == pos + esc(c).len()
                + 1 + braces),
{
    if pos > s.len() {
        return ScanOutcome::NeedMore;
    }
    let sc = string_scan(s, pos);
    proof {
        assert forall|c: Seq<u8>|
            (#[trigger] s@.skip(pos as int).is_prefix_of(esc(c) + str_end() + braces_frame(
                braces as int,
            ))) && sc is Complete implies ({
            let e = sc->Complete_0;
            &&& e == pos + esc(c).len() + 1
            &&& forall|j: int| 0 <= j && e + j < s@.len() ==> #[trigger] s@[e + j] == 0x7d
        }) by {
            let e = sc->Complete_0;
            let content = choose|content: Seq<u8>|
                s@.subrange(pos as int, e - 1) == #[trigger] esc(content);
            string_complete_align(
                s@,
                pos as int,
                e as int,
                content,
                c,
                braces_frame(braces as int),
            );
            assert forall|j: int|
                0 <= j && e + j < s@.len() implies #[trigger] s@[e + j] == 0x7d by {
                assert(s@.skip(e as int) =~= braces_frame(braces as int).subrange(
                    0,
                    s@.len() - e,
                ));
                assert(s@.skip(e as int)[j] == s@[e + j]);
                assert(braces_frame(braces as int).subrange(0, s@.len() - e)[j] == braces_frame(
                    braces as int,
                )[j]);
                assert(braces_frame(braces as int)[j] == 0x7d);
            }
        }
    }
    match sc {
        ScanOutcome::Complete(e) => close_scan(s, e, braces),
        other => other,
    }
}

/// Each request encoding split at its opening frame.
proof fn req_enc_facts(rv: Req)
    ensures
        rv matches Req::Get { key } ==> enc_req(rv) == req_get_open() + (esc(key) + str_end()
            + braces_frame(2)),
        rv matches Req::SetReq { key, value } ==> enc_req(rv) == req_set_open() + (esc(key)
            + str_end() + (req_val_mid() + (esc(value) + str_end() + braces_frame(2)))),
        rv matches Req::Remove { key } ==> enc_req(rv) == req_remove_open() + (esc(key)
            + str_end() + braces_frame(2)),
{
    assert(braces_frame(2) =~= rec_close());
    match rv {
        Req::Get { key } => {
            assert(enc_req(rv) =~= req_get_open() + (esc(key) + str_end() + braces_frame(2)));
        },
        Req::SetReq { key, value } => {
            assert(enc_req(rv) =~= req_set_open() + (esc(key) + str_end() + (req_val_mid() + (esc(
                value,
            ) + str_end() + braces_frame(2)))));
        },
        Req::Remove { key } => {
            assert(enc_req(rv) =~= req_remove_open() + (esc(key) + str_end() + braces_frame(2)));
        },
    }
}

/// The tail of a buffer that agrees with `head + tail` beyond the head
/// is a prefix of `tail`.
proof fn prefix_tail(s: Seq<u8>, head: Seq<u8>, tail: Seq<u8>, at: int)
    requires
        at == head.len(),
        s.len() <= head.len() + tail.len(),
        at <= s.len(),
        forall|j: int| 0 <= j < s.len() ==> s[j] == #[trigger] (head + tail)[j],
    ensures
        s.skip(at).is_prefix_of(tail),
{
    assert(s.skip(at) =~= tail.subrange(0, s.len() - at)) by {
        assert forall|k: int| 0 <= k < s.len() - at implies s.skip(at)[k] == tail[k] by {
            assert(s.skip(at)[k] == s[at + k]);
            assert(s[at + k] == (head + tail)[at + k]);
            assert((head + tail)[at + k] == tail[k]);
        }
    }
}

/// Classifies the head of a read buffer as one whole request, garbage,
/// or a prefix that needs more bytes.  A connection loop waits on
/// `NeedMore` and stops on `Malformed`, as the protocol ends a
/// connection on decode failure but not on a short read.  `Complete`
/// agrees exactly with `decode_request_at`, and a prefix of any
/// well-formed request is never `Malformed`, so waiting is always
/// right while the peer is honest.
#[verifier::rlimit(100)]
pub fn scan_request(s: &Vec<u8>) -> (r: ScanOutcome)
    ensures
        r matches ScanOutcome::Complete(end) ==> dec_req(s@, 0) matches Some((_, e)) && end
            == e && 0 < end <= s.len(),
        !(r is Complete) ==> dec_req(s@, 0) is None,
        // a buffer that is a prefix of some well-formed request is
        // never garbage: the connection loop may wait for the rest
        (exists|rv: Req, ext: Seq<u8>|
            #![trigger enc_req(rv), s@ + ext]
            enc_req(rv) == s@ + ext && req_utf8(rv)) ==> !(r is Malformed),
{
    match decode_request_at(s, 0) {
        Ok((_, end)) => ScanOutcome::Complete(end),
        Err(_) => {
            let go = lit_req_get_open();
            let so = lit_req_set_open();
            let ro = lit_req_remove_open();
            let vm = lit_req_val_mid();
            let g = frame_match(s, 0, &go);
            match g {
                FrameMatch::Partial => ScanOutcome::NeedMore,
                FrameMatch::Full => {
                    let t = one_string_tail(s, 15, 2);
                    proof {
                        if exists|rv: Req, ext: Seq<u8>|
                            #![trigger enc_req(rv), s@ + ext]
                            enc_req(rv) == s@ + ext && req_utf8(rv) {
                            let (rv, ext) = choose|rv: Req, ext: Seq<u8>|
                                #![trigger enc_req(rv), s@ + ext]
                                enc_req(rv) == s@ + ext && req_utf8(rv);
                            let enc0 = enc_req(rv);
                            assert(forall|j: int|
                                0 <= j < s@.len() ==> s@[j] == #[trigger] enc0[j]);
                            assert(enc0.len() == s@.len() + ext.len());
                            assert(enc0.len() == s@.len() + ext.len());
                            req_enc_facts(rv);
                            lemma_starts_at_index(s@, 0, go@, 2);
                            match rv {
                                Req::Get { key } => {
                                    let tail = esc(key) + str_end() + braces_frame(2);
                                    prefix_tail(s@, req_get_open(), tail, 15);
                                    assert(!(t is Malformed));
                                    if t is Complete {
                                        assert(t->Complete_0 == 15 + esc(key).len() + 1 + 2);
                                        assert(s@.len() >= t->Complete_0);
                                        assert(s@.len() >= enc0.len());
                                        assert(s@ =~= enc0);
                                        assert(starts_at(s@, 0, enc_req(rv))) by {
                                            assert(s@.subrange(0, enc_req(rv).len() as int)
                                                =~= s@);
                                        }
                                        lemma_dec_req_of_enc(s@, 0, rv);
                                        assert(false);
                                    }
                                },
                                Req::SetReq { key, value } => {
                                    assert(s@[2] == enc0[2] && enc0[2] == req_set_open()[2]);
                                    assert(false);
                                },
                                Req::Remove { key } => {
                                    assert(s@[2] == enc0[2] && enc0[2] == req_remove_open()[2]);
                                    assert(false);
                                },
                            }
                        }
                    }
                    match t {
                        ScanOutcome::Complete(_) => ScanOutcome::Malformed,
                        other => other,
                    }
                },
                FrameMatch::Mismatch => {
                    let sm = frame_match(s, 0, &so);
                    match sm {
                        FrameMatch::Partial => ScanOutcome::NeedMore,
                        FrameMatch::Full => {
                            let ss = string_scan(s, 15);
                            proof {
                                if exists|rv: Req, ext: Seq<u8>|
                                    #![trigger enc_req(rv), s@ + ext]
                                    enc_req(rv) == s@ + ext && req_utf8(rv) {
                                    let (rv, ext) = choose|rv: Req, ext: Seq<u8>|
                                        #![trigger enc_req(rv), s@ + ext]
                                        enc_req(rv) == s@ + ext && req_utf8(rv);
                                    let enc0 = enc_req(rv);
                                    assert(forall|j: int|
                                        0 <= j < s@.len() ==> s@[j] == #[trigger] enc0[j]);
                                    assert(enc0.len() == s@.len() + ext.len());
                                    req_enc_facts(rv);
                                    lemma_starts_at_index(s@, 0, so@, 2);
                                    match rv {
                                        Req::Get { key } => {
                                            assert(s@[2] == enc0[2] && enc0[2]
                                                == req_get_open()[2]);
                                            assert(false);
                                        },
                                        Req::Remove { key } => {
                                            assert(s@[2] == enc0[2] && enc0[2]
                                                == req_remove_open()[2]);
                                            assert(false);
                                        },
                                        Req::SetReq { key, value } => {
                                            let mid_tail = req_val_mid() + (esc(value) + str_end()
                                                + braces_frame(2));
                                            let tail = esc(key) + str_end() + mid_tail;
                                            prefix_tail(s@, req_set_open(), tail, 15);
                                            assert(!(ss is Malformed));
                                        },
                                    }
                                }
                            }
                            match ss {
                                ScanOutcome::Complete(j) => {
                                    let fm = frame_match(s, j, &vm);
                                    proof {
                                        if exists|rv: Req, ext: Seq<u8>|
                                            #![trigger enc_req(rv), s@ + ext]
                                            enc_req(rv) == s@ + ext && req_utf8(rv) {
                                            let (rv, ext) = choose|rv: Req, ext: Seq<u8>|
                                                #![trigger enc_req(rv), s@ + ext]
                                                enc_req(rv) == s@ + ext && req_utf8(rv);
                                            let enc0 = enc_req(rv);
                                            assert(forall|j2: int|
                                                0 <= j2 < s@.len() ==> s@[j2] == #[trigger] enc0[
                                                    j2
                                                ]);
                                            assert(enc0.len() == s@.len() + ext.len());
                                            req_enc_facts(rv);
                                            lemma_starts_at_index(s@, 0, so@, 2);
                                            match rv {
                                                Req::Get { key } => {
                                                    assert(s@[2] == enc0[2] && enc0[2]
                                                        == req_get_open()[2]);
                                                    assert(false);
                                                },
                                                Req::Remove { key } => {
                                                    assert(s@[2] == enc0[2] && enc0[2]
                                                        == req_remove_open()[2]);
                                                    assert(false);
                                                },
                                                Req::SetReq { key, value } => {
                                                    let mid_tail = req_val_mid() + (esc(value)
                                                        + str_end() + braces_frame(2));
                                                    let tail = esc(key) + str_end() + mid_tail;
                                                    prefix_tail(s@, req_set_open(), tail, 15);
                                                    let content = choose|content: Seq<u8>|
                                                        s@.subrange(15, j - 1) == #[trigger] esc(
                                                            content,
                                                        );
                                                    string_complete_align(
                                                        s@,
                                                        15,
                                                        j as int,
                                                        content,
                                                        key,
                                                        mid_tail,
                                                    );
                                                    // the buffer continues into the value frame
                                                    assert forall|k: int|
                                                        0 <= k && j + k < s@.len()
                                                        implies #[trigger] s@[j + k] == mid_tail[
                                                        k
                                                    ] by {
                                                        assert(s@.skip(j as int)
                                                            =~= mid_tail.subrange(
                                                            0,
                                                            s@.len() - j,
                                                        ));
                                                        assert(s@.skip(j as int)[k] == s@[j + k]);
                                                        assert(mid_tail.subrange(
                                                            0,
                                                            s@.len() - j,
                                                        )[k] == mid_tail[k]);
                                                    }
                                                    if fm is Mismatch {
                                                        let bad = choose|k: int|
                                                            0 <= k && j + k < s@.len() && k
                                                                < vm@.len() && s@[j + k] != (
                                                            #[trigger] vm@[k]);
                                                        assert(mid_tail[bad] == req_val_mid()[
                                                            bad
                                                        ]);
                                                        assert(false);
                                                    }
                                                    if fm is Full {
                                                        let tail2 = esc(value) + str_end()
                                                            + braces_frame(2);
                                                        assert(s@.skip(j + 10).is_prefix_of(
                                                            tail2,
                                                        )) by {
                                                            assert(s@.skip(j + 10)
                                                                =~= tail2.subrange(
                                                                0,
                                                                s@.len() - (j + 10),
                                                            )) by {
                                                                assert forall|k: int|
                                                                    0 <= k < s@.len() - (j + 10)
                                                                    implies s@.skip(j + 10)[k]
                                                                    == tail2[k] by {
                                                                    assert(s@.skip(j + 10)[k]
                                                                        == s@[j + 10 + k]);
                                                                    assert(s@[j + (10 + k)]
                                                                        == mid_tail[10 + k]);
                                                                    assert(j + (10 + k) == j + 10
                                                                        + k);
                                                                    assert(mid_tail[10 + k]
                                                                        == tail2[k]);
                                                                }
                                                            }
                                                        }
                                                    }
                                                },
                                            }
                                        }
                                    }
                                    match fm {
                                        FrameMatch::Partial => ScanOutcome::NeedMore,
                                        FrameMatch::Mismatch => ScanOutcome::Malformed,
                                        FrameMatch::Full => {
                                            let t2 = one_string_tail(s, j + 10, 2);
                                            proof {
                                                if exists|rv: Req, ext: Seq<u8>|
                                                    #![trigger enc_req(rv), s@ + ext]
                                                    enc_req(rv) == s@ + ext && req_utf8(rv) {
                                                    let (rv, ext) = choose|
                                                        rv: Req,
                                                        ext: Seq<u8>,
                                                    |
                                                        #![trigger enc_req(rv), s@ + ext]
                                                        enc_req(rv) == s@ + ext && req_utf8(rv);
                                                    let enc0 = enc_req(rv);
                                                    assert(forall|j2: int|
                                                        0 <= j2 < s@.len() ==> s@[j2]
                                                            == #[trigger] enc0[j2]);
                                                    assert(enc0.len() == s@.len() + ext.len());
                                                    req_enc_facts(rv);
                                                    lemma_starts_at_index(s@, 0, so@, 2);
                                                    match rv {
                                                        Req::Get { key } => {
                                                            assert(s@[2] == enc0[2] && enc0[2]
                                                                == req_get_open()[2]);
                                                            assert(false);
                                                        },
                                                        Req::Remove { key } => {
                                                            assert(s@[2] == enc0[2] && enc0[2]
                                                                == req_remove_open()[2]);
                                                            assert(false);
                                                        },
                                                        Req::SetReq { key, value } => {
                                                            let mid_tail = req_val_mid() + (esc(
                                                                value,
                                                            ) + str_end() + braces_frame(2));
                                                            let tail = esc(key) + str_end()
                                                                + mid_tail;
                                                            prefix_tail(
                                                                s@,
                                                                req_set_open(),
                                                                tail,
                                                                15,
                                                            );
                                                            let content = choose|
                                                                content: Seq<u8>,
                                                            |
                                                                s@.subrange(15, j - 1)
                                                                    == #[trigger] esc(content);
                                                            string_complete_align(
                                                                s@,
                                                                15,
                                                                j as int,
                                                                content,
                                                                key,
                                                                mid_tail,
                                                            );
                                                            let tail2 = esc(value) + str_end()
                                                                + braces_frame(2);
                                                            assert(s@.skip(j + 10).is_prefix_of(
                                                                tail2,
                                                            )) by {
                                                                assert(s@.skip(j + 10)
                                                                    =~= tail2.subrange(
                                                                    0,
                                                                    s@.len() - (j + 10),
                                                                )) by {
                                                                    assert(s@.skip(j as int)
                                                                        =~= mid_tail.subrange(
                                                                        0,
                                                                        s@.len() - j,
                                                                    ));
                                                                    assert forall|k: int|
                                                                        0 <= k < s@.len() - (j
                                                                            + 10) implies s@.skip(
                                                                        j + 10,
                                                                    )[k] == tail2[k] by {
                                                                        assert(s@.skip(j + 10)[k]
                                                                            == s@[j + 10 + k]);
                                                                        assert(s@.skip(j as int)[
                                                                            10 + k
                                                                        ] == s@[j + (10 + k)]);
                                                                        assert(j + (10 + k) == j
                                                                            + 10 + k);
                                                                        assert(s@.skip(
                                                                            j as int,
                                                                        )[10 + k] == mid_tail[10
                                                                            + k]);
                                                                        assert(mid_tail[10 + k]
                                                                            == tail2[k]);
                                                                    }
                                                                }
                                                            }
                                                            assert(!(t2 is Malformed));
                                                            if t2 is Complete {
                                                                assert(t2->Complete_0 == j + 10
                                                                    + esc(value).len() + 1 + 2);
                                                                assert(s@.len()
                                                                    >= t2->Complete_0);
                                                                assert(enc0.len() == 15 + tail.len());
                                                                assert(tail.len() == esc(
                                                                    key,
                                                                ).len() + 1 + mid_tail.len());
                                                                assert(mid_tail.len() == 10 + esc(
                                                                    value,
                                                                ).len() + 1 + 2);
                                                                assert(s@.len() >= enc0.len());
                                                                assert(s@ =~= enc0);
                                                                assert(starts_at(
                                                                    s@,
                                                                    0,
                                                                    enc_req(rv),
                                                                )) by {
                                                                    assert(s@.subrange(
                                                                        0,
                                                                        enc_req(rv).len() as int,
                                                                    ) =~= s@);
                                                                }
                                                                lemma_dec_req_of_enc(s@, 0, rv);
                                                                assert(false);
                                                            }
                                                        },
                                                    }
                                                }
                                            }
                                            match t2 {
                                                ScanOutcome::Complete(_) => ScanOutcome::Malformed,
                                                other => other,
                                            }
                                        },
                                    }
                                },
                                other => other,
                            }
                        },
                        FrameMatch::Mismatch => {
                            let rm = frame_match(s, 0, &ro);
                            match rm {
                                FrameMatch::Partial => ScanOutcome::NeedMore,
                                FrameMatch::Full => {
                                    let t = one_string_tail(s, 18, 2);
                                    proof {
                                        if exists|rv: Req, ext: Seq<u8>|
                                            #![trigger enc_req(rv), s@ + ext]
                                            enc_req(rv) == s@ + ext && req_utf8(rv) {
                                            let (rv, ext) = choose|rv: Req, ext: Seq<u8>|
                                                #![trigger enc_req(rv), s@ + ext]
                                                enc_req(rv) == s@ + ext && req_utf8(rv);
                                            let enc0 = enc_req(rv);
                                            assert(forall|j: int|
                                                0 <= j < s@.len() ==> s@[j] == #[trigger] enc0[
                                                    j
                                                ]);
                                            assert(enc0.len() == s@.len() + ext.len());
                                            req_enc_facts(rv);
                                            lemma_starts_at_index(s@, 0, ro@, 2);
                                            lemma_starts_at_index(s@, 0, ro@, 3);
                                            match rv {
                                                Req::Get { key } => {
                                                    assert(s@[2] == enc0[2] && enc0[2]
                                                        == req_get_open()[2]);
                                                    assert(false);
                                                },
                                                Req::SetReq { key, value } => {
                                                    assert(s@[2] == enc0[2] && enc0[2]
                                                        == req_set_open()[2]);
                                                    assert(false);
                                                },
                                                Req::Remove { key } => {
                                                    let tail = esc(key) + str_end()
                                                        + braces_frame(2);
                                                    prefix_tail(s@, req_remove_open(), tail, 18);
                                                    assert(!(t is Malformed));
                                                    if t is Complete {
                                                        assert(t->Complete_0 == 18 + esc(
                                                            key,
                                                        ).len() + 1 + 2);
                                                        assert(s@.len() >= t->Complete_0);
                                                        assert(s@.len() >= enc0.len());
                                                        assert(s@ =~= enc0);
                                                        assert(starts_at(s@, 0, enc_req(rv)))
                                                            by {
                                                            assert(s@.subrange(
                                                                0,
                                                                enc_req(rv).len() as int,
                                                            ) =~= s@);
                                                        }
                                                        lemma_dec_req_of_enc(s@, 0, rv);
                                                        assert(false);
                                                    }
                                                },
                                            }
                                        }
                                    }
                                    match t {
                                        ScanOutcome::Complete(_) => ScanOutcome::Malformed,
                                        other => other,
                                    }
                                },
                                FrameMatch::Mismatch => {
                                    proof {
                                        if exists|rv: Req, ext: Seq<u8>|
                                            #![trigger enc_req(rv), s@ + ext]
                                            enc_req(rv) == s@ + ext && req_utf8(rv) {
                                            let (rv, ext) = choose|rv: Req, ext: Seq<u8>|
                                                #![trigger enc_req(rv), s@ + ext]
                                                enc_req(rv) == s@ + ext && req_utf8(rv);
                                            let enc0 = enc_req(rv);
                                            assert(forall|j: int|
                                                0 <= j < s@.len() ==> s@[j] == #[trigger] enc0[
                                                    j
                                                ]);
                                            assert(enc0.len() == s@.len() + ext.len());
                                            req_enc_facts(rv);
                                            match rv {
                                                Req::Get { key } => {
                                                    let bad = choose|k: int|
                                                        0 <= k && k < s@.len() && k < go@.len()
                                                            && s@[k] != (#[trigger] go@[k]);
                                                    assert(s@[bad] == enc0[bad]);
                                                    assert(enc0[bad] == req_get_open()[bad]);
                                                    assert(false);
                                                },
                                                Req::SetReq { key, value } => {
                                                    let bad = choose|k: int|
                                                        0 <= k && k < s@.len() && k < so@.len()
                                                            && s@[k] != (#[trigger] so@[k]);
                                                    assert(s@[bad] == enc0[bad]);
                                                    assert(enc0[bad] == req_set_open()[bad]);
                                                    assert(false);
                                                },
                                                Req::Remove { key } => {
                                                    let bad = choose|k: int|
                                                        0 <= k && k < s@.len() && k < ro@.len()
                                                            && s@[k] != (#[trigger] ro@[k]);
                                                    assert(s@[bad] == enc0[bad]);
                                                    assert(enc0[bad] == req_remove_open()[bad]);
                                                    assert(false);
                                                },
                                            }
                                        }
                                    }
                                    ScanOutcome::Malformed
                                },
                            }
                        },
                    }
                },
            }
        },
    }
}

/// Classifies the head of a read buffer as one whole response value, a
/// malformed one, or a prefix that needs more bytes, as
/// [`scan_request`] does for requests.
/// Each response encoding split at its opening frame.
proof fn resp_enc_facts(resp: Resp)
    ensures
        resp matches Resp::Found { value } ==> enc_resp(resp) == resp_found_open() + (esc(value)
            + str_end() + braces_frame(1)),
        resp is Nothing ==> enc_resp(resp) == resp_nothing(),
        resp matches Resp::Failed { msg } ==> enc_resp(resp) == resp_failed_open() + (esc(msg)
            + str_end() + braces_frame(1)),
{
    match resp {
        Resp::Found { value } => {
            assert(enc_resp(resp) =~= resp_found_open() + (esc(value) + str_end() + braces_frame(
                1,
            )));
        },
        Resp::Nothing => {
        },
        Resp::Failed { msg } => {
            assert(enc_resp(resp) =~= resp_failed_open() + (esc(msg) + str_end() + braces_frame(
                1,
            )));
        },
    }
}

/// Classifies the head of a read buffer as one whole response value, a
/// malformed one, or a prefix that needs more bytes, as
/// [`scan_request`] does for requests.
#[verifier::rlimit(100)]
pub fn scan_response(s: &Vec<u8>) -> (r: ScanOutcome)
    ensures
        r matches ScanOutcome::Complete(end) ==> dec_resp(s@, 0) matches Some((_, e)) && end
            == e && 0 < end <= s.len(),
        !(r is Complete) ==> dec_resp(s@, 0) is None,
        // a buffer that is a prefix of some well-formed response is
        // never garbage: the client may wait for the rest
        (exists|resp: Resp, ext: Seq<u8>|
            #![trigger enc_resp(resp), s@ + ext]
            enc_resp(resp) == s@ + ext && resp_utf8(resp)) ==> !(r is Malformed),
{
    match decode_response_at(s, 0) {
        Ok((_, end)) => ScanOutcome::Complete(end),
        Err(_) => {
            let nul = lit_resp_nothing();
            let fo = lit_resp_found_open();
            let eo = lit_resp_failed_open();
            let nm = frame_match(s, 0, &nul);
            proof {
                if nm is Full {
                    assert(starts_at(s@, 0, resp_nothing()));
                    assert(false);
                }
            }
            match nm {
                FrameMatch::Full => ScanOutcome::Malformed,
                FrameMatch::Partial => {
                    // `{"Ok":` may still grow into either `Ok` shape
                    let fm = frame_match(s, 0, &fo);
                    match fm {
                        FrameMatch::Partial => ScanOutcome::NeedMore,
                        FrameMatch::Mismatch => ScanOutcome::NeedMore,
                        FrameMatch::Full => {
                            let t = one_string_tail(s, 7, 1);
                            proof {
                                scan_response_found_path(s@, t, fo@);
                            }
                            match t {
                                ScanOutcome::Complete(_) => ScanOutcome::Malformed,
                                other => other,
                            }
                        },
                    }
                },
                FrameMatch::Mismatch => {
                    let fm = frame_match(s, 0, &fo);
                    match fm {
                        FrameMatch::Partial => ScanOutcome::NeedMore,
                        FrameMatch::Full => {
                            let t = one_string_tail(s, 7, 1);
                            proof {
                                scan_response_found_path(s@, t, fo@);
                            }
                            match t {
                                ScanOutcome::Complete(_) => ScanOutcome::Malformed,
                                other => other,
                            }
                        },
                        FrameMatch::Mismatch => {
                            let em = frame_match(s, 0, &eo);
                            match em {
                                FrameMatch::Partial => ScanOutcome::NeedMore,
                                FrameMatch::Full => {
                                    let t = one_string_tail(s, 8, 1);
                                    proof {
                                        if exists|resp: Resp, ext: Seq<u8>|
                                            #![trigger enc_resp(resp), s@ + ext]
                                            enc_resp(resp) == s@ + ext && resp_utf8(resp) {
                                            let (resp, ext) = choose|resp: Resp, ext: Seq<u8>|
                                                #![trigger enc_resp(resp), s@ + ext]
                                                enc_resp(resp) == s@ + ext && resp_utf8(resp);
                                            let enc0 = enc_resp(resp);
                                            assert(forall|j: int|
                                                0 <= j < s@.len() ==> s@[j] == #[trigger] enc0[
                                                    j
                                                ]);
                                            assert(enc0.len() == s@.len() + ext.len());
                                            resp_enc_facts(resp);
                                            lemma_starts_at_index(s@, 0, eo@, 2);
                                            match resp {
                                                Resp::Nothing => {
                                                    assert(s@[2] == enc0[2] && enc0[2]
                                                        == resp_nothing()[2]);
                                                    assert(false);
                                                },
                                                Resp::Found { value } => {
                                                    assert(s@[2] == enc0[2] && enc0[2]
                                                        == resp_found_open()[2]);
                                                    assert(false);
                                                },
                                                Resp::Failed { msg } => {
                                                    let tail = esc(msg) + str_end()
                                                        + braces_frame(1);
                                                    prefix_tail(s@, resp_failed_open(), tail, 8);
                                                    assert(!(t is Malformed));
                                                    if t is Complete {
                                                        assert(t->Complete_0 == 8 + esc(
                                                            msg,
                                                        ).len() + 1 + 1);
                                                        assert(s@.len() >= t->Complete_0);
                                                        assert(s@.len() >= enc0.len());
                                                        assert(s@ =~= enc0);
                                                        assert(starts_at(s@, 0, enc_resp(resp)))
                                                            by {
                                                            assert(s@.subrange(
                                                                0,
                                                                enc_resp(resp).len() as int,
                                                            ) =~= s@);
                                                        }
                                                        lemma_dec_resp_of_enc(s@, 0, resp);
                                                        assert(false);
                                                    }
                                                },
                                            }
                                        }
                                    }
                                    match t {
                                        ScanOutcome::Complete(_) => ScanOutcome::Malformed,
                                        other => other,
                                    }
                                },
                                FrameMatch::Mismatch => {
                                    proof {
                                        if exists|resp: Resp, ext: Seq<u8>|
                                            #![trigger enc_resp(resp), s@ + ext]
                                            enc_resp(resp) == s@ + ext && resp_utf8(resp) {
                                            let (resp, ext) = choose|resp: Resp, ext: Seq<u8>|
                                                #![trigger enc_resp(resp), s@ + ext]
                                                enc_resp(resp) == s@ + ext && resp_utf8(resp);
                                            let enc0 = enc_resp(resp);
                                            assert(forall|j: int|
                                                0 <= j < s@.len() ==> s@[j] == #[trigger] enc0[
                                                    j
                                                ]);
                                            resp_enc_facts(resp);
                                            match resp {
                                                Resp::Nothing => {
                                                    let bad = choose|k: int|
                                                        0 <= k && k < s@.len() && k < nul@.len()
                                                            && s@[k] != (#[trigger] nul@[k]);
                                                    assert(s@[bad] == enc0[bad]);
                                                    assert(false);
                                                },
                                                Resp::Found { value } => {
                                                    let bad = choose|k: int|
                                                        0 <= k && k < s@.len() && k < fo@.len()
                                                            && s@[k] != (#[trigger] fo@[k]);
                                                    assert(s@[bad] == enc0[bad]);
                                                    assert(enc0[bad] == resp_found_open()[bad]);
                                                    assert(false);
                                                },
                                                Resp::Failed { msg } => {
                                                    let bad = choose|k: int|
                                                        0 <= k && k < s@.len() && k < eo@.len()
                                                            && s@[k] != (#[trigger] eo@[k]);
                                                    assert(s@[bad] == enc0[bad]);
                                                    assert(enc0[bad] == resp_failed_open()[bad]);
                                                    assert(false);
                                                },
                                            }
                                        }
                                    }
                                    ScanOutcome::Malformed
                                },
                            }
                        },
                    }
                },
            }
        },
    }
}

/// Refutes a bad outcome of the `{"Ok":"` path: where the buffer is a
/// prefix of a well-formed response, the value-string scan neither
/// fails nor completes without the whole response being decodable.
proof fn scan_response_found_path(s: Seq<u8>, t: ScanOutcome, fov: Seq<u8>)
    requires
        fov == resp_found_open(),
        starts_at(s, 0, fov),
        dec_resp(s, 0) is None,
        t is Complete ==> t->Complete_0 <= s.len(),
        forall|c: Seq<u8>|
            (#[trigger] s.skip(7).is_prefix_of(esc(c) + str_end() + braces_frame(1))) ==> !(t
                is Malformed) && (t is Complete ==> t->Complete_0 == 7 + esc(c).len() + 1 + 1),
    ensures
        (exists|resp: Resp, ext: Seq<u8>|
            #![trigger enc_resp(resp), s + ext]
            enc_resp(resp) == s + ext && resp_utf8(resp)) ==> !(t is Malformed) && !(t
            is Complete),
{
    if exists|resp: Resp, ext: Seq<u8>|
        #![trigger enc_resp(resp), s + ext]
        enc_resp(resp) == s + ext && resp_utf8(resp) {
        let (resp, ext) = choose|resp: Resp, ext: Seq<u8>|
            #![trigger enc_resp(resp), s + ext]
            enc_resp(resp) == s + ext && resp_utf8(resp);
        let enc0 = enc_resp(resp);
        assert(forall|j: int| 0 <= j < s.len() ==> s[j] == #[trigger] enc0[j]);
        assert(enc0.len() == s.len() + ext.len());
        resp_enc_facts(resp);
        lemma_starts_at_index(s, 0, fov, 2);
        lemma_starts_at_index(s, 0, fov, 6);
        match resp {
            Resp::Nothing => {
                assert(s[6] == enc0[6] && enc0[6] == resp_nothing()[6]);
                assert(false);
            },
            Resp::Failed { msg } => {
                assert(s[2] == enc0[2] && enc0[2] == resp_failed_open()[2]);
                assert(false);
            },
            Resp::Found { value } => {
                let tail = esc(value) + str_end() + braces_frame(1);
                prefix_tail(s, resp_found_open(), tail, 7);
                assert(!(t is Malformed));
                if t is Complete {
                    assert(t->Complete_0 == 7 + esc(value).len() + 1 + 1);
                    assert(s.len() >= t->Complete_0);
                    assert(s.len() >= enc0.len());
                    assert(s =~= enc0);
                    assert(starts_at(s, 0, enc_resp(resp))) by {
                        assert(s.subrange(0, enc_resp(resp).len() as int) =~= s);
                    }
                    lemma_dec_resp_of_enc(s, 0, resp);
                    assert(false);
                }
            },
        }
    }
}

} // verus!
