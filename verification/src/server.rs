//! The per-request step of the network front end.
//!
//! The connection loop reads one request at a time, invokes the
//! engine, and writes back exactly one response.  This module holds
//! that step: given a decoded request, it applies it to the store and
//! returns the encoded response bytes.  Socket handling, timeouts and
//! shutdown polling stay with the caller.

use vstd::prelude::*;

use crate::codec::{enc_rec, Rec};
use crate::error::KvsError;
use crate::log::total_size;
use crate::protocol::{enc_resp, Resp};
use crate::protocol::{
    encode_get_response, encode_remove_response, encode_set_response, GetResponse, RemoveResponse,
    Request, SetResponse,
};
use crate::store::KvStore;
use vstd::utf8::encode_utf8;

verus! {

/// Applies one request to the store and returns the encoded response.
///
/// A `Get` answers the live value or `null` and never changes the
/// store.  A `Set` acknowledges with `null` once the binding is
/// applied, or reports its error.  A `Remove` acknowledges with
/// `null`, or reports `Key not found` exactly when the key is absent.
pub fn handle_request(store: &mut KvStore, req: Request) -> (r: Vec<u8>)
    requires
        old(store).wf(),
    ensures
        final(store).wf(),
        req matches Request::Get { key } ==> ({
            &&& final(store)@ == old(store)@
            &&& (old(store)@.contains_key(encode_utf8(key@)) ==> r@ == enc_resp(
                (Resp::Found { value: old(store)@[encode_utf8(key@)] }),
            ))
            &&& (!old(store)@.contains_key(encode_utf8(key@)) ==> r@ == enc_resp(Resp::Nothing))
        }),
        req matches Request::SetReq { key, value } ==> ({
            let fits = total_size(old(store).disk()) + enc_rec(
                (Rec::SetRec { key: encode_utf8(key@), value: encode_utf8(value@) }),
            ).len() <= u64::MAX;
            &&& (fits ==> final(store)@ == old(store)@.insert(
                encode_utf8(key@),
                encode_utf8(value@),
            ) && r@ == enc_resp(Resp::Nothing))
            &&& (!fits ==> final(store)@ == old(store)@ && r@ == enc_resp(
                (Resp::Failed { msg: encode_utf8("log exceeds 64-bit byte addressing"@) }),
            ))
        }),
        req matches Request::Remove { key } ==> ({
            let fits = total_size(old(store).disk()) + enc_rec(
                (Rec::Rm { key: encode_utf8(key@) }),
            ).len() <= u64::MAX;
            &&& (!old(store)@.contains_key(encode_utf8(key@)) ==> final(store)@ == old(store)@
                && r@ == enc_resp((Resp::Failed { msg: encode_utf8("Key not found"@) })))
            &&& (old(store)@.contains_key(encode_utf8(key@)) && fits ==> final(store)@ == old(
                store,
            )@.remove(encode_utf8(key@)) && r@ == enc_resp(Resp::Nothing))
            &&& (old(store)@.contains_key(encode_utf8(key@)) && !fits ==> final(store)@ == old(
                store,
            )@ && r@ == enc_resp(
                (Resp::Failed { msg: encode_utf8("log exceeds 64-bit byte addressing"@) }),
            ))
        }),
{
    match req {
        Request::Get { key } => {
            match store.get(key) {
                Ok(found) => encode_get_response(&GetResponse::Done(found)),
                Err(e) => {
                    proof {
                        assert(false);
                    }
                    encode_get_response(&GetResponse::Failed(e.message()))
                },
            }
        },
        Request::SetReq { key, value } => {
            match store.set(key, value) {
                Ok(_) => encode_set_response(&SetResponse::Done),
                Err(e) => {
                    let m = e.message();
                    let ghost mb = encode_utf8(m@);
                    let r = encode_set_response(&SetResponse::Failed(m));
                    proof {
                        assert(r@ == enc_resp((Resp::Failed { msg: mb })));
                    }
                    r
                },
            }
        },
        Request::Remove { key } => {
            match store.remove(key) {
                Ok(_) => encode_remove_response(&RemoveResponse::Done),
                Err(e) => {
                    let m = e.message();
                    let ghost mb = encode_utf8(m@);
                    let r = encode_remove_response(&RemoveResponse::Failed(m));
                    proof {
                        assert(r@ == enc_resp((Resp::Failed { msg: mb })));
                        if e is KeyNotFound {
                            assert(m@ == "Key not found"@);
                        }
                    }
                    r
                },
            }
        },
    }
}

} // verus!
