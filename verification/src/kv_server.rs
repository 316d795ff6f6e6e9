//! The server side of the protocol: mapping one decoded request to one
//! engine call and exactly one response. The host owns the listener and the
//! sockets; it reads a frame, decodes it, calls `handle_request`, and sends
//! the one response back.

use vstd::prelude::*;
use crate::err::KvError;
use crate::kv::KvStore;
use crate::message::{ReqView, RespView, Request, Response};

verus! {

/// The response a successful or failed `get` turns into.
pub fn get_response(r: Result<Option<String>, KvError>) -> (resp: Response)
    ensures
        match r {
            Ok(v) => resp@ == (RespView::OkValue {
                value: match v {
                    Some(s) => Some(s@),
                    None => None,
                },
            }),
            Err(_) => resp@ is ErrorUnknown,
        },
{
    match r {
        Ok(value) => Response::OkValue { value },
        Err(e) => Response::ErrorUnknown { message: String::from_str(e.message()) },
    }
}

/// The response a `set` outcome turns into.
pub fn set_response(r: Result<(), KvError>) -> (resp: Response)
    ensures
        match r {
            Ok(()) => resp@ is OkNoContent,
            Err(_) => resp@ is ErrorUnknown,
        },
{
    match r {
        Ok(()) => Response::OkNoContent,
        Err(e) => Response::ErrorUnknown { message: String::from_str(e.message()) },
    }
}

/// The response a `remove` outcome turns into: the engine's key-not-found is
/// a response of its own.
pub fn remove_response(r: Result<(), KvError>) -> (resp: Response)
    ensures
        match r {
            Ok(()) => resp@ is OkNoContent,
            Err(KvError::KeyNotFound) => resp@ is ErrorKeyNotFound,
            Err(_) => resp@ is ErrorUnknown,
        },
{
    match r {
        Ok(()) => Response::OkNoContent,
        Err(KvError::KeyNotFound) => Response::ErrorKeyNotFound,
        Err(e) => Response::ErrorUnknown { message: String::from_str(e.message()) },
    }
}

/// Maps one request to one engine call on the log-structured store and the
/// one response it earns. A mutation that would pass the machine limits of a
/// 64-bit log is carried out exactly; one that would not leaves the store
/// untouched and reports an unknown error.
pub fn handle_request(store: &mut KvStore, req: Request) -> (resp: Response)
    requires
        old(store).wf(),
    ensures
        final(store).wf(),
        match req@ {
            ReqView::Get { key } => *final(store) == *old(store) && (if old(
                store,
            ).state().contains_key(key) {
                resp@ == (RespView::OkValue { value: Some(old(store).state()[key]) })
            } else {
                resp@ == (RespView::OkValue { value: None::<Seq<char>> })
            }),
            ReqView::Put { key, value } => if old(store).can_put(key, value) {
                final(store).state() == old(store).state().insert(key, value) && resp@
                    is OkNoContent
            } else {
                *final(store) == *old(store) && resp@ is ErrorUnknown
            },
            ReqView::Remove { key } => if old(store).state().contains_key(key) {
                if old(store).can_remove(key) {
                    final(store).state() == old(store).state().remove(key) && resp@ is OkNoContent
                } else {
                    *final(store) == *old(store) && resp@ is ErrorUnknown
                }
            } else {
                *final(store) == *old(store) && resp@ is ErrorKeyNotFound
            },
        },
{
    match req {
        Request::Get { key } => {
            let r = store.get(key);
            get_response(r)
        },
        Request::Put { key, value } => {
            if store.check_put(&key, &value) {
                let r = store.set(key, value);
                set_response(r)
            } else {
                set_response(Err(KvError::Unknown))
            }
        },
        Request::Remove { key } => {
            if store.check_remove(&key) {
                let r = store.remove(key);
                remove_response(r)
            } else {
                match store.get(key) {
                    Ok(Some(_)) => remove_response(Err(KvError::Unknown)),
                    Ok(None) => remove_response(Err(KvError::KeyNotFound)),
                    Err(e) => remove_response(Err(e)),
                }
            }
        },
    }
}

} // verus!
