//! The client side of the protocol: building request frames and deciding
//! each call's outcome from the server's response. The host owns the socket;
//! it sends what `request_*` builds, reads one response frame back, and hands
//! the decoded response to the matching decision function.

use vstd::prelude::*;
use crate::err::KvError;
use crate::message::{ReqView, RespView, Request, Response};

verus! {

/// The protocol logic of a client connection.
pub struct KvClient {}

impl KvClient {
    /// The request frame a `get` call sends.
    pub fn request_get(key: String) -> (r: Request)
        ensures
            r@ == (ReqView::Get { key: key@ }),
    {
        Request::Get { key }
    }

    /// The request frame a `set` call sends.
    pub fn request_set(key: String, value: String) -> (r: Request)
        ensures
            r@ == (ReqView::Put { key: key@, value: value@ }),
    {
        Request::Put { key, value }
    }

    /// The request frame a `remove` call sends.
    pub fn request_remove(key: String) -> (r: Request)
        ensures
            r@ == (ReqView::Remove { key: key@ }),
    {
        Request::Remove { key }
    }

    /// Decides a `get` call's outcome from the server's response: a value or
    /// its absence comes back as is; everything else is an error.
    pub fn get(response: Response) -> (r: Result<Option<String>, KvError>)
        ensures
            match response@ {
                RespView::OkValue { value } => r is Ok && (match value {
                    Some(v) => r->Ok_0 is Some && r->Ok_0->Some_0@ == v,
                    None => r->Ok_0 is None,
                }),
                RespView::OkNoContent => r == Err::<Option<String>, KvError>(KvError::Unknown),
                RespView::ErrorKeyNotFound => r == Err::<Option<String>, KvError>(
                    KvError::KeyNotFound,
                ),
                RespView::ErrorUnknown { message } => r == Err::<Option<String>, KvError>(
                    KvError::Unknown,
                ),
            },
    {
        match response {
            Response::OkValue { value } => Ok(value),
            Response::OkNoContent => Err(KvError::Unknown),
            Response::ErrorKeyNotFound => Err(KvError::KeyNotFound),
            Response::ErrorUnknown { message } => Err(KvError::Unknown),
        }
    }

    /// Decides a `set` call's outcome: only a bare acknowledgement counts as
    /// success.
    pub fn set(response: Response) -> (r: Result<(), KvError>)
        ensures
            match response@ {
                RespView::OkNoContent => r is Ok,
                RespView::OkValue { value } => r == Err::<(), KvError>(KvError::Unknown),
                RespView::ErrorKeyNotFound => r == Err::<(), KvError>(KvError::Unknown),
                RespView::ErrorUnknown { message } => r == Err::<(), KvError>(KvError::Unknown),
            },
    {
        match response {
            Response::OkNoContent => Ok(()),
            Response::OkValue { value } => Err(KvError::Unknown),
            Response::ErrorKeyNotFound => Err(KvError::Unknown),
            Response::ErrorUnknown { message } => Err(KvError::Unknown),
        }
    }

    /// Decides a `remove` call's outcome: an acknowledgement is success and
    /// the server's key-not-found comes back as such.
    pub fn remove(response: Response) -> (r: Result<(), KvError>)
        ensures
            match response@ {
                RespView::OkNoContent => r is Ok,
                RespView::OkValue { value } => r == Err::<(), KvError>(KvError::Unknown),
                RespView::ErrorKeyNotFound => r == Err::<(), KvError>(KvError::KeyNotFound),
                RespView::ErrorUnknown { message } => r == Err::<(), KvError>(KvError::Unknown),
            },
    {
        match response {
            Response::OkNoContent => Ok(()),
            Response::OkValue { value } => Err(KvError::Unknown),
            Response::ErrorKeyNotFound => Err(KvError::KeyNotFound),
            Response::ErrorUnknown { message } => Err(KvError::Unknown),
        }
    }
}

} // verus!
