//! The request and response frames exchanged between client and server.

use vstd::prelude::*;

verus! {

/// Abstract form of a request.
pub enum ReqView {
    Get { key: Seq<char> },
    Put { key: Seq<char>, value: Seq<char> },
    Remove { key: Seq<char> },
}

/// A client request: one engine operation.
#[derive(Debug, Clone, PartialEq, Eq)]
pub enum Request {
    Get { key: String },
    Put { key: String, value: String },
    Remove { key: String },
}

impl View for Request {
    type V = ReqView;

    open spec fn view(&self) -> ReqView {
        match self {
            Request::Get { key } => ReqView::Get { key: key@ },
            Request::Put { key, value } => ReqView::Put { key: key@, value: value@ },
            Request::Remove { key } => ReqView::Remove { key: key@ },
        }
    }
}

/// Abstract form of a response.
pub enum RespView {
    OkValue { value: Option<Seq<char>> },
    OkNoContent,
    ErrorKeyNotFound,
    ErrorUnknown { message: Seq<char> },
}

/// A server response: the outcome of one engine operation.
#[derive(Debug, Clone, PartialEq, Eq)]
pub enum Response {
    OkValue { value: Option<String> },
    OkNoContent,
    ErrorKeyNotFound,
    ErrorUnknown { message: String },
}

impl View for Response {
    type V = RespView;

    open spec fn view(&self) -> RespView {
        match self {
            Response::OkValue { value } => RespView::OkValue {
                value: match value {
                    Some(v) => Some(v@),
                    None => None,
                },
            },
            Response::OkNoContent => RespView::OkNoContent,
            Response::ErrorKeyNotFound => RespView::ErrorKeyNotFound,
            Response::ErrorUnknown { message } => RespView::ErrorUnknown { message: message@ },
        }
    }
}

} // verus!
