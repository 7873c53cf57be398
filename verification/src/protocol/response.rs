//! What the server answers.
use vstd::prelude::*;

verus! {

/// The part of the server that an error came from.
#[derive(Debug, Clone, Copy, PartialEq, Eq, Structural)]
pub enum ResponseError {
    Query,
    Read,
    Command,
}

/// What the server answers.
#[derive(Debug, PartialEq, Eq)]
pub enum Response {
    Okay,
    Pong,
    StateChanged,
    Query { rows: Vec<u8> },
    Structure { out: String },
    Error { code: ResponseError, description: String },
    ConnectionClosed,
}

/// What a response is.
pub enum ResponseView {
    Okay,
    Pong,
    StateChanged,
    Query { rows: Seq<u8> },
    Structure { out: Seq<char> },
    Error { code: ResponseError, description: Seq<char> },
    ConnectionClosed,
}

impl View for Response {
    type V = ResponseView;

    open spec fn view(&self) -> ResponseView {
        match self {
            Response::Okay => ResponseView::Okay,
            Response::Pong => ResponseView::Pong,
            Response::StateChanged => ResponseView::StateChanged,
            Response::Query { rows } => ResponseView::Query { rows: rows@ },
            Response::Structure { out } => ResponseView::Structure { out: out@ },
            Response::Error { code, description } => ResponseView::Error {
                code: *code,
                description: description@,
            },
            Response::ConnectionClosed => ResponseView::ConnectionClosed,
        }
    }
}

} // verus!
