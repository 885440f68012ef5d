//! What directive processing decides for a request.

use vstd::prelude::*;
use crate::config::models::{header_ops_view, HeaderDirective, HeaderOpV};

verus! {

/// The action that ends directive processing.
#[derive(Debug)]
pub enum ActionResult {
    /// Answer directly with `status` and `body`.
    Respond { status: u16, body: String },
    /// Forward to `backend_url`, asking for `path_to_send`, with the
    /// header operations `header_up` for the backend request.
    ReverseProxy {
        backend_url: String,
        path_to_send: String,
        connect_timeout: Option<u64>,
        read_timeout: Option<u64>,
        header_up: Vec<HeaderDirective>,
    },
    /// Redirect with `status` to `url`.
    Redirect { status: u16, url: String },
}

pub enum ActionV {
    Respond { status: u16, body: Seq<char> },
    ReverseProxy {
        backend_url: Seq<char>,
        path_to_send: Seq<char>,
        connect_timeout: Option<u64>,
        read_timeout: Option<u64>,
        header_up: Seq<HeaderOpV>,
    },
    Redirect { status: u16, url: Seq<char> },
}

impl View for ActionResult {
    type V = ActionV;

    open spec fn view(&self) -> ActionV {
        match self {
            ActionResult::Respond { status, body } => ActionV::Respond { status: *status, body: body@ },
            ActionResult::ReverseProxy {
                backend_url,
                path_to_send,
                connect_timeout,
                read_timeout,
                header_up,
            } => ActionV::ReverseProxy {
                backend_url: backend_url@,
                path_to_send: path_to_send@,
                connect_timeout: *connect_timeout,
                read_timeout: *read_timeout,
                header_up: header_ops_view(header_up@),
            },
            ActionResult::Redirect { status, url } => ActionV::Redirect { status: *status, url: url@ },
        }
    }
}

} // verus!
