use vstd::prelude::*;

verus! {

/// A request as the protocol sees it: the key and value as character sequences.
pub enum RequestView {
    Store { key: Seq<char>, value: Seq<char> },
    Load { key: Seq<char> },
}

/// Associate `value` with `key`, replacing any earlier value.
pub struct StoreRequest {
    pub key: String,
    pub value: String,
}

/// Retrieve the value currently associated with `key`.
pub struct LoadRequest {
    pub key: String,
}

/// One logical client command.
pub enum Request {
    Store(StoreRequest),
    Load(LoadRequest),
}

/// Raised when a connection has to end: the input is malformed, or the
/// transport or the store failed. The cause is not reported to the client.
#[derive(Debug)]
pub struct TaskError;

impl StoreRequest {
    pub fn new(key: String, value: String) -> (r: Self)
        ensures
            r.key@ == key@,
            r.value@ == value@,
    {
        StoreRequest { key, value }
    }
}

impl LoadRequest {
    pub fn new(key: String) -> (r: Self)
        ensures
            r.key@ == key@,
    {
        LoadRequest { key }
    }
}

impl View for Request {
    type V = RequestView;

    open spec fn view(&self) -> RequestView {
        match self {
            Request::Store(s) => RequestView::Store { key: s.key@, value: s.value@ },
            Request::Load(l) => RequestView::Load { key: l.key@ },
        }
    }
}

} // verus!
