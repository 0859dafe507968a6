use vstd::prelude::*;

verus! {

/// Errors that may occur during CalDAV operations.
#[derive(Debug, Clone)]
pub enum MiniCaldavError {
    /// An expected path of elements was absent from a PROPFIND response;
    /// carries the path looked for. Discovery recovers from this by falling
    /// back to the base address.
    PathNotExists(String),
    /// A reference could not be resolved against its base address.
    CouldNotJoinUrl(String),
    /// The server answered a request with a failure.
    RequestFailed(String),
    /// A response body was not a well-formed element tree.
    CouldNotParseXml(String),
    /// One fetched todo's text failed to parse; carries the raw text and the
    /// codec's message.
    CouldNotParseTodo(String, String),
    /// One fetched event's text failed to parse; carries the raw text and
    /// the codec's message.
    CouldNotParseEvent(String, String),
}

} // verus!
