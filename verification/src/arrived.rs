//! A Stream and where it came from.

use vstd::prelude::*;

verus! {

/// One Stream: its bytes, and the URI of where they came from.
#[derive(Clone, Debug, PartialEq, Eq)]
pub struct Arrived {
    pub origin_uri: String,
    pub bytes: Vec<u8>,
}

/// An [`Arrived`] by what it says.
pub struct ArrivedView {
    pub origin_uri: Seq<char>,
    pub bytes: Seq<u8>,
}

impl View for Arrived {
    type V = ArrivedView;

    open spec fn view(&self) -> ArrivedView {
        ArrivedView { origin_uri: self.origin_uri@, bytes: self.bytes@ }
    }
}

/// `activemq://host:61613/queue/orders`: a destination on a server, one
/// slash between them at least.
pub open spec fn origin(server: Seq<char>, destination: Seq<char>) -> Seq<char> {
    if destination.len() > 0 && destination[0] == '/' {
        "activemq://"@ + server + destination
    } else {
        "activemq://"@ + server + "/"@ + destination
    }
}

/// Whether `text` begins with a slash.
fn begins_with_slash(text: &str) -> (yes: bool)
    ensures
        yes == (text@.len() > 0 && text@[0] == '/'),
{
    let mut chars = text.chars();
    match chars.next() {
        Some(c) => c == '/',
        None => false,
    }
}

/// The URI of `destination` on `server`.
pub fn origin_of(server: &str, destination: &str) -> (uri: String)
    ensures
        uri@ == origin(server@, destination@),
{
    let mut uri = "activemq://".to_owned();
    uri.push_str(server);
    if !begins_with_slash(destination) {
        uri.push_str("/");
    }
    uri.push_str(destination);
    uri
}

} // verus!
