//! The node that the transactions go to: its address, and who connects to it.
use vstd::prelude::*;

verus! {

/// Why `url` could not parse an address.
#[verifier::external_type_specification]
#[verifier::external_body]
pub struct ExUrlParseError(url::ParseError);

/// The serialization of the absolute URL that `url::Url::parse` reads from a text; `None` where
/// it reads none.
pub uninterp spec fn url_serialization(text: Seq<char>) -> Option<Seq<char>>;

/// Calls `url::Url::parse` on a text and hands out the serialization of the URL.
///
/// The result depends on the text alone. Which texts are URLs, and how they are written out, is
/// not said.
#[verifier::external_body]
fn url_parse(text: &str) -> (res: Result<String, url::ParseError>)
    ensures
        match res {
            Ok(url) => url_serialization(text@) == Some(url@),
            Err(_) => url_serialization(text@).is_none(),
        },
{
    let url = url::Url::parse(text)?;
    Ok(url.as_str().to_owned())
}

/// Returns the node's address in its standard form; `None` where the text is no absolute URL.
pub fn node_address(text: &str) -> (res: Option<String>)
    ensures
        match res {
            Some(url) => url_serialization(text@) == Some(url@),
            None => url_serialization(text@).is_none(),
        },
{
    match url_parse(text) {
        Ok(url) => Some(url),
        Err(_) => None,
    }
}

/// Every so many senders open a connection of their own; the others share the first one.
pub const SENDERS_PER_CONNECTION: usize = 3_000;

/// Whether the sender with this index opens a connection of its own.
pub open spec fn connects(i: nat) -> bool {
    i % SENDERS_PER_CONNECTION as nat == 0
}

/// Returns whether the sender with this index opens a connection of its own.
pub fn opens_connection(i: usize) -> (res: bool)
    ensures
        res == connects(i as nat),
        res == (i % SENDERS_PER_CONNECTION == 0),
        res == (i % 3_000 == 0),
{
    i % SENDERS_PER_CONNECTION == 0
}

/// The first sender opens a connection, and then one in every 3000 does: wherever one sender
/// opens one, the next to do so is 3000 further on.
pub proof fn law_connections_are_evenly_spread(i: nat, k: nat)
    requires
        0 < k <= 3_000,
    ensures
        connects(0),
        connects(i) ==> (connects(i + k) <==> k == 3_000),
{
}

} // verus!
