//! Resource identifiers.

use async_lsp::lsp_types::Url;
use vstd::prelude::*;

verus! {

/// What an identifier is read as: its normal form, and its path.
pub uninterp spec fn parsed_url(text: Seq<char>) -> Option<(Seq<char>, Seq<char>)>;

/// `Url::parse`, `Url::as_str` and `Url::path`: the normal form and the path of
/// an identifier, or `None` where it is not one. Both depend on the text alone.
#[verifier::external_body]
fn parse_url(text: &str) -> (r: Option<(String, String)>)
    ensures
        match r {
            Some(u) => parsed_url(text@) == Some((u.0@, u.1@)),
            None => parsed_url(text@) is None,
        },
{
    match Url::parse(text) {
        Ok(url) => Some((url.as_str().to_string(), url.path().to_string())),
        Err(_) => None,
    }
}

/// The identifier of a resource. Identifiers are equal, and ordered, as their
/// texts are.
pub struct Uri {
    text: String,
    path: String,
}

impl View for Uri {
    type V = Seq<char>;

    closed spec fn view(&self) -> Seq<char> {
        self.text@
    }
}

impl Uri {
    /// The path of the resource.
    pub closed spec fn path_view(&self) -> Seq<char> {
        self.path@
    }

    /// Reads an identifier.
    pub fn parse(text: &str) -> (r: Option<Uri>)
        ensures
            r is Some <==> parsed_url(text@) is Some,
            r matches Some(u) ==> parsed_url(text@) == Some((u@, u.path_view())),
    {
        match parse_url(text) {
            Some(u) => Some(Uri { text: u.0, path: u.1 }),
            None => None,
        }
    }

    /// The identifier in its normal form.
    pub fn as_str(&self) -> (r: &str)
        ensures
            r@ == self@,
    {
        self.text.as_str()
    }

    /// The path of the resource.
    pub fn path(&self) -> (r: &str)
        ensures
            r@ == self.path_view(),
    {
        self.path.as_str()
    }
}

impl Clone for Uri {
    fn clone(&self) -> (r: Self)
        ensures
            r == *self,
    {
        Uri { text: self.text.clone(), path: self.path.clone() }
    }
}

} // verus!
