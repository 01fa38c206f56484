//! The repository record: the plain data shape one page of the listing
//! endpoint deserializes into, held in memory for a single run.

use vstd::prelude::*;

verus! {

/// One repository summary as returned by the listing endpoint.
///
/// Star counts are unsigned, so the "never negative" invariant is carried by
/// the type itself; the optional fields may be absent and are rendered with a
/// placeholder by the presentation layer, never relied on downstream.
pub struct Repo {
    pub name: String,
    pub stargazers_count: u32,
    pub language: Option<String>,
    pub description: Option<String>,
    pub fork: bool,
    pub html_url: String,
}

impl Clone for Repo {
    fn clone(&self) -> (r: Self)
        ensures
            r == *self,
    {
        Repo {
            name: self.name.clone(),
            stargazers_count: self.stargazers_count,
            language: clone_opt_string(&self.language),
            description: clone_opt_string(&self.description),
            fork: self.fork,
            html_url: self.html_url.clone(),
        }
    }
}

/// Clones an optional string, keeping its value exactly.
fn clone_opt_string(s: &Option<String>) -> (r: Option<String>)
    ensures
        r == *s,
{
    match s {
        Some(x) => Some(x.clone()),
        None => None,
    }
}

} // verus!
