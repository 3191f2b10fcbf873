//! The crawler's ambient state: the bearer token every request carries.
use vstd::prelude::*;

verus! {

/// What a crawl needs before it starts: the token that authenticates it
/// against the remote service.
pub struct State {
    token: String,
}

impl State {
    /// The characters of the held token.
    pub closed spec fn token_view(self) -> Seq<char> {
        self.token@
    }

    /// A state holding the given token.
    pub fn new(token: String) -> (s: Self)
        ensures
            s.token_view() == token@,
    {
        State { token }
    }

    /// The token, for building request parameters.
    pub fn token(&self) -> (t: &String)
        ensures
            t@ == self.token_view(),
    {
        &self.token
    }
}

impl Default for State {
    /// A state with an empty token.
    fn default() -> (s: Self)
        ensures
            s.token_view() =~= Seq::<char>::empty(),
    {
        State { token: String::new() }
    }
}

} // verus!
