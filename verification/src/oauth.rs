//! The credentials that travel with a request to the timeline service.

use vstd::prelude::*;

verus! {

/// A token and the secret that belongs to it.
#[derive(Clone, Debug)]
pub struct Oauth1Token {
    pub oauth_token: String,
    pub oauth_token_secret: String,
}

/// The signed-in caller: the token to sign requests with, and the screen
/// name that decides which ways of fetching are open to the caller.
pub struct Context {
    pub user_oauth_token: Oauth1Token,
    pub user_screen_name: String,
}

} // verus!
