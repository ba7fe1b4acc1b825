//! The shared-secret guard that stands in front of every `/v0/{secret}` route.
//!
//! A request passes when the secret in its path equals the secret saved in the
//! server's environment; any other request, and every request to a server
//! started without a saved secret, is answered `401 Unauthorized`.

use vstd::prelude::*;

verus! {

/// The body of the `401` answer given to a request whose secret is wrong.
pub open spec fn wrong_secret_body() -> Seq<char> {
    "You do not have the correct secret"@
}

/// The body of the `401` answer given when the server has no saved secret.
pub open spec fn no_saved_secret_body() -> Seq<char> {
    "You do not have a secret saved in the .env file"@
}

/// Whether a request whose path carries `secret` passes, given the saved secret.
pub open spec fn admits(saved_secret: Option<String>, secret: Seq<char>) -> bool {
    saved_secret matches Some(saved) && saved@ == secret
}

/// The body of the `401` answer to a request that does not pass.
pub open spec fn refusal_body(saved_secret: Option<String>) -> Seq<char> {
    match saved_secret {
        Some(_) => wrong_secret_body(),
        None => no_saved_secret_body(),
    }
}

/// A request passes exactly when a secret is saved and the request carries
/// that very secret, whatever its length or content; without a saved secret
/// nothing passes.
pub proof fn lemma_admits_exactly_the_saved_secret(saved: String, secret: Seq<char>)
    ensures
        admits(Some(saved), saved@),
        admits(Some(saved), secret) <==> saved@ == secret,
        !admits(None, secret),
{
}

/// What the guard does with one request.
pub enum AuthDecision {
    /// Hand the request on to the wrapped service unchanged.
    Forward,
    /// Answer `401 Unauthorized` with this body.
    Unauthorized(String),
}

/// The guard's factory: wrapped around a service it yields a `CheckForSecretMiddleware`.
pub struct CheckForSecret;

/// The guard wrapped around the next service `S` of the chain.
pub struct CheckForSecretMiddleware<S> {
    pub service: S,
}

impl CheckForSecret {
    /// Wraps the next service of the chain in the guard.
    pub fn new_transform<S>(&self, service: S) -> (res: CheckForSecretMiddleware<S>)
        ensures
            res.service == service,
    {
        CheckForSecretMiddleware { service }
    }
}

impl<S> CheckForSecretMiddleware<S> {
    /// Decides a request whose path carries `secret`, given the secret
    /// `saved_secret` that the server was started with, if any.
    pub fn check(&self, saved_secret: &Option<String>, secret: &String) -> (res: AuthDecision)
        ensures
            admits(*saved_secret, secret@) <==> res is Forward,
            saved_secret matches Some(saved) ==> (res is Forward <==> saved@ == secret@),
            saved_secret is None ==> res is Unauthorized,
            res matches AuthDecision::Unauthorized(body) ==> body@ == refusal_body(*saved_secret),
    {
        check_secret(saved_secret, secret)
    }
}

/// The guard's rule: a request passes exactly when a secret is saved and its
/// secret equals it; without a saved secret every request is refused with a
/// body that says so.
pub fn check_secret(saved_secret: &Option<String>, secret: &String) -> (res: AuthDecision)
    ensures
        admits(*saved_secret, secret@) <==> res is Forward,
        saved_secret matches Some(saved) ==> (res is Forward <==> saved@ == secret@),
        saved_secret is None ==> res is Unauthorized,
        res matches AuthDecision::Unauthorized(body) ==> body@ == refusal_body(*saved_secret),
{
    match saved_secret {
        Some(saved) => {
            if *saved == *secret {
                AuthDecision::Forward
            } else {
                let body = "You do not have the correct secret".to_owned();
                proof {
                    reveal_strlit("You do not have the correct secret");
                }
                AuthDecision::Unauthorized(body)
            }
        },
        None => {
            let body = "You do not have a secret saved in the .env file".to_owned();
            proof {
                reveal_strlit("You do not have a secret saved in the .env file");
            }
            AuthDecision::Unauthorized(body)
        },
    }
}

} // verus!
