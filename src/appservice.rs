//! The application service's identity on the homeserver.
use vstd::prelude::*;

use rand::distributions::Alphanumeric;
use rand::{thread_rng, Rng};

verus! {

/// ruma's appservice `Registration`, built by `make_registration`.
#[verifier::external_type_specification]
#[verifier::external_body]
pub struct ExRegistration(ruma::api::appservice::Registration);

/// ruma's appservice `Namespaces`, passed on into a registration.
#[verifier::external_type_specification]
#[verifier::external_body]
pub struct ExNamespaces(ruma::api::appservice::Namespaces);

/// Whether `c` is an ASCII letter or digit.
pub open spec fn is_alphanumeric(c: char) -> bool {
    ('a' <= c && c <= 'z') || ('A' <= c && c <= 'Z') || ('0' <= c && c <= '9')
}

/// The length of the secret tokens of a new registration.
pub const TOKEN_LENGTH: usize = 64;

/// Relies on rand's `Alphanumeric` distribution, sampled through `thread_rng`: a `String` of
/// `n_chars` characters, each drawn from a-z, A-Z and 0-9.
#[verifier::external_body]
pub(crate) fn random_alphanumeric(n_chars: usize) -> (r: String)
    ensures
        r@.len() == n_chars,
        forall|i: int| 0 <= i < r@.len() ==> is_alphanumeric(#[trigger] r@[i]),
{
    thread_rng().sample_iter(Alphanumeric).take(n_chars).map(char::from).collect()
}

/// Relies on ruma's `From<RegistrationInit> for Registration`, which moves the fields over.
#[verifier::external_body]
fn make_registration(
    id: String,
    as_token: String,
    hs_token: String,
    namespaces: ruma::api::appservice::Namespaces,
    url: String,
    sender_localpart: String,
    rate_limited: Option<bool>,
    protocols: Option<Vec<String>>,
) -> ruma::api::appservice::Registration {
    ruma::api::appservice::Registration::from(ruma::api::appservice::RegistrationInit {
        id,
        as_token,
        hs_token,
        namespaces,
        url,
        sender_localpart,
        rate_limited,
        protocols,
    })
}

/// The registration of an application service with its homeserver, as plain values.
pub struct AppRegistration {
    /// The ID of the application service.
    pub id: String,
    /// The token with which the application service authenticates to the homeserver.
    pub as_token: String,
    /// The token with which the homeserver authenticates to the application service.
    pub hs_token: String,
    /// The users, aliases and rooms that the application service claims.
    pub namespaces: ruma::api::appservice::Namespaces,
    /// The URL at which the homeserver reaches the application service.
    pub url: String,
    /// The localpart of the user that the application service acts as.
    pub sender_localpart: String,
    /// Whether requests of the application service are rate limited.
    pub rate_limited: Option<bool>,
    /// The third-party protocols that the application service provides.
    pub protocols: Option<Vec<String>>,
}

/// Whether `t` is a fresh secret token: `TOKEN_LENGTH` ASCII letters and digits.
pub open spec fn is_token(t: Seq<char>) -> bool {
    &&& t.len() == TOKEN_LENGTH
    &&& forall|i: int| 0 <= i < t.len() ==> is_alphanumeric(#[trigger] t[i])
}

impl AppRegistration {
    /// The registration in ruma's form, to be sent or saved.
    pub fn into_registration(self) -> ruma::api::appservice::Registration {
        make_registration(
            self.id,
            self.as_token,
            self.hs_token,
            self.namespaces,
            self.url,
            self.sender_localpart,
            self.rate_limited,
            self.protocols,
        )
    }
}

/// A new registration for an application service, with freshly drawn secret tokens for the
/// application service and for the homeserver, each of `TOKEN_LENGTH` ASCII letters and digits.
pub fn new_registration_rand(
    id: String,
    namespaces: ruma::api::appservice::Namespaces,
    sender_localpart: String,
    url: String,
    rate_limited: bool,
) -> (r: AppRegistration)
    ensures
        r.id == id,
        r.namespaces == namespaces,
        r.url == url,
        r.sender_localpart == sender_localpart,
        r.rate_limited == Some(rate_limited),
        r.protocols is None,
        is_token(r.as_token@),
        is_token(r.hs_token@),
{
    let as_token = random_alphanumeric(TOKEN_LENGTH);
    let hs_token = random_alphanumeric(TOKEN_LENGTH);
    AppRegistration {
        id,
        as_token,
        hs_token,
        namespaces,
        url,
        sender_localpart,
        rate_limited: Some(rate_limited),
        protocols: None,
    }
}

/// A struct containing information required by an application service: the name of its
/// homeserver and the URL at which that homeserver is reached.
#[derive(Clone, Debug)]
pub struct ApplicationService {
    server_name: String,
    server_url: String,
}

impl View for ApplicationService {
    type V = (Seq<char>, Seq<char>);

    closed spec fn view(&self) -> (Seq<char>, Seq<char>) {
        (self.server_name@, self.server_url@)
    }
}

impl ApplicationService {
    /// Create a new ApplicationService struct with the given information.
    pub fn new(server_name: String, server_url: String) -> (r: Self)
        ensures
            r@ == (server_name@, server_url@),
    {
        ApplicationService { server_name, server_url }
    }

    /// Get a reference to the server name in this ApplicationService instance.
    pub fn server_name(&self) -> (r: &str)
        ensures
            r@ == self@.0,
    {
        self.server_name.as_str()
    }

    /// Get a reference to the server url in this ApplicationService instance.
    pub fn server_url(&self) -> (r: &str)
        ensures
            r@ == self@.1,
    {
        self.server_url.as_str()
    }
}

} // verus!
