//! Matrix link and media URL forms.
use vstd::prelude::*;
use vstd::string::{StringExecFns, StringSliceAdditionalSpecFns};
use vstd::utf8::encode_utf8;

use ruma::api::exports::http::uri::{InvalidUri, Uri};
use ruma::identifiers::MxcUri;

use crate::text::has_prefix;

verus! {

/// http's `InvalidUri`, carried in `MxcConversionError::UriParseError`.
#[verifier::external_type_specification]
#[verifier::external_body]
pub struct ExInvalidUri(InvalidUri);

/// http's `Uri`, the result of `parse_uri`.
#[verifier::external_type_specification]
#[verifier::external_body]
pub struct ExUri(Uri);

/// Whether the `http` crate's URI parser accepts `s`.
pub uninterp spec fn uri_accepts(s: Seq<char>) -> bool;

/// The server name and media ID of `s`, where ruma accepts `s` as an MXC URI.
pub uninterp spec fn mxc_parts_of(s: Seq<char>) -> Option<(Seq<char>, Seq<char>)>;

/// Relies on `http::Uri`'s `FromStr`: parsing succeeds exactly on the strings the parser
/// accepts.
#[verifier::external_body]
fn parse_uri(s: &str) -> (r: Result<Uri, InvalidUri>)
    ensures
        r is Ok <==> uri_accepts(s@),
{
    s.parse::<Uri>()
}

/// The first `/` after the scheme of the MXC URI with the UTF-8 bytes `b`, if there is one, lies
/// within the first 256 bytes, where ruma can record its position.
pub open spec fn mxc_slash_in_reach(b: Seq<u8>) -> bool {
    (forall|j: int| 6 <= j < b.len() ==> b[j] != 47u8) || (exists|k: int|
        6 <= k <= 255 && k < b.len() && b[k] == 47u8)
}

/// Relies on ruma's `MxcUri::from` and `MxcUri::parts`: a valid URI `mxc://<server>/<media>` is
/// split at the first `/` after the scheme into its server name and its media ID. ruma keeps the
/// position of that `/` in a byte, hence the bound.
#[verifier::external_body]
fn mxc_parts(s: &str) -> (r: Option<(String, String)>)
    requires
        mxc_slash_in_reach(s.spec_bytes()),
    ensures
        r is None <==> mxc_parts_of(s@) is None,
        r matches Some(p) ==> {
            &&& mxc_parts_of(s@) == Some((p.0@, p.1@))
            &&& s@ == "mxc://"@ + p.0@ + "/"@ + p.1@
            &&& !p.0@.contains('/')
        },
{
    MxcUri::from(s).parts().map(|(n, m)| (n.as_str().to_owned(), m.to_owned()))
}

/// An item that can be represented using a matrix.to URL.
#[derive(Debug, Clone, PartialEq, Eq, Hash)]
pub enum MatrixToItem {
    /// An event, given by the ID of its room and its own ID, since event IDs are room local.
    Event(String, String),
    /// The ID of a user.
    User(String),
    /// The ID of a group; its first character is a `+`.
    Group(String),
}

/// The prefix of every matrix.to URL.
pub open spec fn matrix_to_prefix() -> Seq<char> {
    "https://matrix.to/#/"@
}

impl MatrixToItem {
    /// What follows the prefix in the URL of this item.
    pub open spec fn slug(&self) -> Seq<char> {
        match self {
            MatrixToItem::Event(room, event) => room@ + "/"@ + event@,
            MatrixToItem::User(user) => user@,
            MatrixToItem::Group(group) => group@,
        }
    }

    /// The matrix.to URL of this item.
    pub open spec fn url(&self) -> Seq<char> {
        matrix_to_prefix() + self.slug()
    }

    /// Convert the current `MatrixToItem` into its matrix.to URL.
    pub fn to_url_string(&self) -> (r: String)
        ensures
            r@ == self.url(),
    {
        let mut r = String::from_str("https://matrix.to/#/");
        match self {
            MatrixToItem::Event(room, event) => {
                r.append(room.as_str());
                r.append("/");
                r.append(event.as_str());
                proof {
                    assert(r@ =~= self.url());
                }
            },
            MatrixToItem::User(user) => {
                r.append(user.as_str());
            },
            MatrixToItem::Group(group) => {
                r.append(group.as_str());
            },
        }
        r
    }
}

/// An error from converting an MXC URI to a HTTP URL.
#[derive(Debug)]
pub enum MxcConversionError {
    /// The given URI does not have the `mxc` scheme.
    NonMxc,
    /// The given MXC URI is malformed.
    InvalidMxc,
    /// There was an error parsing the resulting URL into an URI object.
    UriParseError(InvalidUri),
}

/// The path on a homeserver under which media is downloaded.
pub open spec fn media_download_path() -> Seq<char> {
    "_matrix/media/r0/download/"@
}

/// The download URL of the media `mxc_uri` on the homeserver at `homeserver_url`.
pub open spec fn media_url(homeserver_url: Seq<char>, mxc_uri: Seq<char>) -> Seq<char> {
    homeserver_url + media_download_path() + mxc_uri.skip(6)
}

/// Whether `u` has the `mxc` scheme.
pub open spec fn has_mxc_scheme(u: Seq<char>) -> bool {
    u.len() >= 4 && u.subrange(0, 4) == "mxc:"@
}

/// Whether `u` has the form `mxc://...` with its first `/` after the scheme within ruma's reach.
pub open spec fn mxc_shaped(u: Seq<char>) -> bool {
    &&& u.len() >= 6
    &&& u.subrange(0, 6) == "mxc://"@
    &&& mxc_slash_in_reach(encode_utf8(u))
}

/// Convert the given MXC URI into a HTTP URL, using the given `homeserver_url` as the host to the
/// MXC content: `<homeserver_url>_matrix/media/r0/download/<server>/<media>`.
pub fn mxc_to_url(homeserver_url: &str, mxc_uri: &str) -> (r: Result<String, MxcConversionError>)
    ensures
        !has_mxc_scheme(mxc_uri@) <==> r matches Err(MxcConversionError::NonMxc),
        r matches Err(MxcConversionError::InvalidMxc) <==> (has_mxc_scheme(mxc_uri@) && !(
        mxc_shaped(mxc_uri@) && mxc_parts_of(mxc_uri@) is Some)),
        r matches Err(MxcConversionError::UriParseError(_)) <==> (mxc_shaped(mxc_uri@)
            && mxc_parts_of(mxc_uri@) is Some && !uri_accepts(
            media_url(homeserver_url@, mxc_uri@),
        )),
        r matches Ok(u) ==> u@ == media_url(homeserver_url@, mxc_uri@),
        r is Ok <==> (mxc_shaped(mxc_uri@) && mxc_parts_of(mxc_uri@) is Some && uri_accepts(
            media_url(homeserver_url@, mxc_uri@),
        )),
{
    proof {
        reveal_strlit("mxc:");
        reveal_strlit("mxc://");
        reveal_strlit("/");
    }
    if !has_prefix(mxc_uri, "mxc:") {
        proof {
            if mxc_uri@.len() >= 6 && mxc_uri@.subrange(0, 6) == "mxc://"@ {
                assert(mxc_uri@.subrange(0, 4) =~= mxc_uri@.subrange(0, 6).subrange(0, 4));
                assert(mxc_uri@.subrange(0, 4) =~= "mxc:"@);
            }
        }
        return Err(MxcConversionError::NonMxc);
    }
    if !has_prefix(mxc_uri, "mxc://") {
        proof {
            if mxc_uri@.len() >= 6 && mxc_uri@.subrange(0, 6) == "mxc://"@ {
                assert(mxc_uri@.subrange(0, 6) =~= "mxc://"@);
            }
        }
        return Err(MxcConversionError::InvalidMxc);
    }
    let b = mxc_uri.as_bytes();
    let mut j: usize = 6;
    while j < b.len() && b[j] != 47u8
        invariant
            b@ == encode_utf8(mxc_uri@),
            6 <= j <= b@.len() || b@.len() < 6,
            forall|k: int| 6 <= k < j ==> b@[k] != 47u8,
        decreases b@.len() - j,
    {
        j = j + 1;
    }
    if j < b.len() && j > 255 {
        proof {
            assert(!mxc_slash_in_reach(b@));
        }
        return Err(MxcConversionError::InvalidMxc);
    }
    proof {
        if j < b@.len() {
            assert(b@[j as int] == 47u8);
        }
        assert(mxc_slash_in_reach(b@));
    }
    let (server_name, id) = match mxc_parts(mxc_uri) {
        Some(p) => p,
        None => {
            return Err(MxcConversionError::InvalidMxc);
        },
    };
    let mut res = String::from_str(homeserver_url);
    res.append("_matrix/media/r0/download/");
    res.append(server_name.as_str());
    res.append("/");
    res.append(id.as_str());
    proof {
        assert(mxc_uri@.skip(6) =~= server_name@ + "/"@ + id@);
        assert(res@ =~= media_url(homeserver_url@, mxc_uri@));
    }
    match parse_uri(res.as_str()) {
        Ok(_) => Ok(res),
        Err(e) => Err(MxcConversionError::UriParseError(e)),
    }
}

} // verus!
