//! The message-translation core of a Matrix bridge: an identity index pairing Matrix IDs with
//! external IDs, and converters between Matrix markup and external plain text.
mod text;

pub mod appservice;
pub mod convert;
pub mod mappingdict;
pub mod matrix;
pub mod request;

pub use appservice::{new_registration_rand, AppRegistration, ApplicationService};
pub use mappingdict::{Mappable, MappingDict, MappingId, Record};
pub use matrix::{mxc_to_url, MatrixToItem, MxcConversionError};
pub use request::{path_and_query, QueryParams};
