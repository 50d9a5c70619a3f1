//! Selective-disclosure CBOR web tokens: the data model, and a codec that
//! keeps the wire encoding of what it decodes, so that an untouched value
//! encodes to the bytes it was decoded from.

pub mod anyy;
pub mod cbor_encodings;
pub mod codec;
pub mod conversions;
pub mod error;
pub mod input;
pub mod int_or_text;
pub mod laws_canonical;
pub mod laws_digests;
pub mod laws_lists;
pub mod laws_payload;
pub mod laws_protected;
pub mod laws_salted;
pub mod laws_salted_list;
pub mod laws_sd_cwt;
pub mod laws_unprotected;
pub mod laws_values;
pub mod integer;
pub mod ordered_hash_map;
pub mod ordering;
pub mod payload;
pub mod prefix;
pub mod protected;
pub mod raw;
pub mod reader;
pub mod salted;
pub mod sd_cwt;
pub mod serialization;
pub mod unprotected;
pub mod wire;
pub mod well_formed;
pub mod wire_lemmas;

pub use anyy::Anyy;
pub use codec::{Deserialize, ToCBORBytes};
pub use error::{DeserializeError, DeserializeFailure, Key};
pub use int_or_text::{IntOrText, Keyy};
pub use input::InputClaims;
pub use integer::Int;
pub use ordered_hash_map::OrderedHashMap;
pub use payload::SdPayload;
pub use protected::SdProtected;
pub use reader::Reader;
pub use salted::{Salted, SaltedClaim, SaltedClaimItem, SaltedElement, SaltedElementItem};
pub use sd_cwt::SdCwt;
pub use unprotected::Unprotected;
