//! The POI record: a passive data transfer object describing one point of
//! interest, trusted verbatim from the backend. Text is held as raw bytes;
//! the two coordinates are held as the number lexemes the backend sent, so
//! that every field survives a decode/encode round trip unchanged.

use vstd::prelude::*;

verus! {

/// One point of interest, as the backend sends it.
#[derive(Clone, PartialEq, Eq, Debug)]
pub struct Poi {
    /// Identity.
    pub id: i32,
    /// Display name (UTF-8 bytes).
    pub name: Vec<u8>,
    /// Foreign reference to a category; not validated locally.
    pub category_id: i32,
    /// Foreign reference to an address; not validated locally.
    pub address_id: i32,
    /// Latitude, as the decimal number lexeme from the wire.
    pub latitude: Vec<u8>,
    /// Longitude, as the decimal number lexeme from the wire.
    pub longitude: Vec<u8>,
    /// URL slug (UTF-8 bytes).
    pub slug: Vec<u8>,
    /// Creation timestamp, opaque text.
    pub created_at: Vec<u8>,
    /// Update timestamp, opaque text.
    pub updated_at: Vec<u8>,
}

/// The mathematical shadow of a `Poi`.
#[verifier::ext_equal]
pub ghost struct PoiV {
    pub id: int,
    pub name: Seq<u8>,
    pub category_id: int,
    pub address_id: int,
    pub latitude: Seq<u8>,
    pub longitude: Seq<u8>,
    pub slug: Seq<u8>,
    pub created_at: Seq<u8>,
    pub updated_at: Seq<u8>,
}

impl View for Poi {
    type V = PoiV;

    open spec fn view(&self) -> PoiV {
        PoiV {
            id: self.id as int,
            name: self.name@,
            category_id: self.category_id as int,
            address_id: self.address_id as int,
            latitude: self.latitude@,
            longitude: self.longitude@,
            slug: self.slug@,
            created_at: self.created_at@,
            updated_at: self.updated_at@,
        }
    }
}

/// The views of a whole page of records.
pub open spec fn views_of(ps: Seq<Poi>) -> Seq<PoiV> {
    ps.map_values(|p: Poi| p@)
}

} // verus!
