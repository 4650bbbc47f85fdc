//! A small point-of-interest (POI) pager: the logic of a single-page
//! application that fetches a page of POI records from a local HTTP API,
//! decodes the JSON wire format, and derives the rendered view (a list of
//! POI names, a map bootstrap block, and a "next page" control) from the
//! current fetch status.
//!
//! Everything here is pure: the HTTP transport and the DOM belong to the
//! surrounding application, which hands this library plain bytes and gets
//! plain values back.

use vstd::prelude::*;

pub mod codec;
pub mod fetch;
pub mod num;
pub mod page;
pub mod poi;
pub mod roundtrip;
pub mod routes;
pub mod text;
