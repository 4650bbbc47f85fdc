//! The page view's reactive core: one integer page counter, initial value 0,
//! incremented by one per click of the "next" control, never decremented;
//! and the render tree derived from the counter and the current fetch
//! status. The fixed map-widget bootstrap block is emitted beside it,
//! identical whatever the fetch status.

use vstd::prelude::*;

use crate::fetch::FetchError;
use crate::num::dec_i32;
use crate::poi::Poi;

verus! {

/// The state owned by one mounted page view: the current page number.
#[derive(Clone, Copy, PartialEq, Eq, Structural, Debug)]
pub struct PageState {
    /// The page currently requested from the backend.
    pub page: i32,
}

impl PageState {
    /// A freshly mounted page view starts at page 0.
    pub fn new() -> (s: PageState)
        ensures
            s.page == 0,
    {
        PageState { page: 0 }
    }

    /// One click of the "next" control: the counter goes from `n` to `n + 1`,
    /// and the page to fetch next is returned, so that each click triggers
    /// exactly one new fetch, for page `n + 1`.
    pub fn click_next(&mut self) -> (fetch_page: i32)
        requires
            old(self).page < i32::MAX,
        ensures
            final(self).page == old(self).page + 1,
            fetch_page == final(self).page,
    {
        self.page = self.page + 1;
        self.page
    }
}

/// The label of the next-page control: `Next: ` then the counter.
pub open spec fn label_for(page: int) -> Seq<u8> {
    seq![0x4eu8, 0x65u8, 0x78u8, 0x74u8, 0x3au8, 0x20u8] + dec_i32(page)
}

/// Copies a byte string.
fn copy_bytes(v: &Vec<u8>) -> (r: Vec<u8>)
    ensures
        r@ == v@,
{
    let mut r: Vec<u8> = Vec::new();
    let mut k: usize = 0;
    while k < v.len()
        invariant
            k <= v@.len(),
            r@ == v@.subrange(0, k as int),
        decreases v@.len() - k,
    {
        r.push(v[k]);
        proof {
            assert(v@.subrange(0, k + 1) =~= v@.subrange(0, k as int).push(v@[k as int]));
        }
        k = k + 1;
    }
    proof {
        assert(v@.subrange(0, v@.len() as int) =~= v@);
    }
    r
}

/// The list view: one entry per record, showing that record's name only,
/// in input order; an empty page yields an empty list, never an error.
pub fn display_pois(pois: &Vec<Poi>) -> (r: Vec<Vec<u8>>)
    ensures
        r@.len() == pois@.len(),
        forall|k: int| 0 <= k < pois@.len() ==> r@[k]@ == pois@[k]@.name,
{
    let mut r: Vec<Vec<u8>> = Vec::new();
    let mut k: usize = 0;
    while k < pois.len()
        invariant
            k <= pois@.len(),
            r@.len() == k,
            forall|m: int| 0 <= m < k ==> r@[m]@ == pois@[m]@.name,
        decreases pois@.len() - k,
    {
        r.push(copy_bytes(&pois[k].name));
        k = k + 1;
    }
    r
}

/// What the page view shows of the fetch besides the fixed map block.
pub struct PageRender {
    /// One list item per shown record: the record's name.
    pub items: Vec<Vec<u8>>,
    /// The text of the clickable next-page control.
    pub button_label: Vec<u8>,
}

/// Derives the render tree from the counter and the fetch status: a
/// resolved, successful fetch shows its records; a pending or failed one
/// shows the empty list (the error value is discarded), so the view never
/// shows a broken state.
pub fn render_page(state: &PageState, fetch: &Option<Result<Vec<Poi>, FetchError>>) -> (r:
    PageRender)
    ensures
        match *fetch {
            Some(Ok(ref pois)) => r.items@.len() == pois@.len() && (forall|k: int|
                0 <= k < pois@.len() ==> r.items@[k]@ == pois@[k]@.name),
            _ => r.items@.len() == 0,
        },
        r.button_label@ == label_for(state.page as int),
{
    let items: Vec<Vec<u8>> = match fetch {
        Some(Ok(pois)) => display_pois(pois),
        _ => Vec::new(),
    };
    let mut label: Vec<u8> = vec![0x4e, 0x65, 0x78, 0x74, 0x3a, 0x20];
    proof {
        assert(label@ =~= seq![0x4eu8, 0x65u8, 0x78u8, 0x74u8, 0x3au8, 0x20u8]);
    }
    crate::num::push_dec_i32(&mut label, state.page);
    PageRender { items, button_label: label }
}

/// The diagnostic line logged each time the fetch computation starts.
pub fn fetch_log_line() -> (r: &'static str)
    ensures
        r@ == "loading data from API"@,
{
    "loading data from API"
}

/// The fixed bootstrap block for the third-party tile-map widget: one tile
/// layer, fixed center and zoom, an empty drawable-shapes layer, and draw
/// controls. It never references the fetched records and is emitted
/// identically whatever the fetch status.
pub fn map_bootstrap() -> (r: &'static str)
    ensures
        r@ == "var osmBase = L.tileLayer(\"http://{s}.tile.osm.org/{z}/{x}/{y}.png\");\nvar map = L.map(\"map\", {\n    center: [45.275148,  9.113059],\n    zoom: 13,\n    layers: [osmBase],\n    drawControl: true\n});\nvar drawnItems = new L.FeatureGroup();\nmap.addLayer(drawnItems);\nvar drawControl = new L.Control.Draw({\n    edit: {\n        featureGroup: drawnItems\n    }\n});\nmap.addControl(drawControl);"@,
{
    "var osmBase = L.tileLayer(\"http://{s}.tile.osm.org/{z}/{x}/{y}.png\");\nvar map = L.map(\"map\", {\n    center: [45.275148,  9.113059],\n    zoom: 13,\n    layers: [osmBase],\n    drawControl: true\n});\nvar drawnItems = new L.FeatureGroup();\nmap.addLayer(drawnItems);\nvar drawControl = new L.Control.Draw({\n    edit: {\n        featureGroup: drawnItems\n    }\n});\nmap.addControl(drawControl);"
}

} // verus!
