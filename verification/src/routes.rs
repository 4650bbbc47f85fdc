//! The root composition's route table, and the not-found fallback view.
//! Two routes: an exact match on the root path renders the page view; any
//! other path renders the not-found view.

use vstd::prelude::*;

verus! {

/// Which view a path selects.
#[derive(Clone, Copy, PartialEq, Eq, Structural, Debug)]
pub enum Route {
    /// The page view, at the root path.
    Home,
    /// The static fallback view, everywhere else.
    NotFound,
}

/// The route table: the empty path and `/` are the root; nothing else is.
pub open spec fn route_spec(path: Seq<u8>) -> Route {
    if path.len() == 0 || path == seq![0x2fu8] {
        Route::Home
    } else {
        Route::NotFound
    }
}

/// Routes one path, exactly as `route_spec` says.
pub fn route(path: &Vec<u8>) -> (r: Route)
    ensures
        r == route_spec(path@),
{
    if path.len() == 0 {
        Route::Home
    } else if path.len() == 1 && path[0] == 0x2f {
        proof {
            assert(path@ =~= seq![0x2fu8]);
        }
        Route::Home
    } else {
        proof {
            assert(path@ != seq![0x2fu8]);
        }
        Route::NotFound
    }
}

/// The heading of the not-found view: `Not Found`.
pub open spec fn not_found_heading() -> Seq<u8> {
    seq![0x4eu8, 0x6fu8, 0x74u8, 0x20u8, 0x46u8, 0x6fu8, 0x75u8, 0x6eu8, 0x64u8]
}

/// What the not-found view renders and does.
pub struct NotFoundRender {
    /// The fixed heading text.
    pub heading: Vec<u8>,
    /// The HTTP status to set on the outgoing response, if any.
    pub status: Option<u16>,
}

/// The not-found view: always the fixed heading; the 404 status is set
/// only while the initial server response is still open — a later
/// client-side navigation sets none.
pub fn not_found(initial_server_response: bool) -> (r: NotFoundRender)
    ensures
        r.heading@ == not_found_heading(),
        r.status == if initial_server_response {
            Some(404u16)
        } else {
            None::<u16>
        },
{
    let heading: Vec<u8> = vec![0x4e, 0x6f, 0x74, 0x20, 0x46, 0x6f, 0x75, 0x6e, 0x64];
    proof {
        assert(heading@ =~= not_found_heading());
    }
    NotFoundRender {
        heading,
        status: if initial_server_response {
            Some(404)
        } else {
            None
        },
    }
}

} // verus!
