//! The fetch client's pure half: the request URL for a page, and what one
//! fetch attempt yields once the HTTP layer has answered. The GET itself is
//! the surrounding application's job; it hands in either the body bytes or
//! the transport error's message.

use vstd::prelude::*;

use crate::codec::{decode_pois, spec_decode, DecodeError};
use crate::num::{dec_i32, push_dec_i32};
use crate::poi::{views_of, Poi};

verus! {

/// The fixed endpoint prefix: `http://127.0.0.1:8080/pois?page=`.
pub open spec fn url_prefix() -> Seq<u8> {
    seq![0x68u8, 0x74u8, 0x74u8, 0x70u8, 0x3au8, 0x2fu8, 0x2fu8, 0x31u8, 0x32u8, 0x37u8, 0x2eu8,
        0x30u8, 0x2eu8, 0x30u8, 0x2eu8, 0x31u8, 0x3au8, 0x38u8, 0x30u8, 0x38u8, 0x30u8, 0x2fu8,
        0x70u8, 0x6fu8, 0x69u8, 0x73u8, 0x3fu8, 0x70u8, 0x61u8, 0x67u8, 0x65u8, 0x3du8]
}

/// The request URL for one page: the endpoint and the one query
/// parameter, `page`.
pub open spec fn url_for(page: int) -> Seq<u8> {
    url_prefix() + dec_i32(page)
}

/// Builds the URL for one GET. The page-size input is accepted but never
/// transmitted: the URL depends on `page` alone.
pub fn pois_url(page: i32, per_page: i32) -> (r: Vec<u8>)
    ensures
        r@ == url_for(page as int),
{
    let mut out: Vec<u8> = vec![0x68, 0x74, 0x74, 0x70, 0x3a, 0x2f, 0x2f, 0x31, 0x32, 0x37, 0x2e,
        0x30, 0x2e, 0x30, 0x2e, 0x31, 0x3a, 0x38, 0x30, 0x38, 0x30, 0x2f, 0x70, 0x6f, 0x69, 0x73,
        0x3f, 0x70, 0x61, 0x67, 0x65, 0x3d];
    proof {
        assert(out@ =~= url_prefix());
    }
    push_dec_i32(&mut out, page);
    out
}

/// Why a fetch produced no records: the transport failed before a body
/// arrived, or the body did not decode. The two are distinct values with
/// distinct messages.
#[derive(Clone, PartialEq, Eq, Debug)]
pub enum FetchError {
    /// The HTTP layer failed; holds the message it gave.
    Transport(Vec<u8>),
    /// The body was not a well-formed page of POI records.
    Decode(DecodeError),
}

/// The message prefix of a transport failure.
pub open spec fn transport_msg_prefix() -> Seq<u8> {
    seq![0x45u8, 0x72u8, 0x72u8, 0x6fu8, 0x72u8, 0x20u8, 0x77u8, 0x69u8, 0x74u8, 0x68u8, 0x20u8,
        0x41u8, 0x50u8, 0x49u8, 0x20u8, 0x77u8, 0x68u8, 0x69u8, 0x6cu8, 0x65u8, 0x20u8, 0x66u8,
        0x65u8, 0x74u8, 0x63u8, 0x68u8, 0x69u8, 0x6eu8, 0x67u8, 0x20u8, 0x70u8, 0x6fu8, 0x69u8,
        0x73u8, 0x20u8]
}

/// The message of a decode failure.
pub open spec fn decode_msg() -> Seq<u8> {
    seq![0x45u8, 0x72u8, 0x72u8, 0x6fu8, 0x72u8, 0x20u8, 0x77u8, 0x68u8, 0x69u8, 0x6cu8, 0x65u8,
        0x20u8, 0x70u8, 0x61u8, 0x72u8, 0x73u8, 0x69u8, 0x6eu8, 0x67u8, 0x20u8, 0x70u8, 0x6fu8,
        0x69u8, 0x73u8]
}

/// What an error's message is: a transport failure carries its cause
/// after its own prefix, so the two kinds can never read alike.
pub open spec fn message_of(e: FetchError) -> Seq<u8> {
    match e {
        FetchError::Transport(m) => transport_msg_prefix() + m@,
        FetchError::Decode(_) => decode_msg(),
    }
}

impl FetchError {
    /// The descriptive text of this error, exactly as `message_of` says.
    pub fn message(&self) -> (r: Vec<u8>)
        ensures
            r@ == message_of(*self),
    {
        match self {
            FetchError::Transport(m) => {
                let mut out: Vec<u8> = vec![0x45, 0x72, 0x72, 0x6f, 0x72, 0x20, 0x77, 0x69, 0x74,
                    0x68, 0x20, 0x41, 0x50, 0x49, 0x20, 0x77, 0x68, 0x69, 0x6c, 0x65, 0x20, 0x66,
                    0x65, 0x74, 0x63, 0x68, 0x69, 0x6e, 0x67, 0x20, 0x70, 0x6f, 0x69, 0x73, 0x20];
                proof {
                    assert(out@ =~= transport_msg_prefix());
                }
                let mut k: usize = 0;
                let ghost pre = out@;
                while k < m.len()
                    invariant
                        k <= m@.len(),
                        out@ == pre + m@.subrange(0, k as int),
                    decreases m@.len() - k,
                {
                    out.push(m[k]);
                    proof {
                        assert(m@.subrange(0, k + 1) =~= m@.subrange(0, k as int).push(
                            m@[k as int],
                        ));
                        assert(out@ =~= pre + m@.subrange(0, k + 1));
                    }
                    k = k + 1;
                }
                proof {
                    assert(m@.subrange(0, m@.len() as int) =~= m@);
                }
                out
            },
            FetchError::Decode(_) => {
                let out: Vec<u8> = vec![0x45, 0x72, 0x72, 0x6f, 0x72, 0x20, 0x77, 0x68, 0x69, 0x6c,
                    0x65, 0x20, 0x70, 0x61, 0x72, 0x73, 0x69, 0x6e, 0x67, 0x20, 0x70, 0x6f, 0x69,
                    0x73];
                proof {
                    assert(out@ =~= decode_msg());
                }
                out
            },
        }
    }
}

/// What one fetch attempt yields, given what the HTTP layer returned:
/// a decoded page for a body this format accepts; a decode error for any
/// other body; a transport error, carrying the layer's message, when no
/// body arrived. Nothing here panics, whatever came back.
pub fn resolve_fetch(transport: Result<Vec<u8>, Vec<u8>>) -> (r: Result<Vec<Poi>, FetchError>)
    ensures
        match transport {
            Ok(body) => match spec_decode(body@) {
                Some(ps) => r matches Ok(v) && views_of(v@) == ps,
                None => r == Result::<Vec<Poi>, FetchError>::Err(
                    FetchError::Decode(DecodeError),
                ),
            },
            Err(msg) => r matches Err(e) && e matches FetchError::Transport(m) && m@ == msg@,
        },
{
    match transport {
        Ok(body) => match decode_pois(&body) {
            Ok(pois) => Ok(pois),
            Err(e) => Err(FetchError::Decode(e)),
        },
        Err(msg) => Err(FetchError::Transport(msg)),
    }
}

/// The two error kinds are distinct values, whatever texts they hold.
pub proof fn lemma_error_kinds_distinct(m: Vec<u8>, d: DecodeError)
    ensures
        FetchError::Transport(m) != FetchError::Decode(d),
        message_of(FetchError::Transport(m)) != message_of(FetchError::Decode(d)),
{
    let t = message_of(FetchError::Transport(m));
    assert(t.len() >= transport_msg_prefix().len());
    assert(t[7] == transport_msg_prefix()[7]);
    assert(t[7] == 0x69);
    assert(decode_msg()[7] == 0x68);
}

} // verus!
