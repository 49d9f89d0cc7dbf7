//! The OAuth loopback callback URL that a user pastes at the headless login
//! prompt, checked and taken apart.

use vstd::prelude::*;

use crate::text::str_eq;
use crate::urls::{parse_url, url_parse, ParsedUrl, UrlView};

verus! {

/// Port of the loopback server that receives the OAuth callback.
pub const LOOPBACK_PORT: u16 = 4000;

/// The three query parameters of an OAuth callback.
#[derive(Debug, Clone, Copy, PartialEq, Eq)]
pub enum CallbackKey {
    Code,
    State,
    Iss,
}

/// Authorization callback parameters.
#[derive(Debug, Clone, PartialEq, Eq)]
pub struct CallbackParams {
    pub code: String,
    pub state: Option<String>,
    pub iss: Option<String>,
}

/// Why a pasted callback URL is refused.
#[derive(Debug, Clone, Copy, PartialEq, Eq)]
pub enum CallbackError {
    /// The text does not parse as a URL.
    InvalidUrl,
    /// The URL is not `http://127.0.0.1:4000/oauth/callback`.
    NotLoopback,
    /// The parameter occurs twice in the query.
    Duplicate(CallbackKey),
    /// The `code` parameter is absent or empty.
    MissingCode,
    /// The `state` parameter is absent or empty.
    MissingState,
}

/// Which callback parameter a query key names, if any.
pub open spec fn callback_key(k: Seq<char>) -> Option<CallbackKey> {
    if k == "code"@ {
        Some(CallbackKey::Code)
    } else if k == "state"@ {
        Some(CallbackKey::State)
    } else if k == "iss"@ {
        Some(CallbackKey::Iss)
    } else {
        None
    }
}

/// Values gathered for `code`, `state` and `iss`.
pub type Slots = (Option<Seq<char>>, Option<Seq<char>>, Option<Seq<char>>);

pub open spec fn slot(s: Slots, k: CallbackKey) -> Option<Seq<char>> {
    match k {
        CallbackKey::Code => s.0,
        CallbackKey::State => s.1,
        CallbackKey::Iss => s.2,
    }
}

pub open spec fn fill_slot(s: Slots, k: CallbackKey, v: Seq<char>) -> Slots {
    match k {
        CallbackKey::Code => (Some(v), s.1, s.2),
        CallbackKey::State => (s.0, Some(v), s.2),
        CallbackKey::Iss => (s.0, s.1, Some(v)),
    }
}

/// The query pairs read in order: the values of the three parameters, or the
/// first parameter met a second time.
pub open spec fn gather(pairs: Seq<(Seq<char>, Seq<char>)>) -> Result<Slots, CallbackKey>
    decreases pairs.len(),
{
    if pairs.len() == 0 {
        Ok((None, None, None))
    } else {
        match gather(pairs.drop_last()) {
            Err(k) => Err(k),
            Ok(s) => match callback_key(pairs.last().0) {
                None => Ok(s),
                Some(k) => if slot(s, k) is Some {
                    Err(k)
                } else {
                    Ok(fill_slot(s, k, pairs.last().1))
                },
            },
        }
    }
}

/// Whether the URL is the loopback callback endpoint.
pub open spec fn is_loopback_callback(v: UrlView) -> bool {
    &&& v.scheme == "http"@
    &&& v.host == Some("127.0.0.1"@)
    &&& v.port == Some(LOOPBACK_PORT)
    &&& v.path == "/oauth/callback"@
}

/// The callback parameters of a parsed URL, as views, or the error.
pub open spec fn callback_of(v: UrlView) -> Result<Slots, CallbackError> {
    if !is_loopback_callback(v) {
        Err(CallbackError::NotLoopback)
    } else {
        match gather(v.query) {
            Err(k) => Err(CallbackError::Duplicate(k)),
            Ok(s) => if !(s.0 matches Some(c) && c.len() > 0) {
                Err(CallbackError::MissingCode)
            } else if !(s.1 matches Some(t) && t.len() > 0) {
                Err(CallbackError::MissingState)
            } else {
                Ok(s)
            },
        }
    }
}

/// The view of callback parameters.
pub open spec fn params_view(p: CallbackParams) -> Slots {
    (
        Some(p.code@),
        match p.state {
            Some(s) => Some(s@),
            None => None,
        },
        match p.iss {
            Some(s) => Some(s@),
            None => None,
        },
    )
}

fn key_of(k: &str) -> (r: Option<CallbackKey>)
    ensures
        r == callback_key(k@),
{
    if str_eq(k, "code") {
        Some(CallbackKey::Code)
    } else if str_eq(k, "state") {
        Some(CallbackKey::State)
    } else if str_eq(k, "iss") {
        Some(CallbackKey::Iss)
    } else {
        None
    }
}

/// Takes the callback parameters out of a parsed URL.
pub fn callback_params_from_url(u: &ParsedUrl) -> (r: Result<CallbackParams, CallbackError>)
    ensures
        r is Ok <==> callback_of(u@) is Ok,
        r matches Ok(p) ==> callback_of(u@) == Ok::<Slots, CallbackError>(params_view(p)),
        r matches Err(e) ==> callback_of(u@) == Err::<Slots, CallbackError>(e),
{
    let loopback = str_eq(u.scheme(), "http") && match u.host() {
        Some(h) => str_eq(h, "127.0.0.1"),
        None => false,
    } && u.port() == Some(LOOPBACK_PORT) && str_eq(u.path(), "/oauth/callback");
    if !loopback {
        return Err(CallbackError::NotLoopback);
    }
    let ghost q = u@.query;
    let mut code: Option<String> = None;
    let mut state: Option<String> = None;
    let mut iss: Option<String> = None;
    let n = u.query_len();
    let mut i: usize = 0;
    while i < n
        invariant
            q == u@.query,
            is_loopback_callback(u@),
            n == q.len(),
            0 <= i <= n,
            gather(q.take(i as int)) == Ok::<Slots, CallbackKey>((
                match code { Some(s) => Some(s@), None => None },
                match state { Some(s) => Some(s@), None => None },
                match iss { Some(s) => Some(s@), None => None },
            )),
        decreases n - i,
    {
        assert(q.take(i + 1).drop_last() =~= q.take(i as int));
        let (k, v) = u.query_pair(i);
        match key_of(k) {
            None => {},
            Some(CallbackKey::Code) => {
                if code.is_some() {
                    assert(gather(q.take(i + 1)) == Err::<Slots, CallbackKey>(CallbackKey::Code));
                    proof { lemma_gather_prefix_err(q, i as int + 1); }
                    return Err(CallbackError::Duplicate(CallbackKey::Code));
                }
                code = Some(v.to_owned());
            },
            Some(CallbackKey::State) => {
                if state.is_some() {
                    assert(gather(q.take(i + 1)) == Err::<Slots, CallbackKey>(CallbackKey::State));
                    proof { lemma_gather_prefix_err(q, i as int + 1); }
                    return Err(CallbackError::Duplicate(CallbackKey::State));
                }
                state = Some(v.to_owned());
            },
            Some(CallbackKey::Iss) => {
                if iss.is_some() {
                    assert(gather(q.take(i + 1)) == Err::<Slots, CallbackKey>(CallbackKey::Iss));
                    proof { lemma_gather_prefix_err(q, i as int + 1); }
                    return Err(CallbackError::Duplicate(CallbackKey::Iss));
                }
                iss = Some(v.to_owned());
            },
        }
        i += 1;
    }
    assert(q.take(n as int) =~= q);
    let code = match code {
        Some(c) => {
            if c.as_str().is_empty() {
                return Err(CallbackError::MissingCode);
            }
            c
        },
        None => {
            return Err(CallbackError::MissingCode);
        },
    };
    match &state {
        Some(s) => {
            if s.as_str().is_empty() {
                return Err(CallbackError::MissingState);
            }
        },
        None => {
            return Err(CallbackError::MissingState);
        },
    }
    Ok(CallbackParams { code, state, iss })
}

/// Once a prefix of the pairs holds a repeated parameter, the whole query
/// reports that parameter.
proof fn lemma_gather_prefix_err(q: Seq<(Seq<char>, Seq<char>)>, j: int)
    requires
        0 <= j <= q.len(),
        gather(q.take(j)) is Err,
    ensures
        gather(q) == gather(q.take(j)),
    decreases q.len() - j,
{
    if j < q.len() {
        assert(q.take(j + 1).drop_last() =~= q.take(j));
        lemma_gather_prefix_err(q, j + 1);
    } else {
        assert(q.take(j) =~= q);
    }
}

/// Parses the callback URL pasted at the headless login prompt.
pub fn parse_callback_url(callback_url: &str) -> (r: Result<CallbackParams, CallbackError>)
    ensures
        url_parse(callback_url@) is None ==> r == Err::<CallbackParams, CallbackError>(CallbackError::InvalidUrl),
        url_parse(callback_url@) matches Some(v) ==> {
            &&& r is Ok <==> callback_of(v) is Ok
            &&& r matches Ok(p) ==> callback_of(v) == Ok::<Slots, CallbackError>(params_view(p))
            &&& r matches Err(e) ==> callback_of(v) == Err::<Slots, CallbackError>(e)
        },
{
    match parse_url(callback_url) {
        None => Err(CallbackError::InvalidUrl),
        Some(u) => callback_params_from_url(&u),
    }
}

} // verus!
