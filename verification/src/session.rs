//! The rules a host applies when a session is opened: which city name is
//! accepted, and which seed a session opens at when none is given.

use vstd::prelude::*;
use vstd::string::StringSliceAdditionalSpecFns;
use crate::text::{FNV_OFFSET, fnv, fnv_feed};
use crate::token::{trim, trim_end, trim_start};

verus! {

/// How long a city name may be, in characters.
pub const CITY_NAME_LIMIT: usize = 64;

/// The seed drawn from a token and a city name: FNV-1a over the token's
/// bytes, one zero byte, and the name's bytes.
pub open spec fn seed_of(token: Seq<u8>, city: Seq<u8>) -> u64 {
    fnv(fnv(fnv(FNV_OFFSET, token), seq![0u8]), city)
}

/// Draw a seed from what the player supplied and nothing else.
///
/// The zero byte between the two cannot occur in either, so that
/// (`AB`, `C`) and (`A`, `BC`) do not collide into the same world.
pub fn seed_from(token: &str, city: &str) -> (h: u64)
    ensures
        h == seed_of(token.spec_bytes(), city.spec_bytes()),
{
    let h = fnv_feed(FNV_OFFSET, token.as_bytes());
    let zero: [u8; 1] = [0u8];
    assert(zero@ =~= seq![0u8]);
    let h = fnv_feed(h, &zero);
    fnv_feed(h, city.as_bytes())
}

/// The city a request that names none opens in. Deliberately not a real
/// place.
pub fn default_city() -> (s: String)
    ensures
        s@ == "somewhere"@,
{
    String::from_str("somewhere")
}

/// The message for a name that is empty once trimmed.
pub open spec fn unnamed_message() -> Seq<char> {
    "a city needs a name; any name will do"@
}

/// The message for a name longer than the limit.
pub open spec fn too_long_message() -> Seq<char> {
    "that city name is too long to carry around"@
}

/// The city name a request is accepted under: its text trimmed of white
/// space, refused when nothing is left or when more than
/// [`CITY_NAME_LIMIT`] characters are. Any other name is a city; none is
/// refused for its characters.
pub fn city_name(raw: &str) -> (r: Result<String, String>)
    ensures
        match r {
            Ok(name) => {
                &&& name@ == trim_end(trim_start(raw@))
                &&& 0 < name@.len() <= CITY_NAME_LIMIT
            },
            Err(m) => {
                let t = trim_end(trim_start(raw@));
                &&& t.len() == 0 ==> m@ == unnamed_message()
                &&& t.len() > 0 ==> t.len() > CITY_NAME_LIMIT && m@ == too_long_message()
            },
        },
{
    let name = trim(raw);
    let n = name.as_str().unicode_len();
    if n == 0 {
        return Err(String::from_str("a city needs a name; any name will do"));
    }
    if n > CITY_NAME_LIMIT {
        return Err(String::from_str("that city name is too long to carry around"));
    }
    Ok(name)
}

/// The routes a host serves, in full.
pub open spec fn declared_routes() -> Seq<&'static str> {
    seq![
        "/health",
        "/v1/cities",
        "/v1/invariants",
        "/v1/session",
        "/v1/session/{token}",
        "/v1/session/{token}/posts",
        "/v1/session/{token}/thread/{id}",
        "/v1/session/{token}/tick",
        "/v1/session/{token}/subgroups",
        "/v1/session/{token}/subgroups/{name}/voices",
        "/v1/session/{token}/voices/{id}/character",
        "/v1/session/{token}/voices/{id}/prune",
        "/v1/session/{token}/voices/{id}/ask",
    ]
}

/// The complete route table. Nothing in it reports success, progress or
/// attribution; a route that did would have to be added here.
pub fn routes() -> (r: Vec<&'static str>)
    ensures
        r@ == declared_routes(),
{
    let r = vec![
        "/health",
        "/v1/cities",
        "/v1/invariants",
        "/v1/session",
        "/v1/session/{token}",
        "/v1/session/{token}/posts",
        "/v1/session/{token}/thread/{id}",
        "/v1/session/{token}/tick",
        "/v1/session/{token}/subgroups",
        "/v1/session/{token}/subgroups/{name}/voices",
        "/v1/session/{token}/voices/{id}/character",
        "/v1/session/{token}/voices/{id}/prune",
        "/v1/session/{token}/voices/{id}/ask",
    ];
    assert(r@ =~= declared_routes());
    r
}

} // verus!
