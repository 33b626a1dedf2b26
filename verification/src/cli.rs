//! What the command-line client computes before it reads or writes
//! anything: the URLs it builds against a host, and what it makes of its
//! stored configuration.

use vstd::prelude::*;
use crate::text::{chars_of, string_of};

verus! {

broadcast use vstd::seq_lib::group_seq_properties;

/// `s` without any trailing `c`.
pub open spec fn strip_end(s: Seq<char>, c: char) -> Seq<char>
    decreases s.len(),
{
    if s.len() > 0 && s.last() == c {
        strip_end(s.drop_last(), c)
    } else {
        s
    }
}

/// `s` without any leading `c`.
pub open spec fn strip_start(s: Seq<char>, c: char) -> Seq<char>
    decreases s.len(),
{
    if s.len() > 0 && s[0] == c {
        strip_start(s.drop_first(), c)
    } else {
        s
    }
}

/// Shared state for every subcommand.
#[derive(Debug, Clone)]
pub struct Context {
    /// Host to talk to.
    pub host: String,
    /// Whether to emit JSON rather than prose.
    pub json: bool,
}

impl Context {
    /// A URL against the host: the host without trailing slashes, one
    /// slash, and the path without leading slashes.
    pub fn url(&self, path: &str) -> (u: String)
        ensures
            u@ == strip_end(self.host@, '/') + seq!['/'] + strip_start(path@, '/'),
    {
        let h = chars_of(self.host.as_str());
        let mut hi: usize = h.len();
        while hi > 0 && h[hi - 1] == '/'
            invariant
                hi <= h@.len(),
                strip_end(h@, '/') == strip_end(h@.take(hi as int), '/'),
            decreases hi,
        {
            assert(h@.take(hi as int).drop_last() =~= h@.take(hi - 1));
            hi -= 1;
        }
        let p = chars_of(path);
        let mut lo: usize = 0;
        assert(p@.skip(0) =~= p@);
        while lo < p.len() && p[lo] == '/'
            invariant
                lo <= p@.len(),
                strip_start(p@, '/') == strip_start(p@.skip(lo as int), '/'),
            decreases p@.len() - lo,
        {
            assert(p@.skip(lo as int).drop_first() =~= p@.skip(lo + 1));
            lo += 1;
        }
        let mut out: Vec<char> = Vec::new();
        let mut i: usize = 0;
        while i < hi
            invariant
                hi <= h@.len(),
                i <= hi,
                out@ == h@.take(i as int),
            decreases hi - i,
        {
            out.push(h[i]);
            i += 1;
            assert(out@ =~= h@.take(i as int));
        }
        out.push('/');
        let ghost mid = out@;
        let mut j: usize = lo;
        while j < p.len()
            invariant
                lo <= j <= p@.len(),
                out@ == mid + p@.subrange(lo as int, j as int),
            decreases p@.len() - j,
        {
            out.push(p[j]);
            j += 1;
            assert(out@ =~= mid + p@.subrange(lo as int, j as int));
        }
        assert(p@.subrange(lo as int, p@.len() as int) =~= p@.skip(lo as int));
        assert(out@ =~= strip_end(self.host@, '/') + seq!['/'] + strip_start(path@, '/'));
        string_of(out.as_slice())
    }
}

/// Stored credential and preferences.
#[derive(Debug, Clone)]
pub struct Config {
    /// Bearer credential obtained by `closure login`.
    pub credential: Option<String>,
    /// Last host used, so `--host` need not be repeated.
    pub host: Option<String>,
    /// Web surface to open after a session is minted.
    pub web: String,
}

impl Default for Config {
    fn default() -> (c: Self)
        ensures
            c.credential is None,
            c.host is None,
            c.web@ == Seq::<char>::empty(),
    {
        Config { credential: None, host: None, web: String::new() }
    }
}

/// The web surface a configuration opens unless it names another.
pub fn default_web() -> (s: String)
    ensures
        s@ == "https://play.closure.city"@,
{
    String::from_str("https://play.closure.city")
}

/// The message when no credential is stored.
pub open spec fn not_logged_in() -> Seq<char> {
    "not logged in; run `closure login` first"@
}

/// The stored credential, or the explanation that there is none.
pub fn credential(cfg: &Config) -> (r: Result<String, String>)
    ensures
        match r {
            Ok(c) => cfg.credential is Some && c@ == cfg.credential->Some_0@,
            Err(m) => cfg.credential is None && m@ == not_logged_in(),
        },
{
    match &cfg.credential {
        Some(c) => Ok(c.clone()),
        None => Err(String::from_str("not logged in; run `closure login` first")),
    }
}

} // verus!
