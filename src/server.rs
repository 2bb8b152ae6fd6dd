//! Decisions of the HTTP server: which requests skip authentication, how the
//! bearer token is read, which ports are tried, and which items block a
//! deletion.

use vstd::prelude::*;
use crate::chain::opt_view;

verus! {

/// The first index at or after `from` that holds `c`, else the length.
pub open spec fn find_char(s: Seq<char>, c: char, from: int) -> int
    decreases s.len() - from,
{
    if from < 0 || from >= s.len() {
        s.len() as int
    } else if s[from] == c {
        from
    } else {
        find_char(s, c, from + 1)
    }
}

/// The token of an `Authorization` header of the form "Bearer <token>": what
/// follows the first space, when what precedes it is exactly "Bearer".
pub open spec fn bearer_of(h: Seq<char>) -> Option<Seq<char>> {
    let i = find_char(h, ' ', 0);
    if i < h.len() && h.subrange(0, i) == "Bearer"@ {
        Some(h.subrange(i + 1, h.len() as int))
    } else {
        None
    }
}

/// Reads the token of a bearer `Authorization` header.
pub fn bearer_token(header: &str) -> (r: Option<String>)
    ensures
        opt_view(r) == bearer_of(header@),
{
    let n = header.unicode_len();
    let mut i: usize = 0;
    while i < n && header.get_char(i) != ' '
        invariant
            n == header@.len(),
            i <= n,
            find_char(header@, ' ', 0) == find_char(header@, ' ', i as int),
        decreases n - i,
    {
        i = i + 1;
    }
    if i >= n {
        return None;
    }
    let scheme = header.substring_char(0, i).to_string();
    let bearer = "Bearer".to_string();
    if scheme == bearer {
        Some(header.substring_char(i + 1, n).to_string())
    } else {
        None
    }
}

/// Whether a request for `uri` is served without authentication.
pub open spec fn is_public(uri: Seq<char>) -> bool {
    uri.len() >= "/v1/info"@.len() && uri.subrange(0, "/v1/info"@.len() as int) == "/v1/info"@
}

/// Whether `uri` names an endpoint that needs no API key.
pub fn is_public_endpoint(uri: &str) -> (r: bool)
    ensures
        r == is_public(uri@),
{
    let prefix = "/v1/info";
    let n = uri.unicode_len();
    let k = prefix.unicode_len();
    if n < k {
        return false;
    }
    let head = uri.substring_char(0, k).to_string();
    let p = prefix.to_string();
    head == p
}

/// The port the server listens on by default.
pub const DEFAULT_PORT: u16 = 2277;

/// The last port tried after the default one.
pub const LAST_FALLBACK_PORT: u16 = 2299;

/// The ports to try in order: from the default port, the default and the ports
/// after it up to the last fallback; any other port alone.
pub open spec fn ports_for(port: u16) -> Seq<u16> {
    if port == DEFAULT_PORT {
        Seq::new((LAST_FALLBACK_PORT - DEFAULT_PORT + 1) as nat, |k: int| (DEFAULT_PORT + k) as u16)
    } else {
        seq![port]
    }
}

/// The ports to try, in order, when `port` is configured.
pub fn ports_to_try(port: u16) -> (r: Vec<u16>)
    ensures
        r@ == ports_for(port),
{
    let mut r: Vec<u16> = Vec::new();
    if port != DEFAULT_PORT {
        r.push(port);
        assert(r@ =~= seq![port]);
        return r;
    }
    let mut p: u16 = DEFAULT_PORT;
    while p <= LAST_FALLBACK_PORT
        invariant
            DEFAULT_PORT <= p <= LAST_FALLBACK_PORT + 1,
            r@.len() == p - DEFAULT_PORT,
            forall|k: int| 0 <= k < r@.len() ==> r@[k] == DEFAULT_PORT + k,
        decreases LAST_FALLBACK_PORT + 1 - p,
    {
        r.push(p);
        p = p + 1;
    }
    assert(r@ =~= ports_for(port));
    r
}

/// The ids of the locked items, in order.
pub open spec fn locked_of(items: Seq<(Seq<char>, bool)>) -> Seq<Seq<char>>
    decreases items.len(),
{
    if items.len() == 0 {
        Seq::empty()
    } else {
        let p = locked_of(items.drop_last());
        if items.last().1 {
            p.push(items.last().0)
        } else {
            p
        }
    }
}

/// The ids joined with ", ".
pub open spec fn joined(ids: Seq<Seq<char>>) -> Seq<char>
    decreases ids.len(),
{
    if ids.len() == 0 {
        Seq::empty()
    } else if ids.len() == 1 {
        ids[0]
    } else {
        joined(ids.drop_last()) + ", "@ + ids.last()
    }
}

/// The ids of the items (id, locked) that are locked, joined with ", " for the
/// refusal message; none when no item is locked and the deletion may proceed.
pub fn locked_ids(items: &Vec<(String, bool)>) -> (r: Option<String>)
    ensures
        match r {
            Some(m) => locked_of(items@.map_values(|x: (String, bool)| (x.0@, x.1))).len() > 0 && m@
                == joined(locked_of(items@.map_values(|x: (String, bool)| (x.0@, x.1)))),
            None => locked_of(items@.map_values(|x: (String, bool)| (x.0@, x.1))).len() == 0,
        },
{
    let ghost v = items@.map_values(|x: (String, bool)| (x.0@, x.1));
    let mut out = String::new();
    let mut count: usize = 0;
    let mut i: usize = 0;
    while i < items.len()
        invariant
            i <= items@.len(),
            v == items@.map_values(|x: (String, bool)| (x.0@, x.1)),
            count as int == locked_of(v.take(i as int)).len(),
            count <= i,
            out@ == joined(locked_of(v.take(i as int))),
        decreases items@.len() - i,
    {
        assert(v.take(i as int + 1).drop_last() =~= v.take(i as int));
        assert(v.take(i as int + 1).last() == v[i as int]);
        if items[i].1 {
            let ghost before = locked_of(v.take(i as int));
            if count > 0 {
                out.append(", ");
            }
            out.append(items[i].0.as_str());
            proof {
                let after = before.push(items@[i as int].0@);
                assert(after.drop_last() =~= before);
                if before.len() == 0 {
                    assert(out@ =~= after[0]);
                }
            }
            count = count + 1;
        }
        i = i + 1;
    }
    assert(v.take(items@.len() as int) =~= v);
    if count > 0 {
        Some(out)
    } else {
        None
    }
}

} // verus!
