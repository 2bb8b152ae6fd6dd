//! Choice of the RPC endpoint a network is indexed through.
//!
//! An explicit endpoint is the only candidate; otherwise the bootstrap list is
//! tried in order. Credentials come from the URL's `user:password@` part. The
//! caller connects to each candidate that `next_attempt` names and probes it;
//! the first candidate that answers is used and the rest are not tried.

use vstd::prelude::*;

verus! {

/// Per-network configuration, fixed for the life of the engine.
pub struct Network {
    pub network_id: u64,
    pub name: String,
    pub chain_id: u64,
    /// Explicit RPC endpoint; empty when the bootstrap list applies.
    pub rpc: String,
    pub rpc_bootstraps: Vec<String>,
}

/// How a client authenticates to an endpoint.
pub enum RpcAuth {
    UserPass(String, String),
    NoAuth,
}

/// The user name and password (if any) that URL `s` carries; none when `s`
/// does not parse as a URL.
pub uninterp spec fn url_userinfo(s: Seq<char>) -> Option<(Seq<char>, Option<Seq<char>>)>;

/// Relies on url::Url::parse and its username and password accessors: the
/// credentials a URL carries, or none when it does not parse.
#[verifier::external_body]
fn parse_userinfo(s: &String) -> (r: Option<(String, Option<String>)>)
    ensures
        match r {
            Some((u, p)) => url_userinfo(s@) == Some((u@, match p {
                Some(q) => Some(q@),
                None => None::<Seq<char>>,
            })),
            None => url_userinfo(s@) is None,
        },
{
    match url::Url::parse(s) {
        Ok(u) => Some((u.username().to_string(), u.password().map(|p| p.to_string()))),
        Err(_) => None,
    }
}

/// The authentication a URL's credentials call for: user and password when a
/// password is present, none otherwise.
pub open spec fn auth_matches(r: RpcAuth, info: (Seq<char>, Option<Seq<char>>)) -> bool {
    match info.1 {
        Some(p) => r matches RpcAuth::UserPass(u2, p2) && u2@ == info.0 && p2@ == p,
        None => r is NoAuth,
    }
}

/// The authentication for endpoint `url`; none when it does not parse.
pub fn rpc_auth(url: &String) -> (r: Option<RpcAuth>)
    ensures
        match url_userinfo(url@) {
            Some(info) => r matches Some(a) && auth_matches(a, info),
            None => r is None,
        },
{
    match parse_userinfo(url) {
        Some((u, Some(p))) => Some(RpcAuth::UserPass(u, p)),
        Some((_, None)) => Some(RpcAuth::NoAuth),
        None => None,
    }
}

pub open spec fn strings_view(v: Seq<String>) -> Seq<Seq<char>> {
    v.map_values(|s: String| s@)
}

/// The endpoints to try, in order.
pub open spec fn candidates_of(rpc: Seq<char>, bootstraps: Seq<Seq<char>>) -> Seq<Seq<char>> {
    if rpc.len() == 0 {
        bootstraps
    } else {
        seq![rpc]
    }
}

/// The endpoints to try for `network`: its explicit endpoint alone when set,
/// else its bootstrap list.
pub fn rpc_candidates(network: &Network) -> (r: Vec<String>)
    ensures
        strings_view(r@) == candidates_of(network.rpc@, strings_view(network.rpc_bootstraps@)),
{
    let mut r: Vec<String> = Vec::new();
    if network.rpc.unicode_len() > 0 {
        r.push(network.rpc.clone());
        assert(strings_view(r@) =~= seq![network.rpc@]);
        return r;
    }
    let mut i: usize = 0;
    while i < network.rpc_bootstraps.len()
        invariant
            i <= network.rpc_bootstraps@.len(),
            strings_view(r@) =~= strings_view(network.rpc_bootstraps@.take(i as int)),
        decreases network.rpc_bootstraps@.len() - i,
    {
        let ghost r0 = r@;
        r.push(network.rpc_bootstraps[i].clone());
        assert(strings_view(r@) =~= strings_view(r0).push(network.rpc_bootstraps@[i as int]@));
        assert(network.rpc_bootstraps@.take(i as int + 1) =~= network.rpc_bootstraps@.take(i as int).push(network.rpc_bootstraps@[i as int]));
        i = i + 1;
    }
    assert(network.rpc_bootstraps@.take(i as int) =~= network.rpc_bootstraps@);
    r
}

/// The first candidate at or after `from` whose URL parses.
pub open spec fn first_usable(c: Seq<Seq<char>>, from: int) -> Option<int>
    decreases c.len() - from,
{
    if from < 0 || from >= c.len() {
        None
    } else if url_userinfo(c[from]) is Some {
        Some(from)
    } else {
        first_usable(c, from + 1)
    }
}

/// The next candidate to connect to, at or after `from`, with its
/// authentication; none when no candidate is left.
pub fn next_attempt(candidates: &Vec<String>, from: usize) -> (r: Option<(usize, RpcAuth)>)
    ensures
        match r {
            Some((i, a)) => first_usable(strings_view(candidates@), from as int) == Some(i as int)
                && auth_matches(a, url_userinfo(candidates@[i as int]@)->0),
            None => first_usable(strings_view(candidates@), from as int) is None,
        },
{
    let ghost c = strings_view(candidates@);
    let mut i: usize = from;
    while i < candidates.len()
        invariant
            from <= i,
            c == strings_view(candidates@),
            first_usable(c, from as int) == first_usable(c, i as int),
        decreases candidates@.len() - i,
    {
        match rpc_auth(&candidates[i]) {
            Some(a) => {
                return Some((i, a));
            },
            None => {},
        }
        i = i + 1;
    }
    None
}

/// The candidate chosen when the probes of candidates answer as `alive` says:
/// usable candidates are tried in order until one answers.
pub open spec fn selected(c: Seq<Seq<char>>, alive: Seq<bool>, from: int) -> Option<int>
    decreases c.len() - from,
{
    if from < 0 || from >= c.len() {
        None
    } else {
        match first_usable(c, from) {
            None => None,
            Some(i) => if i < alive.len() && alive[i] {
                Some(i)
            } else if from <= i < c.len() {
                selected(c, alive, i + 1)
            } else {
                None
            },
        }
    }
}

proof fn lemma_first_usable(c: Seq<Seq<char>>, from: int)
    requires
        0 <= from,
    ensures
        match first_usable(c, from) {
            Some(i) => from <= i < c.len() && url_userinfo(c[i]) is Some && forall|k: int|
                from <= k < i ==> url_userinfo(#[trigger] c[k]) is None,
            None => forall|k: int| from <= k < c.len() ==> url_userinfo(#[trigger] c[k]) is None,
        },
    decreases c.len() - from,
{
    if from < c.len() && url_userinfo(c[from]) is None {
        lemma_first_usable(c, from + 1);
    }
}

/// The chosen endpoint is the first usable candidate whose probe answered;
/// when none answers, none is chosen. So with a failing candidate followed by
/// a working one, the working one is used.
pub proof fn law_first_live_endpoint(c: Seq<Seq<char>>, alive: Seq<bool>, from: int)
    requires
        0 <= from,
        alive.len() == c.len(),
    ensures
        match selected(c, alive, from) {
            Some(i) => from <= i < c.len() && url_userinfo(c[i]) is Some && alive[i] && forall|k: int|
                from <= k < i ==> !(url_userinfo(#[trigger] c[k]) is Some && alive[k]),
            None => forall|k: int| from <= k < c.len() ==> !(url_userinfo(#[trigger] c[k]) is Some && alive[k]),
        },
    decreases c.len() - from,
{
    if from < c.len() {
        lemma_first_usable(c, from);
        match first_usable(c, from) {
            None => {},
            Some(i) => {
                if !alive[i] {
                    law_first_live_endpoint(c, alive, i + 1);
                }
            },
        }
    }
}

/// The first index at or after `from` that holds '@', else the length.
pub open spec fn find_at(s: Seq<char>, from: int) -> int
    decreases s.len() - from,
{
    if from < 0 || from >= s.len() {
        s.len() as int
    } else if s[from] == '@' {
        from
    } else {
        find_at(s, from + 1)
    }
}

/// Where the authority begins: just past the first "://" that ends at or
/// before `limit`, searching from `from`; 0 when there is none.
pub open spec fn authority_start(s: Seq<char>, limit: int, from: int) -> int
    decreases limit - from,
{
    if from < 0 || from + 3 > limit || limit > s.len() {
        0
    } else if s[from] == ':' && s[from + 1] == '/' && s[from + 2] == '/' {
        from + 3
    } else {
        authority_start(s, limit, from + 1)
    }
}

/// URL `s` with its credentials (what stands between the scheme and the first
/// '@') replaced by "***".
pub open spec fn masked(s: Seq<char>) -> Seq<char> {
    let at = find_at(s, 0);
    if at >= s.len() {
        s
    } else {
        s.subrange(0, authority_start(s, at, 0)) + "***"@ + s.subrange(at, s.len() as int)
    }
}

/// Hides the credentials of an endpoint URL for messages.
pub fn mask_credentials(url: &String) -> (r: String)
    ensures
        r@ == masked(url@),
{
    let s = url.as_str();
    let n = s.unicode_len();
    let mut at: usize = 0;
    while at < n && s.get_char(at) != '@'
        invariant
            n == url@.len(),
            s@ == url@,
            at <= n,
            find_at(url@, 0) == find_at(url@, at as int),
        decreases n - at,
    {
        at = at + 1;
    }
    if at >= n {
        return url.clone();
    }
    let mut start: usize = 0;
    let mut found = false;
    while !found && at >= 3 && start <= at - 3
        invariant
            n == url@.len(),
            s@ == url@,
            at < n,
            start <= at,
            found ==> start + 3 <= at && authority_start(url@, at as int, 0) == start + 3,
            !found ==> authority_start(url@, at as int, 0) == authority_start(url@, at as int, start as int),
        decreases at - start + (if found { 0int } else { 1int }),
    {
        if s.get_char(start) == ':' && s.get_char(start + 1) == '/' && s.get_char(start + 2) == '/' {
            found = true;
        } else {
            start = start + 1;
        }
    }
    let head_end: usize = if found { start + 3 } else { 0 };
    let mut r = String::from_str(s.substring_char(0, head_end));
    r.append("***");
    r.append(s.substring_char(at, n));
    r
}

/// The message of a network whose endpoints all failed.
pub open spec fn failure_message(name: Seq<char>, rpc: Seq<char>) -> Seq<char> {
    if rpc.len() == 0 {
        name + ": Could not connect to any RPC endpoint."@
    } else {
        name + ": Could not connect to RPC endpoint @ `"@ + masked(rpc) + "`."@
    }
}

/// The error of a network none of whose endpoints connected: it names the
/// network and, for an explicit endpoint, the endpoint with its credentials
/// hidden.
pub fn connection_failure(network: &Network) -> (r: String)
    ensures
        r@ == failure_message(network.name@, network.rpc@),
{
    let mut r = network.name.clone();
    if network.rpc.unicode_len() == 0 {
        r.append(": Could not connect to any RPC endpoint.");
    } else {
        r.append(": Could not connect to RPC endpoint @ `");
        let m = mask_credentials(&network.rpc);
        r.append(m.as_str());
        r.append("`.");
    }
    r
}

} // verus!
