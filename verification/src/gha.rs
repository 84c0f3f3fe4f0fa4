//! The cache service of GitHub Actions as a remote cache.

use crate::digest::{hex_of, sha256};
use crate::model::{CacheKey, ContentHash};
use crate::text::{cat2, cat4, cat5, chars_of, contains, decimal, number, occurs_in, owned, str_eq, trim_end_char, utf8, without_trailing};
use vstd::prelude::*;
use vstd::string::*;

verus! {

/// The service, and the token and version that its entries are under.
#[derive(Debug, PartialEq, Eq)]
pub struct GhaConfig {
    pub results_url: String,
    pub token: String,
    /// Keeps entries of one format apart from those of another.
    pub version: String,
}

/// The version for a format of entries.
pub open spec fn version_text(schema: nat) -> Seq<char> {
    hex_of(sha256(utf8("giant remote cache schema "@ + decimal(schema) + " namespace "@ + decimal(2))))
}

/// The value of a variable; the first if it is listed twice.
pub open spec fn lookup(env: Seq<(String, String)>, name: Seq<char>) -> Option<Seq<char>>
    decreases env.len(),
{
    if env.len() == 0 {
        None
    } else if env[0].0@ == name {
        Some(env[0].1@)
    } else {
        lookup(env.skip(1), name)
    }
}

/// The value of a variable.
pub fn variable(env: &Vec<(String, String)>, name: &str) -> (r: Option<String>)
    ensures
        match r {
            Some(v) => lookup(env@, name@) == Some(v@),
            None => lookup(env@, name@) is None,
        },
{
    let ghost ev = env@;
    let mut i: usize = 0;
    assert(ev.skip(0) == ev);
    while i < env.len()
        invariant
            i <= env.len(),
            ev == env@,
            lookup(ev, name@) == lookup(ev.skip(i as int), name@),
        decreases env.len() - i,
    {
        assert(ev.skip(i as int)[0] == ev[i as int]);
        assert(ev.skip(i as int).skip(1) == ev.skip(i + 1));
        if str_eq(env[i].0.as_str(), name) {
            return Some(env[i].1.clone());
        }
        i = i + 1;
    }
    None
}

/// The complaint about a variable that the runner does not show.
pub open spec fn unset_text(name: Seq<char>) -> Seq<char> {
    name + " is unset. The Actions runner only exposes it to JS actions; export it to the job env first - see the remote cache guide (https://giant.build/guides/remote-cache/)"@
}

fn unset(name: &str) -> (r: String)
    ensures
        r@ == unset_text(name@),
{
    cat2(
        name,
        " is unset. The Actions runner only exposes it to JS actions; export it to the job env first - see the remote cache guide (https://giant.build/guides/remote-cache/)",
    )
}

impl GhaConfig {
    pub fn new(results_url: String, token: String, remote_schema: u32) -> (r: GhaConfig)
        ensures
            r.results_url@ == without_trailing(results_url@, '/'),
            r.token == token,
            r.version@ == version_text(remote_schema as nat),
    {
        let n = number(remote_schema as u128);
        let two = number(2);
        let text = cat4("giant remote cache schema ", n.as_str(), " namespace ", two.as_str());
        let version = ContentHash::of_bytes(text.as_str().as_bytes()).to_hex();
        GhaConfig { results_url: trim_end_char(results_url.as_str(), '/'), token, version }
    }

    /// From the variables that the runner provides.
    pub fn from_env(remote_schema: u32, env: &Vec<(String, String)>) -> (r: Result<GhaConfig, String>)
        ensures
            r is Ok <==> lookup(env@, "ACTIONS_RESULTS_URL"@) is Some && lookup(env@, "ACTIONS_RUNTIME_TOKEN"@) is Some,
            r matches Ok(c) ==> {
                &&& c.results_url@ == without_trailing(lookup(env@, "ACTIONS_RESULTS_URL"@)->0, '/')
                &&& c.token@ == lookup(env@, "ACTIONS_RUNTIME_TOKEN"@)->0
                &&& c.version@ == version_text(remote_schema as nat)
            },
            r matches Err(e) ==> e@ == unset_text(
                if lookup(env@, "ACTIONS_RESULTS_URL"@) is None {
                    "ACTIONS_RESULTS_URL"@
                } else {
                    "ACTIONS_RUNTIME_TOKEN"@
                },
            ),
    {
        let url = match variable(env, "ACTIONS_RESULTS_URL") {
            Some(v) => v,
            None => {
                return Err(unset("ACTIONS_RESULTS_URL"));
            },
        };
        let token = match variable(env, "ACTIONS_RUNTIME_TOKEN") {
            Some(v) => v,
            None => {
                return Err(unset("ACTIONS_RUNTIME_TOKEN"));
            },
        };
        Ok(GhaConfig::new(url, token, remote_schema))
    }

    /// The address of a method of the service.
    pub fn method_url(&self, method: &str) -> (r: String)
        ensures
            r@ == self.results_url@ + "/"@ + "twirp/github.actions.results.api.v1.CacheService"@ + "/"@ + method@,
    {
        cat5(self.results_url.as_str(), "/", "twirp/github.actions.results.api.v1.CacheService", "/", method)
    }
}

/// The name of a cache entry in the service.
pub fn ac_key(key: &CacheKey) -> (r: String)
    ensures
        r@ == "giant-ac-"@ + hex_of(key@),
{
    let hex = key.to_hex();
    cat2("giant-ac-", hex.as_str())
}

/// The name of a blob in the service.
pub fn cas_key(hash: &ContentHash) -> (r: String)
    ensures
        r@ == "giant-cas-"@ + hex_of(hash@),
{
    let hex = hash.to_hex();
    cat2("giant-cas-", hex.as_str())
}

/// Why a call failed.
#[derive(Debug, PartialEq, Eq)]
pub enum GhaError {
    Auth,
    Http(String),
    Twirp { method: String, status: u16, body: String },
}

impl GhaError {
    /// The error in words.
    pub open spec fn text(&self) -> Seq<char> {
        match *self {
            GhaError::Auth => "auth failed (HTTP 401/403)"@,
            GhaError::Http(e) => "HTTP: "@ + e@,
            GhaError::Twirp { method, status, body } => method@ + " returned "@ + decimal(status as nat) + ": "@ + body@,
        }
    }

    pub fn message(&self) -> (r: String)
        ensures
            r@ == self.text(),
    {
        match self {
            GhaError::Auth => owned("auth failed (HTTP 401/403)"),
            GhaError::Http(e) => cat2("HTTP: ", e.as_str()),
            GhaError::Twirp { method, status, body } => {
                let n = number(*status as u128);
                cat5(method.as_str(), " returned ", n.as_str(), ": ", body.as_str())
            },
        }
    }
}

/// The character is a decimal digit.
pub open spec fn is_digit(c: char) -> bool {
    '0' <= c && c <= '9'
}

/// The value of decimal digits.
pub open spec fn digits_value(s: Seq<char>) -> nat
    decreases s.len(),
{
    if s.len() == 0 {
        0
    } else {
        10 * digits_value(s.drop_last()) + (s.last() as nat - '0' as nat) as nat
    }
}

/// The digits of a number: what is left without one leading plus.
pub open spec fn number_digits(s: Seq<char>) -> Seq<char> {
    if s.len() > 0 && s[0] == '+' {
        s.skip(1)
    } else {
        s
    }
}

/// The number that `s` stands for: digits, perhaps behind a plus, that fit in
/// 64 bits.
pub open spec fn number_of(s: Seq<char>) -> Option<u64> {
    let d = number_digits(s);
    if d.len() > 0 && (forall|i: int| 0 <= i < d.len() ==> is_digit(#[trigger] d[i])) && digits_value(d) <= u64::MAX {
        Some(digits_value(d) as u64)
    } else {
        None
    }
}

proof fn lemma_digits_grow(s: Seq<char>, n: int)
    requires
        0 <= n <= s.len(),
    ensures
        digits_value(s) >= digits_value(s.take(n)),
    decreases s.len() - n,
{
    if n < s.len() {
        lemma_digits_grow(s, n + 1);
        assert(s.take(n + 1).drop_last() == s.take(n));
    } else {
        assert(s.take(n) == s);
    }
}

/// Reads a number.
pub fn parse_number(s: &str) -> (r: Option<u64>)
    ensures
        r == number_of(s@),
{
    let v = chars_of(s);
    let start: usize = if v.len() > 0 && v[0] == '+' {
        1
    } else {
        0
    };
    let ghost d = number_digits(s@);
    assert(d == s@.skip(start as int));
    if v.len() == start {
        return None;
    }
    let mut n: u64 = 0;
    let mut i: usize = start;
    assert(d.take(0) == Seq::<char>::empty());
    while i < v.len()
        invariant
            start <= i <= v.len(),
            start <= 1,
            v@ == s@,
            d == number_digits(s@),
            d == s@.skip(start as int),
            n == digits_value(d.take(i - start)),
            forall|k: int| 0 <= k < i - start ==> is_digit(#[trigger] d[k]),
        decreases v.len() - i,
    {
        let c: char = v[i];
        let ghost k = i - start;
        assert(d[k] == c);
        if !('0' <= c && c <= '9') {
            assert(!is_digit(d[k]));
            return None;
        }
        let digit: u64 = (c as u32 - '0' as u32) as u64;
        assert(d.take(k + 1).drop_last() == d.take(k));
        assert(d.take(k + 1).last() == c);
        let wide: u128 = n as u128 * 10 + digit as u128;
        assert(wide == digits_value(d.take(k + 1)));
        if wide > u64::MAX as u128 {
            proof {
                lemma_digits_grow(d, k + 1);
            }
            return None;
        }
        n = wide as u64;
        i = i + 1;
    }
    assert(d.take(i - start) == d);
    Some(n)
}

/// What to do after a reply of the service.
#[derive(Debug, Clone, Copy, PartialEq, Eq, Structural)]
pub enum TwirpStep {
    /// Take the reply.
    Take,
    /// The token is not accepted.
    Auth,
    /// Wait as many seconds and send again.
    Retry(u64),
    /// Give up with the status.
    Fail,
}

/// A call of the service: it is sent again when the service is busy, three
/// times in all, with longer and longer waits unless the service names one.
pub struct TwirpCall {
    attempt: u32,
    backoff: u64,
}

impl TwirpCall {
    /// How often the call was sent, the one in flight included.
    pub closed spec fn attempt(&self) -> int {
        self.attempt as int
    }

    /// The next wait.
    pub closed spec fn backoff(&self) -> int {
        self.backoff as int
    }

    pub closed spec fn well_formed(&self) -> bool {
        1 <= self.attempt <= 3 && self.backoff == (if self.attempt == 1 {
            1int
        } else if self.attempt == 2 {
            4
        } else {
            16
        })
    }

    pub fn new() -> (r: TwirpCall)
        ensures
            r.well_formed(),
            r.attempt() == 1,
            r.backoff() == 1,
    {
        TwirpCall { attempt: 1, backoff: 1 }
    }

    /// What to do after a reply with the status and the wait it asks for.
    pub fn replied(&mut self, status: u16, retry_after: &Option<String>) -> (r: TwirpStep)
        requires
            old(self).well_formed(),
        ensures
            final(self).well_formed(),
            r is Take <==> status == 200,
            r is Auth <==> status == 401 || status == 403,
            r is Retry <==> status == 429 && old(self).attempt() < 3,
            r matches TwirpStep::Retry(secs) ==> {
                &&& final(self).attempt() == old(self).attempt() + 1
                &&& final(self).backoff() == old(self).backoff() * 4
                &&& secs == (match *retry_after {
                    Some(t) => match number_of(t@) {
                        Some(n) => n as int,
                        None => old(self).backoff(),
                    },
                    None => old(self).backoff(),
                })
            },
            !(r is Retry) ==> *final(self) == *old(self),
    {
        if status == 200 {
            TwirpStep::Take
        } else if status == 401 || status == 403 {
            TwirpStep::Auth
        } else if status == 429 && self.attempt < 3 {
            let wait: u64 = match retry_after {
                Some(t) => match parse_number(t.as_str()) {
                    Some(n) => n,
                    None => self.backoff,
                },
                None => self.backoff,
            };
            self.attempt = self.attempt + 1;
            self.backoff = self.backoff * 4;
            TwirpStep::Retry(wait)
        } else {
            TwirpStep::Fail
        }
    }

    /// A call is never sent more than three times.
    pub proof fn law_attempts_bounded(&self)
        requires
            self.well_formed(),
        ensures
            1 <= self.attempt() <= 3,
    {
    }
}

/// Where to download an entry from, if the service has it.
pub fn download_from(ok: bool, signed_download_url: String) -> (r: Option<String>)
    ensures
        r is Some <==> ok && signed_download_url@.len() > 0,
        r matches Some(u) ==> u == signed_download_url,
{
    if !ok || signed_download_url.as_str().is_empty() {
        None
    } else {
        Some(signed_download_url)
    }
}

/// What to do after asking for a place to store an entry.
#[derive(Debug, PartialEq, Eq)]
pub enum StoreStep {
    /// Upload to the address.
    Upload(String),
    /// The entry is there, or another job makes it.
    Declined,
    Fail(GhaError),
}

/// What to do after asking for a place: the address and whether it was granted,
/// or why the call failed. Another holder of the entry is no failure: it holds
/// the same bytes.
pub fn reserved(reply: Result<(bool, String), GhaError>) -> (r: StoreStep)
    ensures
        r matches StoreStep::Upload(u) ==> (reply matches Ok(p) && p.0 && p.1@.len() > 0 && u == p.1),
        r is Declined <==> (match reply {
            Ok(p) => !p.0 || p.1@.len() == 0,
            Err(e) => e is Twirp && occurs_in(e->body@, "already_exists"@),
        }),
        r is Fail <==> reply is Err && !(reply->Err_0 is Twirp && occurs_in(reply->Err_0->body@, "already_exists"@)),
        r matches StoreStep::Fail(e) ==> e == reply->Err_0,
{
    match reply {
        Ok((ok, url)) => {
            if !ok || url.as_str().is_empty() {
                StoreStep::Declined
            } else {
                StoreStep::Upload(url)
            }
        },
        Err(e) => {
            let held: bool = match &e {
                GhaError::Twirp { method, status, body } => contains(body.as_str(), "already_exists"),
                _ => false,
            };
            if held {
                StoreStep::Declined
            } else {
                StoreStep::Fail(e)
            }
        },
    }
}

/// Whether an upload with the status can be finished, or why not.
pub fn uploaded(status: u16) -> (r: Result<(), GhaError>)
    ensures
        r is Ok <==> 200 <= status < 300,
        r matches Err(e) ==> (e matches GhaError::Twirp { method, status: s, body } && method@ == "blob upload"@ && s == status && body@.len() == 0),
{
    if 200 <= status && status < 300 {
        Ok(())
    } else {
        Err(GhaError::Twirp { method: owned("blob upload"), status, body: String::new() })
    }
}

/// A variable has the value of its first setting, and none if it is not set.
pub proof fn law_lookup(env: Seq<(String, String)>, name: Seq<char>)
    ensures
        lookup(env, name) is None <==> forall|i: int| 0 <= i < env.len() ==> (#[trigger] env[i]).0@ != name,
        forall|i: int| 0 <= i < env.len() && (#[trigger] env[i]).0@ == name && (forall|j: int| 0 <= j < i ==> (#[trigger] env[j]).0@ != name) ==> lookup(env, name) == Some(env[i].1@),
    decreases env.len(),
{
    if env.len() > 0 {
        let t = env.skip(1);
        law_lookup(t, name);
        if env[0].0@ != name {
            if lookup(t, name) is None {
                assert forall|i: int| 0 <= i < env.len() implies (#[trigger] env[i]).0@ != name by {
                    if i > 0 {
                        assert(t[i - 1] == env[i]);
                    }
                }
            } else {
                let k = choose|k: int| 0 <= k < t.len() && (#[trigger] t[k]).0@ == name;
                assert(env[k + 1] == t[k]);
            }
            assert forall|i: int| 0 <= i < env.len() && (#[trigger] env[i]).0@ == name && (forall|j: int| 0 <= j < i ==> (#[trigger] env[j]).0@ != name) implies lookup(env, name) == Some(env[i].1@) by {
                assert(i > 0);
                assert(t[i - 1] == env[i]);
                assert forall|j: int| 0 <= j < i - 1 implies (#[trigger] t[j]).0@ != name by {
                    assert(t[j] == env[j + 1]);
                }
            }
        }
    }
}

/// The digits of a number are read back as that number, with or without a plus
/// in front; nothing with another character is a number.
pub proof fn law_number(n: u64, s: Seq<char>, i: int)
    ensures
        number_of(crate::text::decimal(n as nat)) == Some(n),
        number_of(seq!['+'] + crate::text::decimal(n as nat)) == Some(n),
        number_of(Seq::<char>::empty()) is None,
        0 < i < s.len() && !('0' <= s[i] <= '9') ==> number_of(s) is None,
        s.len() > 0 && !('0' <= s[0] <= '9') && s[0] != '+' ==> number_of(s) is None,
{
    let d = crate::text::decimal(n as nat);
    crate::text::law_decimal(n as nat);
    lemma_digits_value(d);
    assert(d[0] != '+');
    let p = seq!['+'] + d;
    assert(p.skip(1) =~= d);
    if 0 < i < s.len() && !('0' <= s[i] <= '9') {
        let q = number_digits(s);
        if s[0] == '+' {
            assert(q[i - 1] == s[i]);
            assert(!is_digit(q[i - 1]));
        } else {
            assert(!is_digit(q[i]));
        }
    }
    if s.len() > 0 && !('0' <= s[0] <= '9') && s[0] != '+' {
        assert(!is_digit(number_digits(s)[0]));
    }
}

proof fn lemma_digits_value(s: Seq<char>)
    requires
        forall|i: int| 0 <= i < s.len() ==> '0' <= #[trigger] s[i] <= '9',
    ensures
        digits_value(s) == crate::text::decimal_value(s),
    decreases s.len(),
{
    if s.len() > 0 {
        let f = s.drop_last();
        assert forall|i: int| 0 <= i < f.len() implies '0' <= #[trigger] f[i] <= '9' by {
            assert(f[i] == s[i]);
        }
        lemma_digits_value(f);
        assert('0' <= s[s.len() - 1] <= '9');
    }
}

} // verus!
