//! Authentication support for private registries.
//!
//! Tokens are read from environment variables only; they are never stored in
//! settings and never shown in full. This module holds the token carrier and
//! the redaction used whenever a token has to be mentioned.

use vstd::prelude::*;
use vstd::string::StrSliceExecFns;
use vstd::string::StringExecFns;
use vstd::utf8::encode_utf8;
use crate::text::{bytes, ob, sb, starts_with, starts_with_b, str_eq};

pub mod cargo_credentials;
pub mod npmrc;

verus! {

/// Environment variable token provider.
///
/// Holds a token read from an environment variable at construction time and
/// provides Bearer authentication with it.
pub struct EnvTokenProvider {
    token: String,
}

impl EnvTokenProvider {
    /// The token this provider was created with.
    pub closed spec fn spec_token(&self) -> Seq<char> {
        self.token@
    }

    /// Create a new provider with the given token.
    pub fn new(token: String) -> (r: Self)
        ensures
            r.spec_token() == token@,
    {
        Self { token }
    }

    /// The value of the `Authorization` header this provider sends:
    /// `Bearer <token>`.
    pub fn authorization_value(&self) -> (r: String)
        ensures
            r@ == bearer_value(self.spec_token()),
    {
        let mut s = String::from_str("Bearer ");
        s.append(self.token.as_str());
        s
    }

    /// The headers for a request to `url` (any URL): the one `authorization`
    /// header with value `Bearer <token>`, or `None` when that value is not
    /// a valid HTTP header value.
    pub fn get_auth_headers(&self, url: &str) -> (r: Option<Vec<(String, String)>>)
        ensures
            match r {
                Some(h) => header_value_ok(encode_utf8(bearer_value(self.spec_token()))) && h@.len()
                    == 1 && h@[0].0@ == "authorization"@ && h@[0].1@ == bearer_value(
                    self.spec_token(),
                ),
                None => !header_value_ok(encode_utf8(bearer_value(self.spec_token()))),
            },
    {
        let value = self.authorization_value();
        let b = bytes(value.as_str());
        let mut i: usize = 0;
        while i < b.len()
            invariant
                i <= b@.len(),
                b@ == encode_utf8(value@),
                value@ == bearer_value(self.spec_token()),
                forall|k: int| 0 <= k < i ==> header_byte_ok(#[trigger] b@[k]),
            decreases b@.len() - i,
        {
            if !((b[i] >= 32 && b[i] != 127) || b[i] == 9) {
                proof {
                    assert(!header_byte_ok(b@[i as int]));
                }
                return None;
            }
            i = i + 1;
        }
        Some(vec![(String::from_str("authorization"), value)])
    }
}

/// The `Authorization` value of a Bearer token.
pub open spec fn bearer_value(token: Seq<char>) -> Seq<char> {
    "Bearer "@ + token
}

/// A byte that an HTTP header value may hold: a visible ASCII char, a
/// space, a tab, or any byte of 128 or more.
pub open spec fn header_byte_ok(x: u8) -> bool {
    (x >= 32 && x != 127) || x == 9
}

/// Every byte of `b` may stand in an HTTP header value.
pub open spec fn header_value_ok(b: Seq<u8>) -> bool {
    forall|k: int| 0 <= k < b.len() ==> header_byte_ok(#[trigger] b[k])
}

/// No-op provider for public registries: no authentication is applied.
pub struct NoAuthProvider;

impl NoAuthProvider {
    /// No headers, for any URL.
    pub fn get_auth_headers(&self, url: &str) -> (r: Option<Vec<(String, String)>>)
        ensures
            r is None,
    {
        None
    }
}

/// What a redacted token shows: `****` for tokens of at most four chars,
/// otherwise the first four chars followed by `...`.
pub open spec fn redacted(token: Seq<char>) -> Seq<char> {
    if token.len() <= 4 {
        "****"@
    } else {
        token.take(4) + "..."@
    }
}

/// The redacted form of a token, for safe logging.
///
/// Shows only the first few characters to help identify which token is in use
/// without exposing the full secret. Works on chars, not bytes, so multi-byte
/// tokens are never cut inside a char.
pub fn fmt_redact_token(token: &str) -> (r: String)
    ensures
        r@ == redacted(token@),
{
    if token.unicode_len() <= 4 {
        String::from_str("****")
    } else {
        let mut s = String::from_str(token.substring_char(0, 4));
        s.append("...");
        s
    }
}

/// A redacted token never shows more than its first four chars: it is
/// `****`, or the token's first four chars followed by `...`.
pub proof fn law_redaction_hides_rest(token: Seq<char>)
    ensures
        redacted(token).len() <= 7,
        token.len() > 4 ==> redacted(token).take(4) == token.take(4),
{
    reveal_strlit("****");
    reveal_strlit("...");
    if token.len() > 4 {
        assert((token.take(4) + "..."@).take(4) =~= token.take(4));
    }
}

/// The registered providers of a manager, by URL prefix.
pub open spec fn provider_map<P>(s: Seq<(String, P)>) -> Map<Seq<u8>, P>
    decreases s.len(),
{
    if s.len() == 0 {
        Map::empty()
    } else {
        provider_map(s.drop_last()).insert(ob(&s.last().0), s.last().1)
    }
}

/// No prefix is registered twice.
pub open spec fn prefixes_unique<P>(s: Seq<(String, P)>) -> bool {
    forall|i: int, j: int| 0 <= i < j < s.len() ==> ob(&#[trigger] s[i].0) != ob(&#[trigger] s[j].0)
}

proof fn lemma_provider_map_index<P>(s: Seq<(String, P)>)
    requires
        prefixes_unique(s),
    ensures
        forall|k: Seq<u8>| #[trigger] provider_map(s).dom().contains(k) <==> exists|i: int|
            0 <= i < s.len() && ob(&s[i].0) == k,
        forall|i: int| 0 <= i < s.len() ==> provider_map(s)[ob(&#[trigger] s[i].0)] == s[i].1,
    decreases s.len(),
{
    if s.len() > 0 {
        let p = s.drop_last();
        assert(prefixes_unique(p)) by {
            assert forall|i: int, j: int| 0 <= i < j < p.len() implies ob(&#[trigger] p[i].0) != ob(
                &#[trigger] p[j].0,
            ) by {
                assert(s[i] == p[i] && s[j] == p[j]);
            }
        }
        lemma_provider_map_index(p);
        assert forall|k: Seq<u8>| #[trigger] provider_map(s).dom().contains(k) implies exists|i: int|
            0 <= i < s.len() && ob(&s[i].0) == k by {
            if k != ob(&s.last().0) {
                assert(provider_map(p).dom().contains(k));
                let i = choose|i: int| 0 <= i < p.len() && ob(&p[i].0) == k;
                assert(s[i] == p[i]);
            } else {
                assert(s[s.len() - 1] == s.last());
            }
        }
        assert forall|k: Seq<u8>| (exists|i: int| 0 <= i < s.len() && ob(&s[i].0) == k) implies #[trigger] provider_map(
            s,
        ).dom().contains(k) by {
            let i = choose|i: int| 0 <= i < s.len() && ob(&s[i].0) == k;
            if i < s.len() - 1 {
                assert(s[i] == p[i]);
                assert(provider_map(p).dom().contains(k));
            }
        }
        assert forall|i: int| 0 <= i < s.len() implies provider_map(s)[ob(&#[trigger] s[i].0)]
            == s[i].1 by {
            if i < s.len() - 1 {
                assert(s[i] == p[i]);
                assert(ob(&s[i].0) != ob(&s[s.len() - 1].0));
            }
        }
    }
}

proof fn lemma_provider_map_update<P>(s: Seq<(String, P)>, i: int, k: String, v: P)
    requires
        prefixes_unique(s),
        0 <= i < s.len(),
        ob(&s[i].0) == ob(&k),
    ensures
        provider_map(s.update(i, (k, v))) == provider_map(s).insert(ob(&k), v),
        prefixes_unique(s.update(i, (k, v))),
    decreases s.len(),
{
    let t = s.update(i, (k, v));
    assert(prefixes_unique(t)) by {
        assert forall|a: int, b: int| 0 <= a < b < t.len() implies ob(&#[trigger] t[a].0) != ob(
            &#[trigger] t[b].0,
        ) by {
            assert(ob(&t[a].0) == ob(&s[a].0));
            assert(ob(&t[b].0) == ob(&s[b].0));
        }
    }
    let p = s.drop_last();
    if i == s.len() - 1 {
        assert(t.drop_last() =~= p);
        assert(provider_map(t) =~= provider_map(s).insert(ob(&k), v));
    } else {
        assert(prefixes_unique(p)) by {
            assert forall|a: int, b: int| 0 <= a < b < p.len() implies ob(&#[trigger] p[a].0) != ob(
                &#[trigger] p[b].0,
            ) by {
                assert(s[a] == p[a] && s[b] == p[b]);
            }
        }
        lemma_provider_map_update(p, i, k, v);
        assert(t.drop_last() =~= p.update(i, (k, v)));
        assert(ob(&s.last().0) != ob(&k)) by {
            assert(s[s.len() - 1] == s.last());
        }
        assert(provider_map(t) =~= provider_map(s).insert(ob(&k), v));
    }
}

/// The providers after registering `v` for `prefix`: refused unless the
/// prefix is an HTTPS URL, and replacing any provider of that prefix.
pub open spec fn registered<P>(m: Map<Seq<u8>, P>, prefix: Seq<u8>, v: P) -> Map<Seq<u8>, P> {
    if starts_with_b(prefix, sb("https://")) {
        m.insert(prefix, v)
    } else {
        m
    }
}

/// Whether `k` is the longest of the registered prefixes of `url`.
pub open spec fn is_best_prefix<P>(m: Map<Seq<u8>, P>, url: Seq<u8>, k: Seq<u8>) -> bool {
    &&& m.dom().contains(k)
    &&& starts_with_b(url, k)
    &&& forall|k2: Seq<u8>| #[trigger] m.dom().contains(k2) && starts_with_b(url, k2) ==> k2.len() <= k.len()
}

/// Associates registry URL prefixes with token providers: a request URL is
/// served by the provider with the longest matching prefix. Only HTTPS
/// prefixes are accepted, so that credentials never travel in clear text.
pub struct TokenProviderManager<P> {
    providers: Vec<(String, P)>,
}

impl<P> TokenProviderManager<P> {
    /// The registered providers, by URL prefix.
    pub closed spec fn providers(&self) -> Map<Seq<u8>, P> {
        provider_map(self.providers@)
    }

    /// The manager's invariant: one provider per prefix.
    pub closed spec fn wf(&self) -> bool {
        prefixes_unique(self.providers@)
    }

    /// A manager without providers.
    pub fn new() -> (r: Self)
        ensures
            r.wf(),
            r.providers() == Map::<Seq<u8>, P>::empty(),
    {
        TokenProviderManager { providers: Vec::new() }
    }

    /// Register a provider for a URL prefix, replacing any provider it had.
    /// A prefix that does not start with `https://` is refused and nothing
    /// changes.
    pub fn register(&mut self, url_prefix: String, provider: P)
        requires
            old(self).wf(),
        ensures
            final(self).wf(),
            final(self).providers() == registered(old(self).providers(), ob(&url_prefix), provider),
    {
        if !starts_with(bytes(url_prefix.as_str()), bytes("https://")) {
            return;
        }
        let ghost s = self.providers@;
        let mut i: usize = 0;
        while i < self.providers.len()
            invariant
                i <= self.providers@.len(),
                s == self.providers@,
                prefixes_unique(s),
                s == old(self).providers@,
                starts_with_b(ob(&url_prefix), sb("https://")),
                forall|j: int| 0 <= j < i ==> ob(&#[trigger] s[j].0) != ob(&url_prefix),
            decreases self.providers@.len() - i,
        {
            if str_eq(self.providers[i].0.as_str(), url_prefix.as_str()) {
                proof {
                    assert(ob(&s[i as int].0) == ob(&url_prefix));
                    lemma_provider_map_update(s, i as int, url_prefix, provider);
                }
                self.providers[i] = (url_prefix, provider);
                return;
            }
            i = i + 1;
        }
        let ghost k = ob(&url_prefix);
        self.providers.push((url_prefix, provider));
        proof {
            let t = self.providers@;
            assert(t.drop_last() =~= s);
            assert(prefixes_unique(t)) by {
                assert forall|a: int, b: int| 0 <= a < b < t.len() implies ob(&#[trigger] t[a].0) != ob(
                    &#[trigger] t[b].0,
                ) by {
                    if b == t.len() - 1 {
                        assert(t[a] == s[a]);
                    } else {
                        assert(t[a] == s[a] && t[b] == s[b]);
                    }
                }
            }
        }
    }

    /// Whether a provider is registered for exactly this prefix.
    pub fn has_provider(&self, url_prefix: &str) -> (r: bool)
        requires
            self.wf(),
        ensures
            r == self.providers().dom().contains(sb(url_prefix)),
    {
        let mut i: usize = 0;
        while i < self.providers.len()
            invariant
                i <= self.providers@.len(),
                self.wf(),
                forall|j: int| 0 <= j < i ==> ob(&#[trigger] self.providers@[j].0) != sb(url_prefix),
            decreases self.providers@.len() - i,
        {
            if str_eq(self.providers[i].0.as_str(), url_prefix) {
                proof {
                    assert(ob(&self.providers@[i as int].0) == sb(url_prefix));
                    lemma_provider_map_index(self.providers@);
                }
                return true;
            }
            i = i + 1;
        }
        proof {
            lemma_provider_map_index(self.providers@);
        }
        false
    }

    /// The number of registered providers.
    pub fn provider_count(&self) -> (r: usize)
        requires
            self.wf(),
        ensures
            r == self.providers().dom().len(),
    {
        proof {
            lemma_provider_count(self.providers@);
        }
        self.providers.len()
    }

    /// The provider for a request URL: the one with the longest registered
    /// prefix of `url`, or none when no prefix matches.
    pub fn provider_for(&self, url: &str) -> (r: Option<&P>)
        requires
            self.wf(),
        ensures
            match r {
                Some(p) => exists|k: Seq<u8>| is_best_prefix(self.providers(), sb(url), k)
                    && self.providers()[k] == *p,
                None => forall|k: Seq<u8>| #[trigger] self.providers().dom().contains(k)
                    ==> !starts_with_b(sb(url), k),
            },
    {
        let ghost s = self.providers@;
        proof {
            lemma_provider_map_index(s);
        }
        let mut best: Option<usize> = None;
        let mut i: usize = 0;
        while i < self.providers.len()
            invariant
                i <= s.len(),
                s == self.providers@,
                match best {
                    Some(b) => b < i && starts_with_b(sb(url), ob(&s[b as int].0)) && forall|j: int|
                        0 <= j < i && starts_with_b(sb(url), ob(&#[trigger] s[j].0)) ==> ob(
                        &s[j].0,
                    ).len() <= ob(&s[b as int].0).len(),
                    None => forall|j: int| 0 <= j < i ==> !starts_with_b(sb(url), ob(&#[trigger] s[j].0)),
                },
            decreases s.len() - i,
        {
            let prefix = self.providers[i].0.as_str();
            if starts_with(bytes(url), bytes(prefix)) {
                match best {
                    None => {
                        best = Some(i);
                    },
                    Some(b) => {
                        if bytes(prefix).len() > bytes(self.providers[b].0.as_str()).len() {
                            best = Some(i);
                        }
                    },
                }
            }
            i = i + 1;
        }
        match best {
            None => {
                proof {
                    assert forall|k: Seq<u8>| #[trigger] self.providers().dom().contains(k) implies !starts_with_b(
                        sb(url),
                        k,
                    ) by {
                        let j = choose|j: int| 0 <= j < s.len() && ob(&s[j].0) == k;
                    }
                }
                None
            },
            Some(b) => {
                proof {
                    let k = ob(&s[b as int].0);
                    assert forall|k2: Seq<u8>| #[trigger] self.providers().dom().contains(k2) && starts_with_b(
                        sb(url),
                        k2,
                    ) implies k2.len() <= k.len() by {
                        let j = choose|j: int| 0 <= j < s.len() && ob(&s[j].0) == k2;
                    }
                    assert(is_best_prefix(self.providers(), sb(url), k));
                }
                Some(&self.providers[b].1)
            },
        }
    }
}

proof fn lemma_provider_count<P>(s: Seq<(String, P)>)
    requires
        prefixes_unique(s),
    ensures
        provider_map(s).dom().len() == s.len(),
        provider_map(s).dom().finite(),
    decreases s.len(),
{
    if s.len() > 0 {
        let p = s.drop_last();
        assert(prefixes_unique(p)) by {
            assert forall|i: int, j: int| 0 <= i < j < p.len() implies ob(&#[trigger] p[i].0) != ob(
                &#[trigger] p[j].0,
            ) by {
                assert(s[i] == p[i] && s[j] == p[j]);
            }
        }
        lemma_provider_count(p);
        lemma_provider_map_index(p);
        assert(!provider_map(p).dom().contains(ob(&s.last().0))) by {
            if provider_map(p).dom().contains(ob(&s.last().0)) {
                let i = choose|i: int| 0 <= i < p.len() && ob(&p[i].0) == ob(&s.last().0);
                assert(s[i] == p[i]);
                assert(s[s.len() - 1] == s.last());
            }
        }
    }
}

/// Every registered prefix is an HTTPS URL: registration keeps this true.
pub proof fn law_only_https_registered<P>(m: Map<Seq<u8>, P>, prefix: Seq<u8>, v: P)
    requires
        forall|k: Seq<u8>| #[trigger] m.dom().contains(k) ==> starts_with_b(k, sb("https://")),
    ensures
        forall|k: Seq<u8>| #[trigger] registered(m, prefix, v).dom().contains(k) ==> starts_with_b(
            k,
            sb("https://"),
        ),
{
}

/// A provider just registered serves the URLs under its prefix, unless a
/// longer registered prefix also matches.
pub proof fn law_registered_provider_serves<P>(m: Map<Seq<u8>, P>, prefix: Seq<u8>, v: P, url: Seq<u8>)
    requires
        starts_with_b(prefix, sb("https://")),
        starts_with_b(url, prefix),
        forall|k: Seq<u8>| #[trigger] m.dom().contains(k) && starts_with_b(url, k) ==> k.len() <= prefix.len(),
    ensures
        is_best_prefix(registered(m, prefix, v), url, prefix),
        registered(m, prefix, v)[prefix] == v,
{
}

} // verus!
