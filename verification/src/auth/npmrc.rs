//! `.npmrc` configuration: authentication tokens and registry URLs.
//!
//! Token values may refer to environment variables (`${VAR}` or `$VAR`). The
//! environment is read by the caller and handed in as `(name, value)` pairs,
//! so that the parsing below depends on its arguments alone.

use vstd::prelude::*;
use vstd::utf8::valid_utf8;
use crate::text::{at_boundary, bytes, contains, contains_b, ends_with, ends_with_b, find_s,
    find_seq, lemma_after_ascii, lemma_ascii_prefix_boundary, lemma_find_s, lines,
    lines_from, next_line, ob, sb, slice, starts_with, starts_with_b, str_eq, to_owned_string,
    trim, trim_b};

verus! {

broadcast use vstd::utf8::encode_utf8_valid_utf8;

proof fn lit_auth_token()
    ensures
        sb("_authToken=") == seq![95u8, 97, 117, 116, 104, 84, 111, 107, 101, 110, 61],
{
    reveal_strlit("_authToken=");
    assert(vstd::string::is_ascii("_authToken="));
    assert(sb("_authToken=") =~= seq![95u8, 97, 117, 116, 104, 84, 111, 107, 101, 110, 61]);
}

proof fn lit_scoped_auth()
    ensures
        sb(":_authToken=") == seq![58u8, 95, 97, 117, 116, 104, 84, 111, 107, 101, 110, 61],
{
    reveal_strlit(":_authToken=");
    assert(vstd::string::is_ascii(":_authToken="));
    assert(sb(":_authToken=") =~= seq![58u8, 95, 97, 117, 116, 104, 84, 111, 107, 101, 110, 61]);
}

proof fn lit_slashes()
    ensures
        sb("//") == seq![47u8, 47],
{
    reveal_strlit("//");
    assert(vstd::string::is_ascii("//"));
    assert(sb("//") =~= seq![47u8, 47]);
}

proof fn lit_dollar_brace()
    ensures
        sb("${") == seq![36u8, 123],
{
    reveal_strlit("${");
    assert(vstd::string::is_ascii("${"));
    assert(sb("${") =~= seq![36u8, 123]);
}

proof fn lit_dollar()
    ensures
        sb("$") == seq![36u8],
{
    reveal_strlit("$");
    assert(vstd::string::is_ascii("$"));
    assert(sb("$") =~= seq![36u8]);
}

proof fn lit_registry()
    ensures
        sb("registry=") == seq![114u8, 101, 103, 105, 115, 116, 114, 121, 61],
{
    reveal_strlit("registry=");
    assert(vstd::string::is_ascii("registry="));
    assert(sb("registry=") =~= seq![114u8, 101, 103, 105, 115, 116, 114, 121, 61]);
}

/// A trimmed line that `.npmrc` treats as a comment.
pub open spec fn is_comment(t: Seq<u8>) -> bool {
    t.len() > 0 && (t[0] == 0x23 || t[0] == 0x3B)
}

/// The raw token value of an `_authToken=` line, if the line sets one.
pub open spec fn auth_token_b(line: Seq<u8>) -> Option<Seq<u8>> {
    if starts_with_b(line, sb("_authToken=")) {
        Some(trim_b(line.subrange(11, line.len() as int)))
    } else if starts_with_b(line, sb("//")) {
        match find_s(line, 0, sb(":_authToken=")) {
            Some(idx) => Some(trim_b(line.subrange(idx + 12, line.len() as int))),
            None => None,
        }
    } else {
        None
    }
}

/// The value of the variable `name` among `(name, value)` pairs: the first match.
pub open spec fn env_lookup(env: Seq<(String, String)>, name: Seq<u8>) -> Option<Seq<u8>>
    decreases env.len(),
{
    if env.len() == 0 {
        None
    } else if ob(&env[0].0) == name {
        Some(ob(&env[0].1))
    } else {
        env_lookup(env.drop_first(), name)
    }
}

/// A token value with `${VAR}` and `$VAR` references resolved; an empty
/// value, or a reference to an unset variable, gives nothing.
pub open spec fn resolve_b(v: Seq<u8>, env: Seq<(String, String)>) -> Option<Seq<u8>> {
    if starts_with_b(v, sb("${")) && ends_with_b(v.subrange(2, v.len() as int), seq![0x7Du8]) {
        env_lookup(env, v.subrange(2, v.len() - 1))
    } else if starts_with_b(v, sb("$")) && !contains_b(v.subrange(1, v.len() as int), seq![0x7Bu8]) {
        env_lookup(env, v.subrange(1, v.len() as int))
    } else if v.len() > 0 {
        Some(v)
    } else {
        None
    }
}

/// The token set by the first non-comment line that sets one.
pub open spec fn npmrc_token(ls: Seq<Seq<u8>>, env: Seq<(String, String)>) -> Option<Seq<u8>>
    decreases ls.len(),
{
    if ls.len() == 0 {
        None
    } else {
        let t = trim_b(ls[0]);
        if !is_comment(t) && auth_token_b(t) is Some {
            resolve_b(auth_token_b(t)->0, env)
        } else {
            npmrc_token(ls.drop_first(), env)
        }
    }
}

/// The URL of the first non-comment `registry=` line with a non-empty value.
pub open spec fn npmrc_registry(ls: Seq<Seq<u8>>) -> Option<Seq<u8>>
    decreases ls.len(),
{
    if ls.len() == 0 {
        None
    } else {
        let t = trim_b(ls[0]);
        if !is_comment(t) && starts_with_b(t, sb("registry=")) && trim_b(
            t.subrange(9, t.len() as int),
        ).len() > 0 {
            Some(trim_b(t.subrange(9, t.len() as int)))
        } else {
            npmrc_registry(ls.drop_first())
        }
    }
}

/// The raw token value of an `_authToken=` line.
///
/// Handles both `_authToken=TOKEN` and `//registry.example.com/:_authToken=TOKEN`.
pub fn extract_auth_token(line: &str) -> (r: Option<&str>)
    ensures
        match auth_token_b(sb(line)) {
            None => r is None,
            Some(t) => r matches Some(x) && sb(x) == t,
        },
{
    let b = bytes(line);
    let n = b.len();
    proof {
        lit_auth_token();
        lit_scoped_auth();
        lit_slashes();
    }
    if starts_with(b, "_authToken=".as_bytes()) {
        proof {
            lemma_ascii_prefix_boundary(b@, sb("_authToken="));
        }
        return Some(trim(slice(line, 11, n)));
    }
    if starts_with(b, "//".as_bytes()) {
        match find_seq(b, 0, ":_authToken=".as_bytes()) {
            Some(idx) => {
                proof {
                    lemma_find_s(b@, 0, sb(":_authToken="));
                    assert(b@[idx + 11] == b@.subrange(idx as int, idx + 12)[11]);
                    lemma_after_ascii(b@, idx + 11);
                }
                return Some(trim(slice(line, idx + 12, n)));
            },
            None => {
                return None;
            },
        }
    }
    None
}

pub(crate) fn env_lookup_exec(env: &[(String, String)], name: &str) -> (r: Option<String>)
    ensures
        match env_lookup(env@, sb(name)) {
            None => r is None,
            Some(v) => r matches Some(x) && ob(&x) == v,
        },
{
    let mut k: usize = 0;
    proof {
        assert(env@.skip(0) =~= env@);
    }
    while k < env.len()
        invariant
            k <= env@.len(),
            env_lookup(env@, sb(name)) == env_lookup(env@.skip(k as int), sb(name)),
        decreases env@.len() - k,
    {
        proof {
            assert(env@.skip(k as int).drop_first() =~= env@.skip(k + 1));
        }
        if str_eq(env[k].0.as_str(), name) {
            return Some(env[k].1.clone());
        }
        k = k + 1;
    }
    None
}

/// Resolve a token value against the given environment.
///
/// `${VAR}` and `$VAR` are looked up among the `(name, value)` pairs of
/// `env`; any other non-empty value is returned as it stands.
pub fn resolve_env_var(value: &str, env: &[(String, String)]) -> (r: Option<String>)
    ensures
        match resolve_b(sb(value), env@) {
            None => r is None,
            Some(v) => r matches Some(x) && ob(&x) == v,
        },
{
    let b = bytes(value);
    let n = b.len();
    let close: [u8; 1] = [0x7D];
    let open: [u8; 1] = [0x7B];
    proof {
        lit_dollar_brace();
        lit_dollar();
        assert(close@ =~= seq![0x7Du8]);
        assert(open@ =~= seq![0x7Bu8]);
    }
    if starts_with(b, "${".as_bytes()) {
        proof {
            lemma_ascii_prefix_boundary(b@, sb("${"));
        }
        let rest = slice(value, 2, n);
        if ends_with(bytes(rest), close.as_slice()) {
            proof {
                assert(b@[n - 1] == sb(rest)[sb(rest).len() - 1]);
            }
            let inner = slice(value, 2, n - 1);
            return env_lookup_exec(env, inner);
        }
    }
    if starts_with(b, "$".as_bytes()) {
        proof {
            lemma_ascii_prefix_boundary(b@, sb("$"));
        }
        let var_name = slice(value, 1, n);
        if !contains(bytes(var_name), open.as_slice()) {
            return env_lookup_exec(env, var_name);
        }
    }
    if n > 0 {
        Some(to_owned_string(value))
    } else {
        None
    }
}

/// The auth token of `.npmrc` content: the token of the first non-comment
/// line that sets one, resolved against `env`.
pub fn parse_token_from_content(content: &str, env: &[(String, String)]) -> (r: Option<String>)
    ensures
        match npmrc_token(lines(sb(content)), env@) {
            None => r is None,
            Some(v) => r matches Some(x) && ob(&x) == v,
        },
{
    let b = bytes(content);
    let n = b.len();
    let mut p: usize = 0;
    while p < n
        invariant
            n == b@.len(),
            b@ == sb(content),
            valid_utf8(b@),
            p <= n,
            at_boundary(b@, p as int),
            npmrc_token(lines(b@), env@) == npmrc_token(lines_from(b@, p as int), env@),
        decreases n - p,
    {
        let (ce, next) = next_line(b, p);
        let line = trim(slice(content, p, ce));
        let lb = bytes(line);
        if !(lb.len() > 0 && (lb[0] == 0x23 || lb[0] == 0x3B)) {
            match extract_auth_token(line) {
                Some(token) => {
                    return resolve_env_var(token, env);
                },
                None => {},
            }
        }
        proof {
            assert(lines_from(b@, p as int).drop_first() =~= lines_from(b@, next as int));
        }
        p = next;
    }
    None
}

/// The registry URL of `.npmrc` content: the first non-comment
/// `registry=URL` line with a non-empty URL.
pub fn parse_registry_from_content(content: &str) -> (r: Option<String>)
    ensures
        match npmrc_registry(lines(sb(content))) {
            None => r is None,
            Some(v) => r matches Some(x) && ob(&x) == v,
        },
{
    let b = bytes(content);
    let n = b.len();
    let mut p: usize = 0;
    proof {
        lit_registry();
    }
    while p < n
        invariant
            n == b@.len(),
            b@ == sb(content),
            valid_utf8(b@),
            p <= n,
            at_boundary(b@, p as int),
            sb("registry=") == seq![114u8, 101, 103, 105, 115, 116, 114, 121, 61],
            npmrc_registry(lines(b@)) == npmrc_registry(lines_from(b@, p as int)),
        decreases n - p,
    {
        let (ce, next) = next_line(b, p);
        let line = trim(slice(content, p, ce));
        let lb = bytes(line);
        if !(lb.len() > 0 && (lb[0] == 0x23 || lb[0] == 0x3B)) && starts_with(
            lb,
            "registry=".as_bytes(),
        ) {
            proof {
                lemma_ascii_prefix_boundary(lb@, sb("registry="));
            }
            let url = trim(slice(line, 9, lb.len()));
            if bytes(url).len() > 0 {
                return Some(to_owned_string(url));
            }
        }
        proof {
            assert(lines_from(b@, p as int).drop_first() =~= lines_from(b@, next as int));
        }
        p = next;
    }
    None
}

} // verus!
