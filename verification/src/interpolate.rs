use vstd::prelude::*;

use crate::config::{pairs_view, ApiConfig, ApiConfigView, Settings, SettingsView};

verus! {

/// Position of the first closing brace at or after `i`, or `s.len()` if
/// there is none.
pub open spec fn close_brace_from(s: Seq<char>, i: int) -> int
    decreases s.len() - i,
        when 0 <= i
{
    if i >= s.len() {
        s.len() as int
    } else if s[i] == '}' {
        i
    } else {
        close_brace_from(s, i + 1)
    }
}

proof fn lemma_close_brace_at(s: Seq<char>, from: int, j: int)
    requires
        0 <= from <= j <= s.len(),
        forall|k: int| from <= k < j ==> s[k] != '}',
        j == s.len() || s[j] == '}',
    ensures
        close_brace_from(s, from) == j,
    decreases j - from,
{
    if from < j {
        lemma_close_brace_at(s, from + 1, j);
    }
}

/// A placeholder `${NAME}` with a non-empty `NAME` (`NAME` holding no closing
/// brace) starts at position `i` of `s`.
pub open spec fn placeholder_at(s: Seq<char>, i: int) -> bool {
    let j = close_brace_from(s, i + 2);
    &&& 0 <= i
    &&& i + 1 < s.len()
    &&& s[i] == '$'
    &&& s[i + 1] == '{'
    &&& i + 2 < j
    &&& j < s.len()
}

/// The first binding of `name` in the environment, scanning from position
/// `k` on.
pub open spec fn env_lookup_from(
    env: Seq<(Seq<char>, Seq<char>)>,
    name: Seq<char>,
    k: int,
) -> Option<Seq<char>>
    decreases env.len() - k,
        when 0 <= k
{
    if k >= env.len() {
        None
    } else if env[k].0 == name {
        Some(env[k].1)
    } else {
        env_lookup_from(env, name, k + 1)
    }
}

/// The first binding of `name` in the environment, if any.
pub open spec fn env_lookup(env: Seq<(Seq<char>, Seq<char>)>, name: Seq<char>) -> Option<
    Seq<char>,
> {
    env_lookup_from(env, name, 0)
}

/// The interpolation of `s` from position `i` on: a placeholder whose name
/// the environment binds is replaced by the bound value, one whose name is
/// unbound stays as written, and every other character is copied.
pub open spec fn interp_from(s: Seq<char>, env: Seq<(Seq<char>, Seq<char>)>, i: int) -> Seq<char>
    decreases s.len() - i,
        when 0 <= i
{
    if i >= s.len() {
        Seq::empty()
    } else if placeholder_at(s, i) {
        let j = close_brace_from(s, i + 2);
        (match env_lookup(env, s.subrange(i + 2, j)) {
            Some(v) => v,
            None => s.subrange(i, j + 1),
        }) + interp_from(s, env, j + 1)
    } else {
        seq![s[i]] + interp_from(s, env, i + 1)
    }
}

/// The interpolation of a whole string against an environment.
pub open spec fn interp(s: Seq<char>, env: Seq<(Seq<char>, Seq<char>)>) -> Seq<char> {
    interp_from(s, env, 0)
}

/// The first value bound to `name`, if any, as the executable counterpart of
/// `env_lookup`.
fn env_get<'a>(env: &'a Vec<(String, String)>, name: &String) -> (r: Option<&'a String>)
    ensures
        match r {
            Some(v) => env_lookup(pairs_view(env@), name@) == Some(v@),
            None => env_lookup(pairs_view(env@), name@) is None,
        },
{
    let ghost ev = pairs_view(env@);
    let mut k: usize = 0;
    while k < env.len()
        invariant
            k <= env.len(),
            ev == pairs_view(env@),
            env_lookup_from(ev, name@, 0) == env_lookup_from(ev, name@, k as int),
        decreases env.len() - k,
    {
        if env[k].0 == *name {
            assert(ev[k as int].0 == name@);
            return Some(&env[k].1);
        }
        assert(ev[k as int].0 != name@);
        k += 1;
    }
    None
}

/// Replaces every `${NAME}` placeholder of `input` whose `NAME` the
/// environment binds by the bound value; a placeholder with an unbound name
/// is kept as written.
pub fn interpolate_string(input: &str, env: &Vec<(String, String)>) -> (out: String)
    ensures
        out@ == interp(input@, pairs_view(env@)),
{
    let ghost ev = pairs_view(env@);
    let ghost s = input@;
    let len = input.unicode_len();
    let mut out = String::new();
    let mut i: usize = 0;
    while i < len
        invariant
            len == s.len(),
            s == input@,
            i <= len,
            ev == pairs_view(env@),
            interp(s, ev) == out@ + interp_from(s, ev, i as int),
        decreases len - i,
    {
        let c = input.get_char(i);
        let mut plain = true;
        if c == '$' && i + 1 < len {
            if input.get_char(i + 1) == '{' {
                let mut j = i + 2;
                while j < len && input.get_char(j) != '}'
                    invariant
                        len == s.len(),
                        s == input@,
                        i + 2 <= j <= len,
                        forall|k: int| i + 2 <= k < j ==> s[k] != '}',
                    decreases len - j,
                {
                    j += 1;
                }
                proof {
                    lemma_close_brace_at(s, i + 2, j as int);
                }
                if j < len && j > i + 2 {
                    assert(placeholder_at(s, i as int));
                    let ghost pre = out@;
                    let name = input.substring_char(i + 2, j).to_owned();
                    match env_get(env, &name) {
                        Some(v) => {
                            out.append(v.as_str());
                        },
                        None => {
                            out.append(input.substring_char(i, j + 1));
                        },
                    }
                    proof {
                        let chunk = match env_lookup(ev, s.subrange(i as int + 2, j as int)) {
                            Some(v) => v,
                            None => s.subrange(i as int, j as int + 1),
                        };
                        assert(out@ == pre + chunk);
                        assert(interp_from(s, ev, i as int) == chunk + interp_from(
                            s,
                            ev,
                            j as int + 1,
                        ));
                        assert(pre + interp_from(s, ev, i as int) =~= out@ + interp_from(
                            s,
                            ev,
                            j as int + 1,
                        ));
                    }
                    i = j + 1;
                    plain = false;
                }
            }
        }
        if plain {
            assert(!placeholder_at(s, i as int));
            let ghost pre = out@;
            out.append(input.substring_char(i, i + 1));
            proof {
                assert(s.subrange(i as int, i as int + 1) =~= seq![s[i as int]]);
                assert(interp_from(s, ev, i as int) == seq![s[i as int]] + interp_from(
                    s,
                    ev,
                    i as int + 1,
                ));
                assert(pre + interp_from(s, ev, i as int) =~= out@ + interp_from(
                    s,
                    ev,
                    i as int + 1,
                ));
            }
            i = i + 1;
        }
    }
    proof {
        assert(out@ + interp_from(s, ev, len as int) =~= out@);
    }
    out
}

/// The values of a pair list after interpolation; the keys stay as they are.
pub open spec fn interp_pairs(
    ps: Seq<(Seq<char>, Seq<char>)>,
    env: Seq<(Seq<char>, Seq<char>)>,
) -> Seq<(Seq<char>, Seq<char>)> {
    ps.map_values(|p: (Seq<char>, Seq<char>)| (p.0, interp(p.1, env)))
}

/// Interpolates every value of a pair list in place, leaving the keys alone.
fn interpolate_pairs(pairs: &mut Vec<(String, String)>, env: &Vec<(String, String)>)
    ensures
        pairs_view(final(pairs)@) == interp_pairs(pairs_view((*old(pairs))@), pairs_view(env@)),
{
    let ghost ev = pairs_view(env@);
    let ghost orig = pairs_view((*old(pairs))@);
    let n = pairs.len();
    let mut k: usize = 0;
    while k < n
        invariant
            n == pairs.len(),
            k <= n,
            ev == pairs_view(env@),
            orig == pairs_view((*old(pairs))@),
            orig.len() == n,
            forall|m: int|
                0 <= m < k ==> #[trigger] pairs_view(pairs@)[m] == (
                    orig[m].0,
                    interp(orig[m].1, ev),
                ),
            forall|m: int| k <= m < n ==> #[trigger] pairs_view(pairs@)[m] == orig[m],
        decreases n - k,
    {
        let ghost pre = pairs@;
        proof {
            assert(pairs_view(pre)[k as int] == orig[k as int]);
        }
        let key = pairs[k].0.clone();
        let value = pairs[k].1.clone();
        let newval = interpolate_string(value.as_str(), env);
        pairs[k] = (key, newval);
        proof {
            assert(pairs@[k as int] == (key, newval));
            assert(pairs_view(pairs@)[k as int] == (key@, newval@));
            assert(key@ == orig[k as int].0);
            assert(newval@ == interp(orig[k as int].1, ev));
            assert(pairs_view(pairs@)[k as int] == (orig[k as int].0, interp(orig[k as int].1, ev)));
            assert forall|m: int| 0 <= m < n && m != k as int implies #[trigger] pairs_view(
                pairs@,
            )[m] == pairs_view(pre)[m] by {
                assert(pairs@[m] == pre[m]);
            }
        }
        k += 1;
    }
    proof {
        assert(pairs_view(pairs@) =~= interp_pairs(orig, ev));
    }
}

/// An endpoint after interpolation: its URL, inline body and header values
/// are interpolated; everything else stays.
pub open spec fn interp_api(a: ApiConfigView, env: Seq<(Seq<char>, Seq<char>)>) -> ApiConfigView {
    ApiConfigView {
        url: interp(a.url, env),
        body: match a.body {
            Some(b) => Some(interp(b, env)),
            None => None,
        },
        headers: interp_pairs(a.headers, env),
        ..a
    }
}

/// Interpolates one endpoint in place.
fn interpolate_api(api: &mut ApiConfig, env: &Vec<(String, String)>)
    ensures
        (*final(api))@ == interp_api((*old(api))@, pairs_view(env@)),
{
    let url = api.url.clone();
    api.url = interpolate_string(url.as_str(), env);
    let body = match &api.body {
        Some(b) => Some(b.clone()),
        None => None,
    };
    match body {
        Some(b) => {
            api.body = Some(interpolate_string(b.as_str(), env));
        },
        None => {},
    }
    interpolate_pairs(&mut api.headers, env);
    proof {
        assert(api@ =~~= interp_api((*old(api))@, pairs_view(env@)));
    }
}

/// A configuration after interpolation: the URL, inline body and header
/// values of every endpoint, and the values of the default headers, are
/// interpolated against the environment.
pub open spec fn interp_settings(s: SettingsView, env: Seq<(Seq<char>, Seq<char>)>) -> SettingsView {
    SettingsView {
        apis: s.apis.map_values(|a: ApiConfigView| interp_api(a, env)),
        http_default_headers: interp_pairs(s.http_default_headers, env),
        ..s
    }
}

/// Interpolates a whole configuration against an environment, handed in as a
/// list of variable bindings.
pub fn interpolate_config(settings: &mut Settings, env: &Vec<(String, String)>)
    ensures
        (*final(settings))@ == interp_settings((*old(settings))@, pairs_view(env@)),
{
    let ghost ev = pairs_view(env@);
    let ghost orig = (*old(settings))@;
    interpolate_pairs(&mut settings.http_default_headers, env);
    let n = settings.apis.len();
    let mut k: usize = 0;
    while k < n
        invariant
            n == settings.apis.len(),
            k <= n,
            ev == pairs_view(env@),
            orig == (*old(settings))@,
            orig.apis.len() == n,
            settings@.same_globals(
                SettingsView { http_default_headers: interp_pairs(orig.http_default_headers, ev), ..orig },
            ),
            forall|m: int|
                0 <= m < k ==> #[trigger] settings@.apis[m] == interp_api(orig.apis[m], ev),
            forall|m: int| k <= m < n ==> #[trigger] settings@.apis[m] == orig.apis[m],
        decreases n - k,
    {
        let ghost pre = settings@.apis;
        let ghost pre_vec = settings.apis@;
        proof {
            assert(pre[k as int] == orig.apis[k as int]);
        }
        interpolate_api(&mut settings.apis[k], env);
        proof {
            assert(settings.apis@[k as int]@ == interp_api(pre_vec[k as int]@, ev));
            assert(settings@.apis[k as int] == interp_api(orig.apis[k as int], ev));
            assert forall|m: int| 0 <= m < n && m != k as int implies #[trigger] settings@.apis[m]
                == pre[m] by {
                assert(settings.apis@[m] == pre_vec[m]);
            }
        }
        k += 1;
    }
    proof {
        assert(settings@ =~~= interp_settings(orig, ev));
    }
}

} // verus!
