use vstd::prelude::*;

use crate::text::push_char;

verus! {

/// `key` with the prefix `section_` turned into `section.`, if it has that
/// prefix.
pub open spec fn section_key(key: Seq<char>, section: Seq<char>) -> Option<Seq<char>> {
    let p = section.push('_');
    if p.len() <= key.len() && key.take(p.len() as int) == p {
        Some(section.push('.') + key.skip(p.len() as int))
    } else {
        None
    }
}

pub open spec fn website_section() -> Seq<char> {
    seq!['W', 'E', 'B', 'S', 'I', 'T', 'E']
}

pub open spec fn session_section() -> Seq<char> {
    seq!['S', 'E', 'S', 'S', 'I', 'O', 'N']
}

pub open spec fn logger_section() -> Seq<char> {
    seq!['L', 'O', 'G', 'G', 'E', 'R']
}

/// The configuration key an environment variable name maps to: the first
/// `_` after `WEBSITE`, `SESSION` or `LOGGER` at the start becomes a `.`;
/// any other name is kept.
pub open spec fn env_key(key: Seq<char>) -> Seq<char> {
    match section_key(key, website_section()) {
        Some(k) => k,
        None => match section_key(key, session_section()) {
            Some(k) => k,
            None => match section_key(key, logger_section()) {
                Some(k) => k,
                None => key,
            },
        },
    }
}

fn map_section(key: &str, section: &str) -> (r: Option<String>)
    ensures
        r matches Some(m) ==> section_key(key@, section@) == Some(m@),
        r is None ==> section_key(key@, section@) is None,
{
    let n = key.unicode_len();
    let m = section.unicode_len();
    if m >= n {
        return None;
    }
    let mut i: usize = 0;
    while i < m
        invariant
            m < n,
            n == key@.len(),
            m == section@.len(),
            i <= m,
            key@.take(i as int) == section@.take(i as int),
        decreases m - i,
    {
        if key.get_char(i) != section.get_char(i) {
            proof {
                assert(key@.take(m + 1)[i as int] != section@.push('_')[i as int]);
            }
            return None;
        }
        i = i + 1;
        proof {
            assert(key@.take(i as int) =~= section@.take(i as int));
        }
    }
    if key.get_char(m) != '_' {
        proof {
            assert(key@.take(m + 1)[m as int] != section@.push('_')[m as int]);
        }
        return None;
    }
    proof {
        assert(key@.take(m + 1) =~= section@.push('_'));
    }
    let mut r = section.to_owned();
    push_char(&mut r, '.');
    r.append(key.substring_char(m + 1, n));
    proof {
        assert(r@ =~= section@.push('.') + key@.skip(m + 1));
    }
    Some(r)
}

/// Maps an environment variable name onto a dotted configuration key:
/// `WEBSITE_X` becomes `WEBSITE.X`, and likewise for `SESSION_` and
/// `LOGGER_`; other names are kept as they are.
pub fn map_env_var(key: &str) -> (r: String)
    ensures
        r@ == env_key(key@),
{
    let website = "WEBSITE";
    let session = "SESSION";
    let logger = "LOGGER";
    proof {
        reveal_strlit("WEBSITE");
        reveal_strlit("SESSION");
        reveal_strlit("LOGGER");
        assert(website@ =~= website_section());
        assert(session@ =~= session_section());
        assert(logger@ =~= logger_section());
    }
    if let Some(m) = map_section(key, website) {
        m
    } else if let Some(m) = map_section(key, session) {
        m
    } else if let Some(m) = map_section(key, logger) {
        m
    } else {
        key.to_owned()
    }
}

/// The configuration files of a directory, in the order they are layered:
/// `default.toml`, `local.toml`, then `<run_mode>.toml` when a run mode is
/// set.
pub open spec fn config_files(run_mode: Option<Seq<char>>) -> Seq<Seq<char>> {
    let base = seq![
        seq!['d', 'e', 'f', 'a', 'u', 'l', 't', '.', 't', 'o', 'm', 'l'],
        seq!['l', 'o', 'c', 'a', 'l', '.', 't', 'o', 'm', 'l'],
    ];
    match run_mode {
        Some(m) => base.push(m + seq!['.', 't', 'o', 'm', 'l']),
        None => base,
    }
}

/// The names of the configuration files to layer, in order (see
/// `config_files`).
pub fn config_file_names(run_mode: &Option<String>) -> (r: Vec<String>)
    ensures
        r@.map_values(|s: String| s@) == config_files(
            match run_mode {
                Some(m) => Some(m@),
                None => None,
            },
        ),
{
    let default_file = "default.toml";
    let local_file = "local.toml";
    let extension = ".toml";
    proof {
        reveal_strlit("default.toml");
        reveal_strlit("local.toml");
        reveal_strlit(".toml");
        assert(default_file@ =~= seq!['d', 'e', 'f', 'a', 'u', 'l', 't', '.', 't', 'o', 'm', 'l']);
        assert(local_file@ =~= seq!['l', 'o', 'c', 'a', 'l', '.', 't', 'o', 'm', 'l']);
        assert(extension@ =~= seq!['.', 't', 'o', 'm', 'l']);
    }
    let mut names: Vec<String> = Vec::new();
    names.push(default_file.to_owned());
    names.push(local_file.to_owned());
    if let Some(m) = run_mode {
        let mut name = m.clone();
        name.append(extension);
        names.push(name);
    }
    proof {
        let ghost mode = match run_mode {
            Some(m) => Some(m@),
            None => None::<Seq<char>>,
        };
        assert(names@.map_values(|s: String| s@) =~= config_files(mode));
    }
    names
}

} // verus!
