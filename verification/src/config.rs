//! Decisions taken from the command line and the environment.
use vstd::prelude::*;

verus! {

/// The user name: the value of `USER` when there is one, else `unknown`.
pub open spec fn user_text(env_user: Option<Seq<char>>) -> Seq<char> {
    match env_user {
        Some(u) => u,
        None => "unknown"@,
    }
}

/// Where the graveyard is: the command-line option, else `$GRAVEYARD`,
/// else `graveyard` inside `$XDG_DATA_HOME`, else `default_base` followed
/// by `-` and the user name.
pub open spec fn graveyard_text(
    cli: Option<Seq<char>>,
    env_graveyard: Option<Seq<char>>,
    env_xdg: Option<Seq<char>>,
    user: Seq<char>,
    default_base: Seq<char>,
) -> Seq<char> {
    match cli {
        Some(g) => g,
        None => match env_graveyard {
            Some(g) => g,
            None => match env_xdg {
                Some(x) => if x.len() > 0 && x.last() == '/' {
                    x + "graveyard"@
                } else {
                    x + seq!['/'] + "graveyard"@
                },
                None => default_base + seq!['-'] + user,
            },
        },
    }
}

/// The order of precedence of the graveyard's location: the command-line
/// option wins whatever else is set; then `$GRAVEYARD`, whatever
/// `$XDG_DATA_HOME` is; then `graveyard` inside `$XDG_DATA_HOME`, with one
/// separator between them; then the default base, `-` and the user name.
pub proof fn lemma_graveyard_precedence(
    cli: Option<Seq<char>>,
    env_graveyard: Option<Seq<char>>,
    env_xdg: Option<Seq<char>>,
    user: Seq<char>,
    default_base: Seq<char>,
)
    ensures
        cli is Some ==> graveyard_text(cli, env_graveyard, env_xdg, user, default_base) == cli->0,
        cli is None && env_graveyard is Some ==> graveyard_text(
            cli,
            env_graveyard,
            env_xdg,
            user,
            default_base,
        ) == env_graveyard->0,
        cli is None && env_graveyard is None && env_xdg is Some ==> graveyard_text(
            cli,
            env_graveyard,
            env_xdg,
            user,
            default_base,
        ) == env_xdg->0 + (if env_xdg->0.len() > 0 && env_xdg->0.last() == '/' {
            Seq::<char>::empty()
        } else {
            seq!['/']
        }) + "graveyard"@,
        cli is None && env_graveyard is None && env_xdg is None ==> graveyard_text(
            cli,
            env_graveyard,
            env_xdg,
            user,
            default_base,
        ) == default_base + seq!['-'] + user,
{
    if cli is None && env_graveyard is None && env_xdg is Some {
        let x = env_xdg->0;
        assert(x + Seq::<char>::empty() =~= x);
    }
}

pub open spec fn opt_view(o: Option<String>) -> Option<Seq<char>> {
    match o {
        Some(s) => Some(s@),
        None => None,
    }
}

/// The name of the current user, from the value of `USER` if it is set.
pub fn user_name(env_user: Option<String>) -> (u: String)
    ensures
        u@ == user_text(opt_view(env_user)),
{
    match env_user {
        Some(u) => u,
        None => "unknown".to_owned(),
    }
}

/// The graveyard directory, from the `--graveyard` option, the values of
/// `GRAVEYARD` and `XDG_DATA_HOME`, the user name and the default base.
pub fn graveyard_path(
    cli: Option<String>,
    env_graveyard: Option<String>,
    env_xdg: Option<String>,
    user: &str,
    default_base: &str,
) -> (g: String)
    ensures
        g@ == graveyard_text(
            opt_view(cli),
            opt_view(env_graveyard),
            opt_view(env_xdg),
            user@,
            default_base@,
        ),
        cli is Some ==> g@ == cli->0@,
        cli is None && env_graveyard is Some ==> g@ == env_graveyard->0@,
        cli is None && env_graveyard is None && env_xdg is Some ==> g@ == env_xdg->0@ + (
        if env_xdg->0@.len() > 0 && env_xdg->0@.last() == '/' {
            Seq::<char>::empty()
        } else {
            seq!['/']
        }) + "graveyard"@,
        cli is None && env_graveyard is None && env_xdg is None ==> g@ == default_base@ + seq!['-']
            + user@,
{
    proof {
        lemma_graveyard_precedence(
            opt_view(cli),
            opt_view(env_graveyard),
            opt_view(env_xdg),
            user@,
            default_base@,
        );
    }
    match cli {
        Some(g) => g,
        None => match env_graveyard {
            Some(g) => g,
            None => match env_xdg {
                Some(x) => {
                    let mut dir = x;
                    let v = crate::text::chars_of(dir.as_str());
                    if !(v.len() > 0 && v[v.len() - 1] == '/') {
                        dir.push('/');
                    }
                    dir.append("graveyard");
                    dir
                },
                None => {
                    let mut dir = default_base.to_owned();
                    dir.push('-');
                    dir.append(user);
                    dir
                },
            },
        },
    }
}

/// What one run does.
pub enum Mode {
    /// Permanently delete the whole graveyard.
    Decompose,
    /// Bring graves back to where they came from.
    Unbury,
    /// List the graves that came from under the current directory.
    Seance,
    /// Send the targets to the graveyard.
    Bury,
    /// Nothing was asked: print the usage hint.
    Usage,
}

/// The mode of a run, from which options were given: `--decompose` wins,
/// then `--unbury` (which `--seance` then feeds), then `--seance` alone,
/// then targets.
pub fn select_mode(decompose: bool, unbury: bool, seance: bool, has_targets: bool) -> (m: Mode)
    ensures
        decompose ==> m is Decompose,
        !decompose && unbury ==> m is Unbury,
        !decompose && !unbury && seance ==> m is Seance,
        !decompose && !unbury && !seance && has_targets ==> m is Bury,
        !decompose && !unbury && !seance && !has_targets ==> m is Usage,
{
    if decompose {
        Mode::Decompose
    } else if unbury {
        Mode::Unbury
    } else if seance {
        Mode::Seance
    } else if has_targets {
        Mode::Bury
    } else {
        Mode::Usage
    }
}

/// Files larger than this many bytes are big: before copying one across
/// file systems the user is offered to delete it instead.
pub const BIG_FILE_THRESHOLD: u64 = 500000000;

/// Whether a file of `len` bytes is big.
pub fn is_big_file(len: u64) -> (big: bool)
    ensures
        big == (len > BIG_FILE_THRESHOLD),
{
    len > BIG_FILE_THRESHOLD
}

/// Whether a typed answer to a yes/no prompt counts as a yes: its first
/// byte is `y` or `Y`.
pub fn is_affirmative(first: Option<u8>) -> (yes: bool)
    ensures
        yes == (first == Some(0x79u8) || first == Some(0x59u8)),
{
    match first {
        Some(c) => c == 0x79u8 || c == 0x59u8,
        None => false,
    }
}

} // verus!
