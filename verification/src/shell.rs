//! Shell completions: which shell the user has, and where its completion script
//! goes.
use vstd::prelude::*;
use vstd::string::*;

use crate::config;
use crate::mapping;
use crate::path;
use crate::text;

verus! {

/// A shell that completions can be installed for.
#[derive(Debug, Clone, Copy, PartialEq, Eq, Structural)]
pub enum Shell {
    Zsh,
    Bash,
    Fish,
}

impl Shell {
    /// The shell's name.
    pub open spec fn title(self) -> Seq<char> {
        match self {
            Shell::Zsh => "zsh"@,
            Shell::Bash => "bash"@,
            Shell::Fish => "fish"@,
        }
    }

    /// The shell's name.
    pub fn name(&self) -> (r: &'static str)
        ensures
            r@ == self.title(),
    {
        match self {
            Shell::Zsh => "zsh",
            Shell::Bash => "bash",
            Shell::Fish => "fish",
        }
    }
}

/// The shell that a program's path stands for, by its last component.
pub open spec fn shell_at(program: Seq<char>) -> Option<Shell> {
    let parts = path::components(program);
    if parts.len() == 0 {
        None
    } else if parts.last() == "zsh"@ {
        Some(Shell::Zsh)
    } else if parts.last() == "bash"@ {
        Some(Shell::Bash)
    } else if parts.last() == "fish"@ {
        Some(Shell::Fish)
    } else {
        None
    }
}

/// The user's shell, from the value of `$SHELL`.
pub fn detect_shell(program: &str) -> (r: Option<Shell>)
    ensures
        r == shell_at(program@),
{
    let parts = path::components_of(program);
    assert(parts.deep_view().len() == parts@.len());
    if parts.len() == 0 {
        return None;
    }
    let last = parts[parts.len() - 1].as_str();
    assert(last@ == path::components(program@).last());
    if text::same(last, "zsh") {
        Some(Shell::Zsh)
    } else if text::same(last, "bash") {
        Some(Shell::Bash)
    } else if text::same(last, "fish") {
        Some(Shell::Fish)
    } else {
        None
    }
}

/// The user's data directory, from the value of `$XDG_DATA_HOME`.
pub open spec fn data_dir(xdg: Option<Seq<char>>, home: Seq<char>) -> Seq<char> {
    match config::filled(xdg) {
        Some(dir) => dir,
        None => path::joined(home, ".local/share"@),
    }
}

/// Where a shell looks for a user's completion script.
pub open spec fn script_path(shell: Shell, xdg: Option<Seq<char>>, home: Seq<char>) -> Seq<char> {
    match shell {
        Shell::Zsh => path::joined(data_dir(xdg, home), "zsh/site-functions/_dotsync"@),
        Shell::Bash => path::joined(
            data_dir(xdg, home),
            "bash-completion/completions/dotsync"@,
        ),
        Shell::Fish => path::joined(home, ".config/fish/completions/dotsync.fish"@),
    }
}

fn data_home(xdg: &Option<String>, home: &str) -> (r: String)
    ensures
        r@ == data_dir(xdg.deep_view(), home@),
{
    match config::non_empty(xdg) {
        Some(dir) => dir,
        None => path::join_path(home, ".local/share"),
    }
}

/// Where a shell looks for a user's completion script.
pub fn completion_path(shell: Shell, xdg: &Option<String>, home: &str) -> (r: String)
    ensures
        r@ == script_path(shell, xdg.deep_view(), home@),
{
    match shell {
        Shell::Zsh => path::join_path(
            data_home(xdg, home).as_str(),
            "zsh/site-functions/_dotsync",
        ),
        Shell::Bash => path::join_path(
            data_home(xdg, home).as_str(),
            "bash-completion/completions/dotsync",
        ),
        Shell::Fish => path::join_path(home, ".config/fish/completions/dotsync.fish"),
    }
}

/// What is said once a completion script is installed.
pub open spec fn installed_note(shell: Shell, xdg: Option<Seq<char>>, home: Seq<char>) -> Seq<
    char,
> {
    let note = "completions : installed for "@ + shell.title() + " → "@ + mapping::tilde_collapsed(
        script_path(shell, xdg, home),
        home,
    );
    match shell {
        Shell::Zsh => note + "\n         if completions don't show, add to ~/.zshrc: fpath+=("@
            + mapping::tilde_collapsed(data_dir(xdg, home), home) + "/zsh/site-functions)"@,
        _ => note,
    }
}

/// What is said once a completion script is installed.
pub fn completion_note(shell: Shell, xdg: &Option<String>, home: &str) -> (r: String)
    ensures
        r@ == installed_note(shell, xdg.deep_view(), home@),
{
    let at = completion_path(shell, xdg, home);
    let note = "completions : installed for ".to_owned().concat(shell.name()).concat(" → ").concat(
        mapping::collapse_tilde(at.as_str(), home).as_str(),
    );
    match shell {
        Shell::Zsh => note.concat(
            "\n         if completions don't show, add to ~/.zshrc: fpath+=(",
        ).concat(
            mapping::collapse_tilde(data_home(xdg, home).as_str(), home).as_str(),
        ).concat("/zsh/site-functions)"),
        _ => note,
    }
}

/// A shell is known by what its program is called, wherever the program lies.
pub proof fn law_a_shell_is_known_by_its_name(a: Seq<char>, b: Seq<char>)
    ensures
        path::components(a).len() > 0 && path::components(b).len() > 0 && path::components(a).last()
            == path::components(b).last() ==> shell_at(a) == shell_at(b),
        shell_at(a) matches Some(shell) ==> path::components(a).len() > 0 && path::components(
            a,
        ).last() == shell.title(),
        path::components(a).len() > 0 && (path::components(a).last() == "zsh"@ || path::components(
            a,
        ).last() == "bash"@ || path::components(a).last() == "fish"@) ==> shell_at(a) is Some,
{
}

/// Each shell's completions go where that shell looks for them: under the data
/// directory for zsh and bash, which a variable may set, and under the home
/// directory for fish, which no variable moves.
pub proof fn law_completions_go_where_the_shell_looks(
    xdg: Option<Seq<char>>,
    other: Option<Seq<char>>,
    home: Seq<char>,
)
    ensures
        script_path(Shell::Fish, xdg, home) == script_path(Shell::Fish, other, home),
        xdg matches Some(d) ==> d.len() > 0 ==> path::within(script_path(Shell::Zsh, xdg, home), d)
            && path::within(script_path(Shell::Bash, xdg, home), d),
        path::within(script_path(Shell::Fish, xdg, home), home),
{
    reveal_strlit("zsh/site-functions/_dotsync");
    reveal_strlit("bash-completion/completions/dotsync");
    reveal_strlit(".config/fish/completions/dotsync.fish");
    match xdg {
        Some(d) => {
            path::law_join_is_within(d, "zsh/site-functions/_dotsync"@);
            path::law_join_is_within(d, "bash-completion/completions/dotsync"@);
        },
        None => {},
    }
    path::law_join_is_within(home, ".config/fish/completions/dotsync.fish"@);
}

} // verus!
