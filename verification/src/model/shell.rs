//! Supported shell types.
use vstd::prelude::*;

use crate::config::path_resolver::{config_dir_text, document_dir_text, home_dir_text, opt_text};
use crate::model::entry::chars_eq_str;
use crate::text::{contains_chars, contains_seq, lowercase, str_chars, string_from_str, to_lowercase};

verus! {

/// Supported shell types.
#[derive(Debug, Clone, Copy, PartialEq, Eq, Structural)]
pub enum ShellType {
    Bash,
    PowerShell,
}

pub open spec fn shell_name(t: ShellType) -> Seq<char> {
    match t {
        ShellType::Bash => "bash"@,
        ShellType::PowerShell => "pwsh"@,
    }
}

/// The shell a (lower-cased) name denotes, if any.
pub open spec fn shell_named(s: Seq<char>) -> Option<ShellType> {
    if s == "bash"@ {
        Some(ShellType::Bash)
    } else if s == "pwsh"@ || s == "powershell"@ {
        Some(ShellType::PowerShell)
    } else {
        None
    }
}

/// The shell named by the environment: `$SHELL` naming bash or PowerShell,
/// else PowerShell when `PSModulePath` is set, else the platform's default
/// (PowerShell on Windows with `COMSPEC` set, Bash on Unix).
pub open spec fn detected_shell(
    shell_env: Option<Seq<char>>,
    ps_module_path_set: bool,
    windows: bool,
    comspec_set: bool,
    unix: bool,
) -> Option<ShellType> {
    let from_shell = match shell_env {
        Some(s) => if contains_seq(s, "bash"@) {
            Some(ShellType::Bash)
        } else if contains_seq(s, "pwsh"@) || contains_seq(s, "powershell"@) {
            Some(ShellType::PowerShell)
        } else {
            None
        },
        None => None,
    };
    if from_shell.is_some() {
        from_shell
    } else if ps_module_path_set {
        Some(ShellType::PowerShell)
    } else if windows {
        if comspec_set {
            Some(ShellType::PowerShell)
        } else {
            None
        }
    } else if unix {
        Some(ShellType::Bash)
    } else {
        None
    }
}

/// How the shell is detected: `$SHELL` naming bash gives Bash whatever else
/// holds; naming PowerShell (and not bash) gives PowerShell; naming neither
/// counts as no `$SHELL` at all. Without it, `PSModulePath` gives
/// PowerShell; failing that, Windows gives PowerShell exactly when `COMSPEC`
/// is set, and a Unix platform gives Bash; on any other platform nothing is
/// detected.
pub proof fn law_shell_detection(
    s: Seq<char>,
    ps_module_path_set: bool,
    windows: bool,
    comspec_set: bool,
    unix: bool,
)
    ensures
        contains_seq(s, "bash"@) ==> detected_shell(Some(s), ps_module_path_set, windows, comspec_set, unix)
            == Some(ShellType::Bash),
        !contains_seq(s, "bash"@) && (contains_seq(s, "pwsh"@) || contains_seq(s, "powershell"@))
            ==> detected_shell(Some(s), ps_module_path_set, windows, comspec_set, unix) == Some(
            ShellType::PowerShell,
        ),
        !contains_seq(s, "bash"@) && !contains_seq(s, "pwsh"@) && !contains_seq(s, "powershell"@)
            ==> detected_shell(Some(s), ps_module_path_set, windows, comspec_set, unix) == detected_shell(
            None,
            ps_module_path_set,
            windows,
            comspec_set,
            unix,
        ),
        ps_module_path_set ==> detected_shell(None, ps_module_path_set, windows, comspec_set, unix) == Some(
            ShellType::PowerShell,
        ),
        !ps_module_path_set && windows ==> detected_shell(None, ps_module_path_set, windows, comspec_set, unix)
            == (if comspec_set {
            Some(ShellType::PowerShell)
        } else {
            None
        }),
        !ps_module_path_set && !windows && unix ==> detected_shell(
            None,
            ps_module_path_set,
            windows,
            comspec_set,
            unix,
        ) == Some(ShellType::Bash),
        !ps_module_path_set && !windows && !unix ==> detected_shell(
            None,
            ps_module_path_set,
            windows,
            comspec_set,
            unix,
        ).is_none(),
{
}

/// The text of an optional string slice.
pub open spec fn opt_str(o: Option<&str>) -> Option<Seq<char>> {
    match o {
        Some(s) => Some(s@),
        None => None,
    }
}

/// The directory `d`, or else the home directory, or else `~`.
pub open spec fn dir_or_home(d: Option<Seq<char>>, home: Option<Seq<char>>) -> Seq<char> {
    match d {
        Some(x) => x,
        None => match home {
            Some(h) => h,
            None => "~"@,
        },
    }
}

/// Where a shell's own configuration file is: a base directory and the
/// components joined to it in turn. Bash reads `.bashrc` in the home
/// directory. PowerShell reads `$PROFILE` when the environment has it, else
/// the path PowerShell itself reports, else `PowerShell/Microsoft.PowerShell_profile.ps1`
/// in the documents directory on Windows, and `powershell/Microsoft.PowerShell_profile.ps1`
/// in the configuration directory (or `~/.config`) elsewhere.
pub open spec fn config_location(
    shell: ShellType,
    home: Option<Seq<char>>,
    profile_env: Option<Seq<char>>,
    queried: Option<Seq<char>>,
    config_dir: Option<Seq<char>>,
    document_dir: Option<Seq<char>>,
    windows: bool,
) -> (Seq<char>, Seq<Seq<char>>) {
    match shell {
        ShellType::Bash => (dir_or_home(None, home), seq![".bashrc"@]),
        ShellType::PowerShell => match profile_env {
            Some(p) => (p, Seq::empty()),
            None => match queried {
                Some(q) => (q, Seq::empty()),
                None => if windows {
                    (
                        dir_or_home(document_dir, home),
                        seq!["PowerShell"@, "Microsoft.PowerShell_profile.ps1"@],
                    )
                } else {
                    match config_dir {
                        Some(c) => (c, seq!["powershell"@, "Microsoft.PowerShell_profile.ps1"@]),
                        None => (
                            dir_or_home(None, home),
                            seq![".config"@, "powershell"@, "Microsoft.PowerShell_profile.ps1"@],
                        ),
                    }
                },
            },
        },
    }
}

/// The texts of string slices.
pub open spec fn strs_text(v: Seq<&str>) -> Seq<Seq<char>> {
    Seq::new(v.len(), |i: int| v[i]@)
}

/// The directory `d`, or else the home directory, or else `~`.
fn dir_or_home_exec(d: Option<&str>, home: Option<&str>) -> (r: String)
    ensures
        r@ == dir_or_home(opt_str(d), opt_str(home)),
{
    match d {
        Some(x) => string_from_str(x),
        None => match home {
            Some(h) => string_from_str(h),
            None => string_from_str("~"),
        },
    }
}

impl ShellType {
    /// Where the shell's own configuration file is (see `config_location`),
    /// for the given directories and `$PROFILE` values.
    pub fn config_location_from(
        &self,
        home: Option<&str>,
        profile_env: Option<&str>,
        queried: Option<&str>,
        config_dir: Option<&str>,
        document_dir: Option<&str>,
        windows: bool,
    ) -> (r: (String, Vec<&'static str>))
        ensures
            (r.0@, strs_text(r.1@)) == config_location(
                *self,
                opt_str(home),
                opt_str(profile_env),
                opt_str(queried),
                opt_str(config_dir),
                opt_str(document_dir),
                windows,
            ),
    {
        let r: (String, Vec<&'static str>) = match self {
            ShellType::Bash => (dir_or_home_exec(None, home), vec![".bashrc"]),
            ShellType::PowerShell => match profile_env {
                Some(p) => (string_from_str(p), Vec::new()),
                None => match queried {
                    Some(q) => (string_from_str(q), Vec::new()),
                    None => if windows {
                        (
                            dir_or_home_exec(document_dir, home),
                            vec!["PowerShell", "Microsoft.PowerShell_profile.ps1"],
                        )
                    } else {
                        match config_dir {
                            Some(c) => (
                                string_from_str(c),
                                vec!["powershell", "Microsoft.PowerShell_profile.ps1"],
                            ),
                            None => (
                                dir_or_home_exec(None, home),
                                vec![".config", "powershell", "Microsoft.PowerShell_profile.ps1"],
                            ),
                        }
                    },
                },
            },
        };
        assert(strs_text(r.1@) =~= config_location(
            *self,
            opt_str(home),
            opt_str(profile_env),
            opt_str(queried),
            opt_str(config_dir),
            opt_str(document_dir),
            windows,
        ).1);
        r
    }

    /// Where the shell's own configuration file is, with the home, documents
    /// and configuration directories as the platform gives them; `$PROFILE`
    /// and the path PowerShell reports are handed in by the caller.
    pub fn default_config_location(
        &self,
        profile_env: Option<&str>,
        queried: Option<&str>,
        windows: bool,
    ) -> (r: (String, Vec<&'static str>))
        ensures
            exists|home: Option<Seq<char>>, config_dir: Option<Seq<char>>, document_dir: Option<Seq<char>>|
                (r.0@, strs_text(r.1@)) == config_location(
                    *self,
                    home,
                    opt_str(profile_env),
                    opt_str(queried),
                    config_dir,
                    document_dir,
                    windows,
                ),
    {
        let home = home_dir_text();
        let config_dir = config_dir_text();
        let document_dir = document_dir_text();
        let h = match &home {
            Some(x) => Some(x.as_str()),
            None => None,
        };
        let c = match &config_dir {
            Some(x) => Some(x.as_str()),
            None => None,
        };
        let d = match &document_dir {
            Some(x) => Some(x.as_str()),
            None => None,
        };
        let r = self.config_location_from(h, profile_env, queried, c, d, windows);
        assert(opt_str(h) == opt_text(home));
        assert(opt_str(c) == opt_text(config_dir));
        assert(opt_str(d) == opt_text(document_dir));
        r
    }

    /// Detect the shell type from what the environment holds: `$SHELL`,
    /// whether `PSModulePath` and `COMSPEC` are set, and the platform.
    pub fn detect_from(
        shell_env: Option<&str>,
        ps_module_path_set: bool,
        windows: bool,
        comspec_set: bool,
        unix: bool,
    ) -> (r: Option<ShellType>)
        ensures
            r == detected_shell(
                match shell_env {
                    Some(s) => Some(s@),
                    None => None,
                },
                ps_module_path_set,
                windows,
                comspec_set,
                unix,
            ),
    {
        match shell_env {
            Some(shell) => {
                let v = str_chars(shell);
                let bash = str_chars("bash");
                let pwsh = str_chars("pwsh");
                let powershell = str_chars("powershell");
                if contains_chars(v.as_slice(), bash.as_slice()) {
                    return Some(ShellType::Bash);
                }
                if contains_chars(v.as_slice(), pwsh.as_slice()) || contains_chars(
                    v.as_slice(),
                    powershell.as_slice(),
                ) {
                    return Some(ShellType::PowerShell);
                }
            },
            None => {},
        }
        if ps_module_path_set {
            return Some(ShellType::PowerShell);
        }
        if windows {
            if comspec_set {
                Some(ShellType::PowerShell)
            } else {
                None
            }
        } else if unix {
            Some(ShellType::Bash)
        } else {
            None
        }
    }

    /// Shell name as a string (also its `Display` text).
    pub fn name(&self) -> (r: &'static str)
        ensures
            r@ == shell_name(*self),
    {
        match self {
            ShellType::Bash => "bash",
            ShellType::PowerShell => "pwsh",
        }
    }

    /// The key under which the configuration lists this shell's files and
    /// snippets.
    pub fn config_key(&self) -> (r: &'static str)
        ensures
            r@ == match *self {
                ShellType::Bash => "bash"@,
                ShellType::PowerShell => "powershell"@,
            },
    {
        match self {
            ShellType::Bash => "bash",
            ShellType::PowerShell => "powershell",
        }
    }

    /// Parses a shell name, ignoring case.
    pub fn parse_name(s: &str) -> (r: Result<ShellType, String>)
        ensures
            match shell_named(lowercase(s@)) {
                Some(t) => r == Ok::<ShellType, String>(t),
                None => r matches Err(msg) && msg@ == "Unknown shell type: "@ + s@,
            },
    {
        let lower = to_lowercase(s);
        let l = str_chars(lower.as_str());
        if chars_eq_str(l.as_slice(), "bash") {
            Ok(ShellType::Bash)
        } else if chars_eq_str(l.as_slice(), "pwsh") || chars_eq_str(l.as_slice(), "powershell") {
            Ok(ShellType::PowerShell)
        } else {
            let mut msg = string_from_str("Unknown shell type: ");
            crate::text::push_str(&mut msg, s);
            Err(msg)
        }
    }
}

impl std::str::FromStr for ShellType {
    type Err = String;

    fn from_str(s: &str) -> (r: Result<Self, Self::Err>)
        ensures
            match shell_named(lowercase(s@)) {
                Some(t) => r == Ok::<ShellType, String>(t),
                None => r matches Err(msg) && msg@ == "Unknown shell type: "@ + s@,
            },
    {
        ShellType::parse_name(s)
    }
}

} // verus!
