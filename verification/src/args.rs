//! Command-line option parsing, on plain values.
//!
//! The caller collects the raw arguments, checks whether the trailing
//! directory argument exists on disk, and probes the environment for the
//! desktop in use; this module makes every parsing decision and is verified
//! against an exact description of the grammar.

use vstd::prelude::*;

use crate::strutil::{parse_u64, spec_parse_u64, str_eq, str_has_prefix, str_has_suffix};

verus! {

/// The wallpaper-setting programs a user can ask for on Linux.
#[derive(Clone, Copy, Debug, PartialEq, Eq)]
pub enum WallSetterProgram {
    Swww,
    Plasma,
    Hyprpaper,
}

/// One parsed command-line option.
#[derive(Debug, PartialEq)]
pub enum CliOption {
    Path(String),
    PrintState,
    PrintHelp,
    Interval(u64),
    Program(WallSetterProgram),
}

/// A rejected command line, with what was wrong about it.
#[derive(Debug, PartialEq)]
pub enum Error {
    InvalidOption(String),
    UnavailableOption(String),
    InvalidOptionsStructure,
}

/// What parsing one option argument must produce. `kde` says whether the
/// desktop was detected as KDE, `hypr` whether a Hyprland session is present;
/// the program options are only available under the matching environment.
pub open spec fn parsed_arg(
    arg: Seq<char>,
    kde: bool,
    hypr: bool,
    r: Result<CliOption, Error>,
) -> bool {
    if arg == "--print-state"@ {
        r == Result::<CliOption, Error>::Ok(CliOption::PrintState)
    } else if arg == "--help"@ {
        r == Result::<CliOption, Error>::Ok(CliOption::PrintHelp)
    } else if "--interval="@.is_prefix_of(arg) {
        match spec_parse_u64(arg.skip("--interval="@.len() as int)) {
            Some(m) => if m > 0 {
                r == Result::<CliOption, Error>::Ok(CliOption::Interval(m))
            } else {
                r matches Err(Error::InvalidOption(s)) && s@ == arg
            },
            None => r matches Err(Error::InvalidOption(s)) && s@ == arg,
        }
    } else if "--program="@.is_prefix_of(arg) {
        if "swww"@.is_suffix_of(arg) {
            r == Result::<CliOption, Error>::Ok(CliOption::Program(WallSetterProgram::Swww))
        } else if "plasma-apply-wallpaperimage"@.is_suffix_of(arg) {
            if kde {
                r == Result::<CliOption, Error>::Ok(CliOption::Program(WallSetterProgram::Plasma))
            } else {
                r matches Err(Error::UnavailableOption(s)) && s@ == "plasma-apply-wallpaperimage"@
            }
        } else if "hyprpaper"@.is_suffix_of(arg) {
            if hypr {
                r == Result::<CliOption, Error>::Ok(
                    CliOption::Program(WallSetterProgram::Hyprpaper),
                )
            } else {
                r matches Err(Error::UnavailableOption(s)) && s@ == "hyprpaper"@
            }
        } else {
            r matches Err(Error::InvalidOption(s)) && s@ == arg
        }
    } else {
        r matches Err(Error::InvalidOption(s)) && s@ == arg
    }
}

/// Whether parsing the argument succeeds.
pub open spec fn arg_ok(arg: Seq<char>, kde: bool, hypr: bool) -> bool {
    if arg == "--print-state"@ || arg == "--help"@ {
        true
    } else if "--interval="@.is_prefix_of(arg) {
        spec_parse_u64(arg.skip("--interval="@.len() as int)) matches Some(m) && m > 0
    } else if "--program="@.is_prefix_of(arg) {
        if "swww"@.is_suffix_of(arg) {
            true
        } else if "plasma-apply-wallpaperimage"@.is_suffix_of(arg) {
            kde
        } else if "hyprpaper"@.is_suffix_of(arg) {
            hypr
        } else {
            false
        }
    } else {
        false
    }
}

/// Parses one option argument.
fn parse_arg(arg: &String, kde: bool, hypr: bool) -> (r: Result<CliOption, Error>)
    ensures
        parsed_arg(arg@, kde, hypr, r),
        r is Ok <==> arg_ok(arg@, kde, hypr),
{
    let s = arg.as_str();
    proof {
        reveal_strlit("--interval=");
    }
    if str_eq(s, "--print-state") {
        return Ok(CliOption::PrintState);
    }
    if str_eq(s, "--help") {
        return Ok(CliOption::PrintHelp);
    }
    if str_has_prefix(s, "--interval=") {
        let len = s.unicode_len();
        let suffix = s.substring_char(11, len);
        proof {
            assert(suffix@ =~= arg@.skip("--interval="@.len() as int));
        }
        match parse_u64(suffix) {
            Some(m) => {
                if m > 0 {
                    return Ok(CliOption::Interval(m));
                } else {
                    return Err(Error::InvalidOption(arg.clone()));
                }
            },
            None => {
                return Err(Error::InvalidOption(arg.clone()));
            },
        }
    }
    if str_has_prefix(s, "--program=") {
        if str_has_suffix(s, "swww") {
            return Ok(CliOption::Program(WallSetterProgram::Swww));
        }
        if str_has_suffix(s, "plasma-apply-wallpaperimage") {
            if kde {
                return Ok(CliOption::Program(WallSetterProgram::Plasma));
            }
            let which = String::from_str("plasma-apply-wallpaperimage");
            return Err(Error::UnavailableOption(which));
        }
        if str_has_suffix(s, "hyprpaper") {
            if hypr {
                return Ok(CliOption::Program(WallSetterProgram::Hyprpaper));
            }
            let which = String::from_str("hyprpaper");
            return Err(Error::UnavailableOption(which));
        }
        return Err(Error::InvalidOption(arg.clone()));
    }
    Err(Error::InvalidOption(arg.clone()))
}

/// Parses the whole command line, already split into arguments.
///
/// The last argument names the watched directory unless it is the help flag;
/// `path_is_dir` says whether that directory exists on disk, a check the
/// caller makes. A missing argument list, or a directory argument that is no
/// directory, is a structural error; otherwise the remaining arguments are
/// parsed in order and the first bad one decides the error.
pub fn process_args(
    args: &Vec<String>,
    path_is_dir: bool,
    desktop_is_kde: bool,
    hyprland_present: bool,
) -> (r: Result<Vec<CliOption>, Error>)
    ensures
        args@.len() == 0 ==> r == Result::<Vec<CliOption>, Error>::Err(
            Error::InvalidOptionsStructure,
        ),
        args@.len() > 0 && args@[args@.len() - 1]@ != "--help"@ && !path_is_dir ==> r
            == Result::<Vec<CliOption>, Error>::Err(Error::InvalidOptionsStructure),
        args@.len() > 0 && args@[args@.len() - 1]@ != "--help"@ && path_is_dir ==> match r {
            Ok(opts) => {
                &&& opts@.len() == args@.len()
                &&& opts@[0] matches CliOption::Path(p) && p@ == args@[args@.len() - 1]@
                &&& forall|j: int|
                    1 <= j < args@.len() ==> parsed_arg(
                        args@[j - 1]@,
                        desktop_is_kde,
                        hyprland_present,
                        Result::<CliOption, Error>::Ok(#[trigger] opts@[j]),
                    )
            },
            Err(e) => exists|q: int|
                {
                    &&& 0 <= q < args@.len() - 1
                    &&& parsed_arg(
                        #[trigger] args@[q]@,
                        desktop_is_kde,
                        hyprland_present,
                        Result::<CliOption, Error>::Err(e),
                    )
                    &&& forall|j: int| 0 <= j < q ==> arg_ok(args@[j]@, desktop_is_kde, hyprland_present)
                },
        },
        args@.len() > 0 && args@[args@.len() - 1]@ == "--help"@ ==> match r {
            Ok(opts) => {
                &&& opts@.len() == args@.len()
                &&& forall|j: int|
                    0 <= j < args@.len() ==> parsed_arg(
                        args@[j]@,
                        desktop_is_kde,
                        hyprland_present,
                        Result::<CliOption, Error>::Ok(#[trigger] opts@[j]),
                    )
            },
            Err(e) => exists|q: int|
                {
                    &&& 0 <= q < args@.len()
                    &&& parsed_arg(
                        #[trigger] args@[q]@,
                        desktop_is_kde,
                        hyprland_present,
                        Result::<CliOption, Error>::Err(e),
                    )
                    &&& forall|j: int| 0 <= j < q ==> arg_ok(args@[j]@, desktop_is_kde, hyprland_present)
                },
        },
{
    let n = args.len();
    if n == 0 {
        return Err(Error::InvalidOptionsStructure);
    }
    let help_mode = str_eq(args[n - 1].as_str(), "--help");
    let mut options: Vec<CliOption> = Vec::new();
    if !help_mode {
        if !path_is_dir {
            return Err(Error::InvalidOptionsStructure);
        }
        options.push(CliOption::Path(args[n - 1].clone()));
        let mut i: usize = 0;
        while i < n - 1
            invariant
                0 <= i <= n - 1,
                n == args@.len(),
                args@[n - 1]@ != "--help"@,
                path_is_dir,
                options@.len() == i + 1,
                options@[0] matches CliOption::Path(p) && p@ == args@[n - 1]@,
                forall|j: int|
                    1 <= j < i + 1 ==> parsed_arg(
                        args@[j - 1]@,
                        desktop_is_kde,
                        hyprland_present,
                        Result::<CliOption, Error>::Ok(#[trigger] options@[j]),
                    ),
                forall|j: int| 0 <= j < i ==> arg_ok(args@[j]@, desktop_is_kde, hyprland_present),
            decreases n - 1 - i,
        {
            match parse_arg(&args[i], desktop_is_kde, hyprland_present) {
                Ok(o) => {
                    let ghost prev = options@;
                    let ghost ov = o;
                    options.push(o);
                    proof {
                        assert(options@[i + 1] == ov);
                        assert forall|j: int| 0 <= j < prev.len() implies options@[j] == prev[j] by {
                            assert(options@[j] == prev[j]);
                        }
                    }
                },
                Err(e) => {
                    proof {
                        assert(parsed_arg(
                            args@[i as int]@,
                            desktop_is_kde,
                            hyprland_present,
                            Result::<CliOption, Error>::Err(e),
                        ));
                    }
                    return Err(e);
                },
            }
            i = i + 1;
        }
        return Ok(options);
    }
    let mut i: usize = 0;
    while i < n
        invariant
            0 <= i <= n,
            n == args@.len(),
            args@[n - 1]@ == "--help"@,
            options@.len() == i,
            forall|j: int|
                0 <= j < i ==> parsed_arg(
                    args@[j]@,
                    desktop_is_kde,
                    hyprland_present,
                    Result::<CliOption, Error>::Ok(#[trigger] options@[j]),
                ),
            forall|j: int| 0 <= j < i ==> arg_ok(args@[j]@, desktop_is_kde, hyprland_present),
        decreases n - i,
    {
        match parse_arg(&args[i], desktop_is_kde, hyprland_present) {
            Ok(o) => {
                let ghost prev = options@;
                let ghost ov = o;
                options.push(o);
                proof {
                    assert(options@[i as int] == ov);
                    assert forall|j: int| 0 <= j < prev.len() implies options@[j] == prev[j] by {
                        assert(options@[j] == prev[j]);
                    }
                }
            },
            Err(e) => {
                proof {
                    assert(parsed_arg(
                        args@[i as int]@,
                        desktop_is_kde,
                        hyprland_present,
                        Result::<CliOption, Error>::Err(e),
                    ));
                }
                return Err(e);
            },
        }
        i = i + 1;
    }
    Ok(options)
}

/// The directory argument among the parsed options: the first `Path`, if any.
pub fn find_wallpaper_path(options: &Vec<CliOption>) -> (r: Option<String>)
    ensures
        match r {
            Some(p) => exists|k: int|
                {
                    &&& 0 <= k < options@.len()
                    &&& (#[trigger] options@[k]) matches CliOption::Path(q) && q@ == p@
                    &&& forall|j: int| 0 <= j < k ==> !(options@[j] is Path)
                },
            None => forall|j: int| 0 <= j < options@.len() ==> !(options@[j] is Path),
        },
{
    let n = options.len();
    let mut i: usize = 0;
    while i < n
        invariant
            0 <= i <= n,
            n == options@.len(),
            forall|j: int| 0 <= j < i ==> !(options@[j] is Path),
        decreases n - i,
    {
        match &options[i] {
            CliOption::Path(p) => {
                return Some(p.clone());
            },
            _ => {},
        }
        i = i + 1;
    }
    None
}

} // verus!
