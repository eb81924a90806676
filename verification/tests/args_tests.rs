use wallrustler::args::{find_wallpaper_path, process_args, CliOption, Error, WallSetterProgram};

fn strings(parts: &[&str]) -> Vec<String> {
    parts.iter().map(|s| String::from(*s)).collect()
}

#[test]
fn directory_and_interval() {
    let args = strings(&["--interval=30", "/pics"]);
    let r = process_args(&args, true, false, false).unwrap();
    assert_eq!(r, vec![CliOption::Path(String::from("/pics")), CliOption::Interval(30)]);
}

#[test]
fn directory_alone() {
    let args = strings(&["/pics"]);
    let r = process_args(&args, true, false, false).unwrap();
    assert_eq!(r, vec![CliOption::Path(String::from("/pics"))]);
}

#[test]
fn no_arguments_is_a_structure_error() {
    let r = process_args(&Vec::new(), true, false, false);
    assert_eq!(r, Err(Error::InvalidOptionsStructure));
}

#[test]
fn missing_directory_is_a_structure_error() {
    let args = strings(&["/not-a-dir"]);
    let r = process_args(&args, false, false, false);
    assert_eq!(r, Err(Error::InvalidOptionsStructure));
}

#[test]
fn help_flag_alone() {
    let args = strings(&["--help"]);
    let r = process_args(&args, false, false, false).unwrap();
    assert_eq!(r, vec![CliOption::PrintHelp]);
}

#[test]
fn print_state_flag() {
    let args = strings(&["--print-state", "/pics"]);
    let r = process_args(&args, true, false, false).unwrap();
    assert_eq!(r, vec![CliOption::Path(String::from("/pics")), CliOption::PrintState]);
}

#[test]
fn zero_interval_is_invalid() {
    let args = strings(&["--interval=0", "/pics"]);
    let r = process_args(&args, true, false, false);
    assert_eq!(r, Err(Error::InvalidOption(String::from("--interval=0"))));
}

#[test]
fn malformed_interval_is_invalid() {
    let args = strings(&["--interval=soon", "/pics"]);
    let r = process_args(&args, true, false, false);
    assert_eq!(r, Err(Error::InvalidOption(String::from("--interval=soon"))));
}

#[test]
fn interval_accepts_a_leading_plus() {
    let args = strings(&["--interval=+5", "/pics"]);
    let r = process_args(&args, true, false, false).unwrap();
    assert_eq!(r, vec![CliOption::Path(String::from("/pics")), CliOption::Interval(5)]);
}

#[test]
fn unknown_flag_is_invalid() {
    let args = strings(&["--loud", "/pics"]);
    let r = process_args(&args, true, false, false);
    assert_eq!(r, Err(Error::InvalidOption(String::from("--loud"))));
}

#[test]
fn first_bad_argument_decides_the_error() {
    let args = strings(&["--interval=0", "--loud", "/pics"]);
    let r = process_args(&args, true, false, false);
    assert_eq!(r, Err(Error::InvalidOption(String::from("--interval=0"))));
}

#[test]
fn swww_program_flag() {
    let args = strings(&["--program=swww", "/pics"]);
    let r = process_args(&args, true, false, false).unwrap();
    assert_eq!(r, vec![
        CliOption::Path(String::from("/pics")),
        CliOption::Program(WallSetterProgram::Swww),
    ]);
}

#[test]
fn program_match_goes_by_suffix() {
    let args = strings(&["--program=fancy-swww", "/pics"]);
    let r = process_args(&args, true, false, false).unwrap();
    assert_eq!(r, vec![
        CliOption::Path(String::from("/pics")),
        CliOption::Program(WallSetterProgram::Swww),
    ]);
}

#[test]
fn plasma_needs_a_kde_desktop() {
    let args = strings(&["--program=plasma-apply-wallpaperimage", "/pics"]);
    let r = process_args(&args, true, false, false);
    assert_eq!(
        r,
        Err(Error::UnavailableOption(String::from("plasma-apply-wallpaperimage")))
    );
    let ok = process_args(&args, true, true, false).unwrap();
    assert_eq!(ok, vec![
        CliOption::Path(String::from("/pics")),
        CliOption::Program(WallSetterProgram::Plasma),
    ]);
}

#[test]
fn hyprpaper_needs_a_hyprland_session() {
    let args = strings(&["--program=hyprpaper", "/pics"]);
    let r = process_args(&args, true, false, false);
    assert_eq!(r, Err(Error::UnavailableOption(String::from("hyprpaper"))));
    let ok = process_args(&args, true, false, true).unwrap();
    assert_eq!(ok, vec![
        CliOption::Path(String::from("/pics")),
        CliOption::Program(WallSetterProgram::Hyprpaper),
    ]);
}

#[test]
fn unknown_program_is_invalid() {
    let args = strings(&["--program=crayon", "/pics"]);
    let r = process_args(&args, true, false, false);
    assert_eq!(r, Err(Error::InvalidOption(String::from("--program=crayon"))));
}

#[test]
fn find_wallpaper_path_returns_first_path() {
    let opts = vec![
        CliOption::PrintState,
        CliOption::Path(String::from("/pics")),
        CliOption::Path(String::from("/other")),
    ];
    assert_eq!(find_wallpaper_path(&opts), Some(String::from("/pics")));
}

#[test]
fn find_wallpaper_path_without_path() {
    let opts = vec![CliOption::PrintHelp];
    assert_eq!(find_wallpaper_path(&opts), None);
}
