use m3u_emu::cli::Cli;

fn cli(target: &str, destination: Option<&str>, children: bool) -> Cli {
    Cli {
        target: target.to_string(),
        destination: destination.map(|d| d.to_string()),
        relative: false,
        children,
        force: false,
        quiet: false,
        verbose: false,
    }
}

#[test]
fn validate_accepts_an_existing_directory() {
    assert_eq!(cli("/roms", None, false).validate(true, true), Ok(()));
    assert_eq!(cli("/roms", Some("/out"), false).validate(true, true), Ok(()));
    assert_eq!(cli("/roms", Some("/out"), true).validate(true, true), Ok(()));
}

#[test]
fn validate_wants_a_destination_for_children() {
    let expected = Err("the --children flag requires a DESTINATION".to_string());
    assert_eq!(cli("/roms", None, true).validate(true, true), expected);
    // This fault is reported before any fault of the target.
    assert_eq!(cli("/roms", None, true).validate(false, false), expected);
}

#[test]
fn validate_wants_the_target_to_exist() {
    assert_eq!(
        cli("/no/such", None, false).validate(false, false),
        Err("target directory does not exist: /no/such".to_string())
    );
    assert_eq!(
        cli("/no/such", Some("/out"), true).validate(false, true),
        Err("target directory does not exist: /no/such".to_string())
    );
}

#[test]
fn validate_wants_the_target_to_be_a_directory() {
    assert_eq!(
        cli("/roms/game.iso", None, false).validate(true, false),
        Err("target is not a directory: /roms/game.iso".to_string())
    );
}

#[test]
fn quiet_silences_progress_and_details() {
    let mut options = cli("/roms", None, false);
    assert!(options.reports_progress());
    assert!(!options.reports_details());
    options.verbose = true;
    assert!(options.reports_details());
    options.quiet = true;
    assert!(!options.reports_progress());
    assert!(!options.reports_details());
}
