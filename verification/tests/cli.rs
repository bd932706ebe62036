use dcs_get::cli::{Command, HelpReply, Invocation, ArgError, help_command, parse_args};

fn sv(xs: &[&str]) -> Vec<String> {
    xs.iter().map(|x| x.to_string()).collect()
}

#[test]
fn command_words_parse() {
    assert!(matches!(Command::from_str("help"), Ok(Command::Help)));
    assert!(matches!(Command::from_str("list"), Ok(Command::List)));
    assert!(matches!(Command::from_str("search"), Ok(Command::Search)));
    assert!(matches!(Command::from_str("install"), Ok(Command::Install)));
    assert!(matches!(Command::from_str("remove"), Ok(Command::Remove)));
    assert!(matches!(Command::from_str("gensymlinks"), Ok(Command::Gensymlinks)));
    assert!(matches!(Command::from_str("upload"), Ok(Command::Upload)));
    assert!(Command::from_str("frobnicate").is_err());
    assert!(Command::from_str("").is_err());
}

#[test]
fn help_with_no_args_shows_main() {
    assert!(matches!(help_command(&sv(&[])), HelpReply::Show { topic: None }));
}

#[test]
fn help_with_command_shows_its_usage() {
    match help_command(&sv(&["install"])) {
        HelpReply::Show { topic: Some(Command::Install) } => {},
        _ => panic!("expected the install usage"),
    }
}

#[test]
fn help_with_unknown_word_fails() {
    match help_command(&sv(&["nonsense"])) {
        HelpReply::UnknownCommand { word } => assert_eq!(word, "nonsense"),
        _ => panic!("expected an unknown-command reply"),
    }
}

#[test]
fn help_with_two_args_fails() {
    assert!(matches!(help_command(&sv(&["a", "b"])), HelpReply::TooManyArgs));
}

#[test]
fn install_args_strip_flags() {
    match parse_args(sv(&["install", "-v", "pkg1", "--dry-run", "pkg2"])) {
        Ok(Invocation::Install { verbose, dry_run, packages }) => {
            assert!(verbose);
            assert!(dry_run);
            assert_eq!(packages, sv(&["pkg1", "pkg2"]));
        },
        _ => panic!("expected an install invocation"),
    }
}

#[test]
fn install_rejects_unknown_options() {
    match parse_args(sv(&["install", "--bogus", "pkg"])) {
        Err(ArgError::InvalidOptions { words, remove_mode }) => {
            assert!(!remove_mode);
            assert_eq!(words, sv(&["--bogus"]));
        },
        _ => panic!("expected invalid options"),
    }
}

#[test]
fn remove_args_take_force_and_prune() {
    match parse_args(sv(&["remove", "-f", "-p", "pkg"])) {
        Ok(Invocation::Remove { verbose, dry_run, force, prune_deps, packages }) => {
            assert!(!verbose && !dry_run);
            assert!(force && prune_deps);
            assert_eq!(packages, sv(&["pkg"]));
        },
        _ => panic!("expected a remove invocation"),
    }
}

#[test]
fn version_flag_is_recognised() {
    assert!(matches!(parse_args(sv(&["--version"])), Ok(Invocation::Version)));
    assert!(matches!(parse_args(sv(&["-v"])), Ok(Invocation::Version)));
}

#[test]
fn unknown_command_is_reported() {
    match parse_args(sv(&["explode"])) {
        Err(ArgError::UnknownCommand { word }) => assert_eq!(word, "explode"),
        _ => panic!("expected an unknown command"),
    }
}

#[test]
fn search_needs_a_query() {
    assert!(matches!(parse_args(sv(&["search"])), Err(ArgError::MissingQuery)));
    match parse_args(sv(&["search", "vim"])) {
        Ok(Invocation::Search { query }) => assert_eq!(query, "vim"),
        _ => panic!("expected a search invocation"),
    }
}

#[test]
fn list_takes_a_type_filter() {
    match parse_args(sv(&["list", "--type", "editor"])) {
        Ok(Invocation::List { type_filter }) => assert_eq!(type_filter.as_deref(), Some("editor")),
        _ => panic!("expected a list invocation"),
    }
    assert!(matches!(parse_args(sv(&["list", "--type"])), Err(ArgError::MissingTypeValue)));
}
