use workspace_cache::cli::{parse, Command, ParseError};

fn args(words: &[&str]) -> Vec<String> {
    words.iter().map(|w| w.to_string()).collect()
}

fn command(words: &[&str]) -> Command {
    match parse(&args(words)) {
        Ok(cli) => cli.command,
        Err(_) => panic!("{words:?} should parse"),
    }
}

fn error(words: &[&str]) -> ParseError {
    match parse(&args(words)) {
        Ok(_) => panic!("{words:?} should not parse"),
        Err(e) => e,
    }
}

#[test]
fn deps_without_options() {
    match command(&["deps"]) {
        Command::Deps { bin, output, fast } => {
            assert!(bin.is_empty());
            assert_eq!(output, None);
            assert!(!fast);
        }
        _ => panic!("deps"),
    }
}

#[test]
fn deps_with_repeated_bins_output_and_fast() {
    match command(&["deps", "--bin", "user", "--bin=order", "-o", "my-cache", "--fast"]) {
        Command::Deps { bin, output, fast } => {
            assert_eq!(bin, args(&["user", "order"]));
            assert_eq!(output, Some("my-cache".to_string()));
            assert!(fast);
        }
        _ => panic!("deps"),
    }
    match command(&["deps", "-ocache"]) {
        Command::Deps { output, .. } => assert_eq!(output, Some("cache".to_string())),
        _ => panic!("deps"),
    }
    match command(&["deps", "-o=cache"]) {
        Command::Deps { output, .. } => assert_eq!(output, Some("cache".to_string())),
        _ => panic!("deps"),
    }
}

#[test]
fn build_with_release_and_bin() {
    match command(&["build", "--release", "--bin", "user"]) {
        Command::Build { release, bin } => {
            assert!(release);
            assert_eq!(bin, args(&["user"]));
        }
        _ => panic!("build"),
    }
}

#[test]
fn members_needs_a_bin() {
    assert!(matches!(error(&["members"]), ParseError::MissingRequired(n) if n == "bin"));
    match command(&["members", "--bin", "user"]) {
        Command::Members { bin } => assert_eq!(bin, args(&["user"])),
        _ => panic!("members"),
    }
}

#[test]
fn dockerfile_defaults() {
    match command(&["dockerfile", "--bin", "user"]) {
        Command::Dockerfile { bin, profile, from_git, tool_version, base_image, runtime_image, output, fast } => {
            assert_eq!(bin, "user");
            assert_eq!(profile, "release");
            assert!(!from_git);
            assert_eq!(tool_version, None);
            assert_eq!(base_image, "rust:1.94-bookworm");
            assert_eq!(runtime_image, "debian:bookworm-slim");
            assert_eq!(output, None);
            assert!(!fast);
        }
        _ => panic!("dockerfile"),
    }
}

#[test]
fn dockerfile_all_options() {
    let words = [
        "dockerfile", "--bin", "user", "--profile", "debug", "--from-git", "--tool-version", "0.1.0",
        "--base-image", "rust:1.80-alpine", "--runtime-image=alpine", "-o", "Dockerfile.debug", "--fast",
    ];
    match command(&words) {
        Command::Dockerfile { bin, profile, from_git, tool_version, base_image, runtime_image, output, fast } => {
            assert_eq!(bin, "user");
            assert_eq!(profile, "debug");
            assert!(from_git);
            assert_eq!(tool_version, Some("0.1.0".to_string()));
            assert_eq!(base_image, "rust:1.80-alpine");
            assert_eq!(runtime_image, "alpine");
            assert_eq!(output, Some("Dockerfile.debug".to_string()));
            assert!(fast);
        }
        _ => panic!("dockerfile"),
    }
}

#[test]
fn command_line_errors() {
    assert!(matches!(error(&[]), ParseError::MissingSubcommand));
    assert!(matches!(error(&["--help"]), ParseError::Help(None)));
    assert!(matches!(error(&["help"]), ParseError::Help(None)));
    assert!(matches!(error(&["-V"]), ParseError::Version));
    assert!(matches!(error(&["deps", "-h"]), ParseError::Help(Some(s)) if s == "deps"));
    assert!(matches!(error(&["plan"]), ParseError::UnknownSubcommand(s) if s == "plan"));
    assert!(matches!(error(&["resolve"]), ParseError::MissingRequired(s) if s == "bin"));
    assert!(matches!(error(&["--bin"]), ParseError::UnknownArgument(s) if s == "--bin"));
    assert!(matches!(error(&["deps", "--release"]), ParseError::UnknownArgument(s) if s == "--release"));
    assert!(matches!(error(&["build", "-o", "x"]), ParseError::UnknownArgument(s) if s == "-o"));
    assert!(matches!(error(&["deps", "user"]), ParseError::UnexpectedArgument(s) if s == "user"));
    assert!(matches!(error(&["deps", "--", "x"]), ParseError::UnexpectedArgument(s) if s == "x"));
    assert!(matches!(error(&["deps", "--bin"]), ParseError::MissingValue(s) if s == "bin"));
    assert!(matches!(error(&["deps", "--bin", "--fast"]), ParseError::MissingValue(s) if s == "bin"));
    assert!(matches!(error(&["deps", "--fast=yes"]), ParseError::UnexpectedValue(s) if s == "fast"));
    assert!(matches!(error(&["deps", "--fast", "--fast"]), ParseError::Repeated(s) if s == "fast"));
    assert!(matches!(error(&["dockerfile", "--bin", "a", "--bin", "b"]), ParseError::Repeated(s) if s == "bin"));
    assert!(matches!(error(&["dockerfile"]), ParseError::MissingRequired(s) if s == "bin"));
}

#[test]
fn trailing_double_dash_is_accepted() {
    assert!(matches!(command(&["build", "--"]), Command::Build { release: false, .. }));
}

#[test]
fn resolve_is_another_name_of_members() {
    match command(&["resolve", "--bin", "user"]) {
        Command::Members { bin } => assert_eq!(bin, vec!["user".to_string()]),
        _ => panic!("resolve should give the members command"),
    }
}
