use declair::PathError;
use declair::paths::candidate_file_names;
use declair::paths::choose_base_directory;
use declair::paths::expand_tilde;
use declair::paths::join_path;
use declair::paths::resolve_nix_config;
use declair::paths::split_dir_prefix;
use declair::pkg::PackageInfo;
use declair::pkg::describe_package;
use declair::pkg::selected_package_name;
use declair::text::first_token;
use declair::text::str_starts_with;
use declair::text::tokenize;

#[test]
fn candidate_names_in_search_order() {
    let names = candidate_file_names();
    assert_eq!(
        names,
        vec![
            "configuration.nix".to_string(),
            "flake.nix".to_string(),
            "default.nix".to_string(),
            "home.nix".to_string(),
            "pkgs.nix".to_string(),
        ]
    );
}

#[test]
fn resolve_takes_a_file_path_as_it_is() {
    let flags = vec![false, false, false, false, false];
    let r = resolve_nix_config("/etc/nixos/configuration.nix", true, false, &flags);
    assert_eq!(r, Ok("/etc/nixos/configuration.nix".to_string()));
}

#[test]
fn resolve_picks_the_first_existing_candidate_in_a_directory() {
    let flags = vec![false, true, false, true, false];
    let r = resolve_nix_config("/etc/nixos", false, true, &flags);
    assert_eq!(r, Ok("/etc/nixos/flake.nix".to_string()));
}

#[test]
fn resolve_fails_when_no_candidate_exists() {
    let flags = vec![false, false, false, false, false];
    let r = resolve_nix_config("/etc/nixos", false, true, &flags);
    assert_eq!(r, Err(PathError::NoCandidateFound));
}

#[test]
fn resolve_fails_when_the_path_does_not_exist() {
    let flags = vec![false, false, false, false, false];
    let r = resolve_nix_config("/missing", false, false, &flags);
    assert_eq!(r, Err(PathError::PathNotFound));
}

#[test]
fn join_path_adds_one_separator() {
    assert_eq!(join_path("/etc/nixos", "flake.nix"), "/etc/nixos/flake.nix");
    assert_eq!(join_path("/etc/nixos/", "flake.nix"), "/etc/nixos/flake.nix");
}

#[test]
fn expand_tilde_joins_the_home_directory() {
    let r = expand_tilde("~/cfg/flake.nix", Some("/home/u"));
    assert_eq!(r, Ok("/home/u/cfg/flake.nix".to_string()));
}

#[test]
fn expand_tilde_strips_repeated_prefixes() {
    let r = expand_tilde("~/~/x", Some("/home/u"));
    assert_eq!(r, Ok("/home/u/x".to_string()));
}

#[test]
fn expand_tilde_keeps_plain_paths() {
    assert_eq!(expand_tilde("/etc/nixos", None), Ok("/etc/nixos".to_string()));
    assert_eq!(expand_tilde("~x", None), Ok("~x".to_string()));
}

#[test]
fn expand_tilde_fails_without_a_home_directory() {
    assert_eq!(expand_tilde("~/x", None), Err(PathError::HomeDirUnavailable));
}

#[test]
fn base_directory_prefers_the_repository_workdir() {
    let r = choose_base_directory("/a/b.nix", true, true, Some("/a"), false, Some("/a"));
    assert_eq!(r, Ok("/a".to_string()));
}

#[test]
fn base_directory_without_repository_uses_dir_or_parent() {
    let d = choose_base_directory("/a", true, false, None, true, None);
    assert_eq!(d, Ok("/a".to_string()));
    let p = choose_base_directory("/a/b.nix", true, false, None, false, Some("/a"));
    assert_eq!(p, Ok("/a".to_string()));
}

#[test]
fn base_directory_error_cases() {
    let missing = choose_base_directory("/a", false, false, None, true, None);
    assert_eq!(missing, Err(PathError::PathNotFound));
    let bare = choose_base_directory("/a/b.nix", true, true, None, false, Some("/a"));
    assert_eq!(bare, Err(PathError::RepoWithoutWorkdir));
    let orphan = choose_base_directory("x", true, false, None, false, None);
    assert_eq!(orphan, Err(PathError::ParentUnavailable));
}

#[test]
fn tokenize_splits_on_whitespace_runs() {
    assert_eq!(tokenize("  a \t b  "), vec!["a".to_string(), "b".to_string()]);
    assert_eq!(tokenize(""), Vec::<String>::new());
    assert_eq!(tokenize("   "), Vec::<String>::new());
}

#[test]
fn first_token_takes_the_leading_word() {
    assert_eq!(first_token("  git 2.43  description"), Some("git".to_string()));
    assert_eq!(first_token("   "), None);
}

#[test]
fn describe_package_formats_name_version_description() {
    let p = PackageInfo {
        pname: "git".to_string(),
        version: "2.43".to_string(),
        description: Some("a version control system".to_string()),
    };
    assert_eq!(describe_package(&p), "git 2.43: a version control system");
    let q = PackageInfo {
        pname: "vim".to_string(),
        version: "9".to_string(),
        description: None,
    };
    assert_eq!(describe_package(&q), "vim 9: ");
}

#[test]
fn selected_package_name_is_the_first_token_of_the_line() {
    let p = PackageInfo {
        pname: "git".to_string(),
        version: "2.43".to_string(),
        description: Some("a version control system".to_string()),
    };
    let line = describe_package(&p);
    assert_eq!(selected_package_name(&line), Some("git".to_string()));
}

#[test]
fn split_dir_prefix_cuts_at_the_last_slash() {
    assert_eq!(split_dir_prefix("/a/b/c"), ("/a/b/".to_string(), "c".to_string()));
    assert_eq!(split_dir_prefix("abc"), ("".to_string(), "abc".to_string()));
    assert_eq!(split_dir_prefix("a/"), ("a/".to_string(), "".to_string()));
}

#[test]
fn str_starts_with_matches_prefixes() {
    assert!(str_starts_with("configuration.nix", "conf"));
    assert!(!str_starts_with("conf", "configuration.nix"));
    assert!(str_starts_with("anything", ""));
}
