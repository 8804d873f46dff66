use keycache::cli::{find_equals, CliArgs, Filename};
use keycache::error::KeycacheError;
use keycache::keywrap::AuthLevel;
use std::path::Path;

fn argv(args: &[&str]) -> Vec<String> {
    args.iter().map(|arg| arg.to_string()).collect()
}

#[test]
fn the_first_equals_sign_is_found() {
    assert_eq!(find_equals("--seal=biometry"), Some(6));
    assert_eq!(find_equals("=x"), Some(0));
    assert_eq!(find_equals("a=b=c"), Some(1));
    assert_eq!(find_equals("né=1"), Some(2));
    assert_eq!(find_equals("name"), None);
    assert_eq!(find_equals(""), None);
}

#[test]
fn a_path_that_exists_is_taken_as_it_is() {
    assert_eq!(Filename::from("name".to_string(), true).as_str(), "name");
    assert_eq!(Filename::from("dir/name.txt".to_string(), true).as_str(), "dir/name.txt");
}

#[test]
fn a_path_with_an_extension_is_taken_as_it_is() {
    assert_eq!(Filename::from("name.keycache".to_string(), false).as_str(), "name.keycache");
    assert_eq!(Filename::from("dir/name.bin".to_string(), false).as_str(), "dir/name.bin");
}

#[test]
fn a_new_path_without_extension_gets_the_one_of_key_files() {
    let name = Filename::from("name".to_string(), false);
    assert_eq!(Path::new(name.as_str()), Path::new("name").with_extension(".keycache"));
    assert_ne!(name.as_str(), "name");
    assert!(name.as_str().starts_with("name."));
    assert!(name.as_str().ends_with(".keycache"));

    let hidden = Filename::from("dir/.hidden".to_string(), false);
    assert_eq!(Path::new(hidden.as_str()), Path::new("dir/.hidden").with_extension(".keycache"));
    assert!(hidden.as_str().ends_with(".keycache"));
}

#[test]
fn all_arguments_are_read_in_any_order() {
    let args = CliArgs::from_args(&argv(&["keycache", "--seal=interactive", "--userauth=1234", "key.keycache"]), false)
        .expect("valid arguments");
    assert_eq!(args.flag_userauth, Some("1234".to_string()));
    assert_eq!(args.flag_seal, Some(AuthLevel::Interactive));
    assert_eq!(args.name.as_str(), "key.keycache");

    let args = CliArgs::from_args(&argv(&["keycache", "key.keycache", "--userauth=1234", "--seal=biometry"]), true)
        .expect("valid arguments");
    assert_eq!(args.flag_userauth, Some("1234".to_string()));
    assert_eq!(args.flag_seal, Some(AuthLevel::Biometry));
    assert_eq!(args.name.as_str(), "key.keycache");
}

#[test]
fn the_name_alone_opens() {
    let args = CliArgs::from_args(&argv(&["keycache", "key.keycache"]), true).expect("valid arguments");
    assert_eq!(args.flag_userauth, None);
    assert_eq!(args.flag_seal, None);
    assert_eq!(args.name.as_str(), "key.keycache");
}

#[test]
fn the_programs_own_name_is_no_argument() {
    assert!(matches!(CliArgs::from_args(&argv(&["key.keycache"]), true), Err(KeycacheError::InvalidInput)));
    assert!(matches!(CliArgs::from_args(&argv(&[]), false), Err(KeycacheError::InvalidInput)));
    assert!(CliArgs::from_args(&argv(&["--seal=nonsense", "key.keycache"]), true).is_ok());
}

#[test]
fn a_token_may_hold_equals_signs() {
    let args = CliArgs::from_args(&argv(&["keycache", "--userauth=a=b=", "key.keycache"]), true)
        .expect("valid arguments");
    assert_eq!(args.flag_userauth, Some("a=b=".to_string()));
    let args = CliArgs::from_args(&argv(&["keycache", "--userauth=", "key.keycache"]), true)
        .expect("valid arguments");
    assert_eq!(args.flag_userauth, Some(String::new()));
}

#[test]
fn a_missing_name_is_invalid_input() {
    let args = CliArgs::from_args(&argv(&["keycache", "--seal=interactive"]), false);
    assert!(matches!(args, Err(KeycacheError::InvalidInput)));
}

#[test]
fn what_comes_twice_is_invalid_input() {
    for args in [
        vec!["keycache", "--userauth=1", "--userauth=2", "key"],
        vec!["keycache", "--seal=biometry", "key", "--seal=biometry"],
        vec!["keycache", "key", "other"],
    ] {
        assert!(matches!(CliArgs::from_args(&argv(&args), true), Err(KeycacheError::InvalidInput)), "{args:?}");
    }
}

#[test]
fn an_unknown_flag_or_level_is_invalid_input() {
    for args in [
        vec!["keycache", "--open=yes", "key"],
        vec!["keycache", "--seal=pin", "key"],
        vec!["keycache", "--seal=", "key"],
        vec!["keycache", "--Seal=interactive", "key"],
        vec!["keycache", "=", "key"],
        vec!["keycache", "key", "-userauth=1"],
    ] {
        assert!(matches!(CliArgs::from_args(&argv(&args), true), Err(KeycacheError::InvalidInput)), "{args:?}");
    }
}

#[test]
fn a_flag_without_equals_sign_is_the_name() {
    let args = CliArgs::from_args(&argv(&["keycache", "--seal"]), true).expect("valid arguments");
    assert_eq!(args.name.as_str(), "--seal");
}

#[test]
fn the_name_is_the_first_argument_without_equals_sign() {
    assert_eq!(CliArgs::name_argument(&argv(&["keycache", "--seal=biometry", "key", "other"])), Some(2));
    assert_eq!(CliArgs::name_argument(&argv(&["keycache", "key"])), Some(1));
    assert_eq!(CliArgs::name_argument(&argv(&["keycache", "--userauth=1"])), None);
    assert_eq!(CliArgs::name_argument(&argv(&["keycache"])), None);
    assert_eq!(CliArgs::name_argument(&argv(&[])), None);
}
