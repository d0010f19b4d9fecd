use zfs_undelete::config::Config;
use zfs_undelete::configparser::{ConfigError, ConfigParser};
use zfs_undelete::mode::Mode;
use zfs_undelete::path::FsPath;

#[test]
fn parser_reads_flags_and_bindings() {
    let parser =
        ConfigParser::parse("LsCommand = exa\nLsArgs = -l -h\nSomeFlag\n").unwrap();
    assert!(parser.has_flag("SomeFlag"));
    assert!(!parser.has_flag("OtherFlag"));

    let mut command = String::new();
    parser.get_value_into("LsCommand", &mut command);
    assert_eq!(command, "exa");

    let mut missing = "untouched".to_string();
    parser.get_value_into("NoSuchKey", &mut missing);
    assert_eq!(missing, "untouched");

    let mut args: Vec<String> = vec!["old".to_string()];
    parser.get_values_into("LsArgs", &mut args);
    assert_eq!(args, vec!["-l".to_string(), "-h".to_string()]);
}

#[test]
fn binding_extraction_needs_a_separator() {
    let mut keys: Vec<String> = Vec::new();
    let mut values: Vec<String> = Vec::new();
    assert_eq!(
        zfs_undelete::configparser::extract_key_value_pair("no separator here", &mut keys, &mut values)
            .unwrap_err(),
        ConfigError::MissingSeparator
    );
    assert!(keys.is_empty());
    assert!(values.is_empty());
}

#[test]
fn duplicate_key_is_rejected() {
    assert_eq!(
        ConfigParser::parse("LsCommand = a\nLsCommand = b\n").unwrap_err(),
        ConfigError::DuplicateKey
    );
}

#[test]
fn defaults_apply_when_nothing_is_bound() {
    let config = Config::default();
    assert_eq!(config.ls_command, "ls");
    assert_eq!(config.ls_args, vec!["-hl".to_string()]);

    let parser = ConfigParser::parse("").unwrap();
    let filled = config.fill_from_parser(&parser).unwrap();
    assert_eq!(filled.ls_command, "ls");
    assert_eq!(filled.ls_args, vec!["-hl".to_string()]);
}

#[test]
fn bound_values_override_the_defaults() {
    let parser = ConfigParser::parse("LsCommand = exa\nLsArgs = -la --color\n").unwrap();
    let filled = Config::default().fill_from_parser(&parser).unwrap();
    assert_eq!(filled.ls_command, "exa");
    assert_eq!(filled.ls_args, vec!["-la".to_string(), "--color".to_string()]);
}

#[test]
fn empty_ls_command_is_rejected() {
    let parser = ConfigParser::parse("LsCommand =\n").unwrap();
    assert_eq!(
        Config::default().fill_from_parser(&parser).unwrap_err(),
        ConfigError::MissingValue
    );
}

#[test]
fn mode_is_taken_from_the_trailing_argument() {
    let mut args = vec!["file.txt".to_string(), "-V".to_string()];
    assert_eq!(Mode::get_from_args(&mut args), Mode::ChooseVersionInteractively);
    assert_eq!(args, vec!["file.txt".to_string()]);

    let mut args = vec!["file.txt".to_string()];
    assert_eq!(Mode::get_from_args(&mut args), Mode::MostRecentVersion);
    assert_eq!(args, vec!["file.txt".to_string()]);
}

#[test]
fn path_string_round_trip() {
    assert_eq!(FsPath::from_string("/a/b/c").to_path_string(), "/a/b/c");
    assert_eq!(FsPath::from_string("b/c").to_path_string(), "b/c");
    assert_eq!(FsPath::from_string("/").to_path_string(), "/");
    assert_eq!(FsPath::from_string("//a//b/").to_path_string(), "/a/b");
    assert_eq!(FsPath::from_string("").to_path_string(), "");
}
