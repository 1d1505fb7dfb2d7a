use projector::config::{Config, ConfigError, Operation};
use projector::opts::Opts;

fn defaults() -> (String, Option<String>) {
    ("/home/user/.config/projector/projector.json".to_string(), Some("/home/user".to_string()))
}

#[test]
fn test_print_all() {
    let (dc, dp) = defaults();
    let opts: Config = Config::try_from(
        Opts { config: None, pwd: None, args: vec![] },
        dc,
        dp,
    )
    .unwrap();

    assert_eq!(opts.operation, Operation::Print(None));
}

#[test]
fn test_print_key() {
    let (dc, dp) = defaults();
    let opts: Config = Config::try_from(
        Opts { config: None, pwd: None, args: vec!["foo".into()] },
        dc,
        dp,
    )
    .unwrap();

    assert_eq!(opts.operation, Operation::Print(Some("foo".into())));
}

#[test]
fn test_add_operation() {
    let (dc, dp) = defaults();
    let opts: Config = Config::try_from(
        Opts { config: None, pwd: None, args: vec!["add".into(), "k".into(), "v".into()] },
        dc,
        dp,
    )
    .unwrap();

    assert_eq!(opts.operation, Operation::Add("k".into(), "v".into()));
}

#[test]
fn test_remove_operation() {
    let (dc, dp) = defaults();
    let opts: Config = Config::try_from(
        Opts { config: None, pwd: None, args: vec!["rm".into(), "k".into()] },
        dc,
        dp,
    )
    .unwrap();

    assert_eq!(opts.operation, Operation::Remove("k".into()));
}

#[test]
fn test_add_arity_error() {
    let r = Operation::try_from(vec!["add".into(), "onlykey".into()]);
    assert_eq!(r, Err(ConfigError::AddArity));
    assert_eq!(
        ConfigError::AddArity.message(),
        "add command requires 2 arguments".to_string()
    );
}

#[test]
fn test_remove_arity_error() {
    let r = Operation::try_from(vec!["rm".into()]);
    assert_eq!(r, Err(ConfigError::RemoveArity));
    assert_eq!(
        ConfigError::RemoveArity.message(),
        "add command requires 1 arguments".to_string()
    );
}

#[test]
fn test_too_many_args_error() {
    let r = Operation::try_from(vec!["foo".into(), "bar".into()]);
    assert_eq!(r, Err(ConfigError::TooManyArgs));
    assert_eq!(ConfigError::TooManyArgs.message(), "too many arguments".to_string());
}

#[test]
fn test_pwd_unavailable_error() {
    let r = Config::try_from(
        Opts { config: None, pwd: None, args: vec![] },
        "/tmp/projector.json".to_string(),
        None,
    );
    match r {
        Err(e) => {
            assert_eq!(e, ConfigError::PwdUnavailable);
            assert_eq!(e.message(), "Error getting current directory".to_string());
        },
        Ok(_) => panic!("expected a missing working directory to be reported"),
    }
}

#[test]
fn test_explicit_overrides_win() {
    let opts: Config = Config::try_from(
        Opts {
            config: Some("/etc/projector.json".into()),
            pwd: Some("/work".into()),
            args: vec![],
        },
        "/home/user/.config/projector/projector.json".to_string(),
        Some("/home/user".to_string()),
    )
    .unwrap();
    assert_eq!(opts.config, "/etc/projector.json".to_string());
    assert_eq!(opts.pwd, "/work".to_string());
}
