use fileagg::cli::{default_options, effective_command, effective_extensions, AppCommand, Cli, Options};

#[test]
fn no_subcommand_means_aggregate_with_defaults() {
    let cli = Cli { command: None };
    match effective_command(cli) {
        AppCommand::Aggregate { options } => {
            assert!(options.path.is_none());
            assert!(options.extensions.is_none());
        },
        AppCommand::Distribute { .. } => panic!("expected the aggregate default"),
    }
}

#[test]
fn given_subcommand_is_kept() {
    let cli = Cli {
        command: Some(AppCommand::Distribute {
            options: Options { path: Some(b"/tmp/x".to_vec()), extensions: None },
        }),
    };
    match effective_command(cli) {
        AppCommand::Distribute { options } => {
            assert_eq!(options.path, Some(b"/tmp/x".to_vec()));
        },
        AppCommand::Aggregate { .. } => panic!("expected the given subcommand"),
    }
}

#[test]
fn missing_extensions_mean_no_filter() {
    assert!(effective_extensions(None).is_empty());
    let given = vec![b"txt".to_vec()];
    assert_eq!(effective_extensions(Some(given.clone())), given);
}

#[test]
fn default_options_are_empty() {
    let o = default_options();
    assert!(o.path.is_none());
    assert!(o.extensions.is_none());
}
