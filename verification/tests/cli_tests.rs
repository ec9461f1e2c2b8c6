use trod::cli::{Action, Cli, Command, Shell, SortOrder, DEFAULT_LIST_LIMIT, DEFAULT_PICKER_LIMIT};
use trod::history::History;
use trod::render::{init_script, list_line, render_json};

const MS: i64 = 1_000_000;

fn cli(command: Option<Command>) -> Cli {
    Cli { command, query: None, limit: None, print: false, db: None, print_back: None }
}

/// Runs the parsed command line against `h` the way the tool does for the
/// commands that read or change the history, and returns what it prints.
fn run(h: &mut History, c: Cli) -> String {
    match c.action() {
        Action::Add { path } => {
            h.add(&path).unwrap();
            String::new()
        }
        Action::Back { n } => h.back(n).map(|p| format!("{}\n", p)).unwrap_or_default(),
        Action::Forget { path } => {
            h.forget(&path);
            String::new()
        }
        Action::List { sort, limit, json } => {
            let entries = match sort {
                SortOrder::Recent => h.list_recent(limit),
                SortOrder::Frequent => h.list_frequent(limit),
            };
            if json {
                format!("{}\n", render_json(&entries))
            } else {
                entries.iter().map(|e| format!("{}\n", list_line(e))).collect()
            }
        }
        Action::Init { shell } => init_script(shell).to_string(),
        _ => String::new(),
    }
}

fn list() -> Cli {
    cli(Some(Command::List { sort: SortOrder::Recent, limit: None, json: false }))
}

#[test]
fn test_add_and_list() {
    let mut h = History::new();
    run(&mut h, cli(Some(Command::Add { path: "/tmp".to_string() })));
    let stdout = run(&mut h, list());
    assert!(stdout.contains("/tmp"));
}

#[test]
fn test_back() {
    let mut h = History::new();
    let t0 = 1_700_000_000_000 * MS;
    h.add_at("/first", t0).unwrap();
    h.add_at("/second", t0 + 10 * MS).unwrap();

    let stdout = run(&mut h, cli(Some(Command::Back { n: 1 })));
    assert!(stdout.trim().contains("/first"));
}

#[test]
fn test_forget() {
    let mut h = History::new();
    run(&mut h, cli(Some(Command::Add { path: "/tmp".to_string() })));
    run(&mut h, cli(Some(Command::Forget { path: "/tmp".to_string() })));
    let stdout = run(&mut h, list());
    assert!(!stdout.contains("/tmp"));
}

#[test]
fn test_list_json() {
    let mut h = History::new();
    run(&mut h, cli(Some(Command::Add { path: "/tmp".to_string() })));
    let stdout = run(&mut h, cli(Some(Command::List { sort: SortOrder::Recent, limit: None, json: true })));
    assert!(stdout.contains("\"path\":\"/tmp\""));
}

#[test]
fn test_init_bash() {
    let stdout = init_script(Shell::Bash);
    assert!(stdout.contains("PROMPT_COMMAND"));
    assert!(stdout.contains("td()"));
}

#[test]
fn test_init_zsh() {
    let stdout = init_script(Shell::Zsh);
    assert!(stdout.contains("chpwd"));
    assert!(stdout.contains("td()"));
}

#[test]
fn test_print_back() {
    let mut h = History::new();
    let t0 = 1_700_000_000_000 * MS;
    h.add_at("/first", t0).unwrap();
    h.add_at("/second", t0 + 10 * MS).unwrap();

    let mut c = cli(None);
    c.print_back = Some(1);
    let stdout = run(&mut h, c);
    assert!(stdout.trim().contains("/first"));
}

#[test]
fn test_init_shell_has_cd_wrapper() {
    let stdout = init_script(Shell::Zsh);
    assert!(stdout.contains("--print-back"));
    assert!(stdout.contains("cd \"$dir\""));
}

#[test]
fn bash_script_wraps_back_and_binds_ctrl_g() {
    let s = init_script(Shell::Bash);
    assert!(s.starts_with("# trod shell integration for bash\n"));
    assert!(s.contains("--print-back \"${2:-1}\""));
    assert!(s.contains("cd \"$dir\" || return"));
    assert!(s.contains("bind -x '\"\\C-g\": __trod_pick'"));
}

#[test]
fn zsh_script_hooks_directory_changes() {
    let s = init_script(Shell::Zsh);
    assert!(s.contains("add-zsh-hook chpwd __trod_hook"));
    assert!(s.contains("bindkey '^G' trod-pick"));
}

#[test]
fn defaults_of_list_and_picker() {
    match list().action() {
        Action::List { limit, sort: SortOrder::Recent, json: false } => assert_eq!(limit, DEFAULT_LIST_LIMIT),
        other => panic!("unexpected {:?}", other),
    }
    match cli(None).action() {
        Action::Pick { limit, query: None, print: false } => assert_eq!(limit, DEFAULT_PICKER_LIMIT),
        other => panic!("unexpected {:?}", other),
    }
    assert_eq!((DEFAULT_LIST_LIMIT, DEFAULT_PICKER_LIMIT), (50, 500));
}

#[test]
fn subcommand_wins_over_print_back() {
    let mut c = cli(Some(Command::Stats));
    c.print_back = Some(3);
    assert!(matches!(c.action(), Action::Stats));
    let mut c = cli(None);
    c.print_back = Some(3);
    c.limit = Some(7);
    assert!(matches!(c.action(), Action::Back { n: 3 }));
}

#[test]
fn picker_takes_query_limit_and_print() {
    let mut c = cli(None);
    c.query = Some("pro".to_string());
    c.limit = Some(12);
    c.print = true;
    match c.action() {
        Action::Pick { limit, query, print } => {
            assert_eq!(limit, 12);
            assert_eq!(query.as_deref(), Some("pro"));
            assert!(print);
        }
        other => panic!("unexpected {:?}", other),
    }
}
