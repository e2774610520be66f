use speed_probe::command::{help, run_program, same_text, unknown_command, Command};
use speed_probe::setting::Config;

fn config() -> Config {
    Config {
        command_run: "run".to_string(),
        command_show: "show".to_string(),
        command_cls: "cls".to_string(),
        command_help: "help".to_string(),
        command_metric: "metric".to_string(),
        filepath: "ping_output.txt".to_string(),
        iteration: 3,
        interval: None,
    }
}

#[test]
fn each_word_selects_its_command() {
    let config = config();
    assert_eq!(run_program("run", &config), Command::Run);
    assert_eq!(run_program("show", &config), Command::Show);
    assert_eq!(run_program("cls", &config), Command::Clear);
    assert_eq!(run_program("metric", &config), Command::Metric);
    assert_eq!(run_program("help", &config), Command::Help);
}

#[test]
fn other_words_select_nothing() {
    let config = config();
    assert_eq!(run_program("", &config), Command::Unknown);
    assert_eq!(run_program("Run", &config), Command::Unknown);
    assert_eq!(run_program("run ", &config), Command::Unknown);
    assert_eq!(run_program("runs", &config), Command::Unknown);
}

#[test]
fn a_word_bound_twice_selects_the_first_command() {
    let mut config = config();
    config.command_show = "x".to_string();
    config.command_cls = "x".to_string();
    config.command_metric = "x".to_string();
    config.command_help = "x".to_string();
    assert_eq!(run_program("x", &config), Command::Show);
    config.command_run = "x".to_string();
    assert_eq!(run_program("x", &config), Command::Run);
    config.command_run = "r".to_string();
    config.command_show = "s".to_string();
    assert_eq!(run_program("x", &config), Command::Clear);
    config.command_cls = "c".to_string();
    assert_eq!(run_program("x", &config), Command::Metric);
}

#[test]
fn texts_are_compared_character_by_character() {
    assert!(same_text("", ""));
    assert!(same_text("abc", "abc"));
    assert!(!same_text("abc", "abd"));
    assert!(!same_text("abc", "ab"));
    assert!(!same_text("ab", "abc"));
}

#[test]
fn an_unknown_word_is_named_in_the_message() {
    assert_eq!(
        unknown_command("fly"),
        vec![
            "Error: Command 'fly' not exist".to_string(),
            "Run help command to see available commands".to_string(),
        ]
    );
}

#[test]
fn help_lists_the_configured_words() {
    assert_eq!(
        help(&config()),
        vec![
            "-----------------------------------------------".to_string(),
            "Commands action program".to_string(),
            "-----------------------------------------------".to_string(),
            "  Execute create report:<run>".to_string(),
            "  Execute show report:<show>".to_string(),
            "  Execute generate metric image:<metric>".to_string(),
            "  Execute clear report:<cls>".to_string(),
            "-----------------------------------------------".to_string(),
        ]
    );
}
