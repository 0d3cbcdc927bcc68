use sillos::term::{append_cmd_char, cmd_backspace, lookup_command, CommandLine, CommandLookup};

const APPS: [&str; 5] = ["help", "echo", "clear", "panic", "bp"];

#[test]
fn command_line_collects_and_erases_characters() {
    let mut line = CommandLine::new();
    append_cmd_char(&mut line, 'l');
    append_cmd_char(&mut line, 's');
    assert_eq!(line.chars, vec!['l', 's']);
    cmd_backspace(&mut line);
    assert_eq!(line.chars, vec!['l']);
    cmd_backspace(&mut line);
    cmd_backspace(&mut line);
    assert!(line.chars.is_empty());
}

#[test]
fn lookup_finds_program_and_arguments() {
    match lookup_command("  echo hello   world ", &APPS) {
        CommandLookup::Run { app, args } => {
            assert_eq!(app, 1);
            assert_eq!(args, vec!["hello".to_string(), "world".to_string()]);
        }
        _ => panic!("echo was not found"),
    }
}

#[test]
fn lookup_of_blank_line_is_empty() {
    assert!(matches!(lookup_command("", &APPS), CommandLookup::Empty));
    assert!(matches!(lookup_command(" \t ", &APPS), CommandLookup::Empty));
}

#[test]
fn lookup_of_unknown_program_names_it() {
    match lookup_command("frobnicate now", &APPS) {
        CommandLookup::NotFound { name } => assert_eq!(name, "frobnicate"),
        _ => panic!("unknown program was found"),
    }
}
