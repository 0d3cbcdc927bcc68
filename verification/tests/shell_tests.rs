use sillos::fb::Color;
use sillos::fs::Entry;
use sillos::shell::{apply_color_choice, execute, sort_by_name, AllocRequest, ColorChoice, DeallocRequest, ShellAction};

#[test]
fn blank_line_does_nothing() {
    assert!(matches!(execute("   "), ShellAction::Nothing));
}

#[test]
fn simple_commands() {
    assert!(matches!(execute("help"), ShellAction::Help));
    assert!(matches!(execute("clear"), ShellAction::Clear));
    assert!(matches!(execute("exit"), ShellAction::Shutdown));
    assert!(matches!(execute("mem-analyze"), ShellAction::MemAnalyze));
    match execute("frob") {
        ShellAction::Unknown(name) => assert_eq!(name, "frob"),
        _ => panic!("unknown command was accepted"),
    }
}

#[test]
fn echo_keeps_words() {
    match execute("echo  a b") {
        ShellAction::Echo(words) => assert_eq!(words, vec!["a".to_string(), "b".to_string()]),
        _ => panic!("echo was not recognised"),
    }
}

#[test]
fn colors_are_named() {
    match execute("setbg red") {
        ShellAction::SetBackground(ColorChoice::Named(c)) => {
            assert_eq!((c.r, c.g, c.b), (Color::RED().r, Color::RED().g, Color::RED().b))
        }
        _ => panic!("setbg red was not understood"),
    }
    assert!(matches!(execute("setfg"), ShellAction::SetForeground(ColorChoice::Missing)));
    assert!(matches!(
        execute("setfg mauve"),
        ShellAction::SetForeground(ColorChoice::Unknown(ref n)) if n == "mauve"
    ));
}

#[test]
fn alloc_requests() {
    assert!(matches!(execute("alloc!"), ShellAction::Alloc(AllocRequest::Usage)));
    assert!(matches!(execute("alloc! 0"), ShellAction::Alloc(AllocRequest::ZeroSize)));
    assert!(matches!(
        execute("alloc! 64"),
        ShellAction::Alloc(AllocRequest::Allocate { size: 64, align: 8 })
    ));
    assert!(matches!(
        execute("alloc! 64 16"),
        ShellAction::Alloc(AllocRequest::Allocate { size: 64, align: 16 })
    ));
    assert!(matches!(execute("alloc! 64 3"), ShellAction::Alloc(AllocRequest::InvalidAlign(_))));
    assert!(matches!(execute("alloc! x"), ShellAction::Alloc(AllocRequest::InvalidSize(_))));
}

#[test]
fn dealloc_requests() {
    assert!(matches!(execute("dealloc! 0x10"), ShellAction::Dealloc(DeallocRequest::Usage)));
    assert!(matches!(
        execute("dealloc! 0x1000 64"),
        ShellAction::Dealloc(DeallocRequest::Deallocate { addr: 0x1000, size: 64, align: 8 })
    ));
    assert!(matches!(
        execute("dealloc! 0 64"),
        ShellAction::Dealloc(DeallocRequest::NullPointer)
    ));
    assert!(matches!(
        execute("dealloc! zz 64"),
        ShellAction::Dealloc(DeallocRequest::InvalidPointer(_))
    ));
}

#[test]
fn file_commands() {
    assert!(matches!(execute("ls"), ShellAction::Ls(ref p) if p == "/"));
    assert!(matches!(execute("ls /tmp"), ShellAction::Ls(ref p) if p == "/tmp"));
    assert!(matches!(execute("mkdir"), ShellAction::Mkdir(None)));
    assert!(matches!(execute("touch /a"), ShellAction::Touch(Some(ref p)) if p == "/a"));
}

fn set_color_through_shell(command: &str, background: bool) -> Color {
    let mut console = sillos::console::Console::new(80, 32);
    let choice = match execute(command) {
        ShellAction::SetBackground(choice) if background => choice,
        ShellAction::SetForeground(choice) if !background => choice,
        _ => panic!("color command not understood"),
    };
    assert!(apply_color_choice(&mut console, &choice, background), "color was not applied");
    if background {
        console.get_background()
    } else {
        console.get_foreground()
    }
}

#[test]
fn color_command_clears_the_console() {
    let mut console = sillos::console::Console::new(80, 32);
    console.write_str("hello");
    assert!(apply_color_choice(&mut console, &ColorChoice::Named(Color::RED()), true));
    assert_eq!((console.cursor_x, console.cursor_y), (0, 0));
    assert!(console.cells.iter().all(|c| c.character == b' '));
}

#[test]
fn unknown_or_missing_color_leaves_the_console() {
    let mut console = sillos::console::Console::new(80, 32);
    console.write_str("hi");
    let before = console.get_background();
    let cursor = console.cursor_x;
    let choice = match execute("setbg mauve") {
        ShellAction::SetBackground(choice) => choice,
        _ => panic!("setbg not understood"),
    };
    assert!(!apply_color_choice(&mut console, &choice, true));
    assert!(!apply_color_choice(&mut console, &ColorChoice::Missing, false));
    assert!(same(console.get_background(), before));
    assert_eq!(console.cursor_x, cursor);
}

fn same(a: Color, b: Color) -> bool {
    (a.r, a.g, a.b) == (b.r, b.g, b.b)
}

#[test]
fn test_setbg_red() {
    assert!(same(set_color_through_shell("setbg red", true), Color::RED()), "set red failed");
}

#[test]
fn test_setbg_black() {
    assert!(same(set_color_through_shell("setbg black", true), Color::BLACK()), "set black failed");
}

#[test]
fn test_setbg_green() {
    assert!(same(set_color_through_shell("setbg green", true), Color::GREEN()), "set green failed");
}

#[test]
fn test_setbg_blue() {
    assert!(same(set_color_through_shell("setbg blue", true), Color::BLUE()), "set blue failed");
}

#[test]
fn test_setbg_white() {
    assert!(same(set_color_through_shell("setbg white", true), Color::WHITE()), "set white failed");
}

#[test]
fn test_setfg_red() {
    assert!(same(set_color_through_shell("setfg red", false), Color::RED()), "set red failed");
}

#[test]
fn test_setfg_black() {
    assert!(same(set_color_through_shell("setfg black", false), Color::BLACK()), "set black failed");
}

#[test]
fn test_setfg_green() {
    assert!(same(set_color_through_shell("setfg green", false), Color::GREEN()), "set green failed");
}

#[test]
fn test_setfg_blue() {
    assert!(same(set_color_through_shell("setfg blue", false), Color::BLUE()), "set blue failed");
}

#[test]
fn test_setfg_white() {
    assert!(same(set_color_through_shell("setfg white", false), Color::WHITE()), "set white failed");
}

#[test]
fn listing_is_sorted_by_name() {
    let entries = vec![
        Entry::File("b.txt".to_string()),
        Entry::Dir("c".to_string()),
        Entry::File("a.txt".to_string()),
        Entry::Dir("a".to_string()),
    ];
    let names: Vec<String> = sort_by_name(entries)
        .into_iter()
        .map(|e| match e {
            Entry::Dir(n) => format!("{}/", n),
            Entry::File(n) => n,
        })
        .collect();
    assert_eq!(names, vec!["a/", "a.txt", "b.txt", "c/"]);
}
