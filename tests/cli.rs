use tiny_cli::decoder::{Action, ControlCharacter, Parser};
use tiny_cli::editor::{char_bytes, Editor};
use tiny_cli::engine::{Context, ContextType, Handle, Level};
use tiny_cli::text::{common_prefix, is_whitespace, split_last_word};

struct Demo;

impl Handle for Demo {
    fn handle<'a>(&self, ctx: &mut Context<'a>, level: Level<'a>) {
        if let Some(level) = ctx.command(level, "config") {
            for name in ["enable", "logging", "logfile", "connetion", "constant"] {
                if let Some(level) = ctx.command(level, name) {
                    if let Some(level) = ctx.command(level, "set") {
                        if let Some(arg) = ctx.exec_arg(level) {
                            ctx.print(format!("set value {} {}", name, arg).as_bytes());
                        }
                    }
                    if ctx.exec(level) {
                        ctx.print(format!("get value {}", name).as_bytes());
                    }
                }
            }
        }

        if let Some(level) = ctx.command(level, "fruit") {
            if let Some(arg) = ctx.exec_arg(level) {
                ctx.print(format!("set fruit {}", arg).as_bytes());
            } else {
                ctx.hint_autocomplete("apple");
                ctx.hint_autocomplete("apricot");
                ctx.hint_autocomplete("banana");
                ctx.hint_autocomplete("strawberry");
            }
        }

        if let Some(level) = ctx.command(level, "save") {
            if ctx.exec(level) {
                ctx.print(b"save");
            }
        }

        if let Some(level) = ctx.command(level, "reboot") {
            if ctx.exec(level) {
                ctx.print(b"reboot");
            }
        }

        if let Some(mut level) = ctx.command(level, "infinite") {
            let mut n = 0;
            while let Some(next) = ctx.command(level, "loop") {
                level = next;
                n += 1;
                if ctx.exec(level) {
                    ctx.print(format!("reached level {}", n).as_bytes());
                }
            }
        }
    }
}

/// Feeds `input` to `editor`; returns what it wrote and whether it asked to exit.
fn feed_all(editor: &mut Editor, input: &[u8]) -> (Vec<u8>, bool) {
    let mut out = Vec::new();
    for &b in input {
        if editor.feed(&Demo, b, &mut out) {
            return (out, true);
        }
    }
    (out, false)
}

fn typed(input: &str) -> Editor {
    let mut editor = Editor::new();
    let (_, exit) = feed_all(&mut editor, input.as_bytes());
    assert!(!exit);
    assert_eq!(editor.line(), input);
    editor
}

#[test]
fn command_matches_whole_token() {
    let mut ctx = Context::new(ContextType::Execute);
    let next = ctx.command(Level::new("config  enable"), "config").unwrap();
    assert_eq!(next.as_str(), "enable");
    let next = ctx.command(Level::new("config"), "config").unwrap();
    assert_eq!(next.as_str(), "");
    let next = ctx.command(Level::new("config\tx y"), "config").unwrap();
    assert_eq!(next.as_str(), "x y");
}

#[test]
fn command_rejects_longer_token() {
    let mut ctx = Context::new(ContextType::Execute);
    assert!(ctx.command(Level::new("configuration"), "config").is_none());
    assert!(ctx.command(Level::new("con"), "config").is_none());
    assert!(ctx.output().is_empty());
}

#[test]
fn tab_on_empty_line_lists_all_siblings() {
    let mut editor = Editor::new();
    let (out, exit) = feed_all(&mut editor, b"\t");
    assert!(!exit);
    assert_eq!(out, b"\r\x1b[0Kconfig fruit save reboot infinite\r\n> ".to_vec());
    assert_eq!(editor.line(), "");
}

#[test]
fn best_match_pass_on_empty_token_is_empty() {
    let mut ctx = Context::new(ContextType::AutocompleteBestMatch {
        to_complete: "",
        best_match: None,
        exact_match: false,
    });
    Demo.handle(&mut ctx, Level::new(""));
    assert_eq!(ctx.best_match(), Some(""));
    assert!(!ctx.exact_match());
    assert!(ctx.output().is_empty());
}

#[test]
fn tab_completes_single_candidate_with_space() {
    let mut editor = typed("s");
    let (out, _) = feed_all(&mut editor, b"\t");
    assert_eq!(out, b"ave ".to_vec());
    assert_eq!(editor.line(), "save ");
}

#[test]
fn best_match_pass_single_candidate_is_exact() {
    let mut ctx = Context::new(ContextType::AutocompleteBestMatch {
        to_complete: "s",
        best_match: None,
        exact_match: false,
    });
    Demo.handle(&mut ctx, Level::new(""));
    assert_eq!(ctx.best_match(), Some("ave"));
    assert!(ctx.exact_match());
}

#[test]
fn tab_completes_shared_prefix_without_space() {
    let mut editor = typed("fruit a");
    let (out, _) = feed_all(&mut editor, b"\t");
    assert_eq!(out, b"p".to_vec());
    assert_eq!(editor.line(), "fruit ap");
    let (out, _) = feed_all(&mut editor, b"\t");
    assert_eq!(out, b"\r\x1b[0Kapple apricot\r\n> fruit ap".to_vec());
    assert_eq!(editor.line(), "fruit ap");
}

#[test]
fn tab_with_no_candidate_changes_nothing() {
    let mut editor = typed("x");
    let (out, _) = feed_all(&mut editor, b"\t");
    assert!(out.is_empty());
    assert_eq!(editor.line(), "x");
}

#[test]
fn submit_fruit_with_argument() {
    let mut editor = typed("fruit apple");
    let (out, exit) = feed_all(&mut editor, b"\r");
    assert!(!exit);
    assert_eq!(out, b"\r\nset fruit apple\r\n> ".to_vec());
    assert_eq!(editor.line(), "");
}

#[test]
fn fruit_without_argument_hints_fruits() {
    let mut editor = typed("fruit");
    let (out, _) = feed_all(&mut editor, b"\r");
    assert_eq!(out, b"\r\n> ".to_vec());

    let mut editor = typed("fruit ");
    let (out, _) = feed_all(&mut editor, b"\t");
    assert_eq!(out, b"\r\x1b[0Kapple apricot banana strawberry\r\n> fruit ".to_vec());
}

#[test]
fn exec_arg_trims_trailing_whitespace() {
    let mut ctx = Context::new(ContextType::Execute);
    assert_eq!(ctx.exec_arg(Level::new("apple  ")), Some("apple"));
    let mut ctx = Context::new(ContextType::Execute);
    assert_eq!(ctx.exec_arg(Level::new("   ")), None);
    let mut ctx = Context::new(ContextType::AutocompleteList(""));
    assert_eq!(ctx.exec_arg(Level::new("apple")), None);
}

#[test]
fn submit_nested_commands() {
    let mut editor = typed("config enable");
    let (out, _) = feed_all(&mut editor, b"\r");
    assert_eq!(out, b"\r\nget value enable\r\n> ".to_vec());

    let mut editor = typed("config logfile set /tmp/x");
    let (out, _) = feed_all(&mut editor, b"\r");
    assert_eq!(out, b"\r\nset value logfile /tmp/x\r\n> ".to_vec());

    let mut editor = typed("save");
    let (out, _) = feed_all(&mut editor, b"\r");
    assert_eq!(out, b"\r\nsave\r\n> ".to_vec());
}

#[test]
fn done_stops_after_first_command() {
    let mut editor = typed("infinite loop loop");
    let (out, _) = feed_all(&mut editor, b"\r");
    assert_eq!(out, b"\r\nreached level 2\r\n> ".to_vec());

    let mut ctx = Context::new(ContextType::Execute);
    assert!(ctx.exec(Level::new("")));
    assert!(!ctx.exec(Level::new("")));
    assert!(ctx.command(Level::new("save"), "save").is_none());
}

#[test]
fn list_pass_twice_is_identical() {
    let run = || {
        let mut ctx = Context::new(ContextType::AutocompleteList("a"));
        Demo.handle(&mut ctx, Level::new("fruit"));
        (ctx.output().to_vec(), ctx.printed_stuff())
    };
    let first = run();
    let second = run();
    assert_eq!(first, second);
    assert_eq!(first.0, b"\r\x1b[0Kapple apricot".to_vec());
    assert!(first.1);
}

#[test]
fn full_line_drops_printable_input() {
    let full = "a".repeat(64);
    let mut editor = typed(&full);
    let (out, exit) = feed_all(&mut editor, b"b");
    assert!(!exit);
    assert!(out.is_empty());
    assert_eq!(editor.line(), full);

    let almost = "a".repeat(63);
    let mut editor = typed(&almost);
    let (out, _) = feed_all(&mut editor, "é".as_bytes());
    assert!(out.is_empty());
    assert_eq!(editor.line(), almost);
}

#[test]
fn typing_echoes_characters() {
    let mut editor = Editor::new();
    let (out, _) = feed_all(&mut editor, "hé€😀".as_bytes());
    assert_eq!(out, "hé€😀".as_bytes().to_vec());
    assert_eq!(editor.line(), "hé€😀");
}

#[test]
fn ctrl_c_and_ctrl_d() {
    let mut editor = Editor::new();
    let (_, exit) = feed_all(&mut editor, &[0x03]);
    assert!(exit);
    let mut editor = Editor::new();
    let (_, exit) = feed_all(&mut editor, &[0x04]);
    assert!(exit);

    let mut editor = typed("abc");
    let (out, exit) = feed_all(&mut editor, &[0x03]);
    assert!(!exit);
    assert_eq!(out, b"\r\x1b[0K> ".to_vec());
    assert_eq!(editor.line(), "");

    let mut editor = typed("abc");
    let (out, exit) = feed_all(&mut editor, &[0x04]);
    assert!(!exit);
    assert!(out.is_empty());
    assert_eq!(editor.line(), "abc");
}

#[test]
fn backspace_removes_last_character() {
    let mut editor = typed("aé");
    let (out, _) = feed_all(&mut editor, &[0x7f]);
    assert_eq!(out, b"\x08\x1b[0K".to_vec());
    assert_eq!(editor.line(), "a");
    let (out, _) = feed_all(&mut editor, &[0x08]);
    assert_eq!(out, b"\x08\x1b[0K".to_vec());
    assert_eq!(editor.line(), "");
    let (out, _) = feed_all(&mut editor, &[0x08]);
    assert!(out.is_empty());
}

#[test]
fn decoder_classifies_control_bytes() {
    let mut p = Parser::new();
    assert_eq!(p.advance(0x03), Action::ControlCharacter(ControlCharacter::CtrlC));
    assert_eq!(p.advance(0x04), Action::ControlCharacter(ControlCharacter::CtrlD));
    assert_eq!(p.advance(0x08), Action::ControlCharacter(ControlCharacter::CtrlH));
    assert_eq!(p.advance(0x09), Action::ControlCharacter(ControlCharacter::Tab));
    assert_eq!(p.advance(0x0d), Action::ControlCharacter(ControlCharacter::CarriageReturn));
    assert_eq!(p.advance(0x7f), Action::ControlCharacter(ControlCharacter::Backspace));
    assert_eq!(p.advance(0x1b), Action::ControlCharacter(ControlCharacter::Other(0x1b)));
    assert_eq!(p.advance(b'A'), Action::Print('A'));
}

#[test]
fn decoder_reassembles_multibyte() {
    let mut p = Parser::new();
    assert_eq!(p.advance(0xe2), Action::Incomplete);
    assert_eq!(p.advance(0x82), Action::Incomplete);
    assert_eq!(p.advance(0xac), Action::Print('€'));
    assert_eq!(p.advance(0xf0), Action::Incomplete);
    assert_eq!(p.advance(0x9f), Action::Incomplete);
    assert_eq!(p.advance(0x98), Action::Incomplete);
    assert_eq!(p.advance(0x80), Action::Print('😀'));
}

#[test]
fn decoder_drops_malformed_input() {
    let mut p = Parser::new();
    // a stray continuation byte
    assert_eq!(p.advance(0x80), Action::Incomplete);
    // an interrupted sequence resynchronises on the next byte
    assert_eq!(p.advance(0xc3), Action::Incomplete);
    assert_eq!(p.advance(b'x'), Action::Print('x'));
    // an overlong encoding
    assert_eq!(p.advance(0xc0), Action::Incomplete);
    assert_eq!(p.advance(0x80), Action::Incomplete);
    // an encoded surrogate
    assert_eq!(p.advance(0xed), Action::Incomplete);
    assert_eq!(p.advance(0xa0), Action::Incomplete);
    assert_eq!(p.advance(0x80), Action::Incomplete);
    // a byte that starts no sequence
    assert_eq!(p.advance(0xff), Action::Incomplete);
    assert_eq!(p.advance(0xc3), Action::Incomplete);
    assert_eq!(p.advance(0xa9), Action::Print('é'));
}

#[test]
fn common_prefix_by_characters() {
    assert_eq!(common_prefix("onfig", "onnection"), "on");
    assert_eq!(common_prefix("abc", "xyz"), "");
    assert_eq!(common_prefix("abc", "abc"), "abc");
    assert_eq!(common_prefix("éa", "éb"), "é");
    assert_eq!(common_prefix("", "abc"), "");
}

#[test]
fn print_normalizes_once() {
    let mut ctx = Context::new(ContextType::Execute);
    ctx.print(b"a");
    ctx.print(b"b");
    assert_eq!(ctx.output(), b"\r\nab");
    let mut ctx = Context::new(ContextType::AutocompleteList(""));
    ctx.print(b"a");
    assert_eq!(ctx.output(), b"\r\x1b[0Ka");
}

#[test]
fn split_last_word_at_last_whitespace() {
    assert_eq!(split_last_word("fruit ap"), ("fruit", "ap"));
    assert_eq!(split_last_word("config enable "), ("config enable", ""));
    assert_eq!(split_last_word("sa"), ("", "sa"));
    assert_eq!(split_last_word(""), ("", ""));
    assert_eq!(split_last_word("a\tb"), ("a", "b"));
}

#[test]
fn char_bytes_encodes_utf8() {
    for c in ['a', 'é', '€', '😀'] {
        let mut buf = [0u8; 4];
        assert_eq!(char_bytes(c), c.encode_utf8(&mut buf).as_bytes().to_vec());
    }
}

#[test]
fn whitespace_is_unicode_white_space() {
    for c in [' ', '\t', '\n', '\r', '\u{85}', '\u{a0}', '\u{2003}', '\u{3000}'] {
        assert!(is_whitespace(c));
    }
    for c in ['a', '_', '\u{200b}', '\u{7f}'] {
        assert!(!is_whitespace(c));
    }
}

#[test]
fn interrupted_sequence_resynchronises_in_editor() {
    let mut editor = Editor::new();
    let (out, exit) = feed_all(&mut editor, b"\xc3a");
    assert!(!exit);
    assert_eq!(out, b"a".to_vec());
    assert_eq!(editor.line(), "a");
}
