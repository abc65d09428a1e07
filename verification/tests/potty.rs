use potty::Pot;
use potty::PotCommand;
use potty::PotCommentKind;
use potty::PotError;
use potty::PotKey;
use potty::PotMessage;
use potty::escape::escape;
use potty::escape::unescape;
use potty::line::ParsedLine;
use potty::line::classify_line;

#[test]
fn unescape_escape_round_trips() {
    let cases = [
        "",
        "plain",
        "with \"quotes\"",
        "back\\slash",
        "line\nbreak",
        "tab\there",
        "cr\rhere",
        "\\n is not a newline",
        "mixed \"\\\n\t\r end",
        "don't \u{7}\u{8}\u{B}\u{C}\u{1B} bell",
    ];
    for s in cases {
        let escaped = escape(s);
        assert_eq!(unescape(escaped.as_str()), Some(s.to_string()));
    }
}

#[test]
fn escape_exact_forms() {
    assert_eq!(escape("a\"b"), "a\\\"b");
    assert_eq!(escape("a\\b"), "a\\\\b");
    assert_eq!(escape("a\nb"), "a\\nb");
    assert_eq!(escape("a\tb"), "a\\tb");
    assert_eq!(escape("a\rb"), "a\\rb");
    assert_eq!(escape("plain"), "plain");
}

#[test]
fn unescape_exact_forms() {
    assert_eq!(unescape("a\\\"b"), Some("a\"b".to_string()));
    assert_eq!(unescape("a\\\\b"), Some("a\\b".to_string()));
    assert_eq!(unescape("a\\nb"), Some("a\nb".to_string()));
    assert_eq!(unescape("a\\tb"), Some("a\tb".to_string()));
    assert_eq!(unescape("a\\rb"), Some("a\rb".to_string()));
    assert_eq!(unescape("don\\'t"), Some("don't".to_string()));
    assert_eq!(unescape("\\a\\b\\v\\f\\e"), Some("\u{7}\u{8}\u{B}\u{C}\u{1B}".to_string()));
    assert_eq!(unescape("trailing\\"), None);
    assert_eq!(unescape("bad\\q"), None);
    // a bracketed unicode escape is not decoded
    assert_eq!(unescape("\\u{41}"), None);
}

#[test]
fn control_characters_escape_to_their_codes() {
    assert_eq!(escape("\u{7}"), "\\a");
    assert_eq!(escape("\u{8}"), "\\b");
    assert_eq!(escape("\u{B}"), "\\v");
    assert_eq!(escape("\u{C}"), "\\f");
    assert_eq!(escape("\u{1B}"), "\\e");
    // an apostrophe needs no escaping on output, and decodes escaped or not
    assert_eq!(escape("don't"), "don't");
    assert_eq!(unescape("don't"), Some("don't".to_string()));
}

#[test]
fn comment_kind_mapping() {
    let cases = [
        ("#: text", PotCommentKind::Reference),
        ("#. text", PotCommentKind::Extracted),
        ("#, text", PotCommentKind::Flag),
        ("#| text", PotCommentKind::Previous),
        ("# text", PotCommentKind::Translator),
    ];
    for (line, kind) in cases {
        match classify_line(line) {
            ParsedLine::Comment(c) => {
                assert_eq!(c.kind, kind);
                assert_eq!(c.content, "text");
            },
            _ => panic!("expected a comment for {line}"),
        }
    }
}

#[test]
fn comment_trimming_covers_unicode_whitespace() {
    match classify_line("#:\u{A0}\u{2003}text") {
        ParsedLine::Comment(c) => {
            assert_eq!(c.kind, PotCommentKind::Reference);
            assert_eq!(c.content, "text");
        },
        _ => panic!("expected a comment"),
    }
}

#[test]
fn escaped_apostrophe_parses_in_a_command() {
    let pot = Pot::read("msgid \"don\\'t\"\nmsgstr \"x\"").unwrap();
    assert_eq!(pot.messages[0].id, Some("don't".to_string()));
}

#[test]
fn bare_hash_is_empty_translator_comment() {
    match classify_line("#") {
        ParsedLine::Comment(c) => {
            assert_eq!(c.kind, PotCommentKind::Translator);
            assert_eq!(c.content, "");
        },
        _ => panic!("expected a comment"),
    }
}

#[test]
fn classify_commands_and_continuations() {
    match classify_line("msgid \"hello\"") {
        ParsedLine::Command(key, index, body) => {
            assert_eq!(key, PotKey::Msgid);
            assert_eq!(index, None);
            assert_eq!(body, "hello");
        },
        _ => panic!("expected a command"),
    }
    match classify_line("msgstr[12] \"x\"") {
        ParsedLine::Command(key, index, body) => {
            assert_eq!(key, PotKey::Msgstr);
            assert_eq!(index, Some(12));
            assert_eq!(body, "x");
        },
        _ => panic!("expected an indexed command"),
    }
    match classify_line("\"continued\"") {
        ParsedLine::Continuation(body) => assert_eq!(body, "continued"),
        _ => panic!("expected a continuation"),
    }
    assert!(matches!(classify_line(""), ParsedLine::Blank));
    assert!(matches!(classify_line("garbage line"), ParsedLine::Blank));
    assert!(matches!(classify_line("msgid"), ParsedLine::Blank));
    assert!(matches!(classify_line("msgid \"unterminated"), ParsedLine::Blank));
    // the closing quote must not be escaped
    assert!(matches!(classify_line("\"ends badly\\\""), ParsedLine::Blank));
    // an escaped backslash does not escape the closing quote
    assert!(matches!(classify_line("\"ok\\\\\""), ParsedLine::Continuation(_)));
}

#[test]
fn message_boundary() {
    let text = "msgid \"a\"\nmsgstr \"1\"\nmsgid \"b\"\nmsgstr \"2\"";
    let pot = Pot::read(text).unwrap();
    assert_eq!(pot.messages.len(), 2);
    assert_eq!(pot.messages[0].id, Some("a".to_string()));
    assert_eq!(pot.messages[0].strings, vec!["1".to_string()]);
    assert_eq!(pot.messages[1].id, Some("b".to_string()));
    assert_eq!(pot.messages[1].strings, vec!["2".to_string()]);
}

#[test]
fn plural_handling() {
    let text = "msgid \"cat\"\nmsgid_plural \"cats\"\nmsgstr[0] \"gato\"\nmsgstr[1] \"gatos\"";
    let pot = Pot::read(text).unwrap();
    assert_eq!(pot.messages.len(), 1);
    let m = &pot.messages[0];
    assert_eq!(m.id, Some("cat".to_string()));
    assert_eq!(m.id_plural, Some("cats".to_string()));
    assert_eq!(m.strings, vec!["gato".to_string(), "gatos".to_string()]);
    let written = pot.write();
    assert_eq!(
        written,
        "msgid \"cat\"\nmsgid_plural \"cats\"\nmsgstr[0] \"gato\"\nmsgstr[1] \"gatos\"\n"
    );
}

#[test]
fn continuation_extends_last_command() {
    let text = "msgid \"\"\n\"hello \"\n\"world\"";
    let pot = Pot::read(text).unwrap();
    assert_eq!(pot.messages.len(), 1);
    assert_eq!(pot.messages[0].id, Some("hello world".to_string()));
}

#[test]
fn escaped_quote_round_trips() {
    let line = "msgid \"a \\\"quoted\\\" word\"";
    let pot = Pot::read(line).unwrap();
    assert_eq!(pot.messages.len(), 1);
    assert_eq!(pot.messages[0].id, Some("a \"quoted\" word".to_string()));
    let written = pot.write();
    assert_eq!(written, format!("{line}\n"));
}

#[test]
fn out_of_order_index_fills_gap() {
    let mut msg = PotMessage::new();
    let cmd = PotCommand { key: PotKey::Msgstr, value: "b".to_string(), index: Some(1) };
    cmd.force_apply(&mut msg);
    assert!(msg.strings.len() >= 2);
    assert_eq!(msg.strings[1], "b");
    // the skipped slot is left empty
    assert_eq!(msg.strings[0], "");
}

#[test]
fn out_of_order_index_through_parsing() {
    let text = "msgid \"x\"\nmsgstr[1] \"b\"";
    let pot = Pot::read(text).unwrap();
    assert_eq!(pot.messages.len(), 1);
    assert_eq!(pot.messages[0].strings, vec!["".to_string(), "b".to_string()]);
}

#[test]
fn msgstr_overwrites_filled_index() {
    let mut msg = PotMessage::new();
    let first = PotCommand { key: PotKey::Msgstr, value: "old".to_string(), index: None };
    first.force_apply(&mut msg);
    let second = PotCommand { key: PotKey::Msgstr, value: "new".to_string(), index: Some(0) };
    second.force_apply(&mut msg);
    assert_eq!(msg.strings, vec!["new".to_string()]);
}

#[test]
fn can_apply_enforces_field_order() {
    let mut msg = PotMessage::new();
    let id = PotCommand { key: PotKey::Msgid, value: "a".to_string(), index: None };
    assert!(id.apply(&mut msg));
    let ctx = PotCommand { key: PotKey::Msgctxt, value: "c".to_string(), index: None };
    assert!(!ctx.can_apply(&msg));
    let second_id = PotCommand { key: PotKey::Msgid, value: "b".to_string(), index: None };
    assert!(!second_id.can_apply(&msg));
    let unknown = PotCommand { key: PotKey::Other, value: "x".to_string(), index: None };
    assert!(!unknown.can_apply(&msg));
    let s = PotCommand { key: PotKey::Msgstr, value: "1".to_string(), index: None };
    assert!(s.apply(&mut msg));
    assert!(!s.can_apply(&msg));
}

#[test]
fn invalid_escape_is_fatal() {
    assert!(matches!(Pot::read("msgid \"bad\\q\""), Err(PotError::InvalidEscape)));
    assert!(matches!(Pot::read("msgid \"x\"\n\"more\\z\""), Err(PotError::InvalidEscape)));
}

#[test]
fn empty_input_yields_one_empty_message() {
    let pot = Pot::read("").unwrap();
    assert_eq!(pot.messages.len(), 1);
    let m = &pot.messages[0];
    assert!(m.comments.is_empty());
    assert_eq!(m.context, None);
    assert_eq!(m.id, None);
    assert_eq!(m.id_plural, None);
    assert!(m.strings.is_empty());
}

#[test]
fn repeated_trailing_id_is_not_pushed_twice() {
    let text = "msgid \"a\"\nmsgstr \"1\"\nmsgid \"a\"\nmsgstr \"2\"";
    let pot = Pot::read(text).unwrap();
    assert_eq!(pot.messages.len(), 1);
    assert_eq!(pot.messages[0].strings, vec!["1".to_string()]);
}

#[test]
fn comments_close_valid_messages() {
    let text = "# first\nmsgid \"a\"\nmsgstr \"1\"\n# second\nmsgid \"b\"\nmsgstr \"2\"";
    let pot = Pot::read(text).unwrap();
    assert_eq!(pot.messages.len(), 2);
    assert_eq!(pot.messages[0].comments.len(), 1);
    assert_eq!(pot.messages[0].comments[0].content, "first");
    assert_eq!(pot.messages[1].comments[0].content, "second");
}

#[test]
fn crlf_lines_are_accepted() {
    let text = "msgid \"a\"\r\nmsgstr \"1\"\r\n";
    let pot = Pot::read(text).unwrap();
    assert_eq!(pot.messages.len(), 1);
    assert_eq!(pot.messages[0].id, Some("a".to_string()));
    assert_eq!(pot.messages[0].strings, vec!["1".to_string()]);
}

#[test]
fn write_then_read_reproduces_catalog() {
    let text = "#: src/main.rs:10\n#, fuzzy\nmsgctxt \"menu\"\nmsgid \"cat\"\nmsgid_plural \"cats\"\nmsgstr[0] \"gato\"\nmsgstr[1] \"gatos\"\n\n# plain\nmsgid \"dog \\\"friend\\\"\"\nmsgstr \"perro\\n\"";
    let pot = Pot::read(text).unwrap();
    assert_eq!(pot.messages.len(), 2);
    let written = pot.write();
    let back = Pot::read(written.as_str()).unwrap();
    assert_eq!(back.messages.len(), pot.messages.len());
    for (a, b) in pot.messages.iter().zip(back.messages.iter()) {
        assert_eq!(a.context, b.context);
        assert_eq!(a.id, b.id);
        assert_eq!(a.id_plural, b.id_plural);
        assert_eq!(a.strings, b.strings);
        assert_eq!(a.comments.len(), b.comments.len());
        for (x, y) in a.comments.iter().zip(b.comments.iter()) {
            assert_eq!(x.kind, y.kind);
            assert_eq!(x.content, y.content);
        }
    }
}

#[test]
fn write_separates_messages_with_one_blank_line() {
    let text = "msgid \"a\"\nmsgstr \"1\"\nmsgid \"b\"\nmsgstr \"2\"";
    let pot = Pot::read(text).unwrap();
    let written = pot.write();
    assert_eq!(written, "msgid \"a\"\nmsgstr \"1\"\n\nmsgid \"b\"\nmsgstr \"2\"\n");
}

#[test]
fn translator_comment_writes_bare_hash_line() {
    let text = "# note\nmsgid \"a\"\nmsgstr \"1\"";
    let pot = Pot::read(text).unwrap();
    let written = pot.write();
    assert_eq!(written, "# note\nmsgid \"a\"\nmsgstr \"1\"\n");
}

#[test]
fn unrecognized_lines_are_skipped() {
    let text = "what is this\nmsgid \"a\"\n???\nmsgstr \"1\"\n";
    let pot = Pot::read(text).unwrap();
    assert_eq!(pot.messages.len(), 1);
    assert_eq!(pot.messages[0].id, Some("a".to_string()));
    assert_eq!(pot.messages[0].strings, vec!["1".to_string()]);
}

#[test]
fn continuation_before_any_command_is_harmless() {
    let text = "\"orphan\"\nmsgid \"a\"\nmsgstr \"1\"";
    let pot = Pot::read(text).unwrap();
    assert_eq!(pot.messages.len(), 1);
    assert_eq!(pot.messages[0].id, Some("a".to_string()));
    assert_eq!(pot.messages[0].strings, vec!["1".to_string()]);
}

#[test]
fn continuation_extends_command_that_closed_a_message() {
    let text = "msgid \"a\"\nmsgstr \"1\"\nmsgid \"b\"\n\"c\"";
    let pot = Pot::read(text).unwrap();
    assert_eq!(pot.messages.len(), 2);
    assert_eq!(pot.messages[0].id, Some("a".to_string()));
    assert_eq!(pot.messages[1].id, Some("bc".to_string()));
}

#[test]
fn is_comment_checks_leading_hash() {
    assert!(potty::PotComment::is_comment("# x"));
    assert!(potty::PotComment::is_comment("#"));
    assert!(!potty::PotComment::is_comment(""));
    assert!(!potty::PotComment::is_comment("msgid \"a\""));
}

#[test]
fn message_validity() {
    let mut msg = PotMessage::new();
    assert!(!msg.is_valid());
    msg.id = Some("a".to_string());
    assert!(!msg.is_valid());
    msg.strings.push("1".to_string());
    assert!(msg.is_valid());
    msg.strings.push("2".to_string());
    assert!(!msg.is_valid());
    msg.id_plural = Some("as".to_string());
    assert!(msg.is_valid());
}

#[test]
fn one_string_with_plural_id_is_not_valid() {
    let mut msg = PotMessage::new();
    msg.id = Some("cat".to_string());
    msg.id_plural = Some("cats".to_string());
    msg.strings.push("gato".to_string());
    assert!(!msg.is_valid());
    msg.strings.push("gatos".to_string());
    assert!(msg.is_valid());
}

#[test]
fn comment_does_not_close_plural_message_with_one_string() {
    let text = "msgid \"cat\"\nmsgid_plural \"cats\"\nmsgstr[0] \"gato\"\n# note\nmsgstr[1] \"gatos\"";
    let pot = Pot::read(text).unwrap();
    assert_eq!(pot.messages.len(), 1);
    let m = &pot.messages[0];
    assert_eq!(m.comments.len(), 1);
    assert_eq!(m.comments[0].content, "note");
    assert_eq!(m.strings, vec!["gato".to_string(), "gatos".to_string()]);
}
