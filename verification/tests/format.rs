use md_formatter::{extract_frontmatter, parse_markdown, Formatter, OrderedListMode, WrapMode};

fn format_markdown(input: &str) -> String {
    let events = parse_markdown(input);
    let mut formatter = Formatter::new(80);
    formatter.format(events)
}

fn format_markdown_always(input: &str) -> String {
    let events = parse_markdown(input);
    let mut formatter = Formatter::with_wrap_mode(80, WrapMode::Always);
    formatter.format(events)
}

fn format_markdown_never(input: &str) -> String {
    let events = parse_markdown(input);
    let mut formatter = Formatter::with_wrap_mode(80, WrapMode::Never);
    formatter.format(events)
}

fn format_markdown_one(input: &str) -> String {
    let events = parse_markdown(input);
    let mut formatter = Formatter::with_options(80, WrapMode::Preserve, OrderedListMode::One);
    formatter.format(events)
}

fn format_markdown_full(input: &str) -> String {
    let (frontmatter, content) = extract_frontmatter(input);
    let events = parse_markdown(&content);
    let mut formatter = Formatter::with_wrap_mode(80, WrapMode::Always);
    let formatted = formatter.format(events);

    if let Some(fm) = frontmatter {
        fm + &formatted
    } else {
        formatted
    }
}

#[test]
fn test_heading_normalization() {
    let input = "# Heading 1\n## Heading 2";
    let output = format_markdown(input);
    let expected = "# Heading 1\n\n## Heading 2\n";
    assert_eq!(output, expected);
}

#[test]
fn test_list_normalization() {
    let input = "- Item 1\n- Item 2\n- Item 3";
    let output = format_markdown(input);
    let expected = "- Item 1\n- Item 2\n- Item 3\n";
    assert_eq!(output, expected);
}

#[test]
fn test_ordered_list_ascending_mode() {
    let input = "1. First\n1. Second\n1. Third";
    let output = format_markdown(input);
    assert!(output.contains("1. First"));
    assert!(output.contains("2. Second"));
    assert!(output.contains("3. Third"));
}

#[test]
fn test_multiple_ordered_list_ascending_mode() {
    let input = "1. First\n1. Second\n1. Third\n\nHere is one more\n\n1. Another\n1. List";
    let output = format_markdown(input);
    assert!(output.contains("1. First"));
    assert!(output.contains("2. Second"));
    assert!(output.contains("3. Third"));
    assert!(output.contains("1. Another"));
    assert!(output.contains("2. List"));
}

#[test]
fn test_nested_lists_have_no_empty_lines() {
    let input = "- First\n- Second\n  - Subitem one\n  - Subitem two\n- Third";
    let output = format_markdown(input);
    assert!(!output.contains("\n\n  - Subitem one"));
}

#[test]
fn test_ordered_list_one_mode() {
    let input = "1. First\n2. Second\n3. Third";
    let output = format_markdown_one(input);
    assert!(output.contains("1. First"));
    assert!(output.contains("1. Second"));
    assert!(output.contains("1. Third"));
}

#[test]
fn test_emphasis() {
    let input = "This is *italic* and **bold** text.";
    let output = format_markdown(input);
    let expected = "This is *italic* and **bold** text.\n";
    assert_eq!(output, expected);
}

#[test]
fn test_code_block() {
    let input = "```rust\nfn main() {\n    println!(\"Hello\");\n}\n```";
    let output = format_markdown(input);
    assert!(output.contains("```"));
    assert!(output.contains("fn main()"));
}

#[test]
fn test_text_wrapping() {
    let input = "This is a very long line that should probably be wrapped because it exceeds the line width limit that we have set for the formatter.";
    let output = format_markdown_always(input);
    assert!(output.lines().count() > 1);
}

#[test]
fn test_idempotence() {
    let input = "# Hello\n\nThis is a paragraph with *emphasis*.\n\n- Item 1\n- Item 2\n";
    let first_pass = format_markdown(input);
    let second_pass = format_markdown(&first_pass);
    assert_eq!(first_pass, second_pass, "Formatter should be idempotent");
}

#[test]
fn test_inline_code() {
    let input = "Use `let x = 5;` for variable declaration.";
    let output = format_markdown(input);
    assert!(output.contains("`let x = 5;`"));
}

#[test]
fn test_horizontal_rule() {
    let input = "Before\n\n---\n\nAfter";
    let output = format_markdown(input);
    assert!(output.contains("---"));
}

#[test]
fn test_nested_lists() {
    let input = "- Item 1\n- Item 2\n  - Nested 1\n  - Nested 2\n- Item 3";
    let output = format_markdown(input);
    assert!(output.contains("  - Nested"));
}

#[test]
fn test_paragraph_wrapping() {
    let input = "This is a short intro paragraph.\n\nThis is another paragraph that is quite long and should be wrapped nicely across multiple lines if needed based on the formatter's width settings.";
    let output = format_markdown(input);
    let parts: Vec<&str> = output.split("\n\n").collect();
    assert!(parts.len() >= 2);
}

#[test]
fn test_blockquote_formatting() {
    let input = "> This is a blockquote\n> with multiple lines";
    let output = format_markdown(input);
    assert!(output.contains(">"));
    let output2 = format_markdown(&output);
    assert_eq!(output, output2);
}

#[test]
fn test_frontmatter_preservation() {
    let input = "---\ntitle: Test\nauthor: Me\n---\n\n# Heading\n\nContent.";
    let (frontmatter, content) = extract_frontmatter(input);

    assert!(frontmatter.is_some());
    assert!(frontmatter.unwrap().contains("title:"));

    assert!(!content.contains("title:"));
    assert!(content.contains("# Heading"));
}

#[test]
fn test_strikethrough_preservation() {
    let input = "This has ~~strikethrough~~ text.";
    let output = format_markdown(input);
    assert!(output.contains("~~strikethrough~~"));
}

#[test]
fn test_gfm_autolinks() {
    let input = "Visit <https://example.com> for more info.";
    let output = format_markdown(input);
    assert!(output.contains("example.com"));
}

#[test]
fn test_hard_break_preservation() {
    let input = "Line one  \nLine two";
    let output = format_markdown(input);
    assert!(output.contains("  \n"), "Hard break should be preserved");
}

#[test]
fn test_no_spurious_hard_breaks() {
    let input = "This is a very long line that needs to be wrapped because it exceeds eighty characters.";
    let output = format_markdown_always(input);
    assert!(
        !output.contains("  \n"),
        "Wrapped lines should not have hard breaks"
    );
}

#[test]
fn test_hard_break_all_modes() {
    let input = "Line one  \nLine two";
    assert!(format_markdown(input).contains("  \n"));
    assert!(format_markdown_always(input).contains("  \n"));
    assert!(format_markdown_never(input).contains("  \n"));
}

#[test]
fn test_code_block_content_verbatim() {
    let input = "```python\ndef f(x):\n    return   x  + 1\n```";
    let output = format_markdown(input);
    assert!(output.contains("def f(x):\n    return   x  + 1\n"));
    assert!(output.starts_with("```python\n"));
    assert!(output.ends_with("```\n"));
}

#[test]
fn test_ordered_list_start_number() {
    let input = "3. first\n3. second\n3. third";
    let output = format_markdown(input);
    assert!(output.contains("3. first"));
    assert!(output.contains("4. second"));
    assert!(output.contains("5. third"));
}

#[test]
fn test_blockquote_wrapped_lines_prefixed() {
    let input = "> one two three four five six seven eight nine ten eleven twelve thirteen fourteen fifteen sixteen seventeen";
    let output = format_markdown_always(input);
    assert!(output.lines().count() > 1);
    for line in output.lines() {
        assert!(line.starts_with("> "), "every blockquote line is prefixed");
    }
}

#[test]
fn test_idempotence_always_mode() {
    let input = "A long paragraph that will certainly be wrapped by the greedy reflow because it runs on and on well past the eightieth column of text.";
    let first_pass = format_markdown_always(input);
    let second_pass = format_markdown_always(&first_pass);
    assert_eq!(first_pass, second_pass);
}

#[test]
fn test_never_mode_unwraps() {
    let input = "one\ntwo\nthree";
    let output = format_markdown_never(input);
    assert_eq!(output, "one two three\n");
}

#[test]
fn test_preserve_mode_keeps_line_breaks() {
    let input = "one\ntwo\nthree";
    let output = format_markdown(input);
    assert_eq!(output, "one\ntwo\nthree\n");
}

#[test]
fn test_empty_input() {
    assert_eq!(format_markdown(""), "");
    assert_eq!(format_markdown("   \n  \n"), "");
}

#[test]
fn test_task_list_markers() {
    let input = "- [x] done\n- [ ] todo";
    let output = format_markdown(input);
    assert!(output.contains("[x] done"));
    assert!(output.contains("[ ] todo"));
}

#[test]
fn test_link_and_image() {
    let input = "See [docs](https://example.com/docs) and ![logo](img.png \"The logo\").";
    let output = format_markdown(input);
    assert!(output.contains("[docs](https://example.com/docs)"));
    assert!(output.contains("![logo](img.png \"The logo\")"));
}

#[test]
fn test_frontmatter_full_format() {
    let input = "---\ntitle: Test\n---\n\n#   Spaced    heading";
    let output = format_markdown_full(input);
    assert!(output.starts_with("---\ntitle: Test\n---\n\n"));
    assert!(output.contains("# Spaced heading"));
}

#[test]
fn test_format_markdown_api() {
    let out = md_formatter::api::format_markdown("# A\n# B", None).unwrap();
    assert_eq!(out, "# A\n\n# B\n");
}

#[test]
fn test_format_markdown_api_options() {
    let opts = md_formatter::api::FormatOptions {
        width: Some(30),
        wrap: Some(String::from("ALWAYS")),
        ordered_list: Some(String::from("one")),
    };
    let out =
        md_formatter::api::format_markdown("a b c d e f g h i j k l m n o p q r", Some(opts))
            .unwrap();
    assert!(out.lines().count() > 1);
    for line in out.lines() {
        assert!(line.len() <= 30);
    }
}

#[test]
fn test_invalid_wrap_mode_rejected() {
    let opts = md_formatter::api::FormatOptions {
        width: None,
        wrap: Some(String::from("sometimes")),
        ordered_list: None,
    };
    match md_formatter::api::format_markdown("x", Some(opts)) {
        Err(md_formatter::options::ConfigError::InvalidWrapMode(v)) => {
            assert_eq!(v, "sometimes");
        }
        _ => panic!("expected an invalid wrap mode error"),
    }
}

#[test]
fn test_invalid_ordered_list_mode_rejected() {
    let opts = md_formatter::api::FormatOptions {
        width: None,
        wrap: None,
        ordered_list: Some(String::from("descending")),
    };
    match md_formatter::api::format_markdown("x", Some(opts)) {
        Err(md_formatter::options::ConfigError::InvalidOrderedListMode(v)) => {
            assert_eq!(v, "descending");
            let msg = md_formatter::options::ConfigError::InvalidOrderedListMode(v).message();
            assert_eq!(msg, "invalid ordered list mode: descending");
        }
        _ => panic!("expected an invalid ordered list mode error"),
    }
}

#[test]
fn test_check_markdown_api() {
    match md_formatter::api::check_markdown("# A\n", None) {
        Ok(formatted) => assert!(formatted),
        Err(e) => panic!("{}", e.message()),
    }
    match md_formatter::api::check_markdown("#  A", None) {
        Ok(formatted) => assert!(!formatted),
        Err(e) => panic!("{}", e.message()),
    }
}

#[test]
fn test_format_markdown_with_result_api() {
    let res = md_formatter::api::format_markdown_with_result("# A\n", None).unwrap();
    assert!(!res.changed);
    assert_eq!(res.content, "# A\n");
    let res2 = md_formatter::api::format_markdown_with_result("#  A", None).unwrap();
    assert!(res2.changed);
    assert_eq!(res2.content, "# A\n");
}

#[test]
fn test_format_file_content_api() {
    let opts = Some(md_formatter::api::FileOptions {
        width: None,
        wrap: None,
        ordered_list: None,
        exclude: None,
        no_default_excludes: None,
    });
    let out = md_formatter::api::format_file_content("#  Title", &opts).unwrap();
    assert_eq!(out, "# Title\n");
}

#[test]
fn test_is_markdown_file() {
    assert!(md_formatter::paths::is_markdown_file("notes.md"));
    assert!(md_formatter::paths::is_markdown_file("a/b/NOTES.MD"));
    assert!(!md_formatter::paths::is_markdown_file("a/b/notes.txt"));
    assert!(!md_formatter::paths::is_markdown_file(".md"));
    assert!(!md_formatter::paths::is_markdown_file("plain"));
}

#[test]
fn test_should_exclude() {
    let excludes = md_formatter::paths::default_excludes();
    assert!(md_formatter::paths::should_exclude(
        "src/node_modules/pkg/readme.md",
        &excludes
    ));
    assert!(!md_formatter::paths::should_exclude(
        "src/docs/readme.md",
        &excludes
    ));
}

#[test]
fn test_get_excludes() {
    let args = md_formatter::paths::Args {
        paths: vec![],
        write: false,
        check: false,
        stdin: false,
        width: 80,
        wrap: WrapMode::Preserve,
        ordered_list: OrderedListMode::Ascending,
        excludes: vec![String::from("extra")],
        no_default_excludes: false,
    };
    let ex = args.get_excludes();
    assert!(ex.iter().any(|e| e == "node_modules"));
    assert!(ex.iter().any(|e| e == "extra"));

    let args2 = md_formatter::paths::Args {
        no_default_excludes: true,
        ..args
    };
    let ex2 = args2.get_excludes();
    assert_eq!(ex2.len(), 1);
    assert_eq!(ex2[0], "extra");
}

#[test]
fn test_wrap_mode_parse() {
    assert!(matches!(WrapMode::parse("Always"), Ok(WrapMode::Always)));
    assert!(matches!(WrapMode::parse("NEVER"), Ok(WrapMode::Never)));
    assert!(matches!(WrapMode::parse("preserve"), Ok(WrapMode::Preserve)));
    assert!(WrapMode::parse("keep").is_err());
}

#[test]
fn test_ordered_list_mode_parse() {
    assert!(matches!(
        OrderedListMode::parse("ascending"),
        Ok(OrderedListMode::Ascending)
    ));
    assert!(matches!(
        OrderedListMode::parse("ONE"),
        Ok(OrderedListMode::One)
    ));
    assert!(OrderedListMode::parse("two").is_err());
}

#[test]
fn test_nested_blockquote_prefix() {
    let input = "> > deep quote";
    let output = format_markdown(input);
    assert_eq!(output, "> > deep quote\n");
}

#[test]
fn test_list_continuation_indent() {
    let events = parse_markdown("- aaa bbb ccc ddd eee fff ggg");
    let mut formatter = Formatter::with_options(12, WrapMode::Always, OrderedListMode::Ascending);
    let output = formatter.format(events);
    let lines: Vec<&str> = output.lines().collect();
    assert!(lines.len() > 1);
    assert!(lines[0].starts_with("- "));
    for line in &lines[1..] {
        assert!(
            !line.starts_with(' '),
            "a depth-one list adds no continuation indent"
        );
    }

    let events = parse_markdown("- top\n  - bbb ccc ddd eee fff");
    let mut formatter = Formatter::with_options(12, WrapMode::Always, OrderedListMode::Ascending);
    let output = formatter.format(events);
    assert_eq!(
        output, "- top\n  - bbb ccc ddd\n  eee fff\n",
        "continuation lines inside a nested list carry two spaces per level beyond the first"
    );
}
