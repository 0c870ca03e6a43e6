use aicheck::check_file_exists;
use aicheck::files::OutputFile;
use aicheck::keys::{parse_keys, render_keys};
use aicheck::save_to_file;

fn strings(items: &[&str]) -> Vec<String> {
    items.iter().map(|s| s.to_string()).collect()
}

#[test]
fn missing_file_is_reported() {
    assert_eq!(check_file_exists("keys.txt", false), Err("keys.txt not exists".to_string()));
    assert_eq!(check_file_exists("", false), Err(" not exists".to_string()));
}

#[test]
fn existing_file_is_passed_on() {
    assert_eq!(check_file_exists("keys.txt", true), Ok("keys.txt".to_string()));
    assert_eq!(check_file_exists("dir/my keys", true), Ok("dir/my keys".to_string()));
}

#[test]
fn blank_lines_and_comments_are_dropped() {
    let keys = parse_keys("sk-1\n# a comment\n\n  sk-2  \r\n#sk-3\n\t\nsk-4");
    assert_eq!(keys, strings(&["sk-1", "sk-2", "sk-4"]));
}

#[test]
fn an_empty_text_lists_nothing() {
    assert_eq!(parse_keys(""), Vec::<String>::new());
    assert_eq!(parse_keys("\n\n"), Vec::<String>::new());
    assert_eq!(parse_keys("# only\n#comments"), Vec::<String>::new());
    assert_eq!(parse_keys("   "), Vec::<String>::new());
}

#[test]
fn a_comment_sign_counts_only_at_the_start() {
    assert_eq!(parse_keys("  #indented\nkey#1\n"), strings(&["key#1"]));
}

#[test]
fn reading_agrees_with_lines_trim_and_filter() {
    for contents in ["a\nb", "a\r\nb\r\n", "\n a \n\n#x\n b", "x", "x\n", "\u{a0}k\u{3000}\n", "a b\nc"] {
        let expected: Vec<String> = contents
            .lines()
            .map(|k| k.trim())
            .filter(|k| !k.is_empty())
            .filter(|k| !k.starts_with("#"))
            .map(String::from)
            .collect();
        assert_eq!(parse_keys(contents), expected);
    }
}

#[test]
fn each_credential_gets_its_line() {
    assert_eq!(render_keys(&strings(&["a", "b", "c"])), "a\nb\nc\n");
    assert_eq!(render_keys(&strings(&["only"])), "only\n");
    assert_eq!(render_keys(&Vec::new()), "");
}

#[test]
fn nothing_is_written_for_an_empty_list() {
    assert_eq!(save_to_file(&Vec::new(), "empty"), None);
    assert_eq!(
        save_to_file(&strings(&["a"]), "one"),
        Some(OutputFile { name: "one".to_string(), contents: "a\n".to_string() })
    );
    assert_eq!(
        save_to_file(&strings(&["a", "b"]), "dir/two.txt"),
        Some(OutputFile { name: "dir/two.txt".to_string(), contents: "a\nb\n".to_string() })
    );
}

#[test]
fn a_written_list_reads_back_in_order() {
    let keys = strings(&["sk-b", "sk-a", "AIza-c", "sk-a", "with space inside"]);
    assert_eq!(parse_keys(&render_keys(&keys)), keys);
    let back: Vec<String> =
        render_keys(&keys).split('\n').map(|k| k.trim().to_string()).filter(|k| !k.is_empty()).collect();
    assert_eq!(back, keys);
}

#[test]
fn what_is_read_is_written_and_read_the_same() {
    for contents in ["a\n b \n#c\n\nd", "\u{3000}x y\u{a0}\r\n\r\n", "#\n#\n", "k"] {
        let keys = parse_keys(contents);
        for key in &keys {
            assert!(!key.is_empty());
            assert!(!key.starts_with('#'));
            assert_eq!(key.trim(), key);
            assert!(!key.contains('\n'));
        }
        assert_eq!(parse_keys(&render_keys(&keys)), keys);
    }
}
