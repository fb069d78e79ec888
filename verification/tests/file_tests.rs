use cozoscript::io::file::{
    default_replaceallmap, default_replacetomap, first_occurrence_indices, inactivated_text,
    remove_active_suffix, script_caption,
};

fn lines(ls: &[&str]) -> Vec<String> {
    ls.iter().map(|l| l.to_string()).collect()
}

fn alts(m: &cozoscript::io::parse::ReplaceToMap, key: &str) -> Option<Vec<String>> {
    let k: Vec<char> = key.chars().collect();
    m.get(&k).map(|v| v.iter().map(|a| a.iter().collect()).collect())
}

#[test]
fn fswatch() {
    cozoscript::io::file::main();
}

#[test]
fn default_replacetomap_braces() {
    let m = default_replacetomap();
    assert_eq!(alts(&m, "{"), Some(vec!["《".to_string()]));
    assert_eq!(alts(&m, "}"), Some(vec!["》".to_string()]));
    assert_eq!(alts(&m, "["), None);
}

#[test]
fn default_replaceallmap_entries() {
    let m = default_replaceallmap();
    assert_eq!(alts(&m, ":="), Some(vec![":-".to_string()]));
    assert_eq!(alts(&m, "<-"), Some(vec![".=".to_string(), "←".to_string()]));
    assert_eq!(alts(&m, " <- "), Some(vec![" . ".to_string()]));
    assert_eq!(alts(&m, "?["), Some(vec!["？[".to_string()]));
    assert_eq!(alts(&m, "{"), None);
}

#[test]
fn script_caption_first_line() {
    assert_eq!(script_caption("a\nb"), "↓ a ...");
    assert_eq!(script_caption("one"), "↓ one");
    assert_eq!(script_caption("one\n"), "↓ one");
    assert_eq!(script_caption("x\r\ny"), "↓ x ...");
    assert_eq!(script_caption(""), "↓ ");
}

#[test]
fn first_occurrence_indices_skip_repeats() {
    let names = lines(&["a", "b", "a", "c", "b"]);
    assert_eq!(first_occurrence_indices(&names), vec![0, 1, 3]);
    assert!(first_occurrence_indices(&Vec::new()).is_empty());
}

#[test]
fn inactivated_text_puts_active_last() {
    let t = inactivated_text(lines(&["x"]), lines(&["a", "b"]));
    assert_eq!(t, "a\n\nb\n\nx");
    assert_eq!(inactivated_text(Vec::new(), Vec::new()), "");
}

#[test]
fn remove_active_suffix_strips_blocks() {
    let t = remove_active_suffix(";", lines(&["a;", "", "b", "c;", "", ""]));
    assert_eq!(t, "a\nb\nc\n");
    let t = remove_active_suffix(";", lines(&["a", "b"]));
    assert_eq!(t, "a\nb\n");
}
