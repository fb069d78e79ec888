use cozoscript::io::file::{default_replaceallmap, default_replacetomap};
use cozoscript::io::parse::{
    active_inactive_blocks, active_inactive_blocks_checked, auto_quote, auto_quote_ascii, blocks,
    find_strip_prefix, join_block, linechunks, magic_format_cozo_script, quote_chars, ReplaceToMap,
};

fn lines(ls: &[&str]) -> Vec<String> {
    ls.iter().map(|l| l.to_string()).collect()
}

#[test]
fn quote_escape_test() {
    let t = "
	r1[] <- [[1, 'a'], [2, 'b']]
	r2[] <- [[2, 'B'], [3, 'C']]

	?[l1, l2] := r1[a, l1],
					 r2[b, l2]";

    let d = magic_format_cozo_script(t, 3, &default_replacetomap());

    println!("{d}");
}

#[test]
fn quote_escape_keeps_ascii_script() {
    let t = "
	r1[] <- [[1, 'a'], [2, 'b']]
	r2[] <- [[2, 'B'], [3, 'C']]

	?[l1, l2] := r1[a, l1],
					 r2[b, l2]";
    let d = magic_format_cozo_script(t, 3, &default_replacetomap());
    assert_eq!(d, t);
}

#[test]
fn auto_quote_test() {
    let text = "?[lang, word] := *挨拶[lang, こんにちは]";
    let h = default_replacetomap();
    let s = auto_quote(text, 3, &h);
    println!("{}", &s);
}

#[test]
fn auto_quote_quotes_words_in_brackets() {
    let h = default_replacetomap();
    let s = auto_quote("?[lang, word] := *挨拶[lang, こんにちは]", 3, &h);
    assert_eq!(s, "?[lang, word] := *挨拶[lang, \"こんにちは\"]");
}

#[test]
fn auto_quote_cases() {
    let h = default_replacetomap();
    assert_eq!(auto_quote("こんにちは world", 3, &h), "\"こんにちは\" world");
    assert_eq!(auto_quote("ab 世界 cd", 3, &h), "ab \"世界\" cd");
    assert_eq!(auto_quote("x = 名前", 3, &h), "x = \"名前\"");
    assert_eq!(auto_quote("《日本》", 3, &h), "\"《日本》\"");
    assert_eq!(
        auto_quote("挨拶2 <- [[日本語, こんにちは ]]", 3, &h),
        "挨拶2 <- [[\"日本語\", \"こんにちは\" ]]"
    );
    assert_eq!(auto_quote("あ: b,c d", 3, &h), "あ: b, d");
}

#[test]
fn quote_chars_refuses_colon_at_end() {
    let h = default_replacetomap();
    let cs: Vec<char> = "{日本: 1}".chars().collect();
    assert!(quote_chars(&cs, 3, &h).is_none());
}

#[test]
fn magic_format_keeps_quoted_parts() {
    let h = default_replacetomap();
    let s = magic_format_cozo_script("a \"日本\" 語 'x' ", 3, &h);
    assert_eq!(s, "a \"日本\" \"語\" 'x' ");
}

#[test]
fn find_strip_prefixtest() {
    let replacetomap = &default_replacetomap();
    let ascstr = "<- [
		[";
    let res = find_strip_prefix(&["{", "[", "<-"], ascstr, replacetomap);
    println!("{:?}", res);
    assert!(res.is_some());
}

#[test]
fn find_strip_prefix_gives_mark_and_rest() {
    let m = default_replacetomap();
    let res = find_strip_prefix(&["{", "[", "<-"], "<- [x]", &m);
    assert_eq!(res, Some(("<-".to_string(), " [x]".to_string())));
    let res = find_strip_prefix(&["{", "["], "《a", &m);
    assert_eq!(res, Some(("{".to_string(), "a".to_string())));
    assert_eq!(find_strip_prefix(&["{", "["], "abc", &m), None);
}

#[test]
fn replace_map_lookup() {
    let m = default_replaceallmap();
    let key: Vec<char> = "<-".chars().collect();
    let alts = m.get(&key).unwrap();
    let got: Vec<String> = alts.iter().map(|a| a.iter().collect()).collect();
    assert_eq!(got, vec![".=", "←"]);
    let missing: Vec<char> = "!!".chars().collect();
    assert!(m.get(&missing).is_none());
}

#[test]
fn replace_map_insert_replaces() {
    let mut m = ReplaceToMap::new();
    m.insert("{", &["a"]);
    m.insert("{", &["b", "c"]);
    let key: Vec<char> = "{".chars().collect();
    let got: Vec<String> = m.get(&key).unwrap().iter().map(|a| a.iter().collect()).collect();
    assert_eq!(got, vec!["b", "c"]);
}

#[test]
fn linechunks_splits_at_separator() {
    let chunks = linechunks("--", lines(&["a", "--", "--", "b", "c"]));
    assert_eq!(chunks, vec![lines(&["a"]), lines(&[]), lines(&["b", "c"])]);
}

#[test]
fn blocks_drop_empty_chunks() {
    let bs = blocks(lines(&["", "a", "b", "", "", "c", ""]));
    assert_eq!(bs, vec![lines(&["a", "b"]), lines(&["c"])]);
    assert!(blocks(Vec::new()).is_empty());
}

#[test]
fn join_block_uses_line_breaks() {
    let j: String = join_block(&lines(&["a", "b", "c"])).into_iter().collect();
    assert_eq!(j, "a\nb\nc");
}

#[test]
fn active_inactive_blocks_sorts() {
    let m = default_replacetomap();
    let (active, inactive) = active_inactive_blocks(
        ";",
        lines(&["a 日本;", "", "x", "y", "", "", "z 世界;"]),
        3,
        &m,
    );
    assert_eq!(active, vec!["a \"日本\"", "z \"世界\""]);
    assert_eq!(inactive, vec!["x\ny"]);
}

#[test]
fn active_inactive_blocks_checked_refuses() {
    let m = default_replacetomap();
    let r = active_inactive_blocks_checked(";", lines(&["{日本: 1};"]), 3, &m);
    assert!(r.is_none());
    let r = active_inactive_blocks_checked(";", lines(&["{日本: 1}"]), 3, &m);
    assert_eq!(r, Some((vec![], vec!["{日本: 1}".to_string()])));
}

#[test]
fn auto_quote_ascii_words() {
    let cs: Vec<char> = "hello world\n\nab cd".chars().collect();
    assert_eq!(auto_quote_ascii(&cs, 3), "\"hello\" \"world\"\nab cd");
    let cs: Vec<char> = "x1234 12345 a_bcd".chars().collect();
    assert_eq!(auto_quote_ascii(&cs, 3), "\"x1234\" 12345 a_bcd");
    let cs: Vec<char> = "abcd".chars().collect();
    assert_eq!(auto_quote_ascii(&cs, 4), "abcd");
}
