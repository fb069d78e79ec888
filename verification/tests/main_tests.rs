use cozoscript::io::main::{find_stopper, readlines_step};

#[test]
fn find_stopper_first_match() {
    let stoppers = vec![":q\n", ":w\n", ":q\n"];
    assert_eq!(find_stopper(&stoppers, ":q\n"), Some(0));
    assert_eq!(find_stopper(&stoppers, ":w\n"), Some(1));
    assert_eq!(find_stopper(&stoppers, ":q"), None);
    assert_eq!(find_stopper(&Vec::new(), "x"), None);
}

#[test]
fn readlines_steps() {
    let stoppers = vec!["end\n"];
    let mut lines: Vec<String> = Vec::new();
    assert_eq!(readlines_step(&stoppers, Some("a\n".to_string()), &mut lines), None);
    assert_eq!(readlines_step(&stoppers, Some("b\n".to_string()), &mut lines), None);
    assert_eq!(readlines_step(&stoppers, Some("end\n".to_string()), &mut lines), Some(Some(0)));
    assert_eq!(lines, vec!["a\n".to_string(), "b\n".to_string()]);
    assert_eq!(readlines_step(&stoppers, None, &mut lines), Some(None));
    assert_eq!(lines.len(), 2);
}
