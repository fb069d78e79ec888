use cozoscript::util::func::{partition_toggle, partition_toggle_tuple, result_unwrap, split_partition};

fn text(cs: &[char]) -> String {
    cs.iter().collect()
}

#[test]
fn nonascii() {
    let t = " hello, 世界world";
    let p = partition_toggle(t.chars().collect(), &|c: &char| c.is_ascii());
    let pt = partition_toggle_tuple(t.chars().collect(), &|c: &char| c.is_ascii());
    println!("{:?}", p);
    println!("{:?}", pt);
}

#[test]
fn partition_toggle_alternates_from_false() {
    let t = " hello, 世界world";
    let p = partition_toggle(t.chars().collect(), &|c: &char| c.is_ascii());
    let got: Vec<String> = p.iter().map(|g| text(g)).collect();
    assert_eq!(got, vec!["", " hello, ", "世界", "world"]);
}

#[test]
fn partition_toggle_ends_on_false_run() {
    let p = partition_toggle("ab世".chars().collect(), &|c: &char| c.is_ascii());
    let got: Vec<String> = p.iter().map(|g| text(g)).collect();
    assert_eq!(got, vec!["", "ab", "世"]);
}

#[test]
fn partition_toggle_empty_input() {
    let p = partition_toggle(Vec::<char>::new(), &|c: &char| c.is_ascii());
    assert!(p.is_empty());
}

#[test]
fn partition_toggle_tuple_pairs() {
    let t = " hello, 世界world";
    let pt = partition_toggle_tuple(t.chars().collect(), &|c: &char| c.is_ascii());
    let got: Vec<(String, String)> = pt.iter().map(|(a, b)| (text(a), text(b))).collect();
    assert_eq!(
        got,
        vec![
            ("".to_string(), " hello, ".to_string()),
            ("世界".to_string(), "world".to_string())
        ]
    );
}

#[test]
fn partition_toggle_tuple_numbers() {
    let pt = partition_toggle_tuple(vec![1, 3, 2, 4, 5, 6], &|x: &i32| x % 2 == 0);
    assert_eq!(pt, vec![(vec![1, 3], vec![2, 4]), (vec![5], vec![6])]);
}

#[test]
fn split_partition_keeps_false_runs() {
    let parts = split_partition("ab\n\ncd\ne".chars().collect(), &|c: &char| *c == '\n');
    let got: Vec<String> = parts.iter().map(|g| text(g)).collect();
    assert_eq!(got, vec!["ab", "cd", "e"]);
}

#[test]
fn split_partition_leading_separator() {
    let parts = split_partition("\nab".chars().collect(), &|c: &char| *c == '\n');
    let got: Vec<String> = parts.iter().map(|g| text(g)).collect();
    assert_eq!(got, vec!["", "ab"]);
}

#[test]
fn result_unwrap_either_side() {
    assert_eq!(result_unwrap::<u8>(Ok(3)), 3);
    assert_eq!(result_unwrap::<u8>(Err(4)), 4);
}
