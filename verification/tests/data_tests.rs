use cozoscript::data::table::{NamedRowsWrap, ValidityWrap};
use cozoscript::data::tree::{GreenNodeTree, GreenTokenTree, TreeItem, TreeStyle};

fn strings(ls: &[&str]) -> Vec<String> {
    ls.iter().map(|l| l.to_string()).collect()
}

#[test]
fn named_rows_as_table() {
    let t = NamedRowsWrap { headers: strings(&["a", "b"]), rows: vec![strings(&["1", "22"])] };
    assert_eq!(
        t.into_string(),
        "+---+----+\n| a | b  |\n+---+----+\n| 1 | 22 |\n+---+----+"
    );
}

#[test]
fn validity_text() {
    let v = ValidityWrap { is_assert: true, timestamp: -5 };
    assert_eq!(v.into_string(), "Validity {\n\tis_assert: true\n\ttimestamp: -5\n}");
    let v = ValidityWrap { is_assert: false, timestamp: 1700000000 };
    assert_eq!(v.into_string(), "Validity {\n\tis_assert: false\n\ttimestamp: 1700000000\n}");
    let v = ValidityWrap { is_assert: false, timestamp: i64::MIN };
    assert_eq!(
        v.into_string(),
        format!("Validity {{\n\tis_assert: false\n\ttimestamp: {}\n}}", i64::MIN)
    );
    let v = ValidityWrap { is_assert: true, timestamp: 0 };
    assert_eq!(v.into_string(), "Validity {\n\tis_assert: true\n\ttimestamp: 0\n}");
}

#[test]
fn token_tree_label() {
    assert_eq!(GreenTokenTree { text: Some("abc".to_string()) }.to_string(), "`abc`");
    assert_eq!(GreenTokenTree { text: None }.to_string(), "");
}

#[test]
fn node_tree_drawing() {
    let tree = TreeItem::Node {
        label: "Script".to_string(),
        children: vec![
            TreeItem::Token { text: Some("a".to_string()) },
            TreeItem::Node {
                label: "Var".to_string(),
                children: vec![TreeItem::Token { text: None }],
            },
        ],
    };
    let style = TreeStyle { vertical: '│', connector: '├', horizontal: '─', indentation: 1 };
    let t = GreenNodeTree::new(tree).fmt(&style);
    assert_eq!(t, "Script\n├─`a`\n├─Var\n│ ├─\n");
}

#[test]
fn node_tree_wide_indentation() {
    let tree = TreeItem::Node {
        label: "A".to_string(),
        children: vec![TreeItem::Node {
            label: "B".to_string(),
            children: vec![TreeItem::Node { label: "C".to_string(), children: vec![] }],
        }],
    };
    let style = TreeStyle { vertical: '|', connector: '+', horizontal: '-', indentation: 2 };
    let t = GreenNodeTree::new(tree).fmt(&style);
    assert_eq!(t, "A\n+--B\n|  +--C\n");
}
