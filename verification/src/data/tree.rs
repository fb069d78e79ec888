use vstd::prelude::*;

use crate::text::{chars_of, push_all, string_of};

verus! {

/// An element of a syntax tree, as the tree display reads it: a node with the
/// name of its kind and its children, or a token with its text, if it has one.
pub enum TreeItem {
    Node { label: String, children: Vec<TreeItem> },
    Token { text: Option<String> },
}

/// The characters and the indentation with which a tree is drawn.
#[derive(Clone, Copy)]
pub struct TreeStyle {
    pub vertical: char,
    pub connector: char,
    pub horizontal: char,
    pub indentation: u32,
}

/// `s` repeated `n` times.
pub open spec fn repeat(s: Seq<char>, n: nat) -> Seq<char>
    decreases n,
{
    if n == 0 {
        seq![]
    } else {
        repeat(s, (n - 1) as nat) + s
    }
}

/// What stands before the children of a node for each level above it: the
/// vertical line, then as many spaces as the indentation.
pub open spec fn indent_unit(style: TreeStyle) -> Seq<char> {
    seq![style.vertical] + repeat(seq![' '], style.indentation as nat)
}

/// The branch that leads to a child: the connector, then the horizontal line
/// as wide as the indentation.
pub open spec fn branch(style: TreeStyle) -> Seq<char> {
    seq![style.connector] + repeat(seq![style.horizontal], style.indentation as nat)
}

/// What stands before a child of a node `depth` levels below the root.
pub open spec fn child_prefix(style: TreeStyle, depth: nat) -> Seq<char> {
    repeat(indent_unit(style), depth) + branch(style)
}

/// A token's label: its text in backquotes, or nothing when it has no text.
pub open spec fn token_label(text: Option<String>) -> Seq<char> {
    match text {
        Some(t) => seq!['`'] + t@ + seq!['`'],
        None => seq![],
    }
}

/// The drawing of an element `depth` levels below the root: a node's label on
/// a line, then each child on lines of its own behind its branch; a token's
/// label on a line.
pub open spec fn item_text(t: TreeItem, style: TreeStyle, depth: nat) -> Seq<char>
    decreases t,
{
    match t {
        TreeItem::Node { label, children } => label@ + seq!['\n'] + children_text(
            children@,
            style,
            depth,
        ),
        TreeItem::Token { text } => token_label(text) + seq!['\n'],
    }
}

/// The drawing of the children of a node `depth` levels below the root.
pub open spec fn children_text(cs: Seq<TreeItem>, style: TreeStyle, depth: nat) -> Seq<char>
    decreases cs,
{
    if cs.len() == 0 {
        seq![]
    } else {
        children_text(cs.subrange(0, cs.len() - 1), style, depth) + child_prefix(style, depth)
            + item_text(cs[cs.len() - 1], style, depth + 1)
    }
}

/// The label of a token as its own text: its text in backquotes, or an empty text.
pub struct GreenTokenTree {
    pub text: Option<String>,
}

impl GreenTokenTree {
    /// The token's label.
    pub fn to_string(&self) -> (r: String)
        ensures
            r@ == token_label(self.text),
    {
        match &self.text {
            Some(t) => {
                let mut out: Vec<char> = Vec::new();
                out.push('`');
                push_all(&mut out, &chars_of(t.as_str()));
                out.push('`');
                string_of(&out)
            },
            None => String::new(),
        }
    }
}

fn push_repeat(out: &mut Vec<char>, c: char, n: u32)
    ensures
        final(out)@ == old(out)@ + repeat(seq![c], n as nat),
{
    let ghost start = out@;
    for i in 0..n
        invariant
            out@ == start + repeat(seq![c], i as nat),
    {
        out.push(c);
        assert(start + repeat(seq![c], (i + 1) as nat) =~= (start + repeat(seq![c], i as nat)).push(
            c,
        ));
    }
}

fn push_item(
    t: &TreeItem,
    style: &TreeStyle,
    indent: &Vec<char>,
    Ghost(depth): Ghost<nat>,
    out: &mut Vec<char>,
)
    requires
        indent@ == repeat(indent_unit(*style), depth),
    ensures
        final(out)@ == old(out)@ + item_text(*t, *style, depth),
    decreases t,
{
    match t {
        TreeItem::Node { label, children } => {
            let ghost start = out@;
            push_all(out, &chars_of(label.as_str()));
            out.push('\n');
            let mut next = indent.clone();
            next.push(style.vertical);
            push_repeat(&mut next, ' ', style.indentation);
            assert(next@ =~= repeat(indent_unit(*style), depth + 1));
            let ghost cs = children@;
            assert(decreases_to!(*t => *children));
            assert(decreases_to!(*children => cs));
            for i in 0..children.len()
                invariant
                    cs == children@,
                    decreases_to!(*t => *children),
                    decreases_to!(*children => cs),
                    indent@ == repeat(indent_unit(*style), depth),
                    next@ == repeat(indent_unit(*style), depth + 1),
                    out@ == start + label@ + seq!['\n'] + children_text(
                        cs.subrange(0, i as int),
                        *style,
                        depth,
                    ),
            {
                let ghost before = out@;
                push_all(out, indent);
                out.push(style.connector);
                push_repeat(out, style.horizontal, style.indentation);
                assert(decreases_to!(cs => cs[i as int]));
                push_item(&children[i], style, &next, Ghost(depth + 1), out);
                assert(cs.subrange(0, i + 1).subrange(0, i as int) =~= cs.subrange(0, i as int));
                assert(out@ =~= start + label@ + seq!['\n'] + children_text(
                    cs.subrange(0, i + 1),
                    *style,
                    depth,
                ));
            }
            assert(cs.subrange(0, cs.len() as int) =~= cs);
        },
        TreeItem::Token { text } => {
            let ghost start = out@;
            if let Some(s) = text {
                out.push('`');
                push_all(out, &chars_of(s.as_str()));
                out.push('`');
            }
            out.push('\n');
            assert(out@ =~= start + item_text(*t, *style, depth));
        },
    }
}

/// A syntax tree to be drawn from its root.
pub struct GreenNodeTree {
    pub node: TreeItem,
}

impl GreenNodeTree {
    /// The tree with this root.
    pub fn new(node: TreeItem) -> (r: Self)
        ensures
            r.node == node,
    {
        GreenNodeTree { node }
    }

    /// The drawing of the tree in the given style: the root's label on the
    /// first line, and below it its descendants, each behind the branch that
    /// leads to it.
    pub fn fmt(&self, style: &TreeStyle) -> (r: String)
        ensures
            r@ == item_text(self.node, *style, 0),
    {
        let mut out: Vec<char> = Vec::new();
        let indent: Vec<char> = Vec::new();
        assert(indent@ =~= repeat(indent_unit(*style), 0));
        push_item(&self.node, style, &indent, Ghost(0), &mut out);
        assert(out@ =~= item_text(self.node, *style, 0));
        string_of(&out)
    }
}

} // verus!
