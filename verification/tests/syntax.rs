use openscad_lsp::kinds::{Field, NodeKind};
use openscad_lsp::parse_code::{find_offset, ParsedCode, TextChange};
use openscad_lsp::text::{get_slice, trim};
use openscad_lsp::{Position, Range, SyntaxTree};
use tree_sitter::{Node, Parser, Point, Tree};
use tree_sitter_traversal2::{traverse, Order};

const SAMPLE: &str = "// doc é\nuse <a.scad>\ninclude <b.scad>;\nw = [for (i = [0:2]) i];\n\
module m(a, b=w, $fn=3) {\n  for (j = [1, 2]) { let(k = j) echo(k.x, name=a); }\n\
  if (a > 1) { m(b=2) cube(1); } else { f(1)(2); }\n}\n\
function f(x) = let(y = x) y + function(z) z;\nbroken( = ;\n";

fn parse(code: &str) -> Tree {
    let mut parser = Parser::new();
    parser.set_language(&tree_sitter_openscad::LANGUAGE.into()).unwrap();
    parser.parse(code, None).unwrap()
}

fn place(nodes: &[Node], node: Option<Node>) -> Option<usize> {
    node.map(|node| nodes.iter().position(|other| *other == node).expect("listed"))
}

#[test]
fn the_tree_is_that_of_the_parser() {
    let tree = parse(SAMPLE);
    let nodes: Vec<Node> = traverse(tree.walk(), Order::Pre).collect();
    let ours = SyntaxTree::parse(SAMPLE);
    assert_eq!(ours.len(), nodes.len());
    let fields = [
        ("name", Field::Name),
        ("value", Field::Value),
        ("parameters", Field::Parameters),
        ("arguments", Field::Arguments),
        ("index", Field::Index),
        ("condition", Field::Condition),
    ];
    for (k, node) in nodes.iter().enumerate() {
        assert_eq!(ours.node(k).kind_name, node.kind());
        assert_eq!(ours.kind(k), NodeKind::from_name(node.kind()));
        assert_eq!(ours.parent(k), place(&nodes, node.parent()));
        assert_eq!(ours.prev_sibling(k), place(&nodes, node.prev_sibling()));
        assert_eq!(ours.child(k, 1), place(&nodes, node.child(1)));
        let named: Vec<usize> = node
            .named_children(&mut node.walk())
            .map(|child| place(&nodes, Some(child)).unwrap())
            .collect();
        assert_eq!(ours.named_children(k), named);
        for (name, field) in fields {
            assert_eq!(
                ours.child_by_field(k, field),
                place(&nodes, node.child_by_field_name(name)),
                "{name} of {node:?}"
            );
        }
        assert_eq!(ours.node_text(SAMPLE, k), &SAMPLE[node.byte_range()]);
        assert_eq!(
            ours.range(k).start,
            Position {
                line: node.start_position().row as u32,
                character: node.start_position().column as u32,
            }
        );
    }
}

#[test]
fn the_node_at_a_position_is_that_of_a_cursor() {
    let tree = parse(SAMPLE);
    let nodes: Vec<Node> = traverse(tree.walk(), Order::Pre).collect();
    let ours = SyntaxTree::parse(SAMPLE);
    for line in 0..12 {
        for character in 0..60 {
            let mut cursor = tree.root_node().walk();
            while cursor
                .goto_first_child_for_point(Point { row: line, column: character })
                .is_some()
            {}
            let position = Position { line: line as u32, character: character as u32 };
            assert_eq!(
                ours.node_at(position),
                place(&nodes, Some(cursor.node())).unwrap()
            );
        }
    }
}

#[test]
fn an_empty_text_has_a_root() {
    let tree = SyntaxTree::parse("");
    assert_eq!(tree.len(), 1);
    assert_eq!(tree.kind(0), NodeKind::SourceFile);
    assert_eq!(tree.parent(0), None);
}

#[test]
fn offsets_count_bytes_from_the_start_of_a_line() {
    let at = |line: u32, character: u32| Position { line, character };
    assert_eq!(find_offset("ab\ncd\n", at(0, 1)), Some(1));
    assert_eq!(find_offset("ab\ncd\n", at(1, 1)), Some(4));
    assert_eq!(find_offset("ab\ncd\n", at(2, 0)), Some(6));
    assert_eq!(find_offset("ab\ncd\n", at(3, 0)), None);
}

fn edit(code: &str, changes: Vec<TextChange>) -> ParsedCode {
    let mut doc = ParsedCode::new(code.to_owned(), "file:///a.scad".to_owned());
    doc.edit(&changes);
    doc
}

fn change(from: (u32, u32), to: (u32, u32), text: &str) -> TextChange {
    TextChange {
        range: Some(Range {
            start: Position { line: from.0, character: from.1 },
            end: Position { line: to.0, character: to.1 },
        }),
        text: text.to_owned(),
    }
}

#[test]
fn changes_replace_ranges_one_after_the_other() {
    let doc = edit(
        "a = 1;\nb = 2;\n",
        vec![change((0, 4), (0, 5), "10"), change((1, 0), (1, 1), "cc")],
    );
    assert_eq!(doc.code, "a = 10;\ncc = 2;\n");
    assert_eq!(doc.tree.node_text(&doc.code, 0), doc.code);
    assert!(doc.changed);

    let first = edit("a = 1;\nb = 2;\n", vec![change((0, 4), (0, 5), "10")]);
    let second = edit(&first.code, vec![change((1, 0), (1, 1), "cc")]);
    assert_eq!(second.code, doc.code);

    let whole = edit("a = 1;\n", vec![TextChange { range: None, text: "x".to_owned() }]);
    assert_eq!(whole.code, "x");
}

#[test]
fn a_change_outside_the_text_does_nothing() {
    assert_eq!(edit("a\n", vec![change((9, 0), (9, 1), "x")]).code, "a\n");
    assert_eq!(edit("a\n", vec![change((0, 1), (0, 0), "x")]).code, "a\n");
    assert_eq!(edit("é\n", vec![change((0, 1), (0, 2), "x")]).code, "é\n");
}

#[test]
fn slices_keep_to_characters() {
    assert_eq!(get_slice("aéb", 1, 3), Some("é"));
    assert_eq!(get_slice("aéb", 1, 2), None);
    assert_eq!(get_slice("aéb", 3, 1), None);
    assert_eq!(get_slice("aéb", 0, 9), None);
    assert_eq!(trim(" \t\u{3000}x y\n"), "x y");
    assert_eq!(trim(" \n"), "");
}
