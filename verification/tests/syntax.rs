use spec_diff::parse::syntax::{parse_source, Grammar};

#[test]
fn parse_arena_is_linked_in_pre_order() {
    let source = "describe \"a\" do\n  it \"b\" do\n  end\nend\n";
    let tree = parse_source(Grammar::Ruby, source).expect("ruby loads");
    let nodes = &tree.nodes;
    assert!(!nodes.is_empty());
    assert_eq!(nodes[0].kind, "program");
    assert_eq!(nodes[0].parent, None);
    assert_eq!(nodes[0].start, 0);
    assert_eq!(nodes[0].end, source.len());
    for (i, n) in nodes.iter().enumerate() {
        if let Some(p) = n.parent {
            assert!(p < i);
            assert!(nodes[p].children.contains(&i));
        }
        for w in n.children.windows(2) {
            assert!(w[0] < w[1]);
            assert_eq!(nodes[w[1]].prev, Some(w[0]));
        }
        if let Some(&first) = n.children.first() {
            assert_eq!(first, i + 1);
            assert_eq!(nodes[first].prev, None);
        }
    }
}

#[test]
fn parse_arena_keeps_fields_and_rows() {
    let source = "fn main() {}\n\n#[test]\nfn it_works() {}\n";
    let tree = parse_source(Grammar::Rust, source).expect("rust loads");
    let names: Vec<usize> = (0..tree.nodes.len())
        .filter(|&i| tree.nodes[i].field.as_deref() == Some("name") && tree.nodes[i].kind == "identifier")
        .collect();
    assert_eq!(names.len(), 2);
    assert_eq!(&source[tree.nodes[names[0]].start..tree.nodes[names[0]].end], "main");
    assert_eq!(&source[tree.nodes[names[1]].start..tree.nodes[names[1]].end], "it_works");
    assert_eq!(tree.nodes[names[0]].row, 0);
    assert_eq!(tree.nodes[names[1]].row, 3);
}
