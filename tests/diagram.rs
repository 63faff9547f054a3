use seqdiag::diagram::Items;
use seqdiag::item::{Item, RenderError};
use seqdiag::nodes::Nodes;

fn parsed(input: &str) -> Items {
    let mut items = Items::new();
    items.parse(input);
    items
}

fn arrow_ends(item: &Item) -> (String, String, String) {
    match item {
        Item::Arrow { from, to, text } => (from.clone(), to.clone(), text.clone()),
        _ => panic!("not an arrow"),
    }
}

fn group_lines(item: &Item) -> usize {
    match item {
        Item::Group { lines, .. } => *lines,
        _ => panic!("not a group"),
    }
}

#[test]
fn registry_keeps_first_occurrence_order() {
    let mut nodes = Nodes::new();
    nodes.add(" Alice ");
    nodes.add("Bob");
    nodes.add("Alice");
    nodes.add("\tBob\u{3000}");
    nodes.add("Carol");
    assert_eq!(nodes.len(), 3);
    assert_eq!(nodes.index_of("Alice"), 0);
    assert_eq!(nodes.index_of("Bob"), 1);
    assert_eq!(nodes.index_of("Carol"), 2);
    assert_eq!(nodes.name(0), "Alice");
    assert_eq!(nodes.find("Dave"), None);
}

#[test]
fn reversed_arrow_equals_forward_arrow() {
    let a = parsed("A -> B: hi\nB <- A: yo");
    let b = parsed("A -> B: hi\nA -> B: yo");
    assert_eq!(a.len(), 2);
    for items in [&a, &b] {
        assert_eq!(arrow_ends(items.item(0)), ("A".to_string(), "B".to_string(), "hi".to_string()));
        assert_eq!(arrow_ends(items.item(1)), ("A".to_string(), "B".to_string(), "yo".to_string()));
    }
    assert_eq!(a.print(), b.print());
}

#[test]
fn backward_note_is_an_error_with_its_line() {
    let items = parsed("B -> A: hi\nnote A,B: text");
    assert_eq!(items.print(), Err(RenderError::BackwardNote { line: 2 }));
}

#[test]
fn comments_and_blank_lines_are_not_counted() {
    let items = parsed("# comment\n\nA -> B: x\n\nnote B,A: y\n");
    assert_eq!(items.print(), Err(RenderError::BackwardNote { line: 2 }));
}

#[test]
fn escaping_replaces_special_characters() {
    assert_eq!(Item::txt(" a\\b_c\nd "), "a\\backslashb\\_c \\\\\nd");
    assert_eq!(Item::txt("plain"), "plain");
    assert_eq!(Item::txt("   "), "");
}

#[test]
fn escaping_applies_to_rendered_text() {
    let items = parsed("title: x_y\nA -> B: p\\q\nr_s");
    let out = items.print().unwrap();
    assert!(out.contains("{\\txt{p\\backslashq \\\\\nr\\_s}}"));
    assert!(out.contains("\\caption{x\\_y}\n"));
    assert!(!out.contains("r_s"));
}

#[test]
fn group_counts_enclosed_items() {
    let items = parsed("group: G\nA -> B: 1\nA -> B: 2\nA -> B: 3\nend");
    assert_eq!(items.len(), 4);
    assert_eq!(group_lines(items.item(0)), 3);
}

#[test]
fn empty_group_renders_as_comment() {
    let items = parsed("A -> B: x\ngroup: G\nend");
    assert_eq!(group_lines(items.item(1)), 0);
    let out = items.print().unwrap();
    assert!(out.contains("% empty group: G\n"));
    assert!(!out.contains("*+[F-,]"));
    assert!(out.contains("% empty group: G\n \\ar@{-}[uuu] & \\ar@{-}[uuu] \\\\\n"));
}

#[test]
fn nested_groups_close_innermost_first() {
    let items = parsed("group: O\ngroup: I\nA -> B: x\nend\nA -> B: y\nend");
    assert_eq!(group_lines(items.item(1)), 1);
    assert_eq!(group_lines(items.item(0)), 3);
}

#[test]
fn end_without_group_does_nothing() {
    let items = parsed("A -> B: x\nend");
    assert_eq!(items.len(), 1);
    assert_eq!(arrow_ends(items.item(0)).2, "x");
}

#[test]
fn group_frame_rows() {
    let items = parsed("A -> B: x\ngroup: G\nA -> B: y\nend");
    let out = items.print().unwrap();
    assert!(out.contains(
        "    \\save [].[r] {\\txt{G}} \\restore \\ar@{-}[uu]\n      \\save [].[dr] *+[F-,]\\frm{} \\restore & \\\\\n"
    ));
}

#[test]
fn end_to_end_document() {
    let items = parsed("title: Demo\nA -> B: ping\nB -> A: pong\nnote A,B: done\n");
    let expected = [
        r"\begin{figure}",
        r"\small",
        r"\[ \xymatrix  {",
        r"  *+[F]{\txt{A}} &",
        r"  *+[F]{\txt{B}} \\",
        r"     \ar[r]^{\txt{ping}} & \\",
        r"    & \ar[l]_{\txt{pong}}  \\",
        r"     *+<1.5em>{} \save [].[r] *[F.:<3pt>]\frm{} \restore *+\txt{done} \ar@{-}[uuu] &  *+<1.5em>{} \ar@{-}[uuu]  \\",
        r" \ar@{-}[u] & \ar@{-}[u] \\",
        r"} \]",
        r"\caption{Demo}",
        r"\end{figure}",
        "",
    ]
    .join("\n");
    assert_eq!(items.print().unwrap(), expected);
}

#[test]
fn single_column_note_and_trailer() {
    let items = parsed("A -> B: x\nnote B: hi");
    let out = items.print().unwrap();
    assert!(out.contains("    & *+[F.:<3pt>]{\\txt{hi}} \\ar@{-}[uu] & \\\\\n"));
    assert!(out.contains(" \\ar@{-}[uuu] & \\ar@{-}[u] \\\\\n"));
}

#[test]
fn note_height_follows_line_count() {
    let two = parsed("A -> B: x\nnote: first\nsecond").print().unwrap();
    assert!(two.contains("*+<3em>{}"));
    assert!(two.contains("*+\\txt{first \\\\\nsecond}"));
    let three = parsed("A -> B: x\nnote: a\nb\nc").print().unwrap();
    assert!(three.contains("*+<4.5em>{}"));
}

#[test]
fn unknown_participant_in_note() {
    let items = parsed("A -> B: x\nnote C: hi");
    assert_eq!(items.print(), Err(RenderError::UnknownParticipant { line: 2 }));
}

#[test]
fn no_participants_is_an_error() {
    let items = parsed("title: T");
    assert_eq!(items.title(), "T");
    assert_eq!(items.print(), Err(RenderError::NoParticipants));
}

#[test]
fn unknown_directive_leaves_comment() {
    let mut items = Items::new();
    let diag = items.parse("foo : bar\nA -> B: x");
    assert_eq!(diag, "% skipped foo: bar\n");
    assert_eq!(items.len(), 1);
}

#[test]
fn options_and_label_in_figure() {
    let mut items = parsed("xypic: @C=3em\nA -> B: x");
    items.label("flow_1");
    assert_eq!(items.options(), "@C=3em");
    assert_eq!(items.figure_label(), Some("flow_1"));
    let out = items.print().unwrap();
    assert!(out.starts_with("\\begin{figure}\n\\small\n\\[ \\xymatrix @C=3em {\n"));
    assert!(out.ends_with("\\caption{}\n\\label{fig:flow\\_1}\n\\end{figure}\n"));
}

#[test]
fn parse_line_reports_counting() {
    let mut items = Items::new();
    assert_eq!(items.parse_line("# c", 1), (false, String::new()));
    assert_eq!(items.parse_line("   ", 1), (false, String::new()));
    assert_eq!(items.parse_line("A -> B: x", 1), (true, String::new()));
    assert_eq!(items.parse_line("more", 2), (true, String::new()));
    assert_eq!(arrow_ends(items.item(0)).2, "x\nmore");
    assert_eq!(items.nodes().len(), 2);
}

#[test]
fn note_spec_forms() {
    let items = parsed("A -> B: x\nB -> C: y\nnote: all\nnote B: one\nnote  A , C : span");
    match items.item(2) {
        Item::Note { from, to, line, .. } => {
            assert_eq!((from.clone(), to.clone(), *line), (None, None, 3));
        }
        _ => panic!("not a note"),
    }
    match items.item(3) {
        Item::Note { from, to, .. } => {
            assert_eq!((from.clone(), to.clone()), (Some("B".to_string()), Some("B".to_string())));
        }
        _ => panic!("not a note"),
    }
    match items.item(4) {
        Item::Note { from, to, text, .. } => {
            assert_eq!((from.clone(), to.clone()), (Some("A".to_string()), Some("C".to_string())));
            assert_eq!(text, "span");
        }
        _ => panic!("not a note"),
    }
}

#[test]
fn wide_note_uses_middle_column() {
    let items = parsed("A -> B: x\nB -> C: y\nC -> D: z\nnote A,D: n");
    let out = items.print().unwrap();
    assert!(out.contains(
        "     *+<1.5em>{} \\save [].[rrr] *[F.:<3pt>]\\frm{} \\restore \\ar@{-}[uuuu] & *+\\txt{n} \\ar@{-}[uuuu] &  *+<1.5em>{} \\ar@{-}[uuuu] &  *+<1.5em>{} \\ar@{-}[uuuu]  \\\\\n"
    ));
}

#[test]
fn escaping_keeps_texts_apart() {
    assert_ne!(Item::txt("a\\"), Item::txt("a_"));
    assert_ne!(Item::txt("x\\y"), Item::txt("xbackslashy"));
    assert_eq!(Item::txt("_\n_"), "\\_ \\\\\n\\_");
}

#[test]
fn group_closed_around_nothing_stays_closed() {
    let items = parsed("group: A\nX -> Y: 1\ngroup: B\nend\nend");
    assert_eq!(group_lines(items.item(2)), 0);
    assert_eq!(group_lines(items.item(0)), 2);
    let again = parsed("group: A\nend\nend");
    assert_eq!(group_lines(again.item(0)), 0);
}

#[test]
fn empty_group_comment_covers_every_line() {
    let items = parsed("A -> B: x\ngroup: G\nsecond line\nend");
    let out = items.print().unwrap();
    assert!(out.contains("% empty group: G\n% second line\n"));
}
