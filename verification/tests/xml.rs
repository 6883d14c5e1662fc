use top_dag::io_tree::IO_Tree;
use top_dag::label_text::{has_line_break, join_labels, split_labels};
use top_dag::xml::{ElementStack, FromXmlError, ParseError, XmlEvent};
use top_dag::{TopDagError, TopTreeBuilder};

fn start(name: &str) -> XmlEvent {
    XmlEvent::Start(name.to_string())
}

fn end(name: &str) -> XmlEvent {
    XmlEvent::End(name.to_string())
}

fn leaf(label: &str) -> IO_Tree {
    IO_Tree::leaf(label.to_string())
}

fn node(label: &str, children: Vec<IO_Tree>) -> IO_Tree {
    IO_Tree::node(label.to_string(), children.into())
}

#[test]
fn elements_become_nodes() {
    // <a><b></b>text<c><b></b></c></a>
    let events = vec![
        start("a"),
        XmlEvent::Other,
        start("b"),
        end("b"),
        XmlEvent::Other,
        start("c"),
        start("b"),
        end("b"),
        end("c"),
        end("a"),
        XmlEvent::Eof,
    ];
    let tree = IO_Tree::new_from_xml(&events).unwrap();
    assert!(tree.equals(&node("a", vec![leaf("b"), node("c", vec![leaf("b")])])));
}

#[test]
fn documents_that_are_no_tree_are_refused() {
    let refused: Vec<Vec<XmlEvent>> = vec![
        vec![],
        vec![XmlEvent::Eof],
        vec![XmlEvent::Other, XmlEvent::Eof],
        vec![end("a"), XmlEvent::Eof],
        vec![start("a"), end("b"), XmlEvent::Eof],
        vec![start("a"), start("b"), end("a"), end("b"), XmlEvent::Eof],
        vec![start("a"), start("b"), XmlEvent::Eof],
        vec![start("a"), XmlEvent::Broken, end("a"), XmlEvent::Eof],
        vec![start("a"), end("a"), XmlEvent::Broken],
    ];
    for events in refused.iter() {
        assert_eq!(IO_Tree::new_from_xml(events).err(), Some(ParseError::CannotParse));
    }
}

#[test]
fn what_follows_the_end_of_the_document_is_not_read() {
    let events = vec![start("a"), end("a"), XmlEvent::Eof, XmlEvent::Broken, start("b")];
    assert!(IO_Tree::new_from_xml(&events).unwrap().equals(&leaf("a")));
    // a list of events that just stops counts as ended
    let events = vec![start("a"), start("b"), end("b"), end("a")];
    assert!(IO_Tree::new_from_xml(&events).unwrap().equals(&node("a", vec![leaf("b")])));
}

#[test]
fn one_open_element_at_the_end_is_the_tree() {
    let events = vec![start("a"), XmlEvent::Eof, end("a")];
    assert!(IO_Tree::new_from_xml(&events).unwrap().equals(&leaf("a")));
    let events = vec![start("a"), start("b"), end("b"), XmlEvent::Eof];
    assert!(IO_Tree::new_from_xml(&events).unwrap().equals(&node("a", vec![leaf("b")])));
}

#[test]
fn an_element_behind_the_root_goes_below_it() {
    // <a></a><b></b>: the first element stays open for what follows
    let events = vec![start("a"), end("a"), start("b"), end("b"), XmlEvent::Eof];
    let tree = IO_Tree::new_from_xml(&events).unwrap();
    assert!(tree.equals(&node("a", vec![leaf("b")])));
}

#[test]
fn the_element_stack_step_by_step() {
    let mut elements = ElementStack::new();
    elements.open("a".to_string());
    elements.open("b".to_string());
    assert_eq!(elements.close(&"b".to_string()), Ok(()));
    elements.open("c".to_string());
    assert_eq!(elements.close(&"a".to_string()), Err(ParseError::CannotParse));
    let mut elements = ElementStack::new();
    assert_eq!(elements.close(&"a".to_string()), Err(ParseError::CannotParse));
    let mut elements = ElementStack::new();
    elements.open("a".to_string());
    elements.open("b".to_string());
    assert_eq!(elements.close(&"b".to_string()), Ok(()));
    assert_eq!(elements.close(&"a".to_string()), Ok(()));
    assert_eq!(elements.close(&"a".to_string()), Ok(()));
    assert!(elements.finish().unwrap().equals(&node("a", vec![leaf("b")])));
    assert_eq!(ElementStack::new().finish().err(), Some(ParseError::CannotParse));
}

#[test]
fn events_are_fed_one_by_one() {
    let mut elements = ElementStack::new();
    assert_eq!(elements.feed(start("a")), Ok(false));
    assert_eq!(elements.feed(XmlEvent::Other), Ok(false));
    assert_eq!(elements.feed(start("b")), Ok(false));
    assert_eq!(elements.feed(end("b")), Ok(false));
    assert_eq!(elements.feed(end("a")), Ok(false));
    assert_eq!(elements.feed(XmlEvent::Eof), Ok(true));
    assert!(elements.finish().unwrap().equals(&node("a", vec![leaf("b")])));
    let mut elements = ElementStack::new();
    assert_eq!(elements.feed(start("a")), Ok(false));
    assert_eq!(elements.feed(XmlEvent::Broken), Err(ParseError::CannotParse));
    let mut elements = ElementStack::new();
    assert_eq!(elements.feed(end("a")), Err(ParseError::CannotParse));
}

#[test]
fn a_builder_from_the_events_of_a_document() {
    let events = vec![start("a"), start("b"), end("b"), start("b"), end("b"), end("a"), XmlEvent::Eof];
    let builder = TopTreeBuilder::new_from_xml(&events, None).unwrap();
    assert_eq!(builder.labels(), vec!["Dummy_node".to_string(), "a".to_string(), "b".to_string()]);
    assert!(builder.get_IO_tree().unwrap().equals(&node("a", vec![leaf("b"), leaf("b")])));
    let broken = vec![start("a"), end("b"), XmlEvent::Eof];
    assert_eq!(
        TopTreeBuilder::new_from_xml(&broken, None).err(),
        Some(FromXmlError::Parse(ParseError::CannotParse))
    );
    let reserved = vec![start("a"), start("Dummy_node"), end("Dummy_node"), end("a"), XmlEvent::Eof];
    assert_eq!(
        TopTreeBuilder::new_from_xml(&reserved, None).err(),
        Some(FromXmlError::Build(TopDagError::ReservedLabelCollision))
    );
}

#[test]
fn labels_are_joined_line_by_line() {
    let labels = vec!["Dummy_node".to_string(), "a".to_string(), "".to_string(), "b c".to_string()];
    let text = join_labels(&labels).unwrap();
    assert_eq!(text, "Dummy_node\na\n\nb c\n");
    assert_eq!(split_labels(&text), labels);
    assert_eq!(join_labels(&Vec::new()), Some(String::new()));
    assert_eq!(split_labels(&String::new()), Vec::<String>::new());
}

#[test]
fn a_label_with_a_line_break_cannot_be_joined() {
    assert!(has_line_break(&"a\nb".to_string()));
    assert!(has_line_break(&"\n".to_string()));
    assert!(!has_line_break(&"ab".to_string()));
    assert!(!has_line_break(&"".to_string()));
    assert_eq!(join_labels(&vec!["a".to_string(), "b\n".to_string()]), None);
}

#[test]
fn what_follows_the_last_line_break_is_no_label() {
    assert_eq!(split_labels(&"a\nb".to_string()), vec!["a".to_string()]);
    assert_eq!(split_labels(&"ab".to_string()), Vec::<String>::new());
    assert_eq!(split_labels(&"\n\n".to_string()), vec!["".to_string(), "".to_string()]);
    assert_eq!(split_labels(&"\u{e4}\u{1F600}\nz\n".to_string()), vec!["\u{e4}\u{1F600}".to_string(), "z".to_string()]);
}

#[test]
fn a_failed_end_takes_the_open_element_away() {
    let mut elements = ElementStack::new();
    elements.open("a".to_string());
    elements.open("b".to_string());
    assert_eq!(elements.close(&"x".to_string()), Err(ParseError::CannotParse));
    // "b" is gone, "a" is the one element that is left
    assert!(elements.finish().unwrap().equals(&leaf("a")));
    let mut elements = ElementStack::new();
    elements.open("a".to_string());
    assert_eq!(elements.feed(XmlEvent::Broken), Err(ParseError::CannotParse));
    assert!(elements.finish().unwrap().equals(&leaf("a")));
    let mut elements = ElementStack::new();
    elements.open("a".to_string());
    assert_eq!(elements.feed(end("x")), Err(ParseError::CannotParse));
    assert_eq!(elements.finish().err(), Some(ParseError::CannotParse));
}
