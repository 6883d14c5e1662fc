//! From the events of an XML document to a tree: the elements are the
//! nodes, their names the labels. Reading the document into events is
//! left to the caller.

use vstd::prelude::*;
use crate::io_tree::{forest_view, lemma_view, IO_Tree, Tree};

verus! {

/// Why the events of a document do not make a tree.
#[derive(Clone, Copy, Debug, PartialEq, Eq, Structural)]
pub enum ParseError {
    CannotParse,
}

/// Why a Top DAG could not be built from the events of a document.
#[derive(Clone, Copy, Debug, PartialEq, Eq, Structural)]
pub enum FromXmlError {
    /// The events do not make a tree.
    Parse(ParseError),
    /// The tree could not be built from.
    Build(crate::error::TopDagError),
}

/// What a reader found next in a document.
#[derive(Debug)]
pub enum XmlEvent {
    /// The start of an element, with its name.
    Start(String),
    /// The end of an element, with its name.
    End(String),
    /// The end of the document.
    Eof,
    /// Anything else: text, an empty element, a comment, a declaration.
    Other,
    /// The document cannot be read here.
    Broken,
}

/// The stack after an element named `label` was opened.
pub open spec fn opened(stack: Seq<Tree>, label: Seq<char>) -> Seq<Tree> {
    stack.push(Tree { label, children: Seq::empty() })
}

/// The stack after the element named `label` was closed: the element on
/// top becomes the last child of the one below it, or stays where it is if
/// none is below. `None` if no element is open or the one on top has
/// another name.
pub open spec fn closed(stack: Seq<Tree>, label: Seq<char>) -> Option<Seq<Tree>> {
    if stack.len() == 0 || stack.last().label != label {
        None
    } else if stack.len() == 1 {
        Some(stack)
    } else {
        let node = stack.last();
        let parent = stack[stack.len() - 2];
        Some(
            stack.drop_last().drop_last().push(
                Tree { label: parent.label, children: parent.children.push(node) },
            ),
        )
    }
}

/// The tree that is left when the document ends: the one element on the
/// stack. `None` if there is none or more than one.
pub open spec fn finished(stack: Seq<Tree>) -> Option<Tree> {
    if stack.len() == 1 {
        Some(stack[0])
    } else {
        None
    }
}

/// The stack after one event, and whether the document has ended with it.
/// `None` if the event does not fit the stack or could not be read.
pub open spec fn fed(stack: Seq<Tree>, event: XmlEvent) -> Option<(Seq<Tree>, bool)> {
    match event {
        XmlEvent::Start(label) => Some((opened(stack, label@), false)),
        XmlEvent::End(label) => match closed(stack, label@) {
            Some(next) => Some((next, false)),
            None => None,
        },
        XmlEvent::Eof => Some((stack, true)),
        XmlEvent::Other => Some((stack, false)),
        XmlEvent::Broken => None,
    }
}

/// The tree that the events from place `from` on make, read from the
/// stack `stack` on: starts open elements, ends close them, the
/// end of the document or of the events finishes, and what cannot be read
/// fails.
pub open spec fn assembled(events: Seq<XmlEvent>, from: int, stack: Seq<Tree>) -> Option<Tree>
    decreases events.len() - from,
{
    if from < 0 || from >= events.len() {
        finished(stack)
    } else {
        match events[from] {
            XmlEvent::Start(label) => assembled(events, from + 1, opened(stack, label@)),
            XmlEvent::End(label) => match closed(stack, label@) {
                Some(next) => assembled(events, from + 1, next),
                None => None,
            },
            XmlEvent::Eof => finished(stack),
            XmlEvent::Other => assembled(events, from + 1, stack),
            XmlEvent::Broken => None,
        }
    }
}

/// The elements of a document that are open, the outermost first.
pub struct ElementStack {
    stack: Vec<IO_Tree>,
}

impl View for ElementStack {
    type V = Seq<Tree>;

    closed spec fn view(&self) -> Seq<Tree> {
        forest_view(self.stack@)
    }
}

/// The stack without the element that was open, if there was one.
pub open spec fn dropped(stack: Seq<Tree>) -> Seq<Tree> {
    if stack.len() == 0 {
        stack
    } else {
        stack.drop_last()
    }
}

impl ElementStack {
    /// No element is open.
    pub fn new() -> (elements: ElementStack)
        ensures
            elements@ == Seq::<Tree>::empty(),
    {
        let elements = ElementStack { stack: Vec::new() };
        assert(elements@ =~= Seq::<Tree>::empty());
        elements
    }

    /// An element named `label` starts.
    pub fn open(&mut self, label: String)
        ensures
            final(self)@ == opened(old(self)@, label@),
    {
        let node = IO_Tree::leaf(label);
        self.stack.push(node);
        assert(self@ =~= opened(old(self)@, label@));
    }

    /// The element named `label` ends. Where it fails, the element that
    /// was open is gone from the stack.
    pub fn close(&mut self, label: &String) -> (result: Result<(), ParseError>)
        ensures
            match closed(old(self)@, label@) {
                Some(stack) => result is Ok && final(self)@ == stack,
                None => result is Err && final(self)@ == dropped(old(self)@),
            },
    {
        let ghost before = self@;
        match self.stack.pop() {
            None => {
                assert(self@ =~= dropped(before));
                Err(ParseError::CannotParse)
            },
            Some(node) => {
                proof {
                    lemma_view(node);
                    assert(before.last() == node@);
                }
                if !(node.label == *label) {
                    assert(self@ =~= dropped(before));
                    return Err(ParseError::CannotParse);
                }
                match self.stack.pop() {
                    None => {
                        self.stack.push(node);
                        assert(self@ =~= before);
                    },
                    Some(parent) => {
                        let ghost above = parent@;
                        let mut parent = parent;
                        proof {
                            lemma_view(parent);
                            assert(before[before.len() - 2] == above);
                        }
                        parent.children.push_back(node);
                        proof {
                            lemma_view(parent);
                            assert(parent@.children =~= above.children.push(node@));
                        }
                        self.stack.push(parent);
                        assert(self@ =~= closed(before, label@)->0);
                    },
                }
                Ok(())
            },
        }
    }

    /// Takes the next event of the document in, and says whether the
    /// document has ended with it. Where an end fails, the element that
    /// was open is gone from the stack; an event that could not be read
    /// leaves the stack as it was.
    pub fn feed(&mut self, event: XmlEvent) -> (result: Result<bool, ParseError>)
        ensures
            match fed(old(self)@, event) {
                Some((stack, ended)) => result == Ok::<bool, ParseError>(ended) && final(self)@ == stack,
                None => result is Err && final(self)@ == (if event is End {
                    dropped(old(self)@)
                } else {
                    old(self)@
                }),
            },
    {
        match event {
            XmlEvent::Start(label) => {
                self.open(label);
                Ok(false)
            },
            XmlEvent::End(label) => {
                match self.close(&label) {
                    Ok(()) => Ok(false),
                    Err(e) => Err(e),
                }
            },
            XmlEvent::Eof => Ok(true),
            XmlEvent::Other => Ok(false),
            XmlEvent::Broken => Err(ParseError::CannotParse),
        }
    }

    /// The document ends: the tree is the one element that is left.
    pub fn finish(self) -> (result: Result<IO_Tree, ParseError>)
        ensures
            match finished(self@) {
                Some(tree) => result matches Ok(root) && root@ == tree,
                None => result is Err,
            },
    {
        let mut stack = self.stack;
        if stack.len() == 1 {
            match stack.pop() {
                Some(root) => Ok(root),
                None => Err(ParseError::CannotParse),
            }
        } else {
            Err(ParseError::CannotParse)
        }
    }
}

impl IO_Tree {
    /// The tree of an XML document, from the events of the document in
    /// their order: every element is a node with its name as label, and
    /// the elements inside it are its children. Text, empty elements and
    /// all else are passed over. It fails if an end does not match the
    /// element that is open, if an event could not be read, or if the
    /// document does not leave exactly one element.
    pub fn new_from_xml(events: &Vec<XmlEvent>) -> (result: Result<IO_Tree, ParseError>)
        ensures
            match assembled(events@, 0, Seq::empty()) {
                Some(tree) => result matches Ok(root) && root@ == tree,
                None => result is Err,
            },
    {
        let mut elements = ElementStack::new();
        let mut at: usize = 0;
        while at < events.len()
            invariant
                at <= events@.len(),
                assembled(events@, at as int, elements@) == assembled(events@, 0, Seq::empty()),
            decreases events@.len() - at,
        {
            match &events[at] {
                XmlEvent::Start(label) => {
                    elements.open(label.clone());
                },
                XmlEvent::End(label) => {
                    match elements.close(label) {
                        Ok(()) => {},
                        Err(e) => {
                            return Err(e);
                        },
                    }
                },
                XmlEvent::Eof => {
                    return elements.finish();
                },
                XmlEvent::Other => {},
                XmlEvent::Broken => {
                    return Err(ParseError::CannotParse);
                },
            }
            at += 1;
        }
        elements.finish()
    }
}

} // verus!
