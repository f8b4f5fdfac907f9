use vstd::prelude::*;
use crate::table::Table;
use crate::text::{slice_views, split_spaces, words};

verus! {

/// The attributes of an element, by name.
pub type AttrMap = Table<String>;

/// A node of the document tree, with its children in document order.
#[derive(Debug)]
pub struct Node {
    pub children: Vec<Node>,
    pub node_type: NodeType,
}

/// What a node is: a text, or an element.
#[derive(Debug)]
pub enum NodeType {
    Text(String),
    Element(ElementData),
}

/// The tag name and the attributes of an element.
#[derive(Debug)]
pub struct ElementData {
    pub tag_name: String,
    pub attributes: AttrMap,
}

/// A text leaf.
pub fn text(data: String) -> (node: Node)
    ensures
        node.children@.len() == 0,
        node.node_type == NodeType::Text(data),
{
    Node { children: Vec::new(), node_type: NodeType::Text(data) }
}

/// An element with the given tag name, attributes and children.
pub fn elem(name: String, attributes: AttrMap, children: Vec<Node>) -> (node: Node)
    ensures
        node.children == children,
        node.node_type == NodeType::Element(ElementData { tag_name: name, attributes }),
{
    Node { children, node_type: NodeType::Element(ElementData { tag_name: name, attributes }) }
}

impl ElementData {
    /// The value of the `id` attribute, where the element has one.
    pub open spec fn id_value(self) -> Option<Seq<char>> {
        if self.attributes@.contains_key("id"@) {
            Some(self.attributes@["id"@]@)
        } else {
            None
        }
    }

    /// The class names of the element: the words of its `class` attribute,
    /// and none where it has no such attribute.
    pub open spec fn class_names(self) -> Seq<Seq<char>> {
        if self.attributes@.contains_key("class"@) {
            words(self.attributes@["class"@]@)
        } else {
            Seq::empty()
        }
    }

    /// The value of the `id` attribute, where the element has one.
    pub fn id(&self) -> (found: Option<&String>)
        ensures
            match found {
                Some(id) => self.id_value() == Some(id@),
                None => self.id_value() is None,
            },
    {
        self.attributes.get("id")
    }

    /// The class names of the element, in the order of its `class`
    /// attribute.
    pub fn classes(&self) -> (names: Vec<&str>)
        ensures
            slice_views(names@) == self.class_names(),
    {
        match self.attributes.get("class") {
            Some(classlist) => split_spaces(classlist.as_str()),
            None => {
                let names: Vec<&str> = Vec::new();
                assert(slice_views(names@) == Seq::<Seq<char>>::empty());
                names
            },
        }
    }
}

} // verus!
