use vstd::prelude::*;

pub mod escape;
pub mod text;
pub mod chars;
pub mod grammar;
pub mod parse;
pub mod tree;
pub mod render;
pub mod output;
pub mod site;

verus! {

#[derive(Debug)]
/// An element: a tag name, its attributes in order (duplicates allowed), and its children.
pub struct Element {
    pub name: String,
    pub attributes: Vec<(String, String)>,
    pub children: Vec<Node>,
}

#[derive(Debug)]
/// A node of a parsed template.
pub enum Node {
    Doctype(String),
    Directive { command: String, children: Vec<Node> },
    Text(String),
    /// Text written out verbatim (the body of a `:javascript` block).
    RawText(String),
    Element(Element),
}

impl Node {
    /// Whether the node is preceded by indentation when rendered.
    pub open spec fn indents(&self) -> bool {
        self is Element || self is Text || self is Doctype
    }

    /// Whether the node may hold children.
    pub open spec fn holds_children(&self) -> bool {
        self is Element || self is Directive
    }

    /// The children of a container node (empty for a leaf).
    pub open spec fn child_seq(&self) -> Seq<Node> {
        match self {
            Node::Element(e) => e.children@,
            Node::Directive { children, .. } => children@,
            _ => Seq::empty(),
        }
    }

    pub fn should_indent(&self) -> (r: bool)
        ensures
            r == self.indents(),
    {
        match self {
            Node::Element(_) | Node::Text(_) | Node::Doctype(_) => true,
            Node::Directive { .. } | Node::RawText(_) => false,
        }
    }

    pub fn supports_children(&self) -> (r: bool)
        ensures
            r == self.holds_children(),
    {
        match self {
            Node::Directive { .. } | Node::Element(_) => true,
            Node::Doctype(_) | Node::Text(_) | Node::RawText(_) => false,
        }
    }

    /// Appends `node` to the children of a container node; a leaf is left as it is
    /// and `false` comes back.
    pub fn append_child(&mut self, node: Node) -> (r: bool)
        ensures
            r == old(self).holds_children(),
            r ==> final(self).child_seq() == old(self).child_seq().push(node),
            r ==> (match (*old(self), *final(self)) {
                (Node::Element(a), Node::Element(b)) => a.name == b.name && a.attributes == b.attributes,
                (Node::Directive { command: a, .. }, Node::Directive { command: b, .. }) => a == b,
                _ => false,
            }),
            !r ==> *final(self) == *old(self),
    {
        match self {
            Node::Doctype(_) => false,
            Node::Directive { children, .. } => {
                children.push(node);
                true
            },
            Node::Text(_) => false,
            Node::RawText(_) => false,
            Node::Element(ele) => {
                ele.children.push(node);
                true
            },
        }
    }
}

/// Builds a childless element from a name and attribute pairs.
pub fn element(name: &str, attributes: Vec<(&str, &str)>) -> (r: Element)
    ensures
        r.name@ == name@,
        r.attributes@.len() == attributes@.len(),
        forall|i: int| 0 <= i < attributes@.len() ==>
            (#[trigger] r.attributes@[i]).0@ == attributes@[i].0@ && r.attributes@[i].1@ == attributes@[i].1@,
        r.children@.len() == 0,
{
    let mut attrs: Vec<(String, String)> = Vec::new();
    let mut i: usize = 0;
    while i < attributes.len()
        invariant
            i <= attributes@.len(),
            attrs@.len() == i,
            forall|j: int| 0 <= j < i ==>
                (#[trigger] attrs@[j]).0@ == attributes@[j].0@ && attrs@[j].1@ == attributes@[j].1@,
        decreases attributes@.len() - i,
    {
        let (k, v) = attributes[i];
        attrs.push((k.to_owned(), v.to_owned()));
        i = i + 1;
    }
    Element { name: name.to_owned(), attributes: attrs, children: Vec::new() }
}

/// Whether `opt` holds a value that satisfies `f`.
pub fn contains<T, F: Fn(&T) -> bool>(opt: Option<T>, f: F) -> (r: bool)
    requires
        opt matches Some(v) ==> f.requires((&v,)),
    ensures
        opt is None ==> !r,
        opt matches Some(v) ==> f.ensures((&v,), r),
{
    match opt {
        Some(v) => f(&v),
        None => false,
    }
}

#[derive(Debug)]
/// The nodes that a `yield` inside an included template renders.
pub struct TemplateContext {
    pub nodes: Vec<Node>,
}

impl TemplateContext {
    pub fn empty() -> (r: TemplateContext)
        ensures
            r.nodes@.len() == 0,
    {
        TemplateContext { nodes: Vec::new() }
    }
}

} // verus!
