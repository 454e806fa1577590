//! A directory tree held in an arena: nodes refer to each other by index.

use vstd::prelude::*;

pub mod model;
pub mod parse;
pub mod query;
pub mod size;

verus! {

/// What a node is: a directory with its children, or a file.
#[derive(Debug)]
pub enum Contents {
    Dir { name: String, children: Vec<usize> },
    File { name: String },
}

/// One entry of the tree. `size` is a file's size; for a directory it is the
/// computed size, once the sizes have been calculated.
#[derive(Debug)]
pub struct Node {
    pub parent: Option<usize>,
    pub data: Contents,
    pub size: usize,
}

/// The tree: all nodes, the root first, and the current directory.
#[derive(Debug)]
pub struct Filesystem {
    pub pointer: usize,
    pub arena: Vec<Node>,
}

/// The mathematical value of a [`Contents`].
pub enum ContentsView {
    Dir { name: Seq<char>, children: Seq<usize> },
    File { name: Seq<char> },
}

/// The mathematical value of a [`Node`].
pub struct NodeView {
    pub parent: Option<usize>,
    pub data: ContentsView,
    pub size: usize,
}

impl ContentsView {
    /// Whether this is a directory.
    pub open spec fn is_dir(self) -> bool {
        self is Dir
    }

    /// The name.
    pub open spec fn name(self) -> Seq<char> {
        match self {
            ContentsView::Dir { name, .. } => name,
            ContentsView::File { name } => name,
        }
    }

    /// A directory's children in the order of their creation; none for a file.
    pub open spec fn children(self) -> Seq<usize> {
        match self {
            ContentsView::Dir { children, .. } => children,
            ContentsView::File { .. } => Seq::empty(),
        }
    }
}

impl NodeView {
    /// Whether the node is a directory.
    pub open spec fn is_dir(self) -> bool {
        self.data.is_dir()
    }

    /// The node's name.
    pub open spec fn name(self) -> Seq<char> {
        self.data.name()
    }

    /// A directory's children in the order of their creation; none for a file.
    pub open spec fn children(self) -> Seq<usize> {
        self.data.children()
    }
}

impl View for Contents {
    type V = ContentsView;

    open spec fn view(&self) -> ContentsView {
        match self {
            Contents::Dir { name, children } => ContentsView::Dir {
                name: name@,
                children: children@,
            },
            Contents::File { name } => ContentsView::File { name: name@ },
        }
    }
}

impl View for Node {
    type V = NodeView;

    open spec fn view(&self) -> NodeView {
        NodeView { parent: self.parent, data: self.data@, size: self.size }
    }
}

/// The values of the nodes of an arena.
pub open spec fn arena_view(a: Seq<Node>) -> Seq<NodeView> {
    a.map_values(|n: Node| n@)
}

impl Filesystem {
    /// The values of the nodes.
    pub open spec fn nodes(&self) -> Seq<NodeView> {
        arena_view(self.arena@)
    }

    /// The arena is well formed and the current directory is one of its
    /// directories.
    pub open spec fn wf(&self) -> bool {
        &&& model::well_formed(self.nodes())
        &&& self.pointer < self.arena@.len()
        &&& self.nodes()[self.pointer as int].is_dir()
    }
}

impl Node {
    /// Whether the node is a directory.
    pub fn is_dir(&self) -> (b: bool)
        ensures
            b == self@.is_dir(),
    {
        match &self.data {
            Contents::Dir { .. } => true,
            Contents::File { .. } => false,
        }
    }
}

impl Contents {
    /// An empty directory named `name`.
    pub fn new_dir(name: &str) -> (c: Contents)
        ensures
            c@ == (ContentsView::Dir { name: name@, children: Seq::empty() }),
    {
        Contents::Dir { name: name.to_owned(), children: Vec::new() }
    }

    /// A file named `name`.
    pub fn new_file(name: &str) -> (c: Contents)
        ensures
            c@ == (ContentsView::File { name: name@ }),
    {
        Contents::File { name: name.to_owned() }
    }

    /// The children of a directory.
    pub fn children(&self) -> (c: &[usize])
        requires
            self@.is_dir(),
        ensures
            c@ == self@.children(),
    {
        match self {
            Contents::Dir { children, .. } => children.as_slice(),
            Contents::File { .. } => &[],
        }
    }

    /// Adds `i` at the end of a directory's children.
    pub fn push_child(&mut self, i: usize)
        requires
            old(self)@.is_dir(),
        ensures
            final(self)@ == (ContentsView::Dir {
                name: old(self)@.name(),
                children: old(self)@.children().push(i),
            }),
    {
        match self {
            Contents::Dir { children, .. } => {
                children.push(i);
            },
            Contents::File { .. } => {},
        }
    }

    /// The node's name.
    pub fn name(&self) -> (n: &str)
        ensures
            n@ == self@.name(),
    {
        match self {
            Contents::Dir { name, .. } => name.as_str(),
            Contents::File { name } => name.as_str(),
        }
    }
}

} // verus!
