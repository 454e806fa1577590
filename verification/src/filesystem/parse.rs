//! Reading the record of a shell session into a tree.
//!
//! The record is read line by line. A line is one of
//!
//! - `$ cd /`, `$ cd ..`, `$ cd <name>`: a change of the current directory;
//! - `$ ls`: the lines up to the next command list the current directory;
//! - `dir <name>`: a listed directory;
//! - `<size> <name>`: a listed file, its size a decimal numeral.
//!
//! Words are separated by white space. Anything else is an error, and the
//! first error ends the reading.
//!
//! A name may be listed more than once in one directory, for a directory
//! and for a file alike: each listing adds a node of its own, and `cd`
//! goes by the first node of the name. Where that node is a file, `cd` is
//! an error.

use crate::filesystem::model::{
    aggregated, dir_size, files_total, kids, lemma_effective_size_bounded,
    lemma_files_total_same_shape, lemma_kids_same_shape, lemma_root_size_is_files_total, linked,
    listed, well_formed,
};
use crate::filesystem::{arena_view, Contents, ContentsView, Filesystem, Node, NodeView};
use crate::text::{
    chars_of, decimal_value, is_decimal, lines, parse_decimal, split_lines, split_words,
    string_of, views, word_is, words,
};
use vstd::prelude::*;

verus! {

/// Why a line was refused.
#[derive(Debug, Clone, Copy, PartialEq, Eq)]
pub enum ParseErrorKind {
    /// The line has none of the known shapes, or lists an entry where no
    /// listing is open.
    MalformedLine,
    /// `cd <name>` where the current directory has no child of that name,
    /// or the first child of that name is a file.
    UnknownDirectory,
    /// `cd ..` in the root.
    NoParent,
    /// The size of a listed file is no decimal numeral, or too large a one.
    InvalidSize,
    /// The sizes of the files listed so far add up to more than a `usize`
    /// holds.
    TotalTooLarge,
}

/// A refused line: its number, the first line being line 1, and the reason.
#[derive(Debug, Clone, Copy, PartialEq, Eq)]
pub struct ParseError {
    pub line: usize,
    pub kind: ParseErrorKind,
}

/// A line of the record.
#[derive(Debug)]
pub enum Line {
    CdRoot,
    CdUp,
    CdInto(String),
    List,
    DirEntry(String),
    FileEntry(usize, String),
}

/// The mathematical value of a [`Line`].
pub enum LineView {
    CdRoot,
    CdUp,
    CdInto(Seq<char>),
    List,
    DirEntry(Seq<char>),
    FileEntry(usize, Seq<char>),
}

impl View for Line {
    type V = LineView;

    open spec fn view(&self) -> LineView {
        match self {
            Line::CdRoot => LineView::CdRoot,
            Line::CdUp => LineView::CdUp,
            Line::CdInto(name) => LineView::CdInto(name@),
            Line::List => LineView::List,
            Line::DirEntry(name) => LineView::DirEntry(name@),
            Line::FileEntry(size, name) => LineView::FileEntry(*size, name@),
        }
    }
}

/// What a line made of the words `w` is.
pub open spec fn classify(w: Seq<Seq<char>>) -> Result<LineView, ParseErrorKind> {
    if w.len() == 0 {
        Err(ParseErrorKind::MalformedLine)
    } else if w[0] == "$"@ {
        if w.len() == 2 && w[1] == "ls"@ {
            Ok(LineView::List)
        } else if w.len() == 3 && w[1] == "cd"@ {
            if w[2] == "/"@ {
                Ok(LineView::CdRoot)
            } else if w[2] == ".."@ {
                Ok(LineView::CdUp)
            } else {
                Ok(LineView::CdInto(w[2]))
            }
        } else {
            Err(ParseErrorKind::MalformedLine)
        }
    } else if w.len() != 2 {
        Err(ParseErrorKind::MalformedLine)
    } else if w[0] == "dir"@ {
        Ok(LineView::DirEntry(w[1]))
    } else if is_decimal(w[0]) && decimal_value(w[0]) <= usize::MAX {
        Ok(LineView::FileEntry(decimal_value(w[0]) as usize, w[1]))
    } else {
        Err(ParseErrorKind::InvalidSize)
    }
}

/// Reads one line.
pub fn parse_line(line: &[char]) -> (r: Result<Line, ParseErrorKind>)
    ensures
        match classify(words(line@)) {
            Ok(l) => r is Ok && r->Ok_0@ == l,
            Err(e) => r == Err::<Line, ParseErrorKind>(e),
        },
{
    let w = split_words(line);
    let ghost ws = words(line@);
    assert(forall|i: int| 0 <= i < w@.len() ==> (#[trigger] w@[i])@ == ws[i]);
    if w.len() == 0 {
        return Err(ParseErrorKind::MalformedLine);
    }
    if word_is(w[0].as_slice(), "$") {
        if w.len() == 2 && word_is(w[1].as_slice(), "ls") {
            Ok(Line::List)
        } else if w.len() == 3 && word_is(w[1].as_slice(), "cd") {
            if word_is(w[2].as_slice(), "/") {
                Ok(Line::CdRoot)
            } else if word_is(w[2].as_slice(), "..") {
                Ok(Line::CdUp)
            } else {
                Ok(Line::CdInto(string_of(w[2].as_slice())))
            }
        } else {
            Err(ParseErrorKind::MalformedLine)
        }
    } else if w.len() != 2 {
        Err(ParseErrorKind::MalformedLine)
    } else if word_is(w[0].as_slice(), "dir") {
        Ok(Line::DirEntry(string_of(w[1].as_slice())))
    } else {
        match parse_decimal(w[0].as_slice()) {
            Some(size) => Ok(Line::FileEntry(size, string_of(w[1].as_slice()))),
            None => Err(ParseErrorKind::InvalidSize),
        }
    }
}

/// The first of `children`, from position `from` on, that is a node of `a`
/// named `name`.
pub open spec fn first_named(
    a: Seq<NodeView>,
    children: Seq<usize>,
    name: Seq<char>,
    from: int,
) -> Option<usize>
    decreases children.len() - from,
{
    if from < 0 || from >= children.len() {
        None
    } else if children[from] < a.len() && a[children[from] as int].name() == name {
        Some(children[from])
    } else {
        first_named(a, children, name, from + 1)
    }
}

/// Whether the node's name is `name`.
fn has_name(node: &Node, name: &String) -> (b: bool)
    ensures
        b == (node@.name() == name@),
{
    match &node.data {
        Contents::Dir { name: n, .. } => *n == *name,
        Contents::File { name: n } => *n == *name,
    }
}

/// The first of `children` that is a node of `arena` named `name`.
pub fn find_named(arena: &[Node], children: &[usize], name: &String) -> (r: Option<usize>)
    ensures
        r == first_named(arena_view(arena@), children@, name@, 0),
{
    let mut i: usize = 0;
    while i < children.len()
        invariant
            i <= children@.len(),
            first_named(arena_view(arena@), children@, name@, 0) == first_named(
                arena_view(arena@),
                children@,
                name@,
                i as int,
            ),
        decreases children@.len() - i,
    {
        let c = children[i];
        if c < arena.len() && has_name(&arena[c], name) {
            return Some(c);
        }
        i += 1;
    }
    None
}

/// Where the reading stands: the tree so far, the current directory, and
/// whether a listing is open.
pub struct ParseState {
    pub nodes: Seq<NodeView>,
    pub cursor: usize,
    pub listing: bool,
}

/// The root directory alone.
pub open spec fn root_only() -> Seq<NodeView> {
    seq![
        NodeView {
            parent: None,
            data: ContentsView::Dir { name: "/"@, children: Seq::empty() },
            size: 0,
        },
    ]
}

/// The state before the first line.
pub open spec fn initial_state() -> ParseState {
    ParseState { nodes: root_only(), cursor: 0, listing: false }
}

/// The node `node` with `c` added at the end of its children.
pub open spec fn with_listed(node: NodeView, c: usize) -> NodeView {
    NodeView {
        parent: node.parent,
        data: ContentsView::Dir { name: node.name(), children: node.children().push(c) },
        size: node.size,
    }
}

/// The arena `a` with `node` added at its end, as a new child of `p`.
pub open spec fn with_child(a: Seq<NodeView>, p: int, node: NodeView) -> Seq<NodeView> {
    a.update(p, with_listed(a[p], a.len() as usize)).push(node)
}

/// A new, empty directory below `p`.
pub open spec fn new_dir_node(p: usize, name: Seq<char>) -> NodeView {
    NodeView {
        parent: Some(p),
        data: ContentsView::Dir { name: name, children: Seq::empty() },
        size: 0,
    }
}

/// A new file below `p`.
pub open spec fn new_file_node(p: usize, name: Seq<char>, size: usize) -> NodeView {
    NodeView { parent: Some(p), data: ContentsView::File { name: name }, size: size }
}

/// The state after `line`, or why the line is refused.
pub open spec fn step(st: ParseState, line: LineView) -> Result<ParseState, ParseErrorKind> {
    let here = st.nodes[st.cursor as int];
    match line {
        LineView::CdRoot => Ok(ParseState { nodes: st.nodes, cursor: 0, listing: false }),
        LineView::CdUp => match here.parent {
            Some(p) => Ok(ParseState { nodes: st.nodes, cursor: p, listing: false }),
            None => Err(ParseErrorKind::NoParent),
        },
        LineView::CdInto(name) => match first_named(st.nodes, here.children(), name, 0) {
            Some(c) => if st.nodes[c as int].is_dir() {
                Ok(ParseState { nodes: st.nodes, cursor: c, listing: false })
            } else {
                Err(ParseErrorKind::UnknownDirectory)
            },
            None => Err(ParseErrorKind::UnknownDirectory),
        },
        LineView::List => Ok(ParseState { nodes: st.nodes, cursor: st.cursor, listing: true }),
        LineView::DirEntry(name) => if st.listing {
            Ok(
                ParseState {
                    nodes: with_child(st.nodes, st.cursor as int, new_dir_node(st.cursor, name)),
                    cursor: st.cursor,
                    listing: true,
                },
            )
        } else {
            Err(ParseErrorKind::MalformedLine)
        },
        LineView::FileEntry(size, name) => if !st.listing {
            Err(ParseErrorKind::MalformedLine)
        } else if files_total(st.nodes, st.nodes.len() as int) + size > usize::MAX {
            Err(ParseErrorKind::TotalTooLarge)
        } else {
            Ok(
                ParseState {
                    nodes: with_child(
                        st.nodes,
                        st.cursor as int,
                        new_file_node(st.cursor, name, size),
                    ),
                    cursor: st.cursor,
                    listing: true,
                },
            )
        },
    }
}

/// The state after the line `line`, or why the line is refused.
pub open spec fn step_line(st: ParseState, line: Seq<char>) -> Result<ParseState, ParseErrorKind> {
    match classify(words(line)) {
        Ok(l) => step(st, l),
        Err(e) => Err(e),
    }
}

/// The state after the first `k` of the lines `ls`, or the first error
/// among them.
pub open spec fn run(ls: Seq<Seq<char>>, k: int) -> Result<ParseState, ParseError>
    decreases k,
{
    if k <= 0 {
        Ok(initial_state())
    } else {
        match run(ls, k - 1) {
            Ok(st) => match step_line(st, ls[k - 1]) {
                Ok(next) => Ok(next),
                Err(kind) => Err(ParseError { line: k as usize, kind: kind }),
            },
            Err(e) => Err(e),
        }
    }
}

/// What reading the record `text` gives: the final state, or the first
/// error.
pub open spec fn parsed(text: Seq<char>) -> Result<ParseState, ParseError> {
    run(lines(text), lines(text).len() as int)
}

/// The state's tree is well formed and its current directory is a directory
/// of the tree.
pub open spec fn state_ok(st: ParseState) -> bool {
    &&& well_formed(st.nodes)
    &&& st.cursor < st.nodes.len()
    &&& st.nodes[st.cursor as int].is_dir()
}

/// Once a line is refused, the error stays.
pub proof fn lemma_run_error_stays(ls: Seq<Seq<char>>, k: int, n: int)
    requires
        k <= n,
        run(ls, k) is Err,
    ensures
        run(ls, n) == run(ls, k),
    decreases n - k,
{
    if k < n {
        lemma_run_error_stays(ls, k, n - 1);
    }
}

/// No node of a tree has a parent at `d` or later among the first `n`
/// nodes, where `n` is at most `d + 1`.
pub proof fn lemma_kids_none(a: Seq<NodeView>, d: usize, n: int)
    requires
        a.len() >= 1,
        a[0].parent is None,
        forall|i: int| 1 <= i < a.len() ==> #[trigger] linked(a, i),
        n <= a.len(),
        n <= d + 1,
    ensures
        kids(a, d, n) == Seq::<usize>::empty(),
    decreases n,
{
    if n > 0 {
        lemma_kids_none(a, d, n - 1);
        if n - 1 >= 1 {
            assert(linked(a, n - 1));
        }
    }
}

/// Adding a file or an empty directory below a directory of a well-formed
/// arena gives a well-formed arena, as long as the files' sizes still add
/// up to what a `usize` holds.
pub proof fn lemma_with_child(a: Seq<NodeView>, p: int, node: NodeView)
    requires
        well_formed(a),
        0 <= p < a.len(),
        a[p].is_dir(),
        a.len() < usize::MAX,
        node.parent == Some(p as usize),
        node.children() == Seq::<usize>::empty(),
        files_total(a, a.len() as int) + (if node.is_dir() {
            0
        } else {
            node.size as int
        }) <= usize::MAX,
    ensures
        well_formed(with_child(a, p, node)),
        files_total(with_child(a, p, node), (a.len() + 1) as int) == files_total(a, a.len() as int) + (
        if node.is_dir() {
            0
        } else {
            node.size as int
        }),
{
    let b = with_child(a, p, node);
    let n = a.len() as int;
    assert(b.len() == n + 1);
    assert forall|i: int| 0 <= i < n implies (#[trigger] b[i]).parent == a[i].parent && b[i].is_dir()
        == a[i].is_dir() && b[i].size == a[i].size && b[i].name() == a[i].name() by {}
    assert forall|i: int| 1 <= i < b.len() implies #[trigger] linked(b, i) by {
        if i < n {
            assert(linked(a, i));
            let q = a[i].parent->0 as int;
            assert(b[q].is_dir() == a[q].is_dir());
        } else {
            assert(b[p].is_dir() == a[p].is_dir());
        }
    }
    assert forall|d: int| 0 <= d < b.len() implies #[trigger] listed(b, d) by {
        if d < n {
            assert(listed(a, d));
            lemma_kids_same_shape(b, a, d as usize, n);
            if d == p {
                assert(b[p].children() == a[p].children().push(n as usize));
            } else {
                assert(b[d] == a[d]);
            }
        } else {
            lemma_kids_none(b, d as usize, n + 1);
        }
    }
    lemma_files_total_same_shape(b, a, n);
}

/// Every step keeps the state in order.
pub proof fn lemma_step_ok(st: ParseState, line: LineView)
    requires
        state_ok(st),
        st.nodes.len() < usize::MAX,
        step(st, line) is Ok,
    ensures
        state_ok(step(st, line)->Ok_0),
{
    let next = step(st, line)->Ok_0;
    match line {
        LineView::CdRoot => {},
        LineView::CdUp => {
            assert(st.cursor >= 1);
            assert(linked(st.nodes, st.cursor as int));
        },
        LineView::CdInto(name) => {
            lemma_first_named_member(st.nodes, st.nodes[st.cursor as int].children(), name, 0);
        },
        LineView::List => {},
        LineView::DirEntry(name) => {
            lemma_with_child(st.nodes, st.cursor as int, new_dir_node(st.cursor, name));
        },
        LineView::FileEntry(size, name) => {
            lemma_with_child(st.nodes, st.cursor as int, new_file_node(st.cursor, name, size));
        },
    }
}

/// What `first_named` finds is one of the children, a node of the arena,
/// and has the name.
pub proof fn lemma_first_named_member(
    a: Seq<NodeView>,
    children: Seq<usize>,
    name: Seq<char>,
    from: int,
)
    requires
        0 <= from,
    ensures
        match first_named(a, children, name, from) {
            Some(c) => c < a.len() && a[c as int].name() == name && exists|j: int|
                from <= j < children.len() && children[j] == c,
            None => forall|j: int|
                from <= j < children.len() && children[j] < a.len() ==> a[children[j] as int].name()
                    != name,
        },
    decreases children.len() - from,
{
    if from < children.len() {
        if children[from] < a.len() && a[children[from] as int].name() == name {
        } else {
            lemma_first_named_member(a, children, name, from + 1);
        }
    }
}

impl Contents {
    /// The first child of this directory that is named `name`.
    pub fn cd(&self, name: &str, arena: &[Node]) -> (c: usize)
        requires
            self@.is_dir(),
            first_named(arena_view(arena@), self@.children(), name@, 0) is Some,
        ensures
            Some(c) == first_named(arena_view(arena@), self@.children(), name@, 0),
    {
        let owned = name.to_owned();
        match find_named(arena, self.children(), &owned) {
            Some(c) => c,
            None => 0,
        }
    }
}

impl Filesystem {
    /// The tree that holds the root directory alone.
    pub fn new() -> (fs: Filesystem)
        ensures
            fs.nodes() == root_only(),
            fs.pointer == 0,
            fs.wf(),
    {
        let root = Node { parent: None, data: Contents::new_dir("/"), size: 0 };
        let mut arena: Vec<Node> = Vec::new();
        arena.push(root);
        let fs = Filesystem { pointer: 0, arena };
        proof {
            assert(fs.nodes() =~= root_only());
            lemma_root_only();
        }
        fs
    }

    /// Adds `node` at the end of `arena` and returns its index, which it
    /// keeps for good.
    pub fn allocate(arena: &mut Vec<Node>, node: Node) -> (index: usize)
        ensures
            final(arena)@ == old(arena)@.push(node),
            index == old(arena)@.len(),
            index < usize::MAX,
    {
        arena.push(node);
        arena.len() - 1
    }

    /// Adds `node`, a file or an empty directory, as the last child of the
    /// directory `parent`, and returns its index.
    pub fn add_child(&mut self, parent: usize, node: Node) -> (index: usize)
        requires
            old(self).wf(),
            parent < old(self).arena@.len(),
            old(self).nodes()[parent as int].is_dir(),
            node.parent == Some(parent),
            node@.children() == Seq::<usize>::empty(),
            files_total(old(self).nodes(), old(self).arena@.len() as int) + (if node@.is_dir() {
                0
            } else {
                node.size as int
            }) <= usize::MAX,
        ensures
            index == old(self).arena@.len(),
            final(self).nodes() == with_child(old(self).nodes(), parent as int, node@),
            final(self).pointer == old(self).pointer,
            final(self).wf(),
            files_total(final(self).nodes(), final(self).arena@.len() as int) == files_total(
                old(self).nodes(),
                old(self).arena@.len() as int,
            ) + (if node@.is_dir() {
                0
            } else {
                node.size as int
            }),
    {
        let ghost a = self.nodes();
        let index = Self::allocate(&mut self.arena, node);
        self.arena[parent].data.push_child(index);
        proof {
            assert(self.nodes() =~= with_child(a, parent as int, node@));
            lemma_with_child(a, parent as int, node@);
        }
        index
    }

    /// The first child of node `parent` that is named `name`, if there is
    /// one.
    pub fn find_child(&self, parent: usize, name: &str) -> (r: Option<usize>)
        ensures
            r == if parent < self.arena@.len() {
                first_named(self.nodes(), self.nodes()[parent as int].children(), name@, 0)
            } else {
                None
            },
    {
        if parent >= self.arena.len() {
            return None;
        }
        match &self.arena[parent].data {
            Contents::Dir { children, .. } => {
                let owned = name.to_owned();
                find_named(self.arena.as_slice(), children.as_slice(), &owned)
            },
            Contents::File { .. } => None,
        }
    }
}

/// The root alone is a well-formed tree without files.
pub proof fn lemma_root_only()
    ensures
        well_formed(root_only()),
        files_total(root_only(), 1) == 0,
{
    let a = root_only();
    assert(kids(a, 0, 1) =~= Seq::<usize>::empty()) by {
        assert(kids(a, 0, 0) =~= Seq::<usize>::empty());
    }
    assert(listed(a, 0));
    assert(files_total(a, 1) == 0) by {
        assert(files_total(a, 0) == 0);
    }
}

/// The size that `line` lists for a file; 0 where it lists none.
pub open spec fn size_in(line: LineView) -> int {
    match line {
        LineView::FileEntry(size, _) => size as int,
        _ => 0,
    }
}

/// The size that the line `line` lists for a file; 0 where it lists none.
pub open spec fn listed_size(line: Seq<char>) -> int {
    match classify(words(line)) {
        Ok(l) => size_in(l),
        Err(_) => 0,
    }
}

/// The sum of the sizes that the first `k` of the lines `ls` list for
/// files.
pub open spec fn listed_total(ls: Seq<Seq<char>>, k: int) -> int
    decreases k,
{
    if k <= 0 {
        0
    } else {
        listed_total(ls, k - 1) + listed_size(ls[k - 1])
    }
}

/// Reads a record line by line.
#[derive(Debug)]
pub struct TranscriptParser {
    /// The tree so far; its `pointer` is the current directory.
    pub fs: Filesystem,
    /// Whether a listing is open.
    pub listing: bool,
    /// The sum of the sizes of the files so far.
    pub total: usize,
}

impl View for TranscriptParser {
    type V = ParseState;

    open spec fn view(&self) -> ParseState {
        ParseState { nodes: self.fs.nodes(), cursor: self.fs.pointer, listing: self.listing }
    }
}

impl TranscriptParser {
    /// The state is in order and `total` is the sum of the files' sizes.
    pub open spec fn wf(&self) -> bool {
        &&& state_ok(self@)
        &&& self.total == files_total(self.fs.nodes(), self.fs.arena@.len() as int)
    }

    /// A parser that has read nothing yet.
    pub fn new() -> (p: TranscriptParser)
        ensures
            p@ == initial_state(),
            p.total == 0,
            p.wf(),
    {
        proof {
            lemma_root_only();
        }
        TranscriptParser { fs: Filesystem::new(), listing: false, total: 0 }
    }

    /// Takes one line in. A refused line changes nothing.
    pub fn feed(&mut self, line: Line) -> (r: Result<(), ParseErrorKind>)
        requires
            old(self).wf(),
        ensures
            match step(old(self)@, line@) {
                Ok(st) => r is Ok && final(self)@ == st && final(self).total == old(self).total
                    + size_in(line@),
                Err(e) => r == Err::<(), ParseErrorKind>(e) && final(self)@ == old(self)@,
            },
            final(self).wf(),
    {
        let ghost before = self@;
        let cursor = self.fs.pointer;
        match line {
            Line::CdRoot => {
                self.fs.pointer = 0;
                self.listing = false;
                Ok(())
            },
            Line::CdUp => match self.fs.arena[cursor].parent {
                Some(p) => {
                    proof {
                        assert(linked(before.nodes, cursor as int));
                    }
                    self.fs.pointer = p;
                    self.listing = false;
                    Ok(())
                },
                None => Err(ParseErrorKind::NoParent),
            },
            Line::CdInto(name) => {
                let found = find_named(
                    self.fs.arena.as_slice(),
                    self.fs.arena[cursor].data.children(),
                    &name,
                );
                proof {
                    lemma_first_named_member(
                        before.nodes,
                        before.nodes[cursor as int].children(),
                        name@,
                        0,
                    );
                }
                match found {
                    Some(c) => if self.fs.arena[c].is_dir() {
                        self.fs.pointer = c;
                        self.listing = false;
                        Ok(())
                    } else {
                        Err(ParseErrorKind::UnknownDirectory)
                    },
                    None => Err(ParseErrorKind::UnknownDirectory),
                }
            },
            Line::List => {
                self.listing = true;
                Ok(())
            },
            Line::DirEntry(name) => {
                if !self.listing {
                    return Err(ParseErrorKind::MalformedLine);
                }
                let node = Node {
                    parent: Some(cursor),
                    data: Contents::Dir { name: name, children: Vec::new() },
                    size: 0,
                };
                assert(node@ == new_dir_node(cursor, name@));
                self.fs.add_child(cursor, node);
                Ok(())
            },
            Line::FileEntry(size, name) => {
                if !self.listing {
                    return Err(ParseErrorKind::MalformedLine);
                }
                match self.total.checked_add(size) {
                    Some(sum) => {
                        let node = Node {
                            parent: Some(cursor),
                            data: Contents::File { name: name },
                            size: size,
                        };
                        assert(node@ == new_file_node(cursor, name@, size));
                        self.fs.add_child(cursor, node);
                        self.total = sum;
                        Ok(())
                    },
                    None => Err(ParseErrorKind::TotalTooLarge),
                }
            },
        }
    }

    /// The tree that was read.
    pub fn finish(self) -> (fs: Filesystem)
        requires
            self.wf(),
        ensures
            fs.nodes() == self@.nodes,
            fs.pointer == self@.cursor,
            fs.wf(),
    {
        self.fs
    }
}

impl Filesystem {
    /// Reads the record `text` into a tree. The sizes of directories are
    /// not calculated yet: each is 0. The files of the tree have, taken
    /// together, the sizes that the lines of the record list.
    pub fn parse(text: &str) -> (r: Result<Filesystem, ParseError>)
        ensures
            match parsed(text@) {
                Ok(st) => r is Ok && r->Ok_0.nodes() == st.nodes && r->Ok_0.pointer == st.cursor
                    && r->Ok_0.wf(),
                Err(e) => r == Err::<Filesystem, ParseError>(e),
            },
            r is Ok ==> files_total(r->Ok_0.nodes(), r->Ok_0.nodes().len() as int) == listed_total(
                lines(text@),
                lines(text@).len() as int,
            ),
    {
        let chars = chars_of(text);
        let ls = split_lines(chars.as_slice());
        let ghost all = lines(text@);
        let mut parser = TranscriptParser::new();
        let mut k: usize = 0;
        while k < ls.len()
            invariant
                k <= ls@.len(),
                views(ls@) == all,
                all == lines(text@),
                parser.wf(),
                parser.total == listed_total(all, k as int),
                run(all, k as int) == Ok::<ParseState, ParseError>(parser@),
            decreases ls@.len() - k,
        {
            assert(ls@[k as int]@ == all[k as int]);
            let outcome = match parse_line(ls[k].as_slice()) {
                Ok(line) => parser.feed(line),
                Err(kind) => Err(kind),
            };
            match outcome {
                Ok(()) => {},
                Err(kind) => {
                    proof {
                        lemma_run_error_stays(all, k + 1, all.len() as int);
                    }
                    return Err(ParseError { line: k + 1, kind: kind });
                },
            }
            k += 1;
        }
        Ok(parser.finish())
    }
}

/// As long as no line is refused, the state is in order, the tree has at
/// most one node to a line besides the root, and its files have the sizes
/// that the lines list.
pub proof fn lemma_run_total(ls: Seq<Seq<char>>, k: int)
    requires
        0 <= k <= ls.len(),
        k < usize::MAX,
        run(ls, k) is Ok,
    ensures
        state_ok(run(ls, k)->Ok_0),
        run(ls, k)->Ok_0.nodes.len() <= k + 1,
        files_total(run(ls, k)->Ok_0.nodes, run(ls, k)->Ok_0.nodes.len() as int) == listed_total(
            ls,
            k,
        ),
    decreases k,
{
    if k <= 0 {
        lemma_root_only();
    } else {
        lemma_run_total(ls, k - 1);
        let st = run(ls, k - 1)->Ok_0;
        let line = classify(words(ls[k - 1]))->Ok_0;
        assert(step_line(st, ls[k - 1]) is Ok);
        lemma_step_ok(st, line);
        match line {
            LineView::DirEntry(name) => {
                lemma_with_child(st.nodes, st.cursor as int, new_dir_node(st.cursor, name));
            },
            LineView::FileEntry(size, name) => {
                lemma_with_child(st.nodes, st.cursor as int, new_file_node(st.cursor, name, size));
            },
            _ => {},
        }
    }
}

/// For every record that is read without error, the size of the root is
/// the sum of the sizes of all files that the record lists, however its
/// directories are nested.
pub proof fn lemma_root_size_is_listed_total(text: Seq<char>)
    requires
        lines(text).len() < usize::MAX,
        parsed(text) is Ok,
    ensures
        dir_size(parsed(text)->Ok_0.nodes, 0) == listed_total(
            lines(text),
            lines(text).len() as int,
        ),
        aggregated(parsed(text)->Ok_0.nodes)[0].size == listed_total(
            lines(text),
            lines(text).len() as int,
        ),
{
    let nodes = parsed(text)->Ok_0.nodes;
    lemma_run_total(lines(text), lines(text).len() as int);
    lemma_root_size_is_files_total(nodes);
    lemma_effective_size_bounded(nodes, 0);
}

} // verus!
