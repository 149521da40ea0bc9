use vstd::prelude::*;
use crate::{Element, Node};
use crate::chars::space_end;
use crate::grammar::{attrs_view, line_spec, AttrSpec, LineSpec};
use crate::parse::{ids, line_body, selector_attrs, source_lines, tag_name};

verus! {

broadcast use vstd::std_specs::vec::axiom_vec_decreases_to_view, vstd::seq::axiom_seq_index_decreases;

/// A node as a mathematical value.
pub enum Tree {
    Doctype(Seq<char>),
    Directive(Seq<char>, Seq<Tree>),
    Text(Seq<char>),
    RawText(Seq<char>),
    Element(Seq<char>, Seq<AttrSpec>, Seq<Tree>),
}

/// Whether node `n` is the tree `t`.
pub open spec fn models(n: Node, t: Tree) -> bool
    decreases n,
{
    match n {
        Node::Doctype(s) => t == Tree::Doctype(s@),
        Node::Text(s) => t == Tree::Text(s@),
        Node::RawText(s) => t == Tree::RawText(s@),
        Node::Directive { command, children } => match t {
            Tree::Directive(c, ts) => c == command@ && ts.len() == children@.len() && forall|i: int|
                0 <= i < ts.len() ==> models(#[trigger] children@[i], ts[i]),
            _ => false,
        },
        Node::Element(e) => match t {
            Tree::Element(name, attrs, ts) => name == e.name@ && attrs == attrs_view(e.attributes@)
                && ts.len() == e.children@.len() && forall|i: int|
                0 <= i < ts.len() ==> models(#[trigger] e.children@[i], ts[i]),
            _ => false,
        },
    }
}

/// Whether the nodes `ns` are the trees `ts`.
pub open spec fn models_all(ns: Seq<Node>, ts: Seq<Tree>) -> bool {
    ns.len() == ts.len() && forall|i: int| 0 <= i < ns.len() ==> models(#[trigger] ns[i], ts[i])
}

/// `c` appended to the children of a container; a leaf stays as it is.
pub open spec fn attach(p: Tree, c: Tree) -> Tree {
    match p {
        Tree::Element(n, a, k) => Tree::Element(n, a, k.push(c)),
        Tree::Directive(cmd, k) => Tree::Directive(cmd, k.push(c)),
        _ => p,
    }
}

/// The state of the tree builder: the finished roots, the stack of open nodes
/// with their indentation, and whether lines are taken as raw script text.
pub struct BuildState {
    pub roots: Seq<Tree>,
    pub stack: Seq<(Tree, nat)>,
    pub javascript: bool,
    /// The indentation of the previous line when it was a Text or Doctype line:
    /// the next line may not be indented deeper.
    pub leaf_indent: Option<nat>,
}

pub open spec fn initial_state() -> BuildState {
    BuildState { roots: Seq::empty(), stack: Seq::empty(), javascript: false, leaf_indent: None }
}

/// Closes the innermost open node: it joins the next one down, or the roots.
pub open spec fn close(st: BuildState) -> BuildState {
    let top = st.stack.last().0;
    let rest = st.stack.drop_last();
    if rest.len() == 0 {
        BuildState { roots: st.roots.push(top), stack: rest, javascript: false, leaf_indent: st.leaf_indent }
    } else {
        BuildState {
            roots: st.roots,
            stack: rest.drop_last().push((attach(rest.last().0, top), rest.last().1)),
            javascript: false,
            leaf_indent: st.leaf_indent,
        }
    }
}

/// Closes every open node indented at least `indent`.
pub open spec fn close_to(st: BuildState, indent: nat) -> BuildState
    decreases st.stack.len(),
{
    if st.stack.len() > 0 && st.stack.last().1 >= indent {
        close_to(close(st), indent)
    } else {
        st
    }
}

/// Adds a leaf to the innermost open node, or to the roots.
pub open spec fn add_leaf(st: BuildState, t: Tree) -> BuildState {
    if st.stack.len() > 0 {
        BuildState {
            roots: st.roots,
            stack: st.stack.drop_last().push((attach(st.stack.last().0, t), st.stack.last().1)),
            javascript: st.javascript,
            leaf_indent: st.leaf_indent,
        }
    } else {
        BuildState { roots: st.roots.push(t), stack: st.stack, javascript: st.javascript, leaf_indent: st.leaf_indent }
    }
}

pub open spec fn open_node(st: BuildState, t: Tree, indent: nat, javascript: bool) -> BuildState {
    BuildState { roots: st.roots, stack: st.stack.push((t, indent)), javascript, leaf_indent: st.leaf_indent }
}

/// The element that `:javascript` opens.
pub open spec fn script_tree() -> Tree {
    Tree::Element(
        seq!['s', 'c', 'r', 'i', 'p', 't'],
        seq![(seq!['t', 'y', 'p', 'e'], seq!['t', 'e', 'x', 't', '/', 'j', 'a', 'v', 'a', 's', 'c', 'r', 'i', 'p', 't'])],
        seq![Tree::RawText(seq!['\n'])],
    )
}

/// The element of an element line with at most one id.
pub open spec fn element_tree(tag: Option<Seq<char>>, sels: Seq<(bool, Seq<char>)>, attrs: Seq<AttrSpec>, text: Seq<char>) -> Tree {
    Tree::Element(
        tag_name(tag),
        attrs + selector_attrs(sels),
        if text.len() == 0 { Seq::empty() } else { seq![Tree::Text(text)] },
    )
}

/// Why a line stops the parse.
pub enum LineFault {
    MisplacedDocType,
    MultipleIds,
    Unreadable,
    /// The line is indented deeper than the Text or Doctype line before it.
    IllegalNesting,
}

/// A state whose previous line was a Text or Doctype line at `indent`.
pub open spec fn after_leaf(st: BuildState, indent: nat) -> BuildState {
    BuildState { leaf_indent: Some(indent), ..st }
}

/// One line's effect on the builder.
pub open spec fn step(st: BuildState, line: Seq<char>) -> Result<BuildState, LineFault> {
    let indent = space_end(line, 0);
    if indent >= line.len() {
        Ok(st)
    } else if st.leaf_indent matches Some(li) && indent > li {
        Err(LineFault::IllegalNesting)
    } else {
        let s = close_to(BuildState { leaf_indent: None, ..st }, indent as nat);
        let body = line_body(line);
        if s.javascript {
            Ok(add_leaf(s, Tree::RawText(body)))
        } else {
            match line_spec(body) {
                None => Err(LineFault::Unreadable),
                Some(LineSpec::Comment) => Ok(s),
                Some(LineSpec::Javascript) => Ok(open_node(s, script_tree(), indent as nat, true)),
                Some(LineSpec::Doctype(t)) => if s.stack.len() > 0 {
                    Err(LineFault::MisplacedDocType)
                } else {
                    Ok(BuildState { roots: s.roots.push(Tree::Doctype(t)), leaf_indent: Some(indent as nat), ..s })
                },
                Some(LineSpec::Element(tag, sels, attrs, text)) => if ids(sels).len() > 1 {
                    Err(LineFault::MultipleIds)
                } else {
                    Ok(open_node(s, element_tree(tag, sels, attrs, text), indent as nat, false))
                },
                Some(LineSpec::Directive(c)) => Ok(open_node(s, Tree::Directive(c, Seq::empty()), indent as nat, false)),
                Some(LineSpec::Text(t)) => Ok(after_leaf(add_leaf(s, Tree::Text(t)), indent as nat)),
            }
        }
    }
}

/// The builder after the first `k` lines, or the first failing line and why.
pub open spec fn run(lines: Seq<Seq<char>>, k: nat) -> Result<BuildState, (nat, LineFault)>
    decreases k,
{
    if k == 0 {
        Ok(initial_state())
    } else {
        match run(lines, (k - 1) as nat) {
            Err(e) => Err(e),
            Ok(st) => match step(st, lines[k - 1]) {
                Ok(s) => Ok(s),
                Err(f) => Err(((k - 1) as nat, f)),
            },
        }
    }
}

/// The forest once every open node is closed.
pub open spec fn drain(st: BuildState) -> Seq<Tree>
    decreases st.stack.len(),
{
    if st.stack.len() == 0 {
        st.roots
    } else {
        drain(close(st))
    }
}

/// What a template source parses to: its forest, or the first failing line
/// (counted from 0) and why.
pub open spec fn parsed(content: Seq<char>) -> Result<Seq<Tree>, (nat, LineFault)> {
    let lines = source_lines(content);
    match run(lines, lines.len()) {
        Ok(st) => Ok(drain(st)),
        Err(e) => Err(e),
    }
}

/// Whether the exec builder's stack, roots and mode are the state `st`.
pub open spec fn holds_state(stack: Seq<(Node, usize)>, roots: Seq<Node>, javascript: bool, st: BuildState) -> bool {
    &&& models_all(roots, st.roots)
    &&& stack.len() == st.stack.len()
    &&& forall|i: int| 0 <= i < stack.len() ==> models((#[trigger] stack[i]).0, st.stack[i].0) && stack[i].1 == st.stack[i].1
    &&& javascript == st.javascript
}

/// Appending a child to a node that models `t` gives a node that models `t` with
/// the child's tree attached.
pub proof fn lemma_attach(before: Node, after: Node, child: Node, t: Tree, tc: Tree)
    requires
        models(before, t),
        models(child, tc),
        before.holds_children() ==> after.child_seq() == before.child_seq().push(child),
        before.holds_children() ==> (match (before, after) {
            (Node::Element(a), Node::Element(b)) => a.name == b.name && a.attributes == b.attributes,
            (Node::Directive { command: a, .. }, Node::Directive { command: b, .. }) => a == b,
            _ => false,
        }),
        !before.holds_children() ==> after == before,
    ensures
        models(after, attach(t, tc)),
{
    match (before, after) {
        (Node::Element(a), Node::Element(b)) => {
            let ts = t->Element_2;
            assert(b.children@ == a.children@.push(child));
            assert forall|i: int| 0 <= i < ts.push(tc).len() implies models(#[trigger] b.children@[i], ts.push(tc)[i]) by {
                if i < ts.len() {
                    assert(b.children@[i] == a.children@[i]);
                }
            }
        },
        (Node::Directive { children: a, .. }, Node::Directive { children: b, .. }) => {
            let ts = t->Directive_1;
            assert(b@ == a@.push(child));
            assert forall|i: int| 0 <= i < ts.push(tc).len() implies models(#[trigger] b@[i], ts.push(tc)[i]) by {
                if i < ts.len() {
                    assert(b@[i] == a@[i]);
                }
            }
        },
        _ => {},
    }
}

/// A line read as an element line (one not taken as raw script text and not
/// nested under a Text or Doctype line) with two or more `#id` selectors stops
/// the parse with MultipleIds.
pub proof fn lemma_two_ids_fail(st: BuildState, line: Seq<char>)
    requires
        space_end(line, 0) < line.len(),
        !(st.leaf_indent matches Some(li) && space_end(line, 0) > li),
        !close_to(BuildState { leaf_indent: None, ..st }, space_end(line, 0) as nat).javascript,
        line_spec(line_body(line)) matches Some(LineSpec::Element(_, sels, _, _)) && ids(sels).len() > 1,
    ensures
        step(st, line) == Err::<BuildState, LineFault>(LineFault::MultipleIds),
{
}

/// A node as a tree, given the trees of its children.
pub open spec fn node_tree(n: Node, kids: Seq<Tree>) -> Tree {
    match n {
        Node::Doctype(s) => Tree::Doctype(s@),
        Node::Text(s) => Tree::Text(s@),
        Node::RawText(s) => Tree::RawText(s@),
        Node::Directive { command, .. } => Tree::Directive(command@, kids),
        Node::Element(e) => Tree::Element(e.name@, attrs_view(e.attributes@), kids),
    }
}

/// The trees of a forest of nodes.
pub open spec fn trees_of(ns: Seq<Node>) -> Seq<Tree>
    decreases ns,
{
    if ns.len() == 0 {
        Seq::empty()
    } else {
        trees_of(ns.drop_last()).push(
            node_tree(
                ns.last(),
                match ns.last() {
                    Node::Element(e) => trees_of(e.children@),
                    Node::Directive { children, .. } => trees_of(children@),
                    _ => Seq::empty(),
                },
            ),
        )
    }
}

/// The trees of a node's children.
pub open spec fn kid_trees(n: Node) -> Seq<Tree> {
    match n {
        Node::Element(e) => trees_of(e.children@),
        Node::Directive { children, .. } => trees_of(children@),
        _ => Seq::empty(),
    }
}

pub proof fn lemma_trees_of_index(ns: Seq<Node>, i: int)
    requires
        0 <= i < ns.len(),
    ensures
        trees_of(ns).len() == ns.len(),
        trees_of(ns)[i] == node_tree(ns[i], kid_trees(ns[i])),
    decreases ns.len(),
{
    lemma_trees_of_len(ns.drop_last());
    if i < ns.len() - 1 {
        lemma_trees_of_index(ns.drop_last(), i);
        assert(ns.drop_last()[i] == ns[i]);
    }
}

pub proof fn lemma_trees_of_len(ns: Seq<Node>)
    ensures
        trees_of(ns).len() == ns.len(),
    decreases ns.len(),
{
    if ns.len() > 0 {
        lemma_trees_of_len(ns.drop_last());
    }
}

/// A forest that models `ts` has `ts` as its trees.
pub proof fn lemma_models_trees(ns: Seq<Node>, ts: Seq<Tree>)
    requires
        models_all(ns, ts),
    ensures
        trees_of(ns) == ts,
    decreases ns,
{
    if ns.len() > 0 {
        assert(models_all(ns.drop_last(), ts.drop_last()));
        lemma_models_trees(ns.drop_last(), ts.drop_last());
        let n = ns.last();
        assert(models(n, ts.last()));
        match n {
            Node::Element(e) => {
                let ks = ts.last()->Element_2;
                assert(models_all(e.children@, ks));
                lemma_models_trees(e.children@, ks);
            },
            Node::Directive { children, .. } => {
                let ks = ts.last()->Directive_1;
                assert(models_all(children@, ks));
                lemma_models_trees(children@, ks);
            },
            _ => {},
        }
        assert(trees_of(ns) =~= ts);
    }
}

/// A non-blank line indented deeper than the Text or Doctype line before it
/// stops the parse with IllegalNesting.
pub proof fn lemma_nested_under_leaf(st: BuildState, line: Seq<char>, li: nat)
    requires
        st.leaf_indent == Some(li),
        space_end(line, 0) < line.len(),
        space_end(line, 0) > li,
    ensures
        step(st, line) == Err::<BuildState, LineFault>(LineFault::IllegalNesting),
{
}

/// A Text or Doctype line that is taken, followed by a non-blank line indented
/// deeper, stops the parse with IllegalNesting at that second line.
pub proof fn lemma_line_under_text_or_doctype(st: BuildState, first: Seq<char>, second: Seq<char>)
    requires
        space_end(first, 0) < first.len(),
        step(st, first) is Ok,
        !close_to(BuildState { leaf_indent: None, ..st }, space_end(first, 0) as nat).javascript,
        line_spec(line_body(first)) matches Some(LineSpec::Text(_)) || line_spec(line_body(first)) matches Some(
            LineSpec::Doctype(_),
        ),
        space_end(second, 0) < second.len(),
        space_end(second, 0) > space_end(first, 0),
    ensures
        step(step(st, first)->Ok_0, second) == Err::<BuildState, LineFault>(LineFault::IllegalNesting),
{
    crate::chars::lemma_ends(first, 0);
    let s1 = step(st, first)->Ok_0;
    assert(s1.leaf_indent == Some(space_end(first, 0) as nat));
    lemma_nested_under_leaf(s1, second, space_end(first, 0) as nat);
}

} // verus!
