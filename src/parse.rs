use vstd::prelude::*;
use crate::{Element, Node};
use crate::chars::{scan_space, space_end};
use crate::grammar::{
    classify, line_spec, attrs_view, selectors_view, AttrSpec, HtmlElement, LineContent, LineSpec,
    SelectorSpec,
};
use crate::text::{chars_of, push_char, string_of};
use crate::tree::{
    add_leaf, close, close_to, drain, element_tree, holds_state, initial_state, lemma_attach, models,
    models_all, open_node, parsed, run, script_tree, step, BuildState, LineFault, Tree,
};

verus! {

#[derive(Debug)]
/// Why a template could not be parsed.
pub enum ErrorReason {
    MisplacedDocType,
    MultipleIds,
    /// A line nested under a node that cannot hold children: indented deeper
    /// than the Text or Doctype line before it. Holds the offending line.
    IllegalNesting(String),
    Parse(String),
}

#[derive(Debug)]
/// A parse failure: the line (counted from 0), up to six lines of source ending
/// at it, and the reason.
pub struct ParseError {
    pub line_number: usize,
    pub context: Vec<String>,
    pub character: Option<u64>,
    pub reason: ErrorReason,
}

/// The names of the `#id` selectors.
pub open spec fn ids(sels: Seq<SelectorSpec>) -> Seq<Seq<char>>
    decreases sels.len(),
{
    if sels.len() == 0 {
        Seq::empty()
    } else if sels.last().0 {
        ids(sels.drop_last()).push(sels.last().1)
    } else {
        ids(sels.drop_last())
    }
}

/// The names of the `.class` selectors.
pub open spec fn classes(sels: Seq<SelectorSpec>) -> Seq<Seq<char>>
    decreases sels.len(),
{
    if sels.len() == 0 {
        Seq::empty()
    } else if !sels.last().0 {
        classes(sels.drop_last()).push(sels.last().1)
    } else {
        classes(sels.drop_last())
    }
}

/// Whether a class selector comes before every id selector.
pub open spec fn class_first(sels: Seq<SelectorSpec>) -> bool
    decreases sels.len(),
{
    if sels.len() == 0 {
        false
    } else {
        class_first(sels.drop_last()) || (ids(sels.drop_last()).len() == 0 && !sels.last().0)
    }
}

/// Names joined by single spaces.
pub open spec fn joined(names: Seq<Seq<char>>) -> Seq<char>
    decreases names.len(),
{
    if names.len() == 0 {
        Seq::empty()
    } else if names.len() == 1 {
        names[0]
    } else {
        joined(names.drop_last()).push(' ') + names.last()
    }
}

pub open spec fn id_key() -> Seq<char> {
    seq!['i', 'd']
}

pub open spec fn class_key() -> Seq<char> {
    seq!['c', 'l', 'a', 's', 's']
}

/// The attributes that the selectors of a line (with at most one id) give, in
/// the order in which the id and the first class appear.
pub open spec fn selector_attrs(sels: Seq<SelectorSpec>) -> Seq<AttrSpec> {
    let id_attr = seq![(id_key(), ids(sels)[0])];
    let class_attr = seq![(class_key(), joined(classes(sels)))];
    if ids(sels).len() == 0 {
        if classes(sels).len() == 0 { Seq::empty() } else { class_attr }
    } else if classes(sels).len() == 0 {
        id_attr
    } else if class_first(sels) {
        class_attr + id_attr
    } else {
        id_attr + class_attr
    }
}

/// The tag of an element line: its own, or `div`.
pub open spec fn tag_name(tag: Option<Seq<char>>) -> Seq<char> {
    match tag {
        Some(t) => t,
        None => seq!['d', 'i', 'v'],
    }
}

/// Builds the element of an element line: author attributes first, then those
/// of the selectors; the trailing text, if any, becomes one Text child. Two ids
/// are an error.
pub fn element_for(h: HtmlElement) -> (r: Result<Element, ErrorReason>)
    ensures
        match r {
            Err(e) => ids(selectors_view(h.selectors@)).len() > 1 && e is MultipleIds,
            Ok(el) => {
                &&& ids(selectors_view(h.selectors@)).len() <= 1
                &&& el.name@ == tag_name(match h.tag { Some(t) => Some(t@), None => None })
                &&& attrs_view(el.attributes@) == attrs_view(h.attributes@) + selector_attrs(selectors_view(h.selectors@))
                &&& if h.inner_text@.len() == 0 {
                    el.children@.len() == 0
                } else {
                    el.children@.len() == 1 && (el.children@[0] matches Node::Text(t) && t@ == h.inner_text@)
                }
            },
        },
{
    let HtmlElement { tag, selectors, attributes, inner_text } = h;
    let ghost sv = selectors_view(selectors@);
    let name = match tag {
        Some(t) => t,
        None => {
            proof { reveal_strlit("div"); }
            String::from_str("div")
        },
    };
    let mut id: Option<String> = None;
    let mut joined_classes = String::new();
    let mut n_classes: usize = 0;
    let mut class_seen_first = false;
    let mut i: usize = 0;
    while i < selectors.len()
        invariant
            i <= selectors@.len(),
            sv == selectors_view(selectors@),
            sv == selectors_view(h.selectors@),
            ids(sv.subrange(0, i as int)).len() <= 1,
            id is None <==> ids(sv.subrange(0, i as int)).len() == 0,
            id matches Some(v) ==> v@ == ids(sv.subrange(0, i as int))[0],
            n_classes == classes(sv.subrange(0, i as int)).len(),
            joined_classes@ == joined(classes(sv.subrange(0, i as int))),
            class_seen_first == class_first(sv.subrange(0, i as int)),
            n_classes <= i,
        decreases selectors@.len() - i,
    {
        let ghost pre = sv.subrange(0, i as int);
        proof {
            assert(sv.subrange(0, i + 1).drop_last() =~= pre);
        }
        let (is_id, sel_name) = &selectors[i];
        if *is_id {
            if id.is_some() {
                proof {
                    assert(sv[i as int] == (true, sel_name@));
                    assert(ids(sv.subrange(0, i + 1)) == ids(pre).push(sel_name@));
                    lemma_ids_grow(sv, i + 1, sv.len() as int);
                    assert(sv.subrange(0, sv.len() as int) =~= sv);
                }
                return Err(ErrorReason::MultipleIds);
            }
            id = Some(sel_name.clone());
        } else {
            if n_classes > 0 {
                push_char(&mut joined_classes, ' ');
                proof {
                    assert(classes(sv.subrange(0, i + 1)).drop_last() =~= classes(pre));
                }
            }
            joined_classes.append(sel_name.as_str());
            if n_classes == 0 && id.is_none() {
                class_seen_first = true;
            }
            n_classes = n_classes + 1;
        }
        i = i + 1;
    }
    proof {
        assert(sv.subrange(0, i as int) =~= sv);
    }
    let mut attrs = attributes;
    let ghost author = attrs_view(attrs@);
    let ghost cls = (class_key(), joined_classes@);
    if class_seen_first {
        let ghost before = attrs@;
        attrs.push((class_string(), joined_classes));
        assert(attrs_view(attrs@) =~= attrs_view(before).push(cls));
        if let Some(v) = id {
            push_id(&mut attrs, v);
        }
    } else {
        if let Some(v) = id {
            push_id(&mut attrs, v);
        }
        if n_classes > 0 {
            let ghost before = attrs@;
            attrs.push((class_string(), joined_classes));
            assert(attrs_view(attrs@) =~= attrs_view(before).push(cls));
        }
    }
    proof {
        lemma_class_first(sv);
        assert(attrs_view(attrs@) =~= author + selector_attrs(sv));
    }
    let mut children: Vec<Node> = Vec::new();
    if inner_text.unicode_len() > 0 {
        children.push(Node::Text(inner_text));
    }
    Ok(Element { name, attributes: attrs, children })
}

fn push_id(attrs: &mut Vec<(String, String)>, v: String)
    ensures
        attrs_view(final(attrs)@) == attrs_view(old(attrs)@).push((id_key(), v@)),
{
    let ghost before = attrs@;
    proof { reveal_strlit("id"); }
    let k = String::from_str("id");
    assert(k@ == id_key());
    attrs.push((k, v));
    assert(attrs_view(attrs@) =~= attrs_view(before).push((id_key(), v@)));
}

fn class_string() -> (r: String)
    ensures
        r@ == class_key(),
{
    proof { reveal_strlit("class"); }
    let k = String::from_str("class");
    assert(k@ =~= class_key());
    k
}

/// A line without one trailing carriage return.
pub open spec fn strip_cr(l: Seq<char>) -> Seq<char> {
    if l.len() > 0 && l.last() == '\r' { l.drop_last() } else { l }
}

/// The index of the first line feed at or after `i`, or the length.
pub open spec fn newline_at(s: Seq<char>, i: int) -> int
    decreases s.len() - i,
{
    if 0 <= i < s.len() && s[i] != '\n' { newline_at(s, i + 1) } else { i }
}

/// The lines of `s[i..]`: split at each line feed, each without a trailing
/// carriage return, with no empty line after a final line feed.
pub open spec fn lines_from(s: Seq<char>, i: int) -> Seq<Seq<char>>
    decreases s.len() - i,
{
    if i < 0 || i >= s.len() {
        Seq::empty()
    } else if newline_at(s, i) >= s.len() || newline_at(s, i) < i {
        seq![strip_cr(s.subrange(i, s.len() as int))]
    } else {
        seq![strip_cr(s.subrange(i, newline_at(s, i)))] + lines_from(s, newline_at(s, i) + 1)
    }
}

/// The lines of a template source.
pub open spec fn source_lines(content: Seq<char>) -> Seq<Seq<char>> {
    lines_from(content, 0)
}

/// A line's content: what follows its indentation.
pub open spec fn line_body(l: Seq<char>) -> Seq<char> {
    l.subrange(space_end(l, 0), l.len() as int)
}

/// The lines shown with an error on line `k`: up to six, ending at it.
pub open spec fn context_lines(lines: Seq<Seq<char>>, k: int) -> Seq<Seq<char>> {
    lines.subrange(if k >= 5 { k - 5 } else { 0 }, k + 1)
}

proof fn lemma_newline(s: Seq<char>, i: int)
    requires
        0 <= i <= s.len(),
    ensures
        i <= newline_at(s, i) <= s.len(),
        newline_at(s, i) < s.len() ==> s[newline_at(s, i)] == '\n',
    decreases s.len() - i,
{
    if i < s.len() {
        lemma_newline(s, i + 1);
    }
}

pub open spec fn lines_view(v: Seq<Vec<char>>) -> Seq<Seq<char>> {
    v.map_values(|l: Vec<char>| l@)
}

fn strip_cr_exec(s: &Vec<char>, from: usize, to: usize) -> (r: Vec<char>)
    requires
        from <= to <= s@.len(),
    ensures
        r@ == strip_cr(s@.subrange(from as int, to as int)),
{
    let end = if to > from && s[to - 1] == '\r' { to - 1 } else { to };
    let mut r: Vec<char> = Vec::new();
    let mut i = from;
    while i < end
        invariant
            from <= i <= end <= to <= s@.len(),
            r@ == s@.subrange(from as int, i as int),
        decreases end - i,
    {
        r.push(s[i]);
        i = i + 1;
        assert(r@ =~= s@.subrange(from as int, i as int));
    }
    assert(r@ =~= strip_cr(s@.subrange(from as int, to as int)));
    r
}

fn split_lines(s: &Vec<char>) -> (r: Vec<Vec<char>>)
    ensures
        lines_view(r@) == lines_from(s@, 0),
{
    let mut out: Vec<Vec<char>> = Vec::new();
    let mut i: usize = 0;
    while i < s.len()
        invariant
            i <= s@.len(),
            lines_from(s@, 0) == lines_view(out@) + lines_from(s@, i as int),
        decreases s@.len() - i,
    {
        let mut q = i;
        while q < s.len() && s[q] != '\n'
            invariant
                i <= q <= s@.len(),
                newline_at(s@, i as int) == newline_at(s@, q as int),
            decreases s@.len() - q,
        {
            q = q + 1;
        }
        proof { lemma_newline(s@, i as int); }
        let line = strip_cr_exec(s, i, q);
        let ghost before = out@;
        out.push(line);
        proof {
            assert(lines_view(out@) =~= lines_view(before).push(line@));
        }
        if q >= s.len() {
            assert(lines_from(s@, i as int) =~= seq![line@]);
            assert(lines_view(out@) =~= lines_view(before) + lines_from(s@, i as int));
            assert(lines_from(s@, s@.len() as int) =~= Seq::<Seq<char>>::empty());
            i = s.len();
            assert(lines_view(out@) + lines_from(s@, i as int) =~= lines_view(out@));
        } else {
            assert(lines_view(out@) + lines_from(s@, q + 1) =~= lines_view(before) + lines_from(s@, i as int));
            i = q + 1;
        }
    }
    assert(lines_from(s@, i as int) =~= Seq::<Seq<char>>::empty());
    assert(lines_view(out@) + lines_from(s@, i as int) =~= lines_view(out@));
    out
}

/// Closes the innermost open node: it becomes the last child of the next one
/// down, or a root when none is left.
fn close_top(stack: &mut Vec<(Node, usize)>, roots: &mut Vec<Node>, Ghost(st): Ghost<BuildState>)
    requires
        old(stack)@.len() > 0,
        holds_state(old(stack)@, old(roots)@, st.javascript, st),
    ensures
        holds_state(final(stack)@, final(roots)@, false, close(st)),
{
    let ghost s2 = close(st);
    let (node, _) = stack.pop().unwrap();
    assert(models(node, st.stack.last().0));
    if stack.len() == 0 {
        roots.push(node);
        assert(models_all(roots@, s2.roots)) by {
            assert forall|i: int| 0 <= i < roots@.len() implies models(#[trigger] roots@[i], s2.roots[i]) by {
                if i < roots@.len() - 1 {
                    assert(roots@[i] == old(roots)@[i]);
                }
            }
        }
    } else {
        let ghost below = stack@;
        let (mut parent, indent) = stack.pop().unwrap();
        let ghost before = parent;
        let _ = parent.append_child(node);
        proof {
            lemma_attach(before, parent, node, st.stack[below.len() - 1].0, st.stack.last().0);
        }
        stack.push((parent, indent));
        assert(holds_state(stack@, roots@, false, s2)) by {
            assert forall|i: int| 0 <= i < stack@.len() implies models((#[trigger] stack@[i]).0, s2.stack[i].0)
                && stack@[i].1 == s2.stack[i].1 by {
                if i < stack@.len() - 1 {
                    assert(stack@[i] == old(stack)@[i]);
                }
            }
        }
    }
}

/// Adds a leaf to the innermost open node, or to the roots when none is open.
fn add_leaf_node(
    stack: &mut Vec<(Node, usize)>,
    roots: &mut Vec<Node>,
    javascript: bool,
    node: Node,
    Ghost(st): Ghost<BuildState>,
    Ghost(t): Ghost<Tree>,
)
    requires
        holds_state(old(stack)@, old(roots)@, javascript, st),
        models(node, t),
    ensures
        holds_state(final(stack)@, final(roots)@, javascript, add_leaf(st, t)),
{
    let ghost s2 = add_leaf(st, t);
    if stack.len() == 0 {
        roots.push(node);
        assert(models_all(roots@, s2.roots)) by {
            assert forall|i: int| 0 <= i < roots@.len() implies models(#[trigger] roots@[i], s2.roots[i]) by {
                if i < roots@.len() - 1 {
                    assert(roots@[i] == old(roots)@[i]);
                }
            }
        }
    } else {
        let (mut parent, indent) = stack.pop().unwrap();
        let ghost before = parent;
        let _ = parent.append_child(node);
        proof {
            lemma_attach(before, parent, node, st.stack.last().0, t);
        }
        stack.push((parent, indent));
        assert(holds_state(stack@, roots@, javascript, s2)) by {
            assert forall|i: int| 0 <= i < stack@.len() implies models((#[trigger] stack@[i]).0, s2.stack[i].0)
                && stack@[i].1 == s2.stack[i].1 by {
                if i < stack@.len() - 1 {
                    assert(stack@[i] == old(stack)@[i]);
                }
            }
        }
    }
}

/// Opens a node at `indent`.
fn open_node_exec(
    stack: &mut Vec<(Node, usize)>,
    roots: &Vec<Node>,
    javascript: bool,
    node: Node,
    indent: usize,
    Ghost(st): Ghost<BuildState>,
    Ghost(t): Ghost<Tree>,
    Ghost(js): Ghost<bool>,
)
    requires
        holds_state(old(stack)@, roots@, javascript, st),
        models(node, t),
    ensures
        holds_state(final(stack)@, roots@, js, open_node(st, t, indent as nat, js)),
{
    let ghost n = node;
    stack.push((node, indent));
    let ghost s2 = open_node(st, t, indent as nat, js);
    assert forall|i: int| 0 <= i < stack@.len() implies models((#[trigger] stack@[i]).0, s2.stack[i].0)
        && stack@[i].1 == s2.stack[i].1 by {
        if i < stack@.len() - 1 {
            assert(stack@[i] == old(stack)@[i]);
            assert(s2.stack[i] == st.stack[i]);
        } else {
            assert(stack@[i] == (n, indent));
            assert(s2.stack[i] == (t, indent as nat));
        }
    }
}

/// The indentation of the previous Text or Doctype line, as a number.
pub open spec fn leaf_view(o: Option<usize>) -> Option<nat> {
    match o {
        Some(v) => Some(v as nat),
        None => None,
    }
}

/// Whether an error reason is the one a line fault calls for.
pub open spec fn reason_fits(reason: ErrorReason, f: LineFault) -> bool {
    match f {
        LineFault::MisplacedDocType => reason is MisplacedDocType,
        LineFault::MultipleIds => reason is MultipleIds,
        LineFault::Unreadable => reason is Parse,
        LineFault::IllegalNesting => reason is IllegalNesting,
    }
}

fn script_node() -> (r: Node)
    ensures
        models(r, script_tree()),
{
    proof {
        reveal_strlit("script");
        reveal_strlit("type");
        reveal_strlit("text/javascript");
    }
    let mut attributes: Vec<(String, String)> = Vec::new();
    let key = String::from_str("type");
    let value = String::from_str("text/javascript");
    assert(key@ =~= seq!['t', 'y', 'p', 'e']);
    assert(value@ =~= seq!['t', 'e', 'x', 't', '/', 'j', 'a', 'v', 'a', 's', 'c', 'r', 'i', 'p', 't']);
    attributes.push((key, value));
    let mut nl = String::new();
    push_char(&mut nl, '\n');
    let mut children: Vec<Node> = Vec::new();
    children.push(Node::RawText(nl));
    let name = String::from_str("script");
    assert(name@ =~= seq!['s', 'c', 'r', 'i', 'p', 't']);
    let ele = Element { name, attributes, children };
    let ghost t = script_tree();
    assert(attrs_view(ele.attributes@) =~= t->Element_1);
    assert(ele.name@ =~= t->Element_0);
    assert(models(ele.children@[0], t->Element_2[0]));
    Node::Element(ele)
}

/// Takes one line of source into the builder.
fn step_line(
    stack: &mut Vec<(Node, usize)>,
    roots: &mut Vec<Node>,
    javascript: &mut bool,
    leaf: &mut Option<usize>,
    line: &Vec<char>,
    Ghost(st): Ghost<BuildState>,
) -> (r: Result<(), ErrorReason>)
    requires
        holds_state(old(stack)@, old(roots)@, *old(javascript), st),
        leaf_view(*old(leaf)) == st.leaf_indent,
    ensures
        match step(st, line@) {
            Ok(s2) => r is Ok && holds_state(final(stack)@, final(roots)@, *final(javascript), s2)
                && leaf_view(*final(leaf)) == s2.leaf_indent,
            Err(f) => r matches Err(e) && reason_fits(e, f),
        },
{
    let indent = scan_space(line, 0);
    if indent >= line.len() {
        return Ok(());
    }
    if let Some(li) = *leaf {
        if indent > li {
            let shown = string_of(line, indent, line.len());
            return Err(ErrorReason::IllegalNesting(shown));
        }
    }
    *leaf = None;
    let ghost st0 = BuildState { leaf_indent: None, ..st };
    let ghost mut cur = st0;
    while stack.len() > 0 && stack[stack.len() - 1].1 >= indent
        invariant
            holds_state(stack@, roots@, *javascript, cur),
            close_to(st0, indent as nat) == close_to(cur, indent as nat),
            cur.leaf_indent is None,
            *leaf is None,
        decreases stack@.len(),
    {
        proof {
            assert(stack@[stack@.len() - 1].1 == cur.stack.last().1);
            assert(close_to(cur, indent as nat) == close_to(close(cur), indent as nat));
        }
        close_top(stack, roots, Ghost(cur));
        *javascript = false;
        proof { cur = close(cur); }
    }
    proof {
        if stack@.len() > 0 {
            assert(stack@[stack@.len() - 1].1 == cur.stack.last().1);
        }
    }
    assert(close_to(cur, indent as nat) == cur);
    let ghost s = cur;
    let mut body: Vec<char> = Vec::new();
    let mut m = indent;
    while m < line.len()
        invariant
            indent <= m <= line@.len(),
            body@ == line@.subrange(indent as int, m as int),
        decreases line@.len() - m,
    {
        body.push(line[m]);
        m = m + 1;
        assert(body@ =~= line@.subrange(indent as int, m as int));
    }
    assert(body@ == line_body(line@));
    if *javascript {
        let raw = string_of(&body, 0, body.len());
        assert(body@.subrange(0, body@.len() as int) =~= body@);
        add_leaf_node(stack, roots, *javascript, Node::RawText(raw), Ghost(s), Ghost(Tree::RawText(body@)));
        return Ok(());
    }
    match classify(&body) {
        None => {
            let shown = string_of(&body, 0, body.len());
            Err(ErrorReason::Parse(shown))
        },
        Some(LineContent::Comment) => Ok(()),
        Some(LineContent::Javascript) => {
            open_node_exec(stack, roots, *javascript, script_node(), indent, Ghost(s), Ghost(script_tree()), Ghost(true));
            *javascript = true;
            Ok(())
        },
        Some(LineContent::Doctype(t)) => {
            if stack.len() > 0 {
                return Err(ErrorReason::MisplacedDocType);
            }
            let ghost before = roots@;
            let ghost tt = t@;
            roots.push(Node::Doctype(t));
            assert(models_all(roots@, s.roots.push(Tree::Doctype(tt)))) by {
                assert forall|i: int| 0 <= i < roots@.len() implies models(#[trigger] roots@[i], s.roots.push(Tree::Doctype(tt))[i]) by {
                    if i < roots@.len() - 1 {
                        assert(roots@[i] == before[i]);
                    }
                }
            }
            *leaf = Some(indent);
            Ok(())
        },
        Some(LineContent::Element(h)) => {
            let ghost hv = LineContent::Element(h)@;
            match element_for(h) {
                Ok(e) => {
                    let ghost t = match hv {
                        LineSpec::Element(tag, sels, attrs, text) => element_tree(tag, sels, attrs, text),
                        _ => arbitrary(),
                    };
                    assert(models(Node::Element(e), t)) by {
                        let ts = t->Element_2;
                        if ts.len() > 0 {
                            assert(models(e.children@[0], ts[0]));
                        }
                    }
                    open_node_exec(stack, roots, *javascript, Node::Element(e), indent, Ghost(s), Ghost(t), Ghost(false));
                    Ok(())
                },
                Err(reason) => Err(reason),
            }
        },
        Some(LineContent::Directive(command)) => {
            let ghost t = Tree::Directive(command@, Seq::empty());
            let node = Node::Directive { command, children: Vec::new() };
            open_node_exec(stack, roots, *javascript, node, indent, Ghost(s), Ghost(t), Ghost(false));
            Ok(())
        },
        Some(LineContent::Text(t)) => {
            let ghost tt = Tree::Text(t@);
            add_leaf_node(stack, roots, *javascript, Node::Text(t), Ghost(s), Ghost(tt));
            *leaf = Some(indent);
            Ok(())
        },
    }
}

fn context_for(lines: &Vec<Vec<char>>, k: usize) -> (r: Vec<String>)
    requires
        k < lines@.len(),
    ensures
        r@.map_values(|l: String| l@) == context_lines(lines_view(lines@), k as int),
{
    let start: usize = if k >= 5 { k - 5 } else { 0 };
    let n = lines.len();
    let mut r: Vec<String> = Vec::new();
    let mut i = start;
    while i <= k
        invariant
            start <= i <= k + 1,
            k < n,
            n == lines@.len(),
            r@.map_values(|l: String| l@) == lines_view(lines@).subrange(start as int, i as int),
        decreases k + 1 - i,
    {
        let l = string_of(&lines[i], 0, lines[i].len());
        let ghost before = r@;
        r.push(l);
        assert(lines@[i as int]@.subrange(0, lines@[i as int]@.len() as int) =~= lines@[i as int]@);
        assert(r@.map_values(|l: String| l@) =~= before.map_values(|l: String| l@).push(l@));
        assert(lines_view(lines@).subrange(start as int, i + 1) =~= lines_view(lines@).subrange(start as int, i as int).push(lines@[i as int]@));
        assert(r@.map_values(|l: String| l@) =~= lines_view(lines@).subrange(start as int, i + 1));
        i = i + 1;
    }
    r
}

fn error_at(lines: &Vec<Vec<char>>, k: usize, reason: ErrorReason) -> (r: ParseError)
    requires
        k < lines@.len(),
    ensures
        r.line_number == k,
        r.context@.map_values(|l: String| l@) == context_lines(lines_view(lines@), k as int),
        r.character is None,
        r.reason == reason,
{
    ParseError { line_number: k, context: context_for(lines, k), character: None, reason }
}

/// What parsing a template gives.
pub type ParseResult = Result<Vec<Node>, ParseError>;

/// Parses a template into its forest of nodes.
pub fn parse(content: &str) -> (r: ParseResult)
    ensures
        match r {
            Ok(ns) => parsed(content@) matches Ok(ts) && models_all(ns@, ts),
            Err(e) => parsed(content@) matches Err((k, f)) && {
                &&& e.line_number == k
                &&& reason_fits(e.reason, f)
                &&& e.context@.map_values(|l: String| l@) == context_lines(source_lines(content@), k as int)
                &&& e.character is None
            },
        },
{
    let cs = chars_of(content);
    let lines = split_lines(&cs);
    let ghost lv = lines_view(lines@);
    let mut roots: Vec<Node> = Vec::new();
    let mut stack: Vec<(Node, usize)> = Vec::new();
    let mut javascript = false;
    let mut leaf: Option<usize> = None;
    let ghost mut st = initial_state();
    let mut k: usize = 0;
    while k < lines.len()
        invariant
            k <= lines@.len(),
            lv == lines_view(lines@),
            lv == source_lines(content@),
            run(lv, k as nat) == Ok::<BuildState, (nat, LineFault)>(st),
            holds_state(stack@, roots@, javascript, st),
            leaf_view(leaf) == st.leaf_indent,
        decreases lines@.len() - k,
    {
        assert(lv[k as int] == lines@[k as int]@);
        let ghost next = step(st, lv[k as int]);
        match step_line(&mut stack, &mut roots, &mut javascript, &mut leaf, &lines[k], Ghost(st)) {
            Err(reason) => {
                assert(run(lv, (k + 1) as nat) matches Err((kk, f)) && kk == k && reason_fits(reason, f));
                proof { lemma_run_stops(lv, (k + 1) as nat, lv.len()); }
                return Err(error_at(&lines, k, reason));
            },
            Ok(()) => {
                proof { st = next->Ok_0; }
            },
        }
        k = k + 1;
    }
    let ghost fin = st;
    while stack.len() > 0
        invariant
            holds_state(stack@, roots@, st.javascript, st),
            drain(fin) == drain(st),
        decreases stack@.len(),
    {
        close_top(&mut stack, &mut roots, Ghost(st));
        proof { st = close(st); }
    }
    proof {
        assert(lv.len() == lines@.len());
    }
    Ok(roots)
}

/// Once a line fails, the run stays failed at that line.
proof fn lemma_run_stops(lines: Seq<Seq<char>>, k: nat, n: nat)
    requires
        k <= n,
        run(lines, k) is Err,
    ensures
        run(lines, n) == run(lines, k),
    decreases n - k,
{
    if k < n {
        lemma_run_stops(lines, k, (n - 1) as nat);
    }
}

proof fn lemma_ids_grow(sv: Seq<SelectorSpec>, i: int, k: int)
    requires
        0 <= i <= k <= sv.len(),
    ensures
        ids(sv.subrange(0, i)).len() <= ids(sv.subrange(0, k)).len(),
    decreases k - i,
{
    if i < k {
        lemma_ids_grow(sv, i, k - 1);
        assert(sv.subrange(0, k).drop_last() =~= sv.subrange(0, k - 1));
    }
}

/// Whether some class selector stands before every id selector, stated by
/// position: a class at `i` with no id before it.
pub open spec fn class_appears_first(sels: Seq<SelectorSpec>) -> bool {
    exists|i: int| 0 <= i < sels.len() && !(#[trigger] sels[i]).0 && forall|j: int| 0 <= j < i ==> !(#[trigger] sels[j]).0
}

proof fn lemma_no_ids(sels: Seq<SelectorSpec>)
    ensures
        ids(sels).len() == 0 <==> forall|j: int| 0 <= j < sels.len() ==> !(#[trigger] sels[j]).0,
    decreases sels.len(),
{
    if sels.len() > 0 {
        let d = sels.drop_last();
        lemma_no_ids(d);
        lemma_ids_grow(sels, sels.len() - 1, sels.len() as int);
        assert(sels.subrange(0, sels.len() - 1) =~= d);
        assert(sels.subrange(0, sels.len() as int) =~= sels);
        if ids(sels).len() == 0 {
            assert forall|j: int| 0 <= j < sels.len() implies !(#[trigger] sels[j]).0 by {
                if j < sels.len() - 1 {
                    assert(d[j] == sels[j]);
                }
            }
        }
        if forall|j: int| 0 <= j < sels.len() ==> !(#[trigger] sels[j]).0 {
            assert forall|j: int| 0 <= j < d.len() implies !(#[trigger] d[j]).0 by {
                assert(d[j] == sels[j]);
            }
        }
    }
}

/// The selector attributes follow first appearance: the class attribute comes
/// before the id exactly when a class selector appears before every id selector.
pub proof fn lemma_class_first_is_first_appearance(sels: Seq<SelectorSpec>)
    ensures
        class_first(sels) <==> class_appears_first(sels),
    decreases sels.len(),
{
    if sels.len() > 0 {
        let d = sels.drop_last();
        let n = sels.len() - 1;
        lemma_class_first_is_first_appearance(d);
        lemma_no_ids(d);
        if class_appears_first(d) {
            let i = choose|i: int| 0 <= i < d.len() && !(#[trigger] d[i]).0 && forall|j: int| 0 <= j < i ==> !(#[trigger] d[j]).0;
            assert(sels[i] == d[i]);
            assert forall|j: int| 0 <= j < i implies !(#[trigger] sels[j]).0 by {
                assert(d[j] == sels[j]);
            }
        }
        if ids(d).len() == 0 && !sels.last().0 {
            assert forall|j: int| 0 <= j < n implies !(#[trigger] sels[j]).0 by {
                assert(d[j] == sels[j]);
            }
            assert(!sels[n].0);
        }
        if class_appears_first(sels) {
            let i = choose|i: int| 0 <= i < sels.len() && !(#[trigger] sels[i]).0 && forall|j: int| 0 <= j < i ==> !(#[trigger] sels[j]).0;
            if i < n {
                assert(d[i] == sels[i]);
                assert forall|j: int| 0 <= j < i implies !(#[trigger] d[j]).0 by {
                    assert(d[j] == sels[j]);
                }
                assert(class_appears_first(d));
            } else {
                assert forall|j: int| 0 <= j < d.len() implies !(#[trigger] d[j]).0 by {
                    assert(d[j] == sels[j]);
                }
            }
        }
    } else {
        assert(!class_appears_first(sels));
    }
}

proof fn lemma_class_first(sv: Seq<SelectorSpec>)
    ensures
        class_first(sv) ==> classes(sv).len() > 0,
    decreases sv.len(),
{
    if sv.len() > 0 {
        lemma_class_first(sv.drop_last());
    }
}

} // verus!
