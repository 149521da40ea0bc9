use vstd::prelude::*;
use crate::{Element, Node, TemplateContext};
use crate::escape::{default_escaped, escape_default, escape_html, html_escaped};
use crate::grammar::{attrs_view, AttrSpec};
use crate::text::push_char;

verus! {

broadcast use vstd::std_specs::vec::axiom_vec_decreases_to_view, vstd::seq::axiom_seq_index_decreases;

/// `n` spaces.
pub open spec fn spaces(n: nat) -> Seq<char> {
    Seq::new(n, |i: int| ' ')
}

/// A line feed, except in compact mode (an indentation unit of 0).
pub open spec fn newline(unit: nat) -> Seq<char> {
    if unit > 0 { seq!['\n'] } else { Seq::empty() }
}

/// Tags around whose children no whitespace is written.
pub open spec fn destroys_whitespace(name: Seq<char>) -> bool {
    name == seq!['a']
}

/// Whether an element is written with a separate closing tag.
pub open spec fn separate_close(e: Element) -> bool {
    separate_close_of(e.name@, e.children@.len())
}

/// Whether an element with this name and number of children is written with a
/// separate closing tag.
pub open spec fn separate_close_of(name: Seq<char>, n_children: nat) -> bool {
    n_children > 0 || name == seq!['s', 'c', 'r', 'i', 'p', 't'] || destroys_whitespace(name)
}

/// One attribute as written: `key="value"`, the value escaped for debugging.
pub open spec fn attr_out(a: AttrSpec) -> Seq<char> {
    a.0 + seq!['=', '"'] + default_escaped(a.1) + seq!['"']
}

/// Attributes as written, separated by single spaces.
pub open spec fn attrs_out(attrs: Seq<AttrSpec>) -> Seq<char>
    decreases attrs.len(),
{
    if attrs.len() == 0 {
        Seq::empty()
    } else if attrs.len() == 1 {
        attr_out(attrs[0])
    } else {
        attrs_out(attrs.drop_last()).push(' ') + attr_out(attrs.last())
    }
}

/// An element's opening tag.
pub open spec fn open_tag(e: Element) -> Seq<char> {
    open_tag_of(e.name@, attrs_view(e.attributes@), separate_close(e))
}

/// The opening tag of an element with this name and these attributes.
pub open spec fn open_tag_of(name: Seq<char>, attrs: Seq<AttrSpec>, separate: bool) -> Seq<char> {
    seq!['<'] + name + (if attrs.len() == 0 {
        Seq::empty()
    } else {
        seq![' '] + attrs_out(attrs)
    }) + (if separate { Seq::empty() } else { seq![' ', '/'] }) + seq!['>']
}

/// An element's closing tag.
pub open spec fn close_tag(e: Element) -> Seq<char> {
    seq!['<', '/'] + e.name@ + seq!['>']
}

pub open spec fn doctype_open() -> Seq<char> {
    seq!['<', '!', 'D', 'O', 'C', 'T', 'Y', 'P', 'E', ' ']
}

/// A Text node's text as written: as it is, or escaped for markup.
pub open spec fn text_out(t: Seq<char>, escape: bool) -> Seq<char> {
    if escape { html_escaped(t) } else { t }
}

/// What one node writes at indentation `base` with unit `unit`, given what its
/// children write; a directive writes nothing of its own.
pub open spec fn node_out(n: Node, base: nat, unit: nat, inner: Seq<char>, escape: bool) -> Seq<char> {
    let pad = if n.indents() { spaces(base) } else { Seq::empty() };
    match n {
        Node::Doctype(t) => pad + doctype_open() + t@ + seq!['>', '\n', '\n'],
        Node::Directive { .. } => pad,
        Node::Text(t) => pad + text_out(t@, escape) + newline(unit),
        Node::RawText(t) => t@ + seq!['\n'],
        Node::Element(e) => {
            let destroy = destroys_whitespace(e.name@);
            pad + open_tag(e) + (if unit > 0 && !destroy { seq!['\n'] } else { Seq::empty() }) + (
            if separate_close(e) {
                inner + (if destroy { Seq::empty() } else { spaces(base) }) + close_tag(e) + newline(unit)
            } else {
                Seq::empty()
            })
        },
    }
}

/// The indentation at which an element's children are written.
pub open spec fn child_base(e: Element, base: nat, unit: nat) -> nat {
    if destroys_whitespace(e.name@) { 0 } else { base + unit }
}

pub open spec fn child_unit(e: Element, unit: nat) -> nat {
    if destroys_whitespace(e.name@) { 0 } else { unit }
}

/// What a forest without directives writes.
pub open spec fn rendered(ns: Seq<Node>, base: nat, unit: nat, escape: bool) -> Seq<char>
    decreases ns,
{
    if ns.len() == 0 {
        Seq::empty()
    } else {
        rendered(ns.drop_last(), base, unit, escape) + node_out(
            ns.last(),
            base,
            unit,
            match ns.last() {
                Node::Element(e) => rendered(e.children@, child_base(e, base, unit), child_unit(e, unit), escape),
                _ => Seq::empty(),
            },
            escape,
        )
    }
}

/// Whether a forest holds no directive at any depth.
pub open spec fn no_directives(ns: Seq<Node>) -> bool
    decreases ns,
{
    if ns.len() == 0 {
        true
    } else {
        no_directives(ns.drop_last()) && match ns.last() {
            Node::Directive { .. } => false,
            Node::Element(e) => no_directives(e.children@),
            _ => true,
        }
    }
}

/// How deep elements nest in a forest.
pub open spec fn depth(ns: Seq<Node>) -> nat
    decreases ns,
{
    if ns.len() == 0 {
        0
    } else {
        let d = match ns.last() {
            Node::Element(e) => 1 + depth(e.children@),
            _ => 0,
        };
        let rest = depth(ns.drop_last());
        if d > rest { d } else { rest }
    }
}

/// Facts about the first `i + 1` nodes of a forest, from those about the first `i`.
pub proof fn lemma_prefix(ns: Seq<Node>, i: int)
    requires
        0 <= i < ns.len(),
    ensures
        ns.subrange(0, i + 1).drop_last() == ns.subrange(0, i),
        ns.subrange(0, i + 1).last() == ns[i],
        no_directives(ns) ==> no_directives(ns.subrange(0, i + 1)),
        depth(ns.subrange(0, i + 1)) <= depth(ns),
    decreases ns.len(),
{
    assert(ns.subrange(0, i + 1).drop_last() =~= ns.subrange(0, i));
    if i + 1 < ns.len() {
        lemma_prefix(ns.drop_last(), i);
        assert(ns.drop_last().subrange(0, i + 1) =~= ns.subrange(0, i + 1));
    } else {
        assert(ns.subrange(0, i + 1) =~= ns);
    }
}

/// Writes `n` spaces.
pub fn push_spaces(out: &mut String, n: usize)
    ensures
        final(out)@ == old(out)@ + spaces(n as nat),
{
    let mut i: usize = 0;
    while i < n
        invariant
            i <= n,
            out@ == old(out)@ + spaces(i as nat),
        decreases n - i,
    {
        push_char(out, ' ');
        i = i + 1;
        assert(out@ =~= old(out)@ + spaces(i as nat));
    }
}

pub fn push_newline(out: &mut String, unit: usize)
    ensures
        final(out)@ == old(out)@ + newline(unit as nat),
{
    if unit > 0 {
        push_char(out, '\n');
    }
    assert(out@ =~= old(out)@ + newline(unit as nat));
}

pub fn is_a(name: &String) -> (r: bool)
    ensures
        r == destroys_whitespace(name@),
{
    proof { reveal_strlit("a"); }
    let r = name.as_str().unicode_len() == 1 && name.as_str().get_char(0) == 'a';
    assert(r ==> name@ =~= seq!['a']);
    r
}

pub fn is_script(name: &String) -> (r: bool)
    ensures
        r == (name@ == seq!['s', 'c', 'r', 'i', 'p', 't']),
{
    let s = name.as_str();
    let r = s.unicode_len() == 6 && s.get_char(0) == 's' && s.get_char(1) == 'c' && s.get_char(2) == 'r'
        && s.get_char(3) == 'i' && s.get_char(4) == 'p' && s.get_char(5) == 't';
    assert(r ==> name@ =~= seq!['s', 'c', 'r', 'i', 'p', 't']);
    r
}

pub fn has_separate_close(e: &Element) -> (r: bool)
    ensures
        r == separate_close(*e),
{
    e.children.len() > 0 || is_script(&e.name) || is_a(&e.name)
}

/// Writes an element's opening tag.
pub fn write_open_tag(out: &mut String, e: &Element)
    ensures
        final(out)@ == old(out)@ + open_tag(*e),
{
    let ghost start = out@;
    push_char(out, '<');
    out.append(e.name.as_str());
    let n = e.attributes.len();
    if n > 0 {
        push_char(out, ' ');
        let ghost mid = out@;
        let mut i: usize = 0;
        while i < n
            invariant
                n == e.attributes@.len(),
                i <= n,
                out@ == mid + attrs_out(attrs_view(e.attributes@).subrange(0, i as int)),
            decreases n - i,
        {
            let ghost av = attrs_view(e.attributes@);
            proof {
                assert(av.subrange(0, i + 1).drop_last() =~= av.subrange(0, i as int));
            }
            if i > 0 {
                push_char(out, ' ');
            }
            let (k, v) = &e.attributes[i];
            out.append(k.as_str());
            push_char(out, '=');
            push_char(out, '"');
            let ev = escape_default(v.as_str());
            out.append(ev.as_str());
            push_char(out, '"');
            i = i + 1;
            assert(out@ =~= mid + attrs_out(av.subrange(0, i as int)));
        }
        assert(attrs_view(e.attributes@).subrange(0, n as int) =~= attrs_view(e.attributes@));
    }
    if !has_separate_close(e) {
        push_char(out, ' ');
        push_char(out, '/');
    }
    push_char(out, '>');
    assert(out@ =~= start + open_tag(*e));
}

/// Writes an element's closing tag.
pub fn write_close_tag(out: &mut String, e: &Element)
    ensures
        final(out)@ == old(out)@ + close_tag(*e),
{
    let ghost start = out@;
    push_char(out, '<');
    push_char(out, '/');
    out.append(e.name.as_str());
    push_char(out, '>');
    assert(out@ =~= start + close_tag(*e));
}

/// Writes a doctype node.
pub fn write_doctype(out: &mut String, t: &String)
    ensures
        final(out)@ == old(out)@ + doctype_open() + t@ + seq!['>', '\n', '\n'],
{
    let ghost start = out@;
    proof { reveal_strlit("<!DOCTYPE "); }
    out.append("<!DOCTYPE ");
    out.append(t.as_str());
    push_char(out, '>');
    push_char(out, '\n');
    push_char(out, '\n');
    assert(out@ =~= start + doctype_open() + t@ + seq!['>', '\n', '\n']);
}

/// Writes a node that holds no children: its indentation and itself.
pub fn write_leaf(out: &mut String, node: &Node, base: usize, unit: usize, escape: bool)
    requires
        !(node is Element),
        !(node is Directive),
    ensures
        final(out)@ == old(out)@ + node_out(*node, base as nat, unit as nat, Seq::empty(), escape),
{
    let ghost start = out@;
    if node.should_indent() {
        push_spaces(out, base);
    }
    let ghost mid = out@;
    match node {
        Node::Doctype(t) => {
            write_doctype(out, t);
        },
        Node::Text(t) => {
            if escape {
                let escaped = escape_html(t.as_str());
                out.append(escaped.as_str());
            } else {
                out.append(t.as_str());
            }
            push_newline(out, unit);
        },
        Node::RawText(t) => {
            out.append(t.as_str());
            push_char(out, '\n');
        },
        _ => {},
    }
    assert(out@ =~= start + node_out(*node, base as nat, unit as nat, Seq::empty(), escape));
}

/// What an element writes before its children.
pub open spec fn element_head(e: Element, base: nat, unit: nat) -> Seq<char> {
    head_of(e.name@, attrs_view(e.attributes@), separate_close(e), base, unit)
}

pub open spec fn head_of(name: Seq<char>, attrs: Seq<AttrSpec>, separate: bool, base: nat, unit: nat) -> Seq<char> {
    spaces(base) + open_tag_of(name, attrs, separate) + (if unit > 0 && !destroys_whitespace(name) {
        seq!['\n']
    } else {
        Seq::empty()
    })
}

/// What an element with a separate closing tag writes after its children.
pub open spec fn element_tail(e: Element, base: nat, unit: nat) -> Seq<char> {
    tail_of(e.name@, base, unit)
}

pub open spec fn tail_of(name: Seq<char>, base: nat, unit: nat) -> Seq<char> {
    (if destroys_whitespace(name) { Seq::empty() } else { spaces(base) }) + seq!['<', '/'] + name + seq!['>']
        + newline(unit)
}

pub proof fn lemma_element_out(e: Element, base: nat, unit: nat, inner: Seq<char>, escape: bool)
    ensures
        node_out(Node::Element(e), base, unit, inner, escape) == element_head(e, base, unit) + (if separate_close(e) {
            inner + element_tail(e, base, unit)
        } else {
            Seq::empty()
        }),
{
    assert(node_out(Node::Element(e), base, unit, inner, escape) =~= element_head(e, base, unit) + (if separate_close(e) {
        inner + element_tail(e, base, unit)
    } else {
        Seq::empty()
    }));
}

pub fn write_element_head(out: &mut String, e: &Element, base: usize, unit: usize)
    ensures
        final(out)@ == old(out)@ + element_head(*e, base as nat, unit as nat),
{
    let ghost start = out@;
    push_spaces(out, base);
    write_open_tag(out, e);
    if unit > 0 && !is_a(&e.name) {
        push_char(out, '\n');
    }
    assert(out@ =~= start + element_head(*e, base as nat, unit as nat));
}

pub fn write_element_tail(out: &mut String, e: &Element, base: usize, unit: usize)
    ensures
        final(out)@ == old(out)@ + element_tail(*e, base as nat, unit as nat),
{
    let ghost start = out@;
    if !is_a(&e.name) {
        push_spaces(out, base);
    }
    write_close_tag(out, e);
    push_newline(out, unit);
    assert(out@ =~= start + element_tail(*e, base as nat, unit as nat));
}

/// An element with no attributes and no children (other than `script` and `a`)
/// renders as `<name />`; given one Text child and a positive indentation unit,
/// it renders as `<name>`, the text one unit in, and `</name>`, each on its own line.
pub proof fn lemma_element_shapes(e: Element, unit: nat)
    requires
        e.attributes@.len() == 0,
        e.name@ != seq!['s', 'c', 'r', 'i', 'p', 't'],
        !destroys_whitespace(e.name@),
    ensures
        e.children@.len() == 0 ==> rendered(seq![Node::Element(e)], 0, unit, false) == seq!['<'] + e.name@ + seq![' ', '/', '>']
            + newline(unit),
        unit > 0 && e.children@.len() == 1 && e.children@[0] is Text ==> rendered(seq![Node::Element(e)], 0, unit, false)
            == seq!['<'] + e.name@ + seq!['>', '\n'] + spaces(unit) + e.children@[0]->Text_0@ + seq!['\n', '<', '/']
            + e.name@ + seq!['>', '\n'],
{
    let ns = seq![Node::Element(e)];
    let empty = Seq::<Node>::empty();
    assert(rendered(empty, 0, unit, false) == Seq::<char>::empty());
    assert(ns.drop_last() =~= empty);
    assert(ns.last() == Node::Element(e));
    assert(spaces(0) =~= Seq::<char>::empty());
    let inner = rendered(e.children@, child_base(e, 0, unit), child_unit(e, unit), false);
    assert(rendered(ns, 0, unit, false) =~= node_out(Node::Element(e), 0, unit, inner, false));
    if e.children@.len() == 0 {
        assert(!separate_close(e));
        assert(open_tag(e) =~= seq!['<'] + e.name@ + seq![' ', '/', '>']);
        assert(rendered(ns, 0, unit, false) =~= seq!['<'] + e.name@ + seq![' ', '/', '>'] + newline(unit));
    }
    if unit > 0 && e.children@.len() == 1 && e.children@[0] is Text {
        let c = e.children@;
        assert(separate_close(e));
        assert(open_tag(e) =~= seq!['<'] + e.name@ + seq!['>']);
        assert(c.drop_last() =~= empty);
        assert(rendered(empty, unit, unit, false) == Seq::<char>::empty());
        assert(rendered(c, unit, unit, false) =~= node_out(c[0], unit, unit, Seq::empty(), false));
        assert(rendered(c, unit, unit, false) =~= spaces(unit) + c[0]->Text_0@ + seq!['\n']);
        assert(inner == rendered(c, unit, unit, false));
        assert(rendered(ns, 0, unit, false) =~= seq!['<'] + e.name@ + seq!['>', '\n'] + spaces(unit) + c[0]->Text_0@
            + seq!['\n', '<', '/'] + e.name@ + seq!['>', '\n']);
    }
}

/// Rendering two forests one after the other writes what each writes on its own.
pub proof fn lemma_rendered_concat(a: Seq<Node>, b: Seq<Node>, base: nat, unit: nat, escape: bool)
    ensures
        rendered(a + b, base, unit, escape) == rendered(a, base, unit, escape) + rendered(b, base, unit, escape),
    decreases b.len(),
{
    if b.len() == 0 {
        assert(a + b =~= a);
        assert(rendered(b, base, unit, escape) == Seq::<char>::empty());
        assert(rendered(a, base, unit, escape) + Seq::<char>::empty() =~= rendered(a, base, unit, escape));
    } else {
        lemma_rendered_concat(a, b.drop_last(), base, unit, escape);
        assert((a + b).drop_last() =~= a + b.drop_last());
        assert((a + b).last() == b.last());
        let last_out = node_out(
            b.last(),
            base,
            unit,
            match b.last() {
                Node::Element(e) => rendered(e.children@, child_base(e, base, unit), child_unit(e, unit), escape),
                _ => Seq::empty(),
            },
            escape,
        );
        assert(rendered(a + b, base, unit, escape) =~= rendered(a, base, unit, escape) + rendered(b.drop_last(), base, unit, escape) + last_out);
    }
}

} // verus!
