use vstd::prelude::*;
use crate::{Node, TemplateContext};
use crate::render::{
    child_base, child_unit, depth, has_separate_close, is_a, lemma_element_out, lemma_prefix,
    no_directives, node_out, rendered, write_element_head, write_element_tail, write_leaf,
};

verus! {

broadcast use vstd::std_specs::vec::axiom_vec_decreases_to_view, vstd::seq::axiom_seq_index_decreases;

#[derive(Debug)]
/// A render failure: what the directive handler returned.
pub enum WriteError<DE> {
    DirectiveError(DE),
}

/// Resolves the directives met while rendering. `handle` receives the context
/// of the render, the directive's command text and children, the indentation,
/// and the output written so far.
pub trait DirectiveHandler {
    type DirectiveError;

    fn handle(
        &mut self,
        context: &TemplateContext,
        command: &str,
        children: &[Node],
        base_indent: usize,
        indent_size: usize,
        out: &mut String,
    ) -> Result<(), Self::DirectiveError>;
}

/// Room for the indentation of the deepest element.
pub open spec fn indent_fits(ns: Seq<Node>, base: nat, unit: nat) -> bool {
    base + unit * depth(ns) <= usize::MAX
}

pub proof fn lemma_child_fits(ns: Seq<Node>, i: int, base: nat, unit: nat)
    requires
        0 <= i < ns.len(),
        ns[i] is Element,
        indent_fits(ns, base, unit),
    ensures
        base + unit <= usize::MAX,
        indent_fits(ns[i]->Element_0.children@, base + unit, unit),
{
    lemma_prefix(ns, i);
    let d = depth(ns[i]->Element_0.children@);
    assert(d + 1 <= depth(ns.subrange(0, i + 1)));
    assert(unit * d + unit <= unit * depth(ns)) by (nonlinear_arith)
        requires
            d + 1 <= depth(ns),
    ;
}

/// Renders `nodes` onto `out`: each indented node after `base_indent` spaces,
/// children `indent_size` further in, directives through `handler`.
pub fn write_out<DH: DirectiveHandler>(
    nodes: &[Node],
    context: &TemplateContext,
    out: &mut String,
    base_indent: usize,
    indent_size: usize,
    handler: &mut DH,
) -> (r: Result<(), WriteError<DH::DirectiveError>>)
    requires
        indent_fits(nodes@, base_indent as nat, indent_size as nat),
    ensures
        no_directives(nodes@) ==> r is Ok && final(out)@ == old(out)@ + rendered(
            nodes@,
            base_indent as nat,
            indent_size as nat,
            false,
        ),
        r is Err ==> !no_directives(nodes@),
    decreases nodes@,
{
    let ghost base = base_indent as nat;
    let ghost unit = indent_size as nat;
    let mut i: usize = 0;
    while i < nodes.len()
        invariant
            i <= nodes@.len(),
            indent_fits(nodes@, base, unit),
            base == base_indent,
            unit == indent_size,
            no_directives(nodes@) ==> out@ == old(out)@ + rendered(nodes@.subrange(0, i as int), base, unit, false),
        decreases nodes@.len() - i,
    {
        proof { lemma_prefix(nodes@, i as int); }
        let ghost before = out@;
        let node = &nodes[i];
        match node {
            Node::Directive { command, children } => {
                let r = handler.handle(context, command.as_str(), children.as_slice(), base_indent, indent_size, out);
                match r {
                    Ok(()) => {},
                    Err(e) => {
                        return Err(WriteError::DirectiveError(e));
                    },
                }
            },
            Node::Element(e) => {
                write_element_head(out, e, base_indent, indent_size);
                if has_separate_close(e) {
                    proof { lemma_child_fits(nodes@, i as int, base, unit); }
                    let r = if is_a(&e.name) {
                        write_out(e.children.as_slice(), context, out, 0, 0, handler)
                    } else {
                        write_out(e.children.as_slice(), context, out, base_indent + indent_size, indent_size, handler)
                    };
                    if r.is_err() {
                        return r;
                    }
                    write_element_tail(out, e, base_indent, indent_size);
                }
                proof {
                    lemma_element_out(*e, base, unit, rendered(e.children@, child_base(*e, base, unit), child_unit(*e, unit), false), false);
                }
            },
            _ => {
                write_leaf(out, node, base_indent, indent_size, false);
            },
        }
        proof {
            if no_directives(nodes@) {
                let n = nodes@[i as int];
                let inner = match n {
                    Node::Element(e) => rendered(e.children@, child_base(e, base, unit), child_unit(e, unit), false),
                    _ => Seq::empty(),
                };
                assert(out@ =~= before + node_out(n, base, unit, inner, false));
            }
        }
        i = i + 1;
    }
    proof {
        assert(nodes@.subrange(0, nodes@.len() as int) =~= nodes@);
    }
    Ok(())
}

} // verus!
