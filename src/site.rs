use vstd::prelude::*;
use crate::{Element, Node, TemplateContext};
use crate::output::{indent_fits, WriteError};
use crate::parse::{parse, reason_fits, ParseError};
use crate::tree::{kid_trees, models_all, node_tree, parsed, trees_of, LineFault, Tree};
use crate::grammar::attrs_view;
use crate::render::{
    element_head, element_tail, separate_close, depth,
    doctype_open, head_of, newline, separate_close_of, spaces, tail_of, text_out, destroys_whitespace,
    child_base, child_unit, has_separate_close, is_a, lemma_element_out, lemma_prefix, no_directives,
    node_out, rendered, write_element_head, write_element_tail, write_leaf,
};
use crate::text::{push_char, string_of, chars_of};

verus! {

broadcast use vstd::std_specs::vec::axiom_vec_decreases_to_view, vstd::seq::axiom_seq_index_decreases;

/// How many includes and yields may nest in one render.
pub const MAX_DEPTH: usize = 64;

#[derive(Debug)]
/// The template sources of a site, as (path, text) pairs.
pub struct Sources {
    pub files: Vec<(String, String)>,
}

/// Whether `files` holds a source at path `p`.
pub open spec fn has_file(files: Seq<(String, String)>, p: Seq<char>) -> bool {
    exists|i: int| 0 <= i < files.len() && (#[trigger] files[i]).0@ == p
}

#[derive(Debug)]
/// Why a directive failed.
pub enum DirectiveFailure {
    /// The command lacks a module, partial or path name.
    MissingArgument,
    /// The command is none of the built-in ones.
    Unrecognized,
    /// No template at this path.
    NotFound(String),
    /// The template at this path is already being rendered further out.
    CyclicInclude(String),
    /// Includes and yields nest deeper than the limit, or indentation overflows.
    TooDeep,
    /// The included template does not parse.
    Parse(ParseError),
    /// Rendering the included template failed.
    Nested(Box<DirectiveError>),
}

#[derive(Debug)]
/// A failed directive and its command text.
pub struct DirectiveError {
    pub directive: String,
    pub reason: DirectiveFailure,
}

#[derive(Debug)]
/// Why compiling one template failed.
pub enum BuildErrorReason {
    NotFound(String),
    TemplarParse(ParseError),
    TemplarWrite(WriteError<DirectiveError>),
}

/// The index of the first space at or after `i`, or the length.
pub open spec fn space_at(s: Seq<char>, i: int) -> int
    decreases s.len() - i,
{
    if 0 <= i < s.len() && s[i] != ' ' { space_at(s, i + 1) } else { i }
}

/// `s[i..]` split at each single space (empty words included).
pub open spec fn words_from(s: Seq<char>, i: int) -> Seq<Seq<char>>
    decreases s.len() + 1 - i,
{
    if i < 0 || i > s.len() {
        Seq::empty()
    } else if space_at(s, i) >= s.len() || space_at(s, i) < i {
        seq![s.subrange(i, s.len() as int)]
    } else {
        seq![s.subrange(i, space_at(s, i))] + words_from(s, space_at(s, i) + 1)
    }
}

/// The words of a directive's command.
pub open spec fn words(s: Seq<char>) -> Seq<Seq<char>> {
    words_from(s, 0)
}

pub open spec fn suffix() -> Seq<char> {
    seq!['.', 't', 'e', 'm', 'p', 'l', 'a', 'r']
}

/// The directory of a module.
pub open spec fn module_dir(dir: Seq<char>, module: Seq<char>) -> Seq<char> {
    dir + seq!['/', '_', 'm', 'o', 'd', 'u', 'l', 'e', 's', '/'] + module
}

/// The template that `include <rel>` names.
pub open spec fn include_target(dir: Seq<char>, rel: Seq<char>) -> Seq<char> {
    dir + seq!['/'] + rel + suffix()
}

/// The template that `module_include <module> <page>` names.
pub open spec fn module_target(dir: Seq<char>, module: Seq<char>, page: Seq<char>) -> Seq<char> {
    module_dir(dir, module) + seq!['/'] + page + suffix()
}

pub open spec fn strings_view(v: Seq<String>) -> Seq<Seq<char>> {
    v.map_values(|s: String| s@)
}

proof fn lemma_space_at(s: Seq<char>, i: int)
    requires
        0 <= i <= s.len(),
    ensures
        i <= space_at(s, i) <= s.len(),
    decreases s.len() - i,
{
    if i < s.len() {
        lemma_space_at(s, i + 1);
    }
}

fn split_words(s: &Vec<char>) -> (r: Vec<String>)
    ensures
        strings_view(r@) == words(s@),
{
    let mut out: Vec<String> = Vec::new();
    let mut i: usize = 0;
    loop
        invariant
            i <= s@.len(),
            words(s@) == strings_view(out@) + words_from(s@, i as int),
        decreases s@.len() - i,
    {
        let mut q = i;
        while q < s.len() && s[q] != ' '
            invariant
                i <= q <= s@.len(),
                space_at(s@, i as int) == space_at(s@, q as int),
            decreases s@.len() - q,
        {
            q = q + 1;
        }
        proof { lemma_space_at(s@, i as int); }
        let w = string_of(s, i, q);
        let ghost before = out@;
        out.push(w);
        assert(strings_view(out@) =~= strings_view(before).push(w@));
        if q >= s.len() {
            assert(words_from(s@, i as int) =~= seq![w@]);
            assert(strings_view(out@) =~= strings_view(before) + words_from(s@, i as int));
            return out;
        }
        assert(strings_view(out@) + words_from(s@, q + 1) =~= strings_view(before) + words_from(s@, i as int));
        i = q + 1;
    }
}

/// Whether a string's characters are those of `lit`.
fn same_text(s: &String, lit: &str) -> (r: bool)
    ensures
        r == (s@ == lit@),
{
    let n = lit.unicode_len();
    let a = s.as_str();
    if a.unicode_len() != n {
        return false;
    }
    let mut i: usize = 0;
    while i < n
        invariant
            n == lit@.len(),
            n == s@.len(),
            a@ == s@,
            i <= n,
            forall|j: int| 0 <= j < i ==> s@[j] == lit@[j],
        decreases n - i,
    {
        if a.get_char(i) != lit.get_char(i) {
            return false;
        }
        i = i + 1;
    }
    assert(s@ =~= lit@);
    true
}

fn append_lit(out: &mut String, lit: &str)
    ensures
        final(out)@ == old(out)@ + lit@,
{
    out.append(lit);
}

fn include_path(dir: &String, rel: &String) -> (r: String)
    ensures
        r@ == include_target(dir@, rel@),
{
    let mut p = dir.clone();
    push_char(&mut p, '/');
    p.append(rel.as_str());
    proof { reveal_strlit(".templar"); }
    append_lit(&mut p, ".templar");
    assert(p@ =~= include_target(dir@, rel@));
    p
}

fn module_dir_path(dir: &String, module: &String) -> (r: String)
    ensures
        r@ == module_dir(dir@, module@),
{
    let mut p = dir.clone();
    proof { reveal_strlit("/_modules/"); }
    append_lit(&mut p, "/_modules/");
    p.append(module.as_str());
    assert(p@ =~= module_dir(dir@, module@));
    p
}

/// Whether entry `i` is the first of `files` at path `p`.
pub open spec fn first_match(files: Seq<(String, String)>, p: Seq<char>, i: int) -> bool {
    &&& 0 <= i < files.len()
    &&& files[i].0@ == p
    &&& forall|j: int| 0 <= j < i ==> (#[trigger] files[j]).0@ != p
}

/// Finds the first source at path `p`.
pub fn find_source(sources: &Sources, p: &String) -> (r: Option<usize>)
    ensures
        match r {
            Some(i) => first_match(sources.files@, p@, i as int),
            None => !has_file(sources.files@, p@),
        },
{
    let mut i: usize = 0;
    while i < sources.files.len()
        invariant
            i <= sources.files@.len(),
            forall|j: int| 0 <= j < i ==> (#[trigger] sources.files@[j]).0@ != p@,
        decreases sources.files@.len() - i,
    {
        if sources.files[i].0 == *p {
            return Some(i);
        }
        i = i + 1;
    }
    None
}

fn on_chain(chain: &Vec<String>, p: &String) -> (r: bool)
    ensures
        r == strings_view(chain@).contains(p@),
{
    let mut i: usize = 0;
    while i < chain.len()
        invariant
            i <= chain@.len(),
            forall|j: int| 0 <= j < i ==> (#[trigger] chain@[j])@ != p@,
        decreases chain@.len() - i,
    {
        if chain[i] == *p {
            assert(strings_view(chain@)[i as int] == p@);
            return true;
        }
        i = i + 1;
    }
    assert(!strings_view(chain@).contains(p@)) by {
        if strings_view(chain@).contains(p@) {
            let j = choose|j: int| 0 <= j < strings_view(chain@).len() && strings_view(chain@)[j] == p@;
            assert(chain@[j]@ == p@);
        }
    }
    false
}

/// Where a render stands: the template sources, the directory that includes
/// resolve against, the templates being rendered further out, what `yield`
/// renders and the directory that content came from, and whether Text is escaped.
pub struct Env {
    pub files: Seq<(String, String)>,
    pub dir: Seq<char>,
    pub chain: Seq<Seq<char>>,
    pub context: Seq<Tree>,
    pub context_dir: Seq<char>,
    pub escape: bool,
}

/// Why a render stops, with the command of the directive that failed (empty
/// when indentation overflows outside any directive).
pub enum Fault {
    MissingArgument(Seq<char>),
    Unrecognized(Seq<char>),
    NotFound(Seq<char>, Seq<char>),
    CyclicInclude(Seq<char>, Seq<char>),
    TooDeep(Seq<char>),
    Parse(Seq<char>, nat, LineFault),
    Nested(Seq<char>, Box<Fault>),
}

/// Whether a directive error is the fault `f`.
pub open spec fn describes(e: DirectiveError, f: Fault) -> bool
    decreases f,
{
    match f {
        Fault::MissingArgument(c) => e.directive@ == c && e.reason is MissingArgument,
        Fault::Unrecognized(c) => e.directive@ == c && e.reason is Unrecognized,
        Fault::NotFound(c, p) => e.directive@ == c && (e.reason matches DirectiveFailure::NotFound(q) && q@ == p),
        Fault::CyclicInclude(c, p) => e.directive@ == c && (e.reason matches DirectiveFailure::CyclicInclude(q)
            && q@ == p),
        Fault::TooDeep(c) => e.directive@ == c && e.reason is TooDeep,
        Fault::Parse(c, k, lf) => e.directive@ == c && (e.reason matches DirectiveFailure::Parse(pe)
            && pe.line_number == k && reason_fits(pe.reason, lf)),
        Fault::Nested(c, g) => e.directive@ == c && (e.reason matches DirectiveFailure::Nested(inner)
            && describes(*inner, *g)),
    }
}

/// A directive's failure wrapping one from the render it started.
pub open spec fn nest(command: Seq<char>, f: Option<Fault>) -> Option<Fault> {
    match f {
        Some(g) => Some(Fault::Nested(command, Box::new(g))),
        None => None,
    }
}

/// The text of the first source at path `p`.
pub open spec fn source_of(files: Seq<(String, String)>, p: Seq<char>) -> Seq<char> {
    files[choose|i: int| first_match(files, p, i)].1@
}

/// The index of the last `/` before `j`, or -1.
pub open spec fn last_slash(p: Seq<char>, j: int) -> int
    decreases j,
{
    if j <= 0 || j > p.len() {
        -1
    } else if p[j - 1] == '/' {
        j - 1
    } else {
        last_slash(p, j - 1)
    }
}

/// The directory part of a path: what comes before its last `/`.
pub open spec fn parent(p: Seq<char>) -> Seq<char> {
    let k = last_slash(p, p.len() as int);
    if k < 0 { Seq::empty() } else { p.subrange(0, k) }
}

/// A render that went on after `p` only if `p` did not fail.
pub open spec fn combine(p: (Seq<char>, Option<Fault>), q: (Seq<char>, Option<Fault>)) -> (Seq<char>, Option<Fault>) {
    if p.1 is Some { p } else { (p.0 + q.0, q.1) }
}

/// What rendering the trees `ts` writes, at indentation `base` with unit `unit`
/// and at most `depth` more nested includes and yields, and the fault it stops
/// at, if any; what was written before a fault stays written.
pub open spec fn outcome(env: Env, ts: Seq<Tree>, base: nat, unit: nat, depth: nat) -> (Seq<char>, Option<Fault>)
    decreases depth, ts,
{
    if ts.len() == 0 {
        (Seq::empty(), None)
    } else {
        combine(
            outcome(env, ts.drop_last(), base, unit, depth),
            match ts.last() {
                Tree::Doctype(t) => (spaces(base) + doctype_open() + t + seq!['>', '\n', '\n'], None),
                Tree::Text(t) => (spaces(base) + text_out(t, env.escape) + newline(unit), None),
                Tree::RawText(t) => (t + seq!['\n'], None),
                Tree::Element(name, attrs, ks) => {
                    let separate = separate_close_of(name, ks.len());
                    let head = head_of(name, attrs, separate, base, unit);
                    if !separate {
                        (head, None)
                    } else if !destroys_whitespace(name) && base + unit > usize::MAX {
                        (head, Some(Fault::TooDeep(Seq::empty())))
                    } else {
                        let inner = if destroys_whitespace(name) {
                            outcome(env, ks, 0, 0, depth)
                        } else {
                            outcome(env, ks, base + unit, unit, depth)
                        };
                        combine((head, None), combine(inner, (tail_of(name, base, unit), None)))
                    }
                },
                Tree::Directive(command, ks) => directive_outcome(env, command, ks, base, unit, depth),
            },
        )
    }
}

/// What a directive with this command and these children writes, and its fault.
pub open spec fn directive_outcome(
    env: Env,
    command: Seq<char>,
    ks: Seq<Tree>,
    base: nat,
    unit: nat,
    depth: nat,
) -> (Seq<char>, Option<Fault>)
    decreases depth, ks,
{
    let w = words(command);
    if w[0] == "doctype"@ {
        ("<!DOCTYPE html>"@, None)
    } else if w[0] == "yield"@ {
        if env.context.len() == 0 {
            (Seq::empty(), None)
        } else if depth == 0 {
            (Seq::empty(), Some(Fault::TooDeep(command)))
        } else {
            let y = outcome(Env { dir: env.context_dir, ..env }, env.context, base, unit, (depth - 1) as nat);
            (y.0, nest(command, y.1))
        }
    } else if w[0] == "module"@ {
        if w.len() < 2 {
            (Seq::empty(), Some(Fault::MissingArgument(command)))
        } else {
            (Seq::empty(), None)
        }
    } else if w[0] == "include"@ || w[0] == "module_include"@ {
        let plain = w[0] == "include"@;
        if (plain && w.len() < 2) || (!plain && w.len() < 3) {
            (Seq::empty(), Some(Fault::MissingArgument(command)))
        } else {
            let target = if plain { include_target(env.dir, w[1]) } else { module_target(env.dir, w[1], w[2]) };
            if env.chain.contains(target) {
                (Seq::empty(), Some(Fault::CyclicInclude(command, target)))
            } else if !has_file(env.files, target) {
                (Seq::empty(), Some(Fault::NotFound(command, target)))
            } else if depth == 0 {
                (Seq::empty(), Some(Fault::TooDeep(command)))
            } else {
                match parsed(source_of(env.files, target)) {
                    Err((k, f)) => (Seq::empty(), Some(Fault::Parse(command, k, f))),
                    Ok(tts) => {
                        let inner = Env {
                            dir: parent(target),
                            chain: env.chain.push(target),
                            context: ks,
                            context_dir: env.dir,
                            ..env
                        };
                        let r = outcome(inner, tts, base, unit, (depth - 1) as nat);
                        (r.0, nest(command, r.1))
                    },
                }
            }
        }
    } else {
        (Seq::empty(), Some(Fault::Unrecognized(command)))
    }
}

fn fail(command: &str, reason: DirectiveFailure) -> (r: DirectiveError)
    ensures
        r.directive@ == command@,
        r.reason == reason,
{
    DirectiveError { directive: command.to_owned(), reason }
}

/// The first source at a path is the only first one.
proof fn lemma_first_unique(files: Seq<(String, String)>, p: Seq<char>, i: int)
    requires
        first_match(files, p, i),
    ensures
        forall|j: int| #[trigger] first_match(files, p, j) ==> j == i,
        source_of(files, p) == files[i].1@,
{
    assert forall|j: int| #[trigger] first_match(files, p, j) implies j == i by {
        if j < i {
            assert(files[j].0@ != p);
        } else if j > i {
            assert(files[i].0@ != p);
        }
    }
}

/// Rendering `ts` followed by `x` is rendering `ts`, then `x` unless `ts` failed.
pub proof fn lemma_outcome_push(env: Env, ts: Seq<Tree>, x: Tree, base: nat, unit: nat, depth: nat)
    ensures
        outcome(env, ts.push(x), base, unit, depth) == combine(
            outcome(env, ts, base, unit, depth),
            outcome(env, seq![x], base, unit, depth),
        ),
{
    assert(ts.push(x).drop_last() =~= ts);
    assert(seq![x].drop_last() =~= Seq::<Tree>::empty());
    assert(outcome(env, Seq::<Tree>::empty(), base, unit, depth) == (Seq::<char>::empty(), None::<Fault>));
    let q = outcome(env, seq![x], base, unit, depth);
    let o = outcome(env, ts, base, unit, depth);
    if o.1 is None {
        assert(combine(o, q).0 =~= o.0 + q.0);
    }
}

/// Once a prefix of a forest fails, the forest fails the same way.
pub proof fn lemma_fault_stays(env: Env, ts: Seq<Tree>, k: int, base: nat, unit: nat, depth: nat)
    requires
        0 <= k <= ts.len(),
        outcome(env, ts.subrange(0, k), base, unit, depth).1 is Some,
    ensures
        outcome(env, ts, base, unit, depth) == outcome(env, ts.subrange(0, k), base, unit, depth),
    decreases ts.len() - k,
{
    if k < ts.len() {
        assert(ts.subrange(0, k + 1) =~= ts.subrange(0, k).push(ts[k]));
        lemma_outcome_push(env, ts.subrange(0, k), ts[k], base, unit, depth);
        lemma_fault_stays(env, ts, k + 1, base, unit, depth);
    } else {
        assert(ts.subrange(0, k) =~= ts);
    }
}

/// The render of a single tree, from that of its directive.
pub proof fn lemma_single_directive(env: Env, command: Seq<char>, ks: Seq<Tree>, base: nat, unit: nat, depth: nat)
    ensures
        outcome(env, seq![Tree::Directive(command, ks)], base, unit, depth) == directive_outcome(
            env,
            command,
            ks,
            base,
            unit,
            depth,
        ),
{
    let x = Tree::Directive(command, ks);
    assert(seq![x].drop_last() =~= Seq::<Tree>::empty());
    assert(outcome(env, Seq::<Tree>::empty(), base, unit, depth) == (Seq::<char>::empty(), None::<Fault>));
    let d = directive_outcome(env, command, ks, base, unit, depth);
    assert(Seq::<char>::empty() + d.0 =~= d.0);
}

/// On a forest without directives whose indentation fits, the full render
/// writes what `rendered` gives and does not fail.
pub proof fn lemma_plain_outcome(env: Env, ns: Seq<Node>, base: nat, unit: nat, fuel: nat)
    requires
        no_directives(ns),
        indent_fits(ns, base, unit),
    ensures
        outcome(env, trees_of(ns), base, unit, fuel) == (rendered(ns, base, unit, env.escape), None::<Fault>),
    decreases ns,
{
    if ns.len() == 0 {
        assert(trees_of(ns) =~= Seq::<Tree>::empty());
    } else {
        let rest = ns.drop_last();
        let n = ns.last();
        assert(depth(rest) <= depth(ns));
        assert(unit * depth(rest) <= unit * depth(ns)) by (nonlinear_arith)
            requires
                depth(rest) <= depth(ns),
        ;
        lemma_plain_outcome(env, rest, base, unit, fuel);
        let x = node_tree(n, kid_trees(n));
        assert(trees_of(ns) == trees_of(rest).push(x));
        lemma_outcome_push(env, trees_of(rest), x, base, unit, fuel);
        assert(seq![x].drop_last() =~= Seq::<Tree>::empty());
        assert(outcome(env, Seq::<Tree>::empty(), base, unit, fuel) == (Seq::<char>::empty(), None::<Fault>));
        let q = outcome(env, seq![x], base, unit, fuel);
        match n {
            Node::Element(e) => {
                let kids = e.children@;
                crate::tree::lemma_trees_of_len(kids);
                let d = depth(kids);
                assert(d + 1 <= depth(ns));
                let cb = child_base(e, base, unit);
                let cu = child_unit(e, unit);
                if destroys_whitespace(e.name@) {
                    assert(indent_fits(kids, 0, 0)) by (nonlinear_arith)
                        requires
                            cb == 0 && cu == 0,
                    ;
                } else {
                    assert(unit * d + unit <= unit * depth(ns)) by (nonlinear_arith)
                        requires
                            d + 1 <= depth(ns),
                    ;
                    assert(indent_fits(kids, base + unit, unit));
                }
                lemma_plain_outcome(env, kids, cb, cu, fuel);
                let inner = rendered(kids, cb, cu, env.escape);
                lemma_element_out(e, base, unit, inner, env.escape);
                if separate_close(e) {
                    assert(q.0 =~= element_head(e, base, unit) + inner + element_tail(e, base, unit));
                } else {
                    assert(q.0 =~= element_head(e, base, unit));
                }
                assert(q == (node_out(n, base, unit, inner, env.escape), None::<Fault>));
            },
            Node::Text(t) => {
                assert(q.0 =~= node_out(n, base, unit, Seq::empty(), env.escape));
            },
            Node::Doctype(t) => {
                assert(q.0 =~= node_out(n, base, unit, Seq::empty(), env.escape));
            },
            Node::RawText(t) => {
                assert(q.0 =~= node_out(n, base, unit, Seq::empty(), env.escape));
            },
            Node::Directive { .. } => {},
        }
        assert(outcome(env, trees_of(ns), base, unit, fuel).0 =~= rendered(ns, base, unit, env.escape));
    }
}

/// `yield` with nothing to yield writes nothing and does not fail.
pub proof fn lemma_yield_empty(env: Env, command: Seq<char>, ks: Seq<Tree>, base: nat, unit: nat, depth: nat)
    requires
        words(command)[0] == "yield"@,
        env.context.len() == 0,
    ensures
        directive_outcome(env, command, ks, base, unit, depth) == (Seq::<char>::empty(), None::<Fault>),
{
    reveal_strlit("yield");
    reveal_strlit("doctype");
}

/// An include of a template that is already being rendered further out (a
/// template that includes itself, directly or not) fails at once with
/// CyclicInclude, naming the command and the template.
pub proof fn lemma_cyclic_include(env: Env, command: Seq<char>, ks: Seq<Tree>, base: nat, unit: nat, depth: nat)
    requires
        words(command).len() >= 2,
        words(command)[0] == "include"@,
        env.chain.contains(include_target(env.dir, words(command)[1])),
    ensures
        directive_outcome(env, command, ks, base, unit, depth) == (
            Seq::<char>::empty(),
            Some(Fault::CyclicInclude(command, include_target(env.dir, words(command)[1]))),
        ),
{
    reveal_strlit("include");
    reveal_strlit("yield");
    reveal_strlit("doctype");
    reveal_strlit("module");
    let w0 = words(command)[0];
    assert(w0 != "doctype"@) by {
        assert(w0[1] != "doctype"@[1]);
    }
    assert(w0 != "yield"@) by {
        assert(w0.len() != "yield"@.len());
    }
    assert(w0 != "module"@) by {
        assert(w0.len() != "module"@.len());
    }
}

/// Nesting is bounded: with no depth left, an include of any template that
/// exists and is not already being rendered fails with TooDeep instead of
/// rendering it. A compile starts with `MAX_DEPTH`, and each include or yield
/// takes one level.
pub proof fn lemma_depth_exhausted(env: Env, command: Seq<char>, ks: Seq<Tree>, base: nat, unit: nat)
    requires
        words(command).len() >= 2,
        words(command)[0] == "include"@,
        !env.chain.contains(include_target(env.dir, words(command)[1])),
        has_file(env.files, include_target(env.dir, words(command)[1])),
    ensures
        directive_outcome(env, command, ks, base, unit, 0) == (Seq::<char>::empty(), Some(Fault::TooDeep(command))),
{
    reveal_strlit("include");
    reveal_strlit("yield");
    reveal_strlit("doctype");
    reveal_strlit("module");
    let w0 = words(command)[0];
    assert(w0 != "doctype"@) by {
        assert(w0[1] != "doctype"@[1]);
    }
    assert(w0 != "yield"@) by {
        assert(w0.len() != "yield"@.len());
    }
    assert(w0 != "module"@) by {
        assert(w0.len() != "module"@.len());
    }
}

/// A template whose first line includes the template itself compiles to a
/// CyclicInclude failure naming that include, and writes nothing.
pub proof fn lemma_self_including_template(
    files: Seq<(String, String)>,
    base_directory: Seq<char>,
    source: Seq<char>,
    command: Seq<char>,
    ks: Seq<Tree>,
    rest: Seq<Tree>,
)
    requires
        words(command).len() >= 2,
        words(command)[0] == "include"@,
        include_target(base_directory, words(command)[1]) == source,
    ensures
        outcome(top_env(files, base_directory, source), seq![Tree::Directive(command, ks)] + rest, 0, 2, MAX_DEPTH as nat)
            == (Seq::<char>::empty(), Some(Fault::CyclicInclude(command, source))),
{
    let env = top_env(files, base_directory, source);
    let ts = seq![Tree::Directive(command, ks)] + rest;
    assert(env.chain[0] == source);
    lemma_cyclic_include(env, command, ks, 0, 2, MAX_DEPTH as nat);
    lemma_single_directive(env, command, ks, 0, 2, MAX_DEPTH as nat);
    assert(ts.subrange(0, 1) =~= seq![Tree::Directive(command, ks)]);
    lemma_fault_stays(env, ts, 1, 0, 2, MAX_DEPTH as nat);
}

fn parent_dir(p: &String) -> (r: String)
    ensures
        r@ == parent(p@),
{
    let cs = chars_of(p.as_str());
    let mut j = cs.len();
    while j > 0 && cs[j - 1] != '/'
        invariant
            j <= cs@.len(),
            cs@ == p@,
            last_slash(p@, p@.len() as int) == last_slash(p@, j as int),
        decreases j,
    {
        j = j - 1;
    }
    if j == 0 {
        String::new()
    } else {
        string_of(&cs, 0, j - 1)
    }
}

/// The state of the built-in directives: the module directories registered so
/// far in this render (a registration stays visible to the rest of the render),
/// and whether Text nodes are escaped.
#[derive(Debug)]
pub struct Resolver {
    pub include_paths: Vec<String>,
    /// Whether Text nodes are escaped for markup; by default they are written
    /// as they are, so a template's text may inject markup.
    pub escape_text: bool,
}

/// The state a render starts from, as seen by the specs.
pub open spec fn env_of(
    r: Resolver,
    sources: Sources,
    dir: Seq<char>,
    chain: Seq<String>,
    context: Seq<Node>,
    context_dir: Seq<char>,
) -> Env {
    Env {
        files: sources.files@,
        dir,
        chain: strings_view(chain),
        context: trees_of(context),
        context_dir,
        escape: r.escape_text,
    }
}

/// Whether a result and the text written are what the spec gives.
pub open spec fn as_given(r: Result<(), DirectiveError>, before: Seq<char>, after: Seq<char>, o: (Seq<char>, Option<Fault>)) -> bool {
    &&& after == before + o.0
    &&& match o.1 {
        None => r is Ok,
        Some(f) => r matches Err(e) && describes(e, f),
    }
}

impl Resolver {
    /// Renders `nodes` as `write_out` does, resolving directives with the
    /// built-in commands: includes resolve against `dir`, `chain` holds the
    /// templates being rendered further out, `context` is what `yield`
    /// renders (it came from `context_dir`), and `depth` bounds how many more
    /// includes and yields may nest.
    #[verifier::rlimit(60)]
    pub fn render(
        &mut self,
        sources: &Sources,
        dir: &String,
        chain: &Vec<String>,
        context: &[Node],
        context_dir: &String,
        nodes: &[Node],
        out: &mut String,
        base: usize,
        unit: usize,
        depth: usize,
    ) -> (r: Result<(), DirectiveError>)
        ensures
            as_given(r, old(out)@, final(out)@, outcome(
                env_of(*old(self), *sources, dir@, chain@, context@, context_dir@),
                trees_of(nodes@),
                base as nat,
                unit as nat,
                depth as nat,
            )),
            final(self).escape_text == old(self).escape_text,
        decreases depth, nodes@, 0nat,
    {
        let ghost b = base as nat;
        let ghost u = unit as nat;
        let ghost d = depth as nat;
        let ghost env = env_of(*self, *sources, dir@, chain@, context@, context_dir@);
        let ghost ts = trees_of(nodes@);
        proof { crate::tree::lemma_trees_of_len(nodes@); }
        let mut i: usize = 0;
        while i < nodes.len()
            invariant
                i <= nodes@.len(),
                ts == trees_of(nodes@),
                ts.len() == nodes@.len(),
                b == base,
                u == unit,
                d == depth,
                env == env_of(*self, *sources, dir@, chain@, context@, context_dir@),
                self.escape_text == old(self).escape_text,
                out@ == old(out)@ + outcome(env, ts.subrange(0, i as int), b, u, d).0,
                outcome(env, ts.subrange(0, i as int), b, u, d).1 is None,
            decreases nodes@.len() - i,
        {
            proof { crate::tree::lemma_trees_of_index(nodes@, i as int); }
            let ghost x = ts[i as int];
            let ghost before = out@;
            let ghost prior = outcome(env, ts.subrange(0, i as int), b, u, d);
            proof {
                assert(ts.subrange(0, i + 1) =~= ts.subrange(0, i as int).push(x));
                lemma_outcome_push(env, ts.subrange(0, i as int), x, b, u, d);
                assert(seq![x].drop_last() =~= Seq::<Tree>::empty());
                assert(outcome(env, Seq::<Tree>::empty(), b, u, d) == (Seq::<char>::empty(), None::<Fault>));
            }
            let node = &nodes[i];
            assert(x == node_tree(*node, kid_trees(*node)));
            assert(seq![x].len() == 1 && seq![x].last() == x);
            let step: Result<(), DirectiveError> = match node {
                Node::Directive { command, children } => {
                    proof { lemma_single_directive(env, command@, trees_of(children@), b, u, d); }
                    self.handle(sources, dir, chain, context, context_dir, command.as_str(), children.as_slice(), out, base, unit, depth)
                },
                Node::Element(e) => self.render_element(sources, dir, chain, context, context_dir, e, out, base, unit, depth),
                _ => {
                    write_leaf(out, node, base, unit, self.escape_text);
                    proof {
                        let o = outcome(env, seq![x], b, u, d);
                        let nv = *node;
                        match nv {
                            Node::Text(t) => {
                                assert(x == Tree::Text(t@));
                                assert(o.0 =~= node_out(*node, b, u, Seq::empty(), env.escape));
                            },
                            Node::Doctype(t) => {
                                assert(x == Tree::Doctype(t@));
                                assert(o.0 =~= node_out(*node, b, u, Seq::empty(), env.escape));
                            },
                            Node::RawText(t) => {
                                assert(x == Tree::RawText(t@));
                                assert(o.0 =~= node_out(*node, b, u, Seq::empty(), env.escape));
                            },
                            _ => {},
                        }
                        assert(o.1 is None);
                    }
                    Ok(())
                },
            };
            proof {
                let q = outcome(env, seq![x], b, u, d);
                assert(as_given(step, before, out@, q));
                assert(out@ =~= old(out)@ + prior.0 + q.0);
                assert(combine(prior, q).0 =~= prior.0 + q.0);
                assert(outcome(env, ts.subrange(0, i + 1), b, u, d) == combine(prior, q));
            }
            match step {
                Err(e) => {
                    proof {
                        let q = outcome(env, seq![x], b, u, d);
                        assert(q.1 is Some);
                        lemma_fault_stays(env, ts, i + 1, b, u, d);
                        assert(outcome(env, ts, b, u, d) == (prior.0 + q.0, q.1));
                        assert(env == env_of(*old(self), *sources, dir@, chain@, context@, context_dir@));
                        assert(describes(e, q.1->Some_0));
                        assert(out@ =~= old(out)@ + outcome(env, ts, b, u, d).0);
                    }
                    return Err(e);
                },
                Ok(()) => {},
            }
            i = i + 1;
        }
        proof {
            assert(ts.subrange(0, nodes@.len() as int) =~= ts);
        }
        Ok(())
    }

    /// Renders one element and its children.
    fn render_element(
        &mut self,
        sources: &Sources,
        dir: &String,
        chain: &Vec<String>,
        context: &[Node],
        context_dir: &String,
        e: &Element,
        out: &mut String,
        base: usize,
        unit: usize,
        depth: usize,
    ) -> (r: Result<(), DirectiveError>)
        ensures
            as_given(r, old(out)@, final(out)@, outcome(
                env_of(*old(self), *sources, dir@, chain@, context@, context_dir@),
                seq![Tree::Element(e.name@, attrs_view(e.attributes@), trees_of(e.children@))],
                base as nat,
                unit as nat,
                depth as nat,
            )),
            final(self).escape_text == old(self).escape_text,
        decreases depth, e.children@, 1nat,
    {
        let ghost env = env_of(*self, *sources, dir@, chain@, context@, context_dir@);
        let ghost ks = trees_of(e.children@);
        let ghost x = Tree::Element(e.name@, attrs_view(e.attributes@), ks);
        proof {
            crate::tree::lemma_trees_of_len(e.children@);
            assert(seq![x].drop_last() =~= Seq::<Tree>::empty());
            assert(outcome(env, Seq::<Tree>::empty(), base as nat, unit as nat, depth as nat) == (
            Seq::<char>::empty(), None::<Fault>));
        }
        let ghost start = out@;
        write_element_head(out, e, base, unit);
        if !has_separate_close(e) {
            assert(out@ =~= start + outcome(env, seq![x], base as nat, unit as nat, depth as nat).0);
            return Ok(());
        }
        let ghost mid = out@;
        let r = if is_a(&e.name) {
            self.render(sources, dir, chain, context, context_dir, e.children.as_slice(), out, 0, 0, depth)
        } else {
            match base.checked_add(unit) {
                Some(inner) => self.render(sources, dir, chain, context, context_dir, e.children.as_slice(), out, inner, unit, depth),
                None => {
                    proof { reveal_strlit(""); }
                    let f = fail("", DirectiveFailure::TooDeep);
                    assert(f.directive@ =~= Seq::<char>::empty());
                    assert(out@ =~= start + outcome(env, seq![x], base as nat, unit as nat, depth as nat).0);
                    return Err(f);
                },
            }
        };
        match r {
            Err(err) => {
                assert(out@ =~= start + outcome(env, seq![x], base as nat, unit as nat, depth as nat).0);
                Err(err)
            },
            Ok(()) => {
                write_element_tail(out, e, base, unit);
                assert(out@ =~= start + outcome(env, seq![x], base as nat, unit as nat, depth as nat).0);
                Ok(())
            },
        }
    }

    /// Resolves one directive of the built-in vocabulary.
    pub fn handle(
        &mut self,
        sources: &Sources,
        dir: &String,
        chain: &Vec<String>,
        context: &[Node],
        context_dir: &String,
        command: &str,
        children: &[Node],
        out: &mut String,
        base: usize,
        unit: usize,
        depth: usize,
    ) -> (r: Result<(), DirectiveError>)
        ensures
            as_given(r, old(out)@, final(out)@, directive_outcome(
                env_of(*old(self), *sources, dir@, chain@, context@, context_dir@),
                command@,
                trees_of(children@),
                base as nat,
                unit as nat,
                depth as nat,
            )),
            final(self).escape_text == old(self).escape_text,
            words(command@)[0] == "module"@ && words(command@).len() >= 2 ==> strings_view(final(self).include_paths@)
                == strings_view(old(self).include_paths@).push(module_dir(dir@, words(command@)[1])),
        decreases depth, children@, 1nat,
    {
        let ghost env = env_of(*self, *sources, dir@, chain@, context@, context_dir@);
        let cs = chars_of(command);
        let w = split_words(&cs);
        proof {
            reveal_strlit("doctype");
            reveal_strlit("yield");
            reveal_strlit("module");
            reveal_strlit("include");
            reveal_strlit("module_include");
            reveal_strlit("<!DOCTYPE html>");
            assert(words(cs@).len() > 0);
        }
        let ghost wv = strings_view(w@);
        assert(wv[0] == w@[0]@);
        if same_text(&w[0], "doctype") {
            append_lit(out, "<!DOCTYPE html>");
            Ok(())
        } else if same_text(&w[0], "yield") {
            if context.len() == 0 {
                assert(out@ =~= old(out)@ + Seq::<char>::empty());
                return Ok(());
            }
            if depth == 0 {
                assert(out@ =~= old(out)@ + Seq::<char>::empty());
                return Err(fail(command, DirectiveFailure::TooDeep));
            }
            let r = self.render(sources, context_dir, chain, context, context_dir, context, out, base, unit, depth - 1);
            match r {
                Ok(()) => Ok(()),
                Err(e) => Err(fail(command, DirectiveFailure::Nested(Box::new(e)))),
            }
        } else if same_text(&w[0], "module") {
            assert(out@ =~= old(out)@ + Seq::<char>::empty());
            if w.len() < 2 {
                return Err(fail(command, DirectiveFailure::MissingArgument));
            }
            assert(wv[1] == w@[1]@);
            let p = module_dir_path(dir, &w[1]);
            let ghost before = self.include_paths@;
            self.include_paths.push(p);
            assert(strings_view(self.include_paths@) =~= strings_view(before).push(p@));
            Ok(())
        } else if same_text(&w[0], "include") || same_text(&w[0], "module_include") {
            assert(out@ =~= old(out)@ + Seq::<char>::empty());
            let plain = same_text(&w[0], "include");
            if (plain && w.len() < 2) || (!plain && w.len() < 3) {
                return Err(fail(command, DirectiveFailure::MissingArgument));
            }
            assert(wv[1] == w@[1]@);
            let p = if plain {
                include_path(dir, &w[1])
            } else {
                assert(wv[2] == w@[2]@);
                let m = module_dir_path(dir, &w[1]);
                let p = include_path(&m, &w[2]);
                assert(p@ =~= module_target(dir@, w@[1]@, w@[2]@));
                p
            };
            if on_chain(chain, &p) {
                return Err(fail(command, DirectiveFailure::CyclicInclude(p)));
            }
            let found = find_source(sources, &p);
            let k = match found {
                None => {
                    return Err(fail(command, DirectiveFailure::NotFound(p)));
                },
                Some(k) => k,
            };
            proof { lemma_first_unique(sources.files@, p@, k as int); }
            if depth == 0 {
                return Err(fail(command, DirectiveFailure::TooDeep));
            }
            let nodes = match parse(sources.files[k].1.as_str()) {
                Err(pe) => {
                    return Err(fail(command, DirectiveFailure::Parse(pe)));
                },
                Ok(nodes) => nodes,
            };
            proof {
                crate::tree::lemma_models_trees(nodes@, parsed(sources.files@[k as int].1@)->Ok_0);
            }
            let inner_dir = parent_dir(&p);
            let mut inner_chain = chain.clone();
            let ghost pv = p@;
            inner_chain.push(p);
            assert(strings_view(inner_chain@) =~= strings_view(chain@).push(pv));
            let r = self.render(sources, &inner_dir, &inner_chain, children, dir, nodes.as_slice(), out, base, unit, depth - 1);
            match r {
                Ok(()) => Ok(()),
                Err(e) => Err(fail(command, DirectiveFailure::Nested(Box::new(e)))),
            }
        } else {
            assert(out@ =~= old(out)@ + Seq::<char>::empty());
            Err(fail(command, DirectiveFailure::Unrecognized))
        }
    }
}

/// Where compiling a template starts: includes resolve against
/// `base_directory`, the template itself is the first link of the include
/// chain, the context is empty, and Text is written unescaped.
pub open spec fn top_env(files: Seq<(String, String)>, base_directory: Seq<char>, source: Seq<char>) -> Env {
    Env {
        files,
        dir: base_directory,
        chain: seq![source],
        context: Seq::empty(),
        context_dir: base_directory,
        escape: false,
    }
}

/// Compiles the template at path `source` of `sources` onto `out`: parses it
/// and renders it with an empty context, two spaces per level, includes
/// resolved against `base_directory` (the template's own directory). What was
/// written before a failure stays in `out`.
pub fn compile_templar(sources: &Sources, base_directory: &str, source: &str, out: &mut String) -> (r: Result<(), BuildErrorReason>)
    ensures
        !has_file(sources.files@, source@) <==> r matches Err(BuildErrorReason::NotFound(p)),
        r matches Err(BuildErrorReason::NotFound(p)) ==> p@ == source@ && final(out)@ == old(out)@,
        forall|i: int| #[trigger] first_match(sources.files@, source@, i) ==> match parsed(sources.files@[i].1@) {
            Err((k, f)) => final(out)@ == old(out)@ && (r matches Err(BuildErrorReason::TemplarParse(e))
                && e.line_number == k && reason_fits(e.reason, f)),
            Ok(ts) => {
                let o = outcome(top_env(sources.files@, base_directory@, source@), ts, 0, 2, MAX_DEPTH as nat);
                &&& final(out)@ == old(out)@ + o.0
                &&& match o.1 {
                    None => r is Ok,
                    Some(f) => r matches Err(BuildErrorReason::TemplarWrite(WriteError::DirectiveError(e))) && describes(e, f),
                }
            },
        },
        forall|i: int, ns: Seq<Node>|
            #![trigger first_match(sources.files@, source@, i), trees_of(ns)]
            first_match(sources.files@, source@, i) && parsed(sources.files@[i].1@) == Ok::<Seq<Tree>, (nat, LineFault)>(
                trees_of(ns),
            ) && no_directives(ns) && indent_fits(ns, 0, 2) ==> r is Ok && final(out)@ == old(out)@ + rendered(
                ns,
                0,
                2,
                false,
            ),
{
    let path = source.to_owned();
    let k = match find_source(sources, &path) {
        None => {
            return Err(BuildErrorReason::NotFound(path));
        },
        Some(k) => k,
    };
    proof { lemma_first_unique(sources.files@, source@, k as int); }
    let nodes = match parse(sources.files[k].1.as_str()) {
        Err(e) => {
            return Err(BuildErrorReason::TemplarParse(e));
        },
        Ok(nodes) => nodes,
    };
    proof {
        crate::tree::lemma_models_trees(nodes@, parsed(sources.files@[k as int].1@)->Ok_0);
    }
    let mut resolver = Resolver { include_paths: vec![base_directory.to_owned()], escape_text: false };
    let dir = base_directory.to_owned();
    let chain: Vec<String> = vec![path];
    let empty_context = TemplateContext::empty();
    proof {
        assert(strings_view(chain@) =~= seq![source@]);
        assert(trees_of(empty_context.nodes@) =~= Seq::<Tree>::empty());
    }
    let r = match resolver.render(sources, &dir, &chain, empty_context.nodes.as_slice(), &dir, nodes.as_slice(), out, 0, 2, MAX_DEPTH) {
        Ok(()) => Ok(()),
        Err(e) => Err(BuildErrorReason::TemplarWrite(WriteError::DirectiveError(e))),
    };
    proof {
        let env = top_env(sources.files@, base_directory@, source@);
        assert forall|i: int, ns: Seq<Node>|
            #![trigger first_match(sources.files@, source@, i), trees_of(ns)]
            first_match(sources.files@, source@, i) && parsed(sources.files@[i].1@) == Ok::<Seq<Tree>, (nat, LineFault)>(
                trees_of(ns),
            ) && no_directives(ns) && indent_fits(ns, 0, 2) implies r is Ok && out@ == old(out)@ + rendered(
                ns,
                0,
                2,
                false,
            ) by {
            lemma_plain_outcome(env, ns, 0, 2, MAX_DEPTH as nat);
        }
    }
    r
}

} // verus!
