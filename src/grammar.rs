use vstd::prelude::*;
use crate::chars::{
    has_prefix_at, ident_end, lemma_ends, lemma_trim_end, quote_at, scan_ident, scan_quote, scan_space,
    scan_trim_end, scan_word, space_end, starts_at, trim_end, trimmed, word_end,
};
use crate::text::string_of;

verus! {

/// A `.class` (false) or `#id` (true) selector with its name.
pub type SelectorSpec = (bool, Seq<char>);

/// An attribute as a key and a value.
pub type AttrSpec = (Seq<char>, Seq<char>);

/// What one line of source says, as the grammar reads it.
pub enum LineSpec {
    Comment,
    Javascript,
    Doctype(Seq<char>),
    /// Tag (none for a selector-only line), selectors, attributes, trailing text.
    Element(Option<Seq<char>>, Seq<SelectorSpec>, Seq<AttrSpec>, Seq<char>),
    Directive(Seq<char>),
    Text(Seq<char>),
}

/// The selector that starts at `i`, if one does.
pub open spec fn selector_at(s: Seq<char>, i: int) -> Option<SelectorSpec> {
    if 0 <= i < s.len() && (s[i] == '.' || s[i] == '#') && ident_end(s, i + 1) > i + 1
        && ident_end(s, i + 1) <= s.len() {
        Some((s[i] == '#', s.subrange(i + 1, ident_end(s, i + 1))))
    } else {
        None
    }
}

/// The run of selectors that starts at `i`.
pub open spec fn selectors(s: Seq<char>, i: int) -> Seq<SelectorSpec>
    decreases s.len() - i,
{
    match selector_at(s, i) {
        Some(p) => seq![p] + selectors(s, ident_end(s, i + 1)),
        None => Seq::empty(),
    }
}

/// Where the run of selectors that starts at `i` ends.
pub open spec fn selectors_end(s: Seq<char>, i: int) -> int
    decreases s.len() - i,
{
    match selector_at(s, i) {
        Some(p) => selectors_end(s, ident_end(s, i + 1)),
        None => i,
    }
}

/// The `key=value` pair after the whitespace at `i`, if there is one, and where it ends.
/// A value is either quoted (up to the next `"`) or runs to the next whitespace.
pub open spec fn pair_at(s: Seq<char>, i: int) -> Option<(AttrSpec, int)> {
    let j = space_end(s, i);
    let k = ident_end(s, j);
    if 0 <= i <= j < k < s.len() && s[k] == '=' {
        if k + 1 < s.len() && s[k + 1] == '"' && quote_at(s, k + 2) < s.len() {
            Some(((s.subrange(j, k), s.subrange(k + 2, quote_at(s, k + 2))), quote_at(s, k + 2) + 1))
        } else {
            Some(((s.subrange(j, k), s.subrange(k + 1, word_end(s, k + 1))), word_end(s, k + 1)))
        }
    } else {
        None
    }
}

/// The run of attribute pairs that starts at `i`.
pub open spec fn pairs(s: Seq<char>, i: int) -> Seq<AttrSpec>
    decreases s.len() - i,
{
    match pair_at(s, i) {
        Some((p, e)) => if i < e <= s.len() {
            seq![p] + pairs(s, e)
        } else {
            Seq::empty()
        },
        None => Seq::empty(),
    }
}

/// Where the run of attribute pairs that starts at `i` ends.
pub open spec fn pairs_end(s: Seq<char>, i: int) -> int
    decreases s.len() - i,
{
    match pair_at(s, i) {
        Some((p, e)) => if i < e <= s.len() {
            pairs_end(s, e)
        } else {
            i
        },
        None => i,
    }
}

/// The element described from position `i` on, after its tag.
pub open spec fn element_line(s: Seq<char>, tag: Option<Seq<char>>, i: int) -> LineSpec {
    let se = selectors_end(s, i);
    LineSpec::Element(tag, selectors(s, i), pairs(s, se), trimmed(s, pairs_end(s, se)))
}

/// How a line's content (its text after the indentation) is read; the first form
/// that matches wins, and `None` means that no form matches.
pub open spec fn line_spec(s: Seq<char>) -> Option<LineSpec> {
    if starts_at(s, 0, "doctype"@) && s.len() > 7 && (s[7] == ' ' || s[7] == '\t') {
        Some(LineSpec::Doctype(trimmed(s, 7)))
    } else if s.len() > 0 && s[0] == '/' {
        Some(LineSpec::Comment)
    } else if starts_at(s, 0, ":javascript"@) {
        Some(LineSpec::Javascript)
    } else if ident_end(s, 0) > 0 {
        Some(element_line(s, Some(s.subrange(0, ident_end(s, 0))), ident_end(s, 0)))
    } else if selectors_end(s, 0) > 0 {
        Some(element_line(s, None, 0))
    } else if s.len() > 0 && s[0] == '=' {
        Some(LineSpec::Directive(trimmed(s, 1)))
    } else if s.len() > 0 && s[0] == '|' {
        Some(LineSpec::Text(trimmed(s, 1)))
    } else {
        None
    }
}

/// An element line as read from source.
pub struct HtmlElement {
    pub tag: Option<String>,
    pub selectors: Vec<(bool, String)>,
    pub attributes: Vec<(String, String)>,
    pub inner_text: String,
}

/// One line's content.
pub enum LineContent {
    Comment,
    Javascript,
    Doctype(String),
    Element(HtmlElement),
    Directive(String),
    Text(String),
}

pub open spec fn selectors_view(v: Seq<(bool, String)>) -> Seq<SelectorSpec> {
    v.map_values(|p: (bool, String)| (p.0, p.1@))
}

pub open spec fn attrs_view(v: Seq<(String, String)>) -> Seq<AttrSpec> {
    v.map_values(|p: (String, String)| (p.0@, p.1@))
}

impl LineContent {
    pub open spec fn view(&self) -> LineSpec {
        match self {
            LineContent::Comment => LineSpec::Comment,
            LineContent::Javascript => LineSpec::Javascript,
            LineContent::Doctype(t) => LineSpec::Doctype(t@),
            LineContent::Element(h) => LineSpec::Element(
                match h.tag {
                    Some(t) => Some(t@),
                    None => None,
                },
                selectors_view(h.selectors@),
                attrs_view(h.attributes@),
                h.inner_text@,
            ),
            LineContent::Directive(t) => LineSpec::Directive(t@),
            LineContent::Text(t) => LineSpec::Text(t@),
        }
    }
}

fn trimmed_from(s: &Vec<char>, i: usize) -> (r: String)
    requires
        i <= s@.len(),
    ensures
        r@ == trimmed(s@, i as int),
{
    let a = scan_space(s, i);
    let e = scan_trim_end(s);
    proof {
        lemma_ends(s@, i as int);
        lemma_trim_end(s@, s@.len() as int);
    }
    let b = if e < a { a } else { e };
    string_of(s, a, b)
}

fn scan_selectors(s: &Vec<char>, i: usize) -> (r: (Vec<(bool, String)>, usize))
    requires
        i <= s@.len(),
    ensures
        selectors_view(r.0@) == selectors(s@, i as int),
        r.1 == selectors_end(s@, i as int),
        i <= r.1 <= s@.len(),
{
    let mut out: Vec<(bool, String)> = Vec::new();
    let mut j = i;
    while j < s.len() && (s[j] == '.' || s[j] == '#')
        invariant
            i <= j <= s@.len(),
            selectors(s@, i as int) == selectors_view(out@) + selectors(s@, j as int),
            selectors_end(s@, i as int) == selectors_end(s@, j as int),
        decreases s@.len() - j,
    {
        let e = scan_ident(s, j + 1);
        proof { lemma_ends(s@, j + 1); }
        if e == j + 1 {
            assert(selectors(s@, j as int) =~= Seq::<SelectorSpec>::empty());
            assert(selectors_view(out@) + selectors(s@, j as int) =~= selectors_view(out@));
            return (out, j);
        }
        let name = string_of(s, j + 1, e);
        let ghost before = out@;
        out.push((s[j] == '#', name));
        proof {
            assert(selectors_view(out@) =~= selectors_view(before).push((s@[j as int] == '#', name@)));
        }
        j = e;
    }
    assert(selectors(s@, j as int) =~= Seq::<SelectorSpec>::empty());
    assert(selectors_view(out@) + selectors(s@, j as int) =~= selectors_view(out@));
    (out, j)
}

fn scan_pairs(s: &Vec<char>, i: usize) -> (r: (Vec<(String, String)>, usize))
    requires
        i <= s@.len(),
    ensures
        attrs_view(r.0@) == pairs(s@, i as int),
        r.1 == pairs_end(s@, i as int),
        i <= r.1 <= s@.len(),
{
    let mut out: Vec<(String, String)> = Vec::new();
    let mut j = i;
    loop
        invariant
            i <= j <= s@.len(),
            pairs(s@, i as int) == attrs_view(out@) + pairs(s@, j as int),
            pairs_end(s@, i as int) == pairs_end(s@, j as int),
        decreases s@.len() - j,
    {
        let a = scan_space(s, j);
        proof { lemma_ends(s@, j as int); }
        let k = scan_ident(s, a);
        proof { lemma_ends(s@, a as int); }
        if !(a < k && k < s.len() && s[k] == '=') {
            assert(pair_at(s@, j as int) is None);
            assert(pairs(s@, j as int) =~= Seq::<AttrSpec>::empty());
            assert(attrs_view(out@) + pairs(s@, j as int) =~= attrs_view(out@));
            return (out, j);
        }
        let key = string_of(s, a, k);
        let value;
        let e;
        if k + 1 < s.len() && s[k + 1] == '"' {
            let q = scan_quote(s, k + 2);
            proof { lemma_ends(s@, k + 2); }
            if q < s.len() {
                value = string_of(s, k + 2, q);
                e = q + 1;
            } else {
                let w = scan_word(s, k + 1);
                proof { lemma_ends(s@, k + 1); }
                value = string_of(s, k + 1, w);
                e = w;
            }
        } else {
            let w = scan_word(s, k + 1);
            proof { lemma_ends(s@, k + 1); }
            value = string_of(s, k + 1, w);
            e = w;
        }
        assert(pair_at(s@, j as int) == Some(((key@, value@), e as int)));
        if e <= j {
            assert(pairs(s@, j as int) =~= Seq::<AttrSpec>::empty());
            assert(attrs_view(out@) + pairs(s@, j as int) =~= attrs_view(out@));
            return (out, j);
        }
        let ghost before = out@;
        out.push((key, value));
        proof {
            assert(attrs_view(out@) =~= attrs_view(before).push((key@, value@)));
        }
        j = e;
    }
}

fn element_rest(s: &Vec<char>, tag: Option<String>, i: usize) -> (r: LineContent)
    requires
        i <= s@.len(),
    ensures
        r@ == element_line(s@, match tag { Some(t) => Some(t@), None => None }, i as int),
{
    let (sels, se) = scan_selectors(s, i);
    let (attrs, ae) = scan_pairs(s, se);
    let text = trimmed_from(s, ae);
    LineContent::Element(HtmlElement { tag, selectors: sels, attributes: attrs, inner_text: text })
}

/// Reads one line's content (the text after its indentation).
pub fn classify(s: &Vec<char>) -> (r: Option<LineContent>)
    ensures
        match r {
            Some(c) => line_spec(s@) == Some(c@),
            None => line_spec(s@) is None,
        },
{
    if has_prefix_at(s, 0, "doctype") && s.len() > 7 && (s[7] == ' ' || s[7] == '\t') {
        return Some(LineContent::Doctype(trimmed_from(s, 7)));
    }
    if s.len() > 0 && s[0] == '/' {
        return Some(LineContent::Comment);
    }
    if has_prefix_at(s, 0, ":javascript") {
        return Some(LineContent::Javascript);
    }
    let e = scan_ident(s, 0);
    proof { lemma_ends(s@, 0); }
    if e > 0 {
        let tag = string_of(s, 0, e);
        return Some(element_rest(s, Some(tag), e));
    }
    let (_, se) = scan_selectors(s, 0);
    if se > 0 {
        return Some(element_rest(s, None, 0));
    }
    if s.len() > 0 && s[0] == '=' {
        return Some(LineContent::Directive(trimmed_from(s, 1)));
    }
    if s.len() > 0 && s[0] == '|' {
        return Some(LineContent::Text(trimmed_from(s, 1)));
    }
    None
}

} // verus!
