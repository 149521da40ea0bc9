use templar::escape::{escape_default, escape_html};
use templar::output::{write_out, DirectiveHandler, WriteError};
use templar::parse::{parse, ErrorReason};
use templar::site::{compile_templar, BuildErrorReason, DirectiveFailure, Resolver, Sources};
use templar::{contains, element, Element, Node, TemplateContext};

fn attrs_of(node: &Node) -> Vec<(String, String)> {
    match node {
        Node::Element(e) => e.attributes.clone(),
        other => panic!("not an element: {:?}", other),
    }
}

fn el(node: &Node) -> &Element {
    match node {
        Node::Element(e) => e,
        other => panic!("not an element: {:?}", other),
    }
}

fn pairs(v: &[(&str, &str)]) -> Vec<(String, String)> {
    v.iter().map(|(k, v)| (k.to_string(), v.to_string())).collect()
}

struct NoDirectives;

impl DirectiveHandler for NoDirectives {
    type DirectiveError = String;

    fn handle(&mut self, _context: &TemplateContext, command: &str, _children: &[Node], _base_indent: usize, _indent_size: usize, _out: &mut String) -> Result<(), String> {
        Err(command.to_string())
    }
}

struct Echo;

impl DirectiveHandler for Echo {
    type DirectiveError = String;

    fn handle(&mut self, _context: &TemplateContext, command: &str, _children: &[Node], _base_indent: usize, _indent_size: usize, out: &mut String) -> Result<(), String> {
        out.push_str("[");
        out.push_str(command);
        out.push_str("]");
        Ok(())
    }
}

fn render(nodes: &[Node]) -> String {
    let mut out = String::new();
    let r = write_out(nodes, &TemplateContext::empty(), &mut out, 0, 2, &mut NoDirectives);
    assert!(r.is_ok());
    out
}

fn dir() -> String {
    "site".to_string()
}

fn compile(sources: &Sources, source: &str) -> Result<String, BuildErrorReason> {
    let mut out = String::new();
    compile_templar(sources, "site", source, &mut out).map(|_| out)
}

fn site(files: &[(&str, &str)]) -> Sources {
    Sources { files: pairs(files) }
}

#[test]
fn escape_html_replaces_markup_characters() {
    assert_eq!(escape_html("<a href='x'>&\"/`"), "&lt;a href=&#x27;x&#x27;&gt;&amp;&quot;&#x2F;&#96;");
    assert_eq!(escape_html("plain é"), "plain é");
    assert_eq!(escape_html(""), "");
}

#[test]
fn escape_default_escapes_controls_and_non_ascii() {
    assert_eq!(escape_default("a\tb\"c\\d'é\n\r"), "a\\tb\\\"c\\\\d\\'\\u{e9}\\n\\r");
    assert_eq!(escape_default("plain text"), "plain text");
    assert_eq!(escape_default("\u{1f600}"), "\\u{1f600}");
}

#[test]
fn selector_attributes_follow_appearance_order() {
    let a = parse("div#x.y").unwrap();
    assert_eq!(attrs_of(&a[0]), pairs(&[("id", "x"), ("class", "y")]));
    let b = parse("div.y#x").unwrap();
    assert_eq!(attrs_of(&b[0]), pairs(&[("class", "y"), ("id", "x")]));
}

#[test]
fn author_attributes_come_before_selector_attributes() {
    let n = parse("a.link#home href=\"/index.html\" rel=me Home page").unwrap();
    let e = el(&n[0]);
    assert_eq!(e.name, "a");
    assert_eq!(e.attributes, pairs(&[("href", "/index.html"), ("rel", "me"), ("class", "link"), ("id", "home")]));
    assert_eq!(e.children.len(), 1);
    assert!(matches!(&e.children[0], Node::Text(t) if t == "Home page"));
}

#[test]
fn classes_join_into_one_attribute() {
    let n = parse(".a.b#c.d").unwrap();
    let e = el(&n[0]);
    assert_eq!(e.name, "div");
    assert_eq!(e.attributes, pairs(&[("class", "a b d"), ("id", "c")]));
}

#[test]
fn two_ids_fail_with_multiple_ids() {
    let e = parse("p\n  div#a.b#c").unwrap_err();
    assert!(matches!(e.reason, ErrorReason::MultipleIds));
    assert_eq!(e.line_number, 1);
    assert_eq!(e.context, vec!["p".to_string(), "  div#a.b#c".to_string()]);
    assert!(e.character.is_none());
    assert!(matches!(parse("#a#b").unwrap_err().reason, ErrorReason::MultipleIds));
}

#[test]
fn indentation_builds_the_forest() {
    let n = parse("a\n  b\n    c\n  d\ne").unwrap();
    assert_eq!(n.len(), 2);
    let a = el(&n[0]);
    assert_eq!(a.name, "a");
    assert_eq!(a.children.len(), 2);
    let b = el(&a.children[0]);
    assert_eq!(b.name, "b");
    assert_eq!(b.children.len(), 1);
    let c = el(&b.children[0]);
    assert_eq!(c.name, "c");
    assert!(c.children.is_empty());
    let d = el(&a.children[1]);
    assert_eq!(d.name, "d");
    assert!(d.children.is_empty());
    let e = el(&n[1]);
    assert_eq!(e.name, "e");
    assert!(e.children.is_empty());
}

#[test]
fn blank_lines_and_comments_are_skipped() {
    let n = parse("ul\n\n   \n  / a comment\n  li one\r\n").unwrap();
    assert_eq!(n.len(), 1);
    let ul = el(&n[0]);
    assert_eq!(ul.children.len(), 1);
    assert_eq!(el(&ul.children[0]).name, "li");
}

#[test]
fn text_lines_and_directives() {
    let n = parse("| hello  \n= include header\n  p body").unwrap();
    assert_eq!(n.len(), 2);
    assert!(matches!(&n[0], Node::Text(t) if t == "hello"));
    match &n[1] {
        Node::Directive { command, children } => {
            assert_eq!(command, "include header");
            assert_eq!(children.len(), 1);
        }
        other => panic!("not a directive: {:?}", other),
    }
}

#[test]
fn line_nested_under_text_fails_with_illegal_nesting() {
    let e = parse("p\n  | hi\n    span").unwrap_err();
    assert!(matches!(e.reason, ErrorReason::IllegalNesting(ref l) if l == "span"));
    assert_eq!(e.line_number, 2);
    assert!(matches!(parse("| hi\n  b").unwrap_err().reason, ErrorReason::IllegalNesting(_)));
}

#[test]
fn line_nested_under_doctype_fails_with_illegal_nesting() {
    let e = parse("doctype html\n  p").unwrap_err();
    assert!(matches!(e.reason, ErrorReason::IllegalNesting(_)));
    assert_eq!(e.line_number, 1);
}

#[test]
fn lines_beside_or_after_text_are_fine() {
    let n = parse("p\n  | one\n\n  | two\n  br\ndiv").unwrap();
    assert_eq!(n.len(), 2);
    assert_eq!(el(&n[0]).children.len(), 3);
}

#[test]
fn doctype_must_be_at_the_root() {
    let n = parse("doctype html\nhtml").unwrap();
    assert!(matches!(&n[0], Node::Doctype(t) if t == "html"));
    let e = parse("html\n  doctype html").unwrap_err();
    assert!(matches!(e.reason, ErrorReason::MisplacedDocType));
    assert_eq!(e.line_number, 1);
}

#[test]
fn unreadable_line_is_a_parse_error() {
    let e = parse("p\n  ?what").unwrap_err();
    assert!(matches!(e.reason, ErrorReason::Parse(_)));
    assert_eq!(e.line_number, 1);
}

#[test]
fn error_context_holds_at_most_six_lines() {
    let e = parse("a\nb\nc\nd\ne\nf\ng\n%").unwrap_err();
    assert_eq!(e.line_number, 7);
    assert_eq!(e.context, vec!["c", "d", "e", "f", "g", "%"]);
}

#[test]
fn javascript_lines_are_kept_verbatim() {
    let n = parse("body\n  :javascript\n    var a = 1 < 2;\n    #not.a.selector\n  p").unwrap();
    let body = el(&n[0]);
    assert_eq!(body.children.len(), 2);
    let script = el(&body.children[0]);
    assert_eq!(script.name, "script");
    assert_eq!(script.attributes, pairs(&[("type", "text/javascript")]));
    assert_eq!(script.children.len(), 3);
    assert!(matches!(&script.children[0], Node::RawText(t) if t == "\n"));
    assert!(matches!(&script.children[1], Node::RawText(t) if t == "var a = 1 < 2;"));
    assert!(matches!(&script.children[2], Node::RawText(t) if t == "#not.a.selector"));
    assert_eq!(el(&body.children[1]).name, "p");
}

#[test]
fn empty_element_renders_self_closing() {
    let n = parse("br").unwrap();
    assert_eq!(render(&n), "<br />\n");
}

#[test]
fn element_with_text_renders_open_and_close() {
    let n = parse("p text").unwrap();
    assert_eq!(render(&n), "<p>\n  text\n</p>\n");
}

#[test]
fn attributes_render_with_default_escaping() {
    let n = parse("img src=\"a\tb\" alt=é").unwrap();
    assert_eq!(render(&n), "<img src=\"a\\tb\" alt=\"\\u{e9}\" />\n");
}

#[test]
fn anchor_and_script_keep_a_closing_tag() {
    let n = parse("p\n  a href=x link").unwrap();
    assert_eq!(render(&n), "<p>\n  <a href=\"x\">link</a>\n</p>\n");
    let s = parse("script").unwrap();
    assert_eq!(render(&s), "<script>\n</script>\n");
}

#[test]
fn doctype_and_raw_text_render() {
    let n = parse("doctype html\n:javascript\n  go();").unwrap();
    assert_eq!(render(&n), "<!DOCTYPE html>\n\n<script type=\"text/javascript\">\n\n\ngo();\n</script>\n");
}

#[test]
fn compact_mode_writes_no_newlines() {
    let n = parse("p\n  | one\n  br").unwrap();
    let mut out = String::new();
    assert!(write_out(&n, &TemplateContext::empty(), &mut out, 0, 0, &mut NoDirectives).is_ok());
    assert_eq!(out, "<p>one<br /></p>");
}

#[test]
fn directive_errors_come_back_from_write_out() {
    let n = parse("p\n  = nothing here").unwrap();
    let mut out = String::new();
    match write_out(&n, &TemplateContext::empty(), &mut out, 0, 2, &mut NoDirectives) {
        Err(WriteError::DirectiveError(c)) => assert_eq!(c, "nothing here"),
        Ok(()) => panic!("expected an error"),
    }
    assert_eq!(out, "<p>\n");
    let mut out2 = String::new();
    assert!(write_out(&n, &TemplateContext::empty(), &mut out2, 0, 2, &mut Echo).is_ok());
    assert_eq!(out2, "<p>\n[nothing here]</p>\n");
}

#[test]
fn node_kinds_and_children() {
    let mut text = Node::Text("t".to_string());
    assert!(text.should_indent());
    assert!(!text.supports_children());
    assert!(!text.append_child(Node::Text("u".to_string())));
    let mut raw = Node::RawText("r".to_string());
    assert!(!raw.should_indent());
    assert!(!raw.append_child(Node::Text("u".to_string())));
    let mut dir = Node::Directive { command: "yield".to_string(), children: Vec::new() };
    assert!(!dir.should_indent());
    assert!(dir.supports_children());
    assert!(dir.append_child(Node::Text("u".to_string())));
    let mut e = Node::Element(element("div", vec![("k", "v")]));
    assert!(e.append_child(Node::Text("u".to_string())));
    let inner = el(&e);
    assert_eq!(inner.name, "div");
    assert_eq!(inner.attributes, pairs(&[("k", "v")]));
    assert_eq!(inner.children.len(), 1);
    assert!(Node::Doctype("html".to_string()).should_indent());
}

#[test]
fn contains_tests_an_option() {
    assert!(contains(Some(3), |v: &i32| *v > 2));
    assert!(!contains(Some(1), |v: &i32| *v > 2));
    assert!(!contains(None, |v: &i32| *v > 2));
    assert!(TemplateContext::empty().nodes.is_empty());
}

#[test]
fn yield_with_empty_context_writes_nothing() {
    let sources = site(&[]);
    let mut r = Resolver { include_paths: Vec::new(), escape_text: false };
    let mut out = String::new();
    assert!(r.handle(&sources, &dir(), &Vec::new(), &[], &dir(), "yield", &[], &mut out, 4, 2, 8).is_ok());
    assert_eq!(out, "");
}

#[test]
fn doctype_directive_and_unknown_commands() {
    let sources = site(&[]);
    let mut r = Resolver { include_paths: Vec::new(), escape_text: false };
    let mut out = String::new();
    assert!(r.handle(&sources, &dir(), &Vec::new(), &[], &dir(), "doctype", &[], &mut out, 0, 2, 8).is_ok());
    assert_eq!(out, "<!DOCTYPE html>");
    let e = r.handle(&sources, &dir(), &Vec::new(), &[], &dir(), "frobnicate now", &[], &mut out, 0, 2, 8).unwrap_err();
    assert_eq!(e.directive, "frobnicate now");
    assert!(matches!(e.reason, DirectiveFailure::Unrecognized));
    let m = r.handle(&sources, &dir(), &Vec::new(), &[], &dir(), "include", &[], &mut out, 0, 2, 8).unwrap_err();
    assert!(matches!(m.reason, DirectiveFailure::MissingArgument));
    let mi = r.handle(&sources, &dir(), &Vec::new(), &[], &dir(), "module_include nav", &[], &mut out, 0, 2, 8).unwrap_err();
    assert!(matches!(mi.reason, DirectiveFailure::MissingArgument));
}

#[test]
fn module_registers_a_search_path() {
    let sources = site(&[]);
    let mut r = Resolver { include_paths: Vec::new(), escape_text: false };
    let mut out = String::new();
    assert!(r.handle(&sources, &dir(), &Vec::new(), &[], &dir(), "module nav", &[], &mut out, 0, 2, 8).is_ok());
    assert_eq!(r.include_paths, vec!["site/_modules/nav".to_string()]);
    assert_eq!(out, "");
    assert!(matches!(r.handle(&sources, &dir(), &Vec::new(), &[], &dir(), "module", &[], &mut out, 0, 2, 8).unwrap_err().reason, DirectiveFailure::MissingArgument));
}

#[test]
fn layout_include_yields_caller_content() {
    let sources = site(&[
        ("site/index.templar", "= include layout\n  p hello"),
        ("site/layout.templar", "html\n  body\n    = yield"),
    ]);
    let out = compile(&sources, "site/index.templar").unwrap();
    assert_eq!(out, "<html>\n  <body>\n    <p>\n      hello\n    </p>\n  </body>\n</html>\n");
}

#[test]
fn module_include_reads_from_the_module_directory() {
    let sources = site(&[
        ("site/index.templar", "div\n  = module_include nav menu"),
        ("site/_modules/nav/menu.templar", "ul\n  li one"),
    ]);
    let out = compile(&sources, "site/index.templar").unwrap();
    assert_eq!(out, "<div>\n  <ul>\n    <li>\n      one\n    </li>\n  </ul>\n</div>\n");
}

#[test]
fn self_include_fails_as_cyclic() {
    let sources = site(&[("site/index.templar", "p\n  = include index")]);
    match compile(&sources, "site/index.templar") {
        Err(BuildErrorReason::TemplarWrite(WriteError::DirectiveError(e))) => {
            assert_eq!(e.directive, "include index");
            assert!(matches!(e.reason, DirectiveFailure::CyclicInclude(ref p) if p == "site/index.templar"));
        }
        other => panic!("expected a cyclic include, got {:?}", other),
    }
}

#[test]
fn mutual_include_fails_as_cyclic() {
    let sources = site(&[("site/a.templar", "= include b"), ("site/b.templar", "= include a")]);
    match compile(&sources, "site/a.templar") {
        Err(BuildErrorReason::TemplarWrite(WriteError::DirectiveError(e))) => match e.reason {
            DirectiveFailure::Nested(inner) => {
                assert!(matches!(inner.reason, DirectiveFailure::CyclicInclude(ref p) if p == "site/a.templar"))
            }
            other => panic!("expected a nested failure, got {:?}", other),
        },
        other => panic!("expected a cyclic include, got {:?}", other),
    }
}

#[test]
fn missing_templates_are_reported() {
    let sources = site(&[("site/index.templar", "= include nowhere")]);
    assert!(matches!(compile(&sources, "site/other.templar"), Err(BuildErrorReason::NotFound(ref p)) if p == "site/other.templar"));
    match compile(&sources, "site/index.templar") {
        Err(BuildErrorReason::TemplarWrite(WriteError::DirectiveError(e))) => {
            assert!(matches!(e.reason, DirectiveFailure::NotFound(ref p) if p == "site/nowhere.templar"))
        }
        other => panic!("expected a missing include, got {:?}", other),
    }
}

#[test]
fn parse_errors_of_a_template_are_reported() {
    let sources = site(&[("site/index.templar", "#a#b"), ("site/page.templar", "= include index")]);
    assert!(matches!(compile(&sources, "site/index.templar"), Err(BuildErrorReason::TemplarParse(_))));
    match compile(&sources, "site/page.templar") {
        Err(BuildErrorReason::TemplarWrite(WriteError::DirectiveError(e))) => {
            assert!(matches!(e.reason, DirectiveFailure::Parse(_)))
        }
        other => panic!("expected a parse failure, got {:?}", other),
    }
}

#[test]
fn yield_nested_too_deep_is_refused() {
    let sources = site(&[]);
    let context = parse("= yield").unwrap();
    let mut r = Resolver { include_paths: Vec::new(), escape_text: false };
    let mut out = String::new();
    let e = r.handle(&sources, &dir(), &Vec::new(), &context, &dir(), "yield", &[], &mut out, 0, 2, 3).unwrap_err();
    assert!(matches!(e.reason, DirectiveFailure::Nested(_)));
    let e0 = r.handle(&sources, &dir(), &Vec::new(), &context, &dir(), "yield", &[], &mut out, 0, 2, 0).unwrap_err();
    assert!(matches!(e0.reason, DirectiveFailure::TooDeep));
}

#[test]
fn unicode_letters_form_identifiers() {
    let n = parse("ñandú.größe#ü").unwrap();
    let e = el(&n[0]);
    assert_eq!(e.name, "ñandú");
    assert_eq!(e.attributes, pairs(&[("class", "größe"), ("id", "ü")]));
}

#[test]
fn tabs_and_unicode_spaces_indent() {
    let n = parse("ul\n\tli one\n\u{3000}li two\n\u{a0}").unwrap();
    assert_eq!(n.len(), 1);
    let ul = el(&n[0]);
    assert_eq!(ul.children.len(), 2);
    assert_eq!(el(&ul.children[1]).name, "li");
    assert!(matches!(&el(&ul.children[1]).children[0], Node::Text(t) if t == "two"));
}

#[test]
fn two_ids_inside_a_script_block_are_raw_text() {
    let n = parse(":javascript\n  #a#b").unwrap();
    let script = el(&n[0]);
    assert!(matches!(&script.children[1], Node::RawText(t) if t == "#a#b"));
}

#[test]
fn attribute_values_quoted_bare_and_empty() {
    let n = parse("input value=\"a b\" name= x=\"open").unwrap();
    let e = el(&n[0]);
    assert_eq!(e.attributes, pairs(&[("value", "a b"), ("name", ""), ("x", "\"open")]));
    assert!(e.children.is_empty());
}

#[test]
fn text_escaping_is_opt_in() {
    let sources = site(&[]);
    let nodes = parse("p <b>&</b>").unwrap();
    let mut plain = Resolver { include_paths: Vec::new(), escape_text: false };
    let mut out = String::new();
    assert!(plain.render(&sources, &dir(), &Vec::new(), &[], &dir(), &nodes, &mut out, 0, 2, 8).is_ok());
    assert_eq!(out, "<p>\n  <b>&</b>\n</p>\n");
    let mut escaping = Resolver { include_paths: Vec::new(), escape_text: true };
    let mut escaped = String::new();
    assert!(escaping.render(&sources, &dir(), &Vec::new(), &[], &dir(), &nodes, &mut escaped, 0, 2, 8).is_ok());
    assert_eq!(escaped, "<p>\n  &lt;b&gt;&amp;&lt;&#x2F;b&gt;\n</p>\n");
}

fn compile_keep(sources: &Sources, source: &str) -> (Result<(), BuildErrorReason>, String) {
    let mut out = String::new();
    let r = compile_templar(sources, "site", source, &mut out);
    (r, out)
}

#[test]
fn layout_yield_writes_children_at_its_indentation() {
    let sources = site(&[("site/index.templar", "= include layout\n  p"), ("site/layout.templar", "body\n  = yield")]);
    assert_eq!(compile(&sources, "site/index.templar").unwrap(), "<body>\n  <p />\n</body>\n");
}

#[test]
fn doctype_directive_writes_no_newline() {
    let sources = site(&[("site/index.templar", "= doctype\nhtml")]);
    assert_eq!(compile(&sources, "site/index.templar").unwrap(), "<!DOCTYPE html><html />\n");
}

#[test]
fn module_directive_writes_nothing() {
    let sources = site(&[("site/index.templar", "= module m\np")]);
    assert_eq!(compile(&sources, "site/index.templar").unwrap(), "<p />\n");
}

#[test]
fn unknown_directive_names_its_command() {
    let sources = site(&[("site/index.templar", "= frobnicate x")]);
    let (r, out) = compile_keep(&sources, "site/index.templar");
    match r {
        Err(BuildErrorReason::TemplarWrite(WriteError::DirectiveError(e))) => {
            assert_eq!(e.directive, "frobnicate x");
            assert!(matches!(e.reason, DirectiveFailure::Unrecognized));
        }
        other => panic!("expected a directive error, got {:?}", other),
    }
    assert_eq!(out, "");
    for cmd in ["include", "module", "module_include m"] {
        let text = format!("= {}", cmd);
        let sources = site(&[("site/index.templar", text.as_str())]);
        match compile_keep(&sources, "site/index.templar").0 {
            Err(BuildErrorReason::TemplarWrite(WriteError::DirectiveError(e))) => {
                assert_eq!(e.directive, cmd);
                assert!(matches!(e.reason, DirectiveFailure::MissingArgument));
            }
            other => panic!("expected a missing argument, got {:?}", other),
        }
    }
}

#[test]
fn output_before_a_failure_is_kept() {
    let sources = site(&[("site/index.templar", "p\n= include nowhere\nbr")]);
    let (r, out) = compile_keep(&sources, "site/index.templar");
    match r {
        Err(BuildErrorReason::TemplarWrite(WriteError::DirectiveError(e))) => assert_eq!(e.directive, "include nowhere"),
        other => panic!("expected a missing include, got {:?}", other),
    }
    assert_eq!(out, "<p />\n");
}

#[test]
fn nested_includes_resolve_against_the_including_template() {
    let sources = site(&[
        ("site/index.templar", "div\n  = include parts/head"),
        ("site/parts/head.templar", "= include title"),
        ("site/parts/title.templar", "h1 Hello"),
    ]);
    assert_eq!(compile(&sources, "site/index.templar").unwrap(), "<div>\n  <h1>\n    Hello\n  </h1>\n</div>\n");
}

#[test]
fn caller_children_keep_the_caller_directory() {
    let sources = site(&[
        ("site/index.templar", "= include parts/frame\n  = include note"),
        ("site/parts/frame.templar", "section\n  = yield"),
        ("site/note.templar", "em hi"),
    ]);
    assert_eq!(compile(&sources, "site/index.templar").unwrap(), "<section>\n  <em>\n    hi\n  </em>\n</section>\n");
}
