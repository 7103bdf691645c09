use markdown_text::document::{CodeBlock, ListKind, Node, Span, Style, Text, TextFragment};
use markdown_text::inline::parse_text;
use markdown_text::md::{
    calcule_deepth, is_code_block_annonce, parse_line, try_parse_header, try_parse_ordered_list,
    try_parse_rule, try_parse_unordered_list,
};
use markdown_text::MarkDown;

fn run(style: Style, s: &str) -> TextFragment {
    TextFragment::Stylised(style, s.to_string())
}

fn normal(s: &str) -> TextFragment {
    run(Style::normal(), s)
}

fn modifier(s: &str) -> TextFragment {
    run(Style::modifier(), s)
}

fn text(frags: Vec<TextFragment>) -> Text {
    Text { content: frags }
}

fn nodes(s: &str) -> Vec<Node> {
    MarkDown::parse(s).0.nodes
}

fn concat_runs(t: &Text) -> String {
    let mut out = String::new();
    for f in &t.content {
        if let TextFragment::Stylised(_, s) = f {
            out.push_str(s);
        }
    }
    out
}

#[test]
fn conservation_of_characters() {
    for line in ["a *b* c", "**bold** and _it_", "x `code` ~~gone~~ ***all***", "a * b", "__u__ é *ü*"] {
        let t = parse_text(line);
        assert_eq!(concat_runs(&t), line);
    }
}

#[test]
fn compaction_is_idempotent() {
    let once = markdown_text::document::compacte_nodes(nodes("# T\n\n\na\nb\n\n- x\n\n\n---\nc"));
    let expected = nodes("# T\n\n\na\nb\n\n- x\n\n\n---\nc");
    assert_eq!(once, expected);
}

#[test]
fn three_blank_lines_collapse() {
    assert_eq!(nodes("\n\n\n"), vec![Node::LineBreak]);
    assert_eq!(
        nodes("a\n\n\n\nb"),
        vec![Node::Paragraphe(text(vec![normal("a")])), Node::LineBreak, Node::Paragraphe(text(vec![normal("b")]))]
    );
}

#[test]
fn heading_absorbs_blank_line() {
    assert_eq!(
        nodes("# Title\n\nNext"),
        vec![Node::Header(1, text(vec![normal("Title")])), Node::Paragraphe(text(vec![normal("Next")]))]
    );
}

#[test]
fn delimiter_pairing() {
    let t = parse_text("a *b* c");
    assert_eq!(
        t.content,
        vec![normal("a "), modifier("*"), run(Style::normal().union(Style::emphasis()), "b"), modifier("*"), normal(" c")]
    );
}

#[test]
fn strong_and_emphasis() {
    let t = parse_text("**bold**");
    assert_eq!(t.content, vec![modifier("**"), run(Style::normal().union(Style::strong()), "bold"), modifier("**")]);
    let t = parse_text("***both***");
    let both = Style::normal().union(Style::emphasis()).union(Style::strong());
    assert_eq!(t.content, vec![modifier("***"), run(both, "both"), modifier("***")]);
}

#[test]
fn unmatched_delimiter() {
    assert_eq!(parse_text("a * b").content, vec![normal("a * b")]);
}

#[test]
fn list_depth() {
    let item = text(vec![normal("item")]);
    assert_eq!(nodes("\t- item"), vec![Node::List(ListKind::Unordere(1), text(vec![normal("item")]))]);
    assert_eq!(nodes("    - item"), vec![Node::List(ListKind::Unordere(1), text(vec![normal("item")]))]);
    assert_eq!(nodes("     - item"), vec![Node::List(ListKind::Unordere(1), item)]);
    assert_eq!(calcule_deepth("\t\t        x"), 4);
    assert_eq!(ListKind::Oredred(3).deepth(), 3);
}

#[test]
fn code_fence_round_trip() {
    let ns = nodes("```rust\nfoo()\n```");
    assert_eq!(ns.len(), 1);
    match &ns[0] {
        Node::CodeBlock(cb) => {
            assert_eq!(cb.language, "rust");
            assert_eq!(cb.fetch(), Some("foo()\n"));
        }
        other => panic!("not a code block: {:?}", other),
    }
}

#[test]
fn rule_detection() {
    assert_eq!(nodes("***"), vec![Node::Rule]);
    assert_eq!(nodes("_ _ _"), vec![Node::Rule]);
    assert!(try_parse_rule("- - -").is_some());
    assert!(try_parse_rule("-*-").is_none());
    assert_eq!(nodes("-*-"), vec![Node::Paragraphe(text(vec![normal("-*-")]))]);
    assert!(try_parse_rule("--").is_none());
    // a bullet and a space make a list item before a rule is looked for
    assert_eq!(nodes("- - -"), vec![Node::List(ListKind::Unordere(0), text(vec![normal("- -")]))]);
}

#[test]
fn two_links_on_one_line() {
    let t = parse_text("[a](x) and [b](y)");
    assert_eq!(
        t.content,
        vec![
            normal(""),
            TextFragment::Link("a".to_string(), "x".to_string()),
            normal(" and "),
            TextFragment::Link("b".to_string(), "y".to_string()),
            normal(""),
        ]
    );
}

#[test]
fn image_and_link_text() {
    let t = parse_text("see ![alt](pic.png)");
    assert_eq!(
        t.content,
        vec![normal("see "), TextFragment::Image("alt".to_string(), "pic.png".to_string()), normal("")]
    );
    assert_eq!(parse_text("[no link").content, vec![normal("[no link")]);
    assert_eq!(parse_text("[a] (b)").content, vec![normal("[a] (b)")]);
}

#[test]
fn escapes_are_removed() {
    let t = parse_text("a\\*b\\*");
    assert_eq!(t.content, vec![normal("a"), normal("*b"), normal("*")]);
}

#[test]
fn escape_and_link_together() {
    let t = parse_text("\\_ [l](t)");
    assert_eq!(
        t.content,
        vec![normal(""), normal("_ "), TextFragment::Link("l".to_string(), "t".to_string()), normal("")]
    );
}

#[test]
fn code_and_strikethrough() {
    let code = Style::normal().union(Style::code());
    assert_eq!(parse_text("`x`").content, vec![modifier("`"), run(code, "x"), modifier("`")]);
    let strike = Style::normal().union(Style::strikethrough());
    assert_eq!(parse_text("~~s~~").content, vec![modifier("~~"), run(strike, "s"), modifier("~~")]);
    assert_eq!(parse_text("~a~").content, vec![normal("~a~")]);
}

#[test]
fn earliest_pair_first() {
    // the asterisk pair opens first; the underscore pair then crosses its end and is left alone
    let em = Style::normal().union(Style::emphasis());
    assert_eq!(parse_text("*a_b*c_").content, vec![modifier("*"), run(em, "a_b"), modifier("*"), normal("c_")]);
}

#[test]
fn multibyte_offsets() {
    let em = Style::normal().union(Style::emphasis());
    assert_eq!(parse_text("é *ü*").content, vec![normal("é "), modifier("*"), run(em, "ü"), modifier("*")]);
}

#[test]
fn headers() {
    assert_eq!(try_parse_header("####### deep"), Some(Node::Header(5, text(vec![normal("deep")]))));
    assert_eq!(try_parse_header("  ## two  "), Some(Node::Header(2, text(vec![normal("two")]))));
    assert_eq!(try_parse_header("#nope"), None);
    assert_eq!(try_parse_header("plain"), None);
}

#[test]
fn ordered_and_unordered_lists() {
    assert_eq!(try_parse_ordered_list("12. one"), Some(Node::List(ListKind::Oredred(0), text(vec![normal("one")]))));
    assert_eq!(try_parse_ordered_list("\u{661}. x"), Some(Node::List(ListKind::Oredred(0), text(vec![normal("x")]))));
    assert_eq!(try_parse_ordered_list("12 one"), None);
    assert_eq!(try_parse_ordered_list(". one"), None);
    assert_eq!(try_parse_unordered_list("+ p"), Some(Node::List(ListKind::Unordere(0), text(vec![normal("p")]))));
    assert_eq!(try_parse_unordered_list("* p"), Some(Node::List(ListKind::Unordere(0), text(vec![normal("p")]))));
    assert_eq!(try_parse_unordered_list("-p"), None);
}

#[test]
fn fence_announcements() {
    assert_eq!(is_code_block_annonce("  ```py  "), Some("py".to_string()));
    assert_eq!(is_code_block_annonce("```"), Some(String::new()));
    assert_eq!(is_code_block_annonce("````"), None);
    assert_eq!(is_code_block_annonce("``"), None);
}

#[test]
fn fence_state_machine() {
    let mut fence: Option<CodeBlock> = None;
    assert_eq!(parse_line("```c", &mut fence), None);
    assert_eq!(parse_line("  int x;", &mut fence), None);
    assert_eq!(parse_line("# not a header", &mut fence), None);
    match parse_line("```", &mut fence) {
        Some(Node::CodeBlock(cb)) => {
            assert_eq!(cb.language, "c");
            assert_eq!(cb.fetch(), Some("  int x;\n# not a header\n"));
        }
        other => panic!("expected a code block: {:?}", other),
    }
    assert!(fence.is_none());
    assert_eq!(nodes("```\nnever closed"), vec![]);
}

#[test]
fn paragraphs_merge() {
    assert_eq!(nodes("a\nb"), vec![Node::Paragraphe(text(vec![normal("a"), normal("\n"), normal("b")]))]);
    assert_eq!(nodes("a\r\nb\r"), vec![Node::Paragraphe(text(vec![normal("a"), normal("\n"), normal("b\r")]))]);
}

#[test]
fn blank_line_rules() {
    assert_eq!(
        nodes("- a\n\n\n***"),
        vec![Node::List(ListKind::Unordere(0), text(vec![normal("a")])), Node::LineBreak, Node::Rule]
    );
    assert_eq!(nodes("   \n\t"), vec![Node::LineBreak]);
    assert_eq!(nodes(""), vec![]);
}

#[test]
fn from_str_parses() {
    let md: MarkDown = "# H".parse().unwrap();
    assert_eq!(md.0.nodes, vec![Node::Header(1, text(vec![normal("H")]))]);
}

#[test]
fn span_operations() {
    let s = Span::from_start_end(2, 5);
    assert_eq!((s.offset, s.length), (2, 3));
    let mut s = Span::new(1, 3);
    s.extend(2);
    assert_eq!(s.length, 5);
    assert_eq!(Span::new(1, 3).fetch("héllo"), Some("éll"));
    assert_eq!(Span::new(3, 3).fetch("héllo"), None);
    let cb = CodeBlock::new("abcdef".to_string(), "x".to_string(), Span::new(2, 2));
    assert_eq!(cb.fetch(), Some("cd"));
}

#[test]
fn fragment_lengths() {
    assert_eq!(normal("héllo").len(), 5);
    assert_eq!(TextFragment::Link("ab".to_string(), "héj".to_string()).len(), 5);
    assert_eq!(TextFragment::Image("".to_string(), "x".to_string()).len(), 1);
}

#[test]
fn fragment_splitting() {
    let parts = normal("abcdef").style_in(Span::new(1, 3), 1, Style::strong());
    let strong = Style::normal().union(Style::strong());
    assert_eq!(parts, vec![normal("a"), modifier("b"), run(strong, "cd"), modifier("e"), normal("f")]);
    assert_eq!(normal("abc").style_in(Span::new(1, 2), 1, Style::code()), vec![normal("abc")]);
    assert_eq!(
        normal("abc").replace(Span::new(1, 1), TextFragment::Link("l".to_string(), "t".to_string())),
        vec![normal("a"), TextFragment::Link("l".to_string(), "t".to_string()), normal("c")]
    );
    assert_eq!(normal("abc").remove(Span::new(0, 1)), vec![normal(""), normal("bc")]);
    assert_eq!(normal("abc").remove(Span::new(2, 2)), vec![normal("abc")]);
}

#[test]
fn text_mutations_address_line_offsets() {
    let mut t = text(vec![normal("ab"), normal("cdef")]);
    t.style(1, Span::new(2, 2), Style::emphasis());
    let em = Style::normal().union(Style::emphasis());
    assert_eq!(t.content, vec![normal("ab"), modifier("c"), run(em, "d"), modifier("e"), normal("f")]);
    let mut t = text(vec![normal("ab"), normal("cd")]);
    t.remove(Span::new(3, 1));
    assert_eq!(t.content, vec![normal("ab"), normal("c"), normal("")]);
    let mut t = text(vec![normal("ab")]);
    t.replace(Span::new(5, 1), normal("z"));
    assert_eq!(t.content, vec![normal("ab")]);
}

#[test]
fn style_sets() {
    let s = Style::strong().union(Style::code());
    assert!(s.contains(Style::strong()));
    assert!(s.contains(Style::code()));
    assert!(!s.contains(Style::emphasis()));
    assert!(!s.contains(Style::strong().union(Style::modifier())));
}
