use markdown_text::document::{Document, Node, Style, Text, TextFragment};
use markdown_text::html::{apply_styles_html, text_to_htlm};
use markdown_text::{MarkDown, HTML};

fn render(s: &str) -> String {
    HTML::from(MarkDown::parse(s)).render()
}

#[test]
fn renders_headers_and_paragraphs() {
    assert_eq!(render("# Title\n\nNext"), "<h1>Title</h1><p>Next</p>");
    assert_eq!(render("a\nb"), "<p>a<br>b</p>");
    assert_eq!(render("***"), "<hr>");
}

#[test]
fn renders_inline_styles() {
    assert_eq!(render("a *b*"), "<p>a <em>b</em></p>");
    assert_eq!(render("**x**"), "<p><strong>x</strong></p>");
    assert_eq!(render("***x***"), "<p><em><strong>x</strong></em></p>");
    assert_eq!(render("`c` ~~s~~"), "<p><code>c</code> <s>s</s></p>");
}

#[test]
fn renders_links_and_images() {
    assert_eq!(render("[a](u)"), "<p><a href=\"u\">a</a></p>");
    assert_eq!(render("![a](p.png)"), "<p><img src=\"p.png\" alt=\"a\"></p>");
}

#[test]
fn renders_nested_lists() {
    assert_eq!(
        render("- a\n\t- b\n- c\n\nx"),
        "<ul><li>a</li><ul><li>b</li></ul><li>c</li></ul><br><p>x</p>"
    );
    assert_eq!(render("1. a"), "<ol><li>a</li></ol>");
    assert_eq!(render("- a\n\t1. b"), "<ul><li>a</li><ol><li>b</li></ol></ul>");
    assert_eq!(render("- a\n# h"), "<ul><li>a</li></ul><h1>h</h1>");
}

#[test]
fn renders_code_blocks() {
    assert_eq!(render("```rs\nx\n```"), "<pre><code class=rs>x\n</code></pre>");
}

#[test]
fn renders_header_level_digits() {
    let t = Text { content: vec![TextFragment::Stylised(Style::normal(), "h".to_string())] };
    let doc = HTML(Document { nodes: vec![Node::Header(12, t)] });
    assert_eq!(doc.render(), "<h12>h</h12>");
}

#[test]
fn style_and_text_markup() {
    assert_eq!(apply_styles_html("x", Style::strong().union(Style::strikethrough())), "<s><strong>x</strong></s>");
    assert_eq!(apply_styles_html("x", Style::normal()), "x");
    let t = Text {
        content: vec![
            TextFragment::Stylised(Style::modifier(), "*".to_string()),
            TextFragment::Stylised(Style::emphasis(), "e".to_string()),
        ],
    };
    assert_eq!(text_to_htlm(&t), "<em>e</em>");
}
