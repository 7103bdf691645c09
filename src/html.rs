use vstd::prelude::*;
use vstd::string::StrSliceExecFns;
use vstd::string::StringExecFns;

use crate::document::{code_spans_fit, nodes_view, Document, FragmentView, ListKind, Node, NodeView, Style, Text, TextFragment};
use crate::inline::chars_of;
use crate::md::MarkDown;

verus! {

/// `s` wrapped in the tags of each style it carries, strong innermost.
pub open spec fn styled_html(s: Seq<char>, st: Style) -> Seq<char> {
    let t1 = if st.strong {
        "<strong>"@ + s + "</strong>"@
    } else {
        s
    };
    let t2 = if st.emphasis {
        "<em>"@ + t1 + "</em>"@
    } else {
        t1
    };
    let t3 = if st.code {
        "<code>"@ + t2 + "</code>"@
    } else {
        t2
    };
    if st.strikethrough {
        "<s>"@ + t3 + "</s>"@
    } else {
        t3
    }
}

/// The markup of one fragment; a modifier run has none.
pub open spec fn frag_html(f: FragmentView) -> Seq<char> {
    match f {
        FragmentView::Stylised(st, s) => if st.modifier {
            Seq::empty()
        } else {
            styled_html(s, st)
        },
        FragmentView::Link(alt, link) => "<a href=\""@ + link + "\">"@ + alt + "</a>"@,
        FragmentView::Image(alt, src) => "<img src=\""@ + src + "\" alt=\""@ + alt + "\">"@,
    }
}

pub open spec fn text_html(fs: Seq<FragmentView>) -> Seq<char>
    decreases fs.len(),
{
    if fs.len() == 0 {
        Seq::empty()
    } else {
        text_html(fs.drop_last()) + frag_html(fs.last())
    }
}

/// `text` wrapped in the tags of its styles.
pub fn apply_styles_html(text: &str, styles: Style) -> (r: String)
    ensures
        r@ == styled_html(text@, styles),
{
    let mut t = String::from_str(text);
    if styles.strong {
        let mut w = String::from_str("<strong>");
        w.append(t.as_str());
        w.append("</strong>");
        t = w;
    }
    if styles.emphasis {
        let mut w = String::from_str("<em>");
        w.append(t.as_str());
        w.append("</em>");
        t = w;
    }
    if styles.code {
        let mut w = String::from_str("<code>");
        w.append(t.as_str());
        w.append("</code>");
        t = w;
    }
    if styles.strikethrough {
        let mut w = String::from_str("<s>");
        w.append(t.as_str());
        w.append("</s>");
        t = w;
    }
    t
}

/// The markup of inline content.
pub fn text_to_htlm(text: &Text) -> (r: String)
    ensures
        r@ == text_html(text@),
{
    let mut out = String::new();
    let mut i: usize = 0;
    let ghost fs = text@;
    while i < text.content.len()
        invariant
            fs == text@,
            i <= fs.len(),
            fs.len() == text.content@.len(),
            out@ == text_html(fs.take(i as int)),
        decreases text.content.len() - i,
    {
        assert(fs.take(i as int + 1).drop_last() =~= fs.take(i as int));
        assert(text.content@[i as int]@ == fs[i as int]);
        match &text.content[i] {
            TextFragment::Stylised(styles, s) => {
                if !styles.modifier {
                    let h = apply_styles_html(s.as_str(), *styles);
                    out.append(h.as_str());
                }
            },
            TextFragment::Link(alt, link) => {
                out.append("<a href=\"");
                out.append(link.as_str());
                out.append("\">");
                out.append(alt.as_str());
                out.append("</a>");
            },
            TextFragment::Image(alt, src) => {
                out.append("<img src=\"");
                out.append(src.as_str());
                out.append("\" alt=\"");
                out.append(alt.as_str());
                out.append("\">");
            },
        }
        assert(out@ =~= text_html(fs.take(i as int + 1)));
        i = i + 1;
    }
    assert(fs.take(i as int) =~= fs);
    out
}

pub open spec fn digit_char(d: int) -> char {
    if d == 0 {
        '0'
    } else if d == 1 {
        '1'
    } else if d == 2 {
        '2'
    } else if d == 3 {
        '3'
    } else if d == 4 {
        '4'
    } else if d == 5 {
        '5'
    } else if d == 6 {
        '6'
    } else if d == 7 {
        '7'
    } else if d == 8 {
        '8'
    } else {
        '9'
    }
}

/// The decimal digits of `n`.
pub open spec fn decimal(n: nat) -> Seq<char>
    decreases n,
{
    if n < 10 {
        seq![digit_char(n as int)]
    } else {
        decimal(n / 10).push(digit_char((n % 10) as int))
    }
}

fn digit_str(d: usize) -> (r: &'static str)
    requires
        d < 10,
    ensures
        r@ == seq![digit_char(d as int)],
{
    proof {
        reveal_strlit("0");
        reveal_strlit("1");
        reveal_strlit("2");
        reveal_strlit("3");
        reveal_strlit("4");
        reveal_strlit("5");
        reveal_strlit("6");
        reveal_strlit("7");
        reveal_strlit("8");
        reveal_strlit("9");
    }
    let r = if d == 0 {
        "0"
    } else if d == 1 {
        "1"
    } else if d == 2 {
        "2"
    } else if d == 3 {
        "3"
    } else if d == 4 {
        "4"
    } else if d == 5 {
        "5"
    } else if d == 6 {
        "6"
    } else if d == 7 {
        "7"
    } else if d == 8 {
        "8"
    } else {
        "9"
    };
    assert(r@ =~= seq![digit_char(d as int)]);
    r
}

fn decimal_string(n: usize) -> (r: String)
    ensures
        r@ == decimal(n as nat),
    decreases n,
{
    if n < 10 {
        String::from_str(digit_str(n))
    } else {
        let mut r = decimal_string(n / 10);
        r.append(digit_str(n % 10));
        r
    }
}

/// `s` with each line feed written as a `<br>` tag.
pub open spec fn nl_to_br(s: Seq<char>) -> Seq<char>
    decreases s.len(),
{
    if s.len() == 0 {
        Seq::empty()
    } else {
        nl_to_br(s.drop_last()) + if s.last() == '\n' {
            "<br>"@
        } else {
            seq![s.last()]
        }
    }
}

fn replace_nl(s: &str) -> (r: String)
    ensures
        r@ == nl_to_br(s@),
{
    let chars = chars_of(s);
    let ghost cs = chars@;
    let mut out = String::new();
    let mut a: usize = 0;
    let mut i: usize = 0;
    while i < chars.len()
        invariant
            cs == chars@,
            cs == s@,
            a <= i <= cs.len(),
            out@ == nl_to_br(cs.take(a as int)),
            nl_to_br(cs.take(i as int)) == nl_to_br(cs.take(a as int)) + cs.subrange(a as int, i as int),
        decreases chars.len() - i,
    {
        assert(cs.take(i as int + 1).drop_last() =~= cs.take(i as int));
        if chars[i] == '\n' {
            out.append(s.substring_char(a, i));
            out.append("<br>");
            assert(out@ =~= nl_to_br(cs.take(i as int + 1)));
            a = i + 1;
            assert(cs.subrange(a as int, a as int) =~= Seq::<char>::empty());
            assert(nl_to_br(cs.take(a as int)) + cs.subrange(a as int, a as int) =~= nl_to_br(cs.take(a as int)));
        } else {
            assert(nl_to_br(cs.take(i as int + 1)) =~= nl_to_br(cs.take(a as int)) + cs.subrange(a as int, i as int + 1));
        }
        i = i + 1;
    }
    out.append(s.substring_char(a, i));
    assert(cs.take(i as int) =~= cs);
    out
}

pub open spec fn open_tag(k: ListKind) -> Seq<char> {
    match k {
        ListKind::Oredred(_) => "<ol>"@,
        ListKind::Unordere(_) => "<ul>"@,
    }
}

pub open spec fn close_tag(k: ListKind) -> Seq<char> {
    match k {
        ListKind::Oredred(_) => "</ol>"@,
        ListKind::Unordere(_) => "</ul>"@,
    }
}

/// Writes the opening tag of a list.
pub fn init_list_html(list_kind: &ListKind, f: &mut String)
    ensures
        final(f)@ == old(f)@ + open_tag(*list_kind),
{
    match list_kind {
        ListKind::Oredred(_) => f.append("<ol>"),
        ListKind::Unordere(_) => f.append("<ul>"),
    }
}

/// Writes the closing tag of a list.
pub fn end_list_html(list_kind: &ListKind, f: &mut String)
    ensures
        final(f)@ == old(f)@ + close_tag(*list_kind),
{
    match list_kind {
        ListKind::Oredred(_) => f.append("</ol>"),
        ListKind::Unordere(_) => f.append("</ul>"),
    }
}

/// The closing tags of the innermost `d` open lists, innermost first, and
/// the lists that stay open.
pub open spec fn close_lists(lists: Seq<ListKind>, d: nat) -> (Seq<char>, Seq<ListKind>)
    decreases d,
{
    if d == 0 || lists.len() == 0 {
        (Seq::empty(), lists)
    } else {
        let (rest, left) = close_lists(lists.drop_last(), (d - 1) as nat);
        (close_tag(lists.last()) + rest, left)
    }
}

/// `d` opening tags of kind `k`, and the open lists after them.
pub open spec fn open_lists(lists: Seq<ListKind>, k: ListKind, d: nat) -> (Seq<char>, Seq<ListKind>)
    decreases d,
{
    if d == 0 {
        (Seq::empty(), lists)
    } else {
        let (rest, after) = open_lists(lists.push(k), k, (d - 1) as nat);
        (open_tag(k) + rest, after)
    }
}

pub open spec fn item_html(t: Seq<FragmentView>) -> Seq<char> {
    "<li>"@ + text_html(t) + "</li>"@
}

/// The markup of one block, given the lists open before it, and the lists
/// open after it. A list item opens or closes lists by the change of depth
/// from the innermost open list; any other block first closes them all.
pub open spec fn render_node(lists: Seq<ListKind>, node: NodeView) -> (Seq<char>, Seq<ListKind>) {
    match node {
        NodeView::List(kind, t) => {
            if lists.len() == 0 {
                let (o, after) = open_lists(lists, kind, 1);
                (o + item_html(t), after)
            } else {
                let pd = lists.last().spec_deepth() as int;
                let kd = kind.spec_deepth() as int;
                if kd == pd {
                    (item_html(t), lists)
                } else if kd > pd {
                    let (o, after) = open_lists(lists, kind, (kd - pd) as nat);
                    (o + item_html(t), after)
                } else {
                    let (c, left) = close_lists(lists, (pd - kd) as nat);
                    (c + item_html(t), left)
                }
            }
        },
        _ => {
            let body = match node {
                NodeView::Header(level, t) => "<h"@ + decimal(level as nat) + ">"@ + text_html(t) + "</h"@
                    + decimal(level as nat) + ">"@,
                NodeView::Paragraphe(t) => "<p>"@ + nl_to_br(text_html(t)) + "</p>"@,
                NodeView::CodeBlock(buf, language, code) => "<pre><code class="@ + language + ">"@
                    + buf.subrange(code.offset as int, code.offset + code.length) + "</code></pre>"@,
                NodeView::LineBreak => "<br>"@,
                _ => "<hr>"@,
            };
            (close_lists(lists, lists.len()).0 + body, Seq::empty())
        },
    }
}

/// The markup of the first `n` blocks, and the lists open after them.
pub open spec fn render_prefix(nodes: Seq<NodeView>, n: int) -> (Seq<char>, Seq<ListKind>)
    decreases n,
{
    if n <= 0 {
        (Seq::empty(), Seq::empty())
    } else {
        let (out, lists) = render_prefix(nodes, n - 1);
        let (h, after) = render_node(lists, nodes[n - 1]);
        (out + h, after)
    }
}

/// The markup of all blocks, with the lists still open at the end closed.
pub open spec fn render_spec(nodes: Seq<NodeView>) -> Seq<char> {
    let (out, lists) = render_prefix(nodes, nodes.len() as int);
    out + close_lists(lists, lists.len()).0
}

/// Writes the closing tags of the innermost `d` open lists and closes them.
fn close_innermost(lists: &mut Vec<ListKind>, d: usize, f: &mut String)
    ensures
        final(f)@ == old(f)@ + close_lists(old(lists)@, d as nat).0,
        final(lists)@ == close_lists(old(lists)@, d as nat).1,
    decreases d,
{
    if d == 0 || lists.len() == 0 {
        return;
    }
    let ghost l0 = lists@;
    let ghost f0 = f@;
    let pre_list = lists.pop().unwrap();
    end_list_html(&pre_list, f);
    close_innermost(lists, d - 1, f);
    assert(f@ =~= f0 + close_lists(l0, d as nat).0);
}

/// Writes `d` opening tags of kind `k` and opens those lists.
fn open_innermost(lists: &mut Vec<ListKind>, k: ListKind, d: usize, f: &mut String)
    ensures
        final(f)@ == old(f)@ + open_lists(old(lists)@, k, d as nat).0,
        final(lists)@ == open_lists(old(lists)@, k, d as nat).1,
    decreases d,
{
    if d == 0 {
        return;
    }
    let ghost f0 = f@;
    let ghost l0 = lists@;
    lists.push(k);
    init_list_html(&k, f);
    open_innermost(lists, k, d - 1, f);
    assert(f@ =~= f0 + open_lists(l0, k, d as nat).0);
}

/// A document to be written as HTML.
pub struct HTML(pub Document);

impl HTML {
    /// The markup of the whole document.
    pub fn render(&self) -> (r: String)
        requires
            code_spans_fit(nodes_view(self.0.nodes@)),
        ensures
            r@ == render_spec(nodes_view(self.0.nodes@)),
    {
        let ghost ns = nodes_view(self.0.nodes@);
        let mut f = String::new();
        let mut lists: Vec<ListKind> = Vec::new();
        let mut i: usize = 0;
        while i < self.0.nodes.len()
            invariant
                ns == nodes_view(self.0.nodes@),
                code_spans_fit(ns),
                i <= ns.len(),
                (f@, lists@) == render_prefix(ns, i as int),
            decreases self.0.nodes.len() - i,
        {
            let ghost f0 = f@;
            let ghost l0 = lists@;
            let line = &self.0.nodes[i];
            assert(line@ == ns[i as int]);
            match line {
                Node::List(list_kind, text) => {
                    let kd = list_kind.deepth();
                    if lists.len() == 0 {
                        open_innermost(&mut lists, *list_kind, 1, &mut f);
                    } else {
                        let pd = lists[lists.len() - 1].deepth();
                        if kd > pd {
                            open_innermost(&mut lists, *list_kind, kd - pd, &mut f);
                        } else if kd < pd {
                            close_innermost(&mut lists, pd - kd, &mut f);
                        }
                    }
                    f.append("<li>");
                    let h = text_to_htlm(text);
                    f.append(h.as_str());
                    f.append("</li>");
                },
                _ => {
                    let n = lists.len();
                    close_innermost(&mut lists, n, &mut f);
                    assert(lists@ =~= Seq::<ListKind>::empty()) by {
                        lemma_close_all(l0);
                    }
                    match line {
                        Node::Header(level, text) => {
                            let d = decimal_string(*level);
                            f.append("<h");
                            f.append(d.as_str());
                            f.append(">");
                            let h = text_to_htlm(text);
                            f.append(h.as_str());
                            f.append("</h");
                            f.append(d.as_str());
                            f.append(">");
                        },
                        Node::Paragraphe(text) => {
                            f.append("<p>");
                            let h = text_to_htlm(text);
                            let h = replace_nl(h.as_str());
                            f.append(h.as_str());
                            f.append("</p>");
                        },
                        Node::CodeBlock(codeblock) => {
                            f.append("<pre><code class=");
                            f.append(codeblock.language.as_str());
                            f.append(">");
                            let code = codeblock.fetch().unwrap();
                            f.append(code);
                            f.append("</code></pre>");
                        },
                        Node::LineBreak => f.append("<br>"),
                        _ => f.append("<hr>"),
                    }
                },
            }
            assert(f@ =~= render_prefix(ns, i as int + 1).0);
            i = i + 1;
        }
        let n = lists.len();
        close_innermost(&mut lists, n, &mut f);
        f
    }
}

impl From<MarkDown> for HTML {
    /// The parsed document, to be written as HTML.
    fn from(markdown: MarkDown) -> (r: HTML)
        ensures
            r == HTML(markdown.0),
    {
        HTML(markdown.0)
    }
}

impl vstd::std_specs::convert::FromSpecImpl<MarkDown> for HTML {
    open spec fn obeys_from_spec() -> bool {
        true
    }

    open spec fn from_spec(markdown: MarkDown) -> HTML {
        HTML(markdown.0)
    }
}

proof fn lemma_close_all(lists: Seq<ListKind>)
    ensures
        close_lists(lists, lists.len()).1 == Seq::<ListKind>::empty(),
    decreases lists.len(),
{
    if lists.len() > 0 {
        lemma_close_all(lists.drop_last());
    }
}

} // verus!
