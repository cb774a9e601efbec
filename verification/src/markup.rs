//! The markup grammar: what each production reads from a text at a position,
//! and where it stops.

use crate::dom::NodeView;
use crate::error::{Failure, ParseErrorKind};
use crate::lex::{
    all_but, is_name_char, is_whitespace, lemma_run_end, lemma_run_end_unique, name_chars, remaining,
    run_end, starts_with_at, whitespace,
};
use vstd::prelude::*;

verus! {

/// The position behind `lit`, which must stand at `pos`.
pub open spec fn expect_at(s: Seq<char>, pos: int, lit: Seq<char>) -> Result<int, Failure> {
    if starts_with_at(s, pos, lit) {
        Ok(pos + lit.len())
    } else {
        Err(Failure { kind: ParseErrorKind::UnexpectedLiteral, at: pos })
    }
}

/// `t` without the whitespace at its end.
pub open spec fn trim_end(t: Seq<char>) -> Seq<char>
    decreases t.len(),
{
    if t.len() > 0 && is_whitespace(t.last()) {
        trim_end(t.drop_last())
    } else {
        t
    }
}

/// A text run: everything up to the next `<` or the end of the text.
pub open spec fn text_at(s: Seq<char>, pos: int) -> (NodeView, int) {
    let end = run_end(s, pos, all_but('<'));
    (NodeView::Text(s.subrange(pos, end)), end)
}

/// A comment: `<!--`, whitespace, everything up to the next `-` without the
/// whitespace at its end, and `-->`.
pub open spec fn comment_at(s: Seq<char>, pos: int) -> Result<(NodeView, int), Failure> {
    match expect_at(s, pos, "<!--"@) {
        Err(f) => Err(f),
        Ok(open) => {
            let start = run_end(s, open, whitespace());
            let end = run_end(s, start, all_but('-'));
            match expect_at(s, end, "-->"@) {
                Err(f) => Err(f),
                Ok(close) => Ok((NodeView::Comment(trim_end(s.subrange(start, end))), close)),
            }
        },
    }
}

/// A name: the longest run of name characters, which must not be empty.
pub open spec fn name_at(s: Seq<char>, pos: int) -> Result<(Seq<char>, int), Failure> {
    let end = run_end(s, pos, name_chars());
    if end > pos {
        Ok((s.subrange(pos, end), end))
    } else {
        Err(Failure { kind: ParseErrorKind::EmptyRequiredName, at: pos })
    }
}

/// An attribute value: a quote, everything up to the same quote, and that
/// quote.
pub open spec fn attr_value_at(s: Seq<char>, pos: int) -> Result<(Seq<char>, int), Failure> {
    if 0 <= pos < s.len() && (s[pos] == '"' || s[pos] == '\'') {
        let end = run_end(s, pos + 1, all_but(s[pos]));
        if end < s.len() {
            Ok((s.subrange(pos + 1, end), end + 1))
        } else {
            Err(Failure { kind: ParseErrorKind::MalformedAttributeValue, at: end })
        }
    } else {
        Err(Failure { kind: ParseErrorKind::MalformedAttributeValue, at: pos })
    }
}

/// One attribute: a name, `=`, and a value.
pub open spec fn attr_at(s: Seq<char>, pos: int) -> Result<((Seq<char>, Seq<char>), int), Failure> {
    match name_at(s, pos) {
        Err(f) => Err(f),
        Ok((name, c1)) => match expect_at(s, c1, "="@) {
            Err(f) => Err(f),
            Ok(c2) => match attr_value_at(s, c2) {
                Err(f) => Err(f),
                Ok((value, c3)) => Ok(((name, value), c3)),
            },
        },
    }
}

/// An attribute spans at least one character and ends inside the text.
pub proof fn lemma_attr_bounds(s: Seq<char>, pos: int)
    requires
        0 <= pos <= s.len(),
    ensures
        attr_at(s, pos) matches Ok((_, next)) ==> pos < next <= s.len(),
{
    lemma_run_end(s, pos, name_chars());
    if attr_at(s, pos) is Ok {
        let c1 = name_at(s, pos)->Ok_0.1;
        let c2 = expect_at(s, c1, "="@)->Ok_0;
        lemma_run_end(s, c2 + 1, all_but(s[c2]));
    }
}

/// The attributes of a tag, added to `seen`: attributes, each after optional
/// whitespace, up to a `>`, which is not passed. A later attribute replaces
/// an earlier one of the same name.
pub open spec fn attributes_from(s: Seq<char>, pos: int, seen: Map<Seq<char>, Seq<char>>) -> Result<
    (Map<Seq<char>, Seq<char>>, int),
    Failure,
>
    decreases remaining(s, pos),
{
    let start = run_end(s, pos, whitespace());
    if 0 <= start < s.len() && s[start] == '>' {
        Ok((seen, start))
    } else {
        proof {
            if 0 <= pos <= s.len() {
                lemma_run_end(s, pos, whitespace());
                lemma_attr_bounds(s, start);
            }
        }
        match attr_at(s, start) {
            Err(f) => Err(f),
            Ok((pair, next)) => attributes_from(s, next, seen.insert(pair.0, pair.1)),
        }
    }
}

/// A list of attributes ends inside the text, at a `>`.
pub proof fn lemma_attributes_bounds(s: Seq<char>, pos: int, seen: Map<Seq<char>, Seq<char>>)
    requires
        0 <= pos <= s.len(),
    ensures
        attributes_from(s, pos, seen) matches Ok((_, end)) ==> pos <= end < s.len() && s[end] == '>',
    decreases remaining(s, pos),
{
    let start = run_end(s, pos, whitespace());
    lemma_run_end(s, pos, whitespace());
    if !(start < s.len() && s[start] == '>') {
        lemma_attr_bounds(s, start);
        if let Ok((pair, next)) = attr_at(s, start) {
            lemma_attributes_bounds(s, next, seen.insert(pair.0, pair.1));
        }
    }
}

/// An opening tag spans at least one character and ends inside the text.
pub proof fn lemma_open_tag_bounds(s: Seq<char>, pos: int)
    ensures
        open_tag_at(s, pos) matches Ok((_, end)) ==> 0 <= pos < end <= s.len(),
{
    if open_tag_at(s, pos) is Ok {
        let c1 = expect_at(s, pos, "<"@)->Ok_0;
        lemma_run_end(s, c1, name_chars());
        let c2 = name_at(s, c1)->Ok_0.1;
        lemma_attributes_bounds(s, c2, Map::empty());
    }
}

/// An opening tag: `<`, a name, attributes, and `>`.
pub open spec fn open_tag_at(s: Seq<char>, pos: int) -> Result<
    ((Seq<char>, Map<Seq<char>, Seq<char>>), int),
    Failure,
> {
    match expect_at(s, pos, "<"@) {
        Err(f) => Err(f),
        Ok(c1) => match name_at(s, c1) {
            Err(f) => Err(f),
            Ok((name, c2)) => match attributes_from(s, c2, Map::empty()) {
                Err(f) => Err(f),
                Ok((attributes, c3)) => match expect_at(s, c3, ">"@) {
                    Err(f) => Err(f),
                    Ok(c4) => Ok(((name, attributes), c4)),
                },
            },
        },
    }
}

/// A closing tag for the element `name`: `</`, the same name, and `>`.
/// Where no name follows `</`, a literal is missing; where another name
/// follows, the tags do not match.
pub open spec fn close_tag_at(s: Seq<char>, pos: int, name: Seq<char>) -> Result<int, Failure> {
    match expect_at(s, pos, "</"@) {
        Err(f) => Err(f),
        Ok(c1) => {
            let c2 = run_end(s, c1, name_chars());
            if c2 <= c1 {
                Err(Failure { kind: ParseErrorKind::UnexpectedLiteral, at: c1 })
            } else if s.subrange(c1, c2) != name {
                Err(Failure { kind: ParseErrorKind::TagMismatch, at: c1 })
            } else {
                expect_at(s, c2, ">"@)
            }
        },
    }
}

/// One node, chosen by what stands at `pos`: `<!--` starts a comment, any
/// other `<` an element, anything else a text run.
pub open spec fn node_at(s: Seq<char>, pos: int) -> Result<(NodeView, int), Failure>
    decreases remaining(s, pos), 1nat,
{
    if starts_with_at(s, pos, "<!--"@) {
        comment_at(s, pos)
    } else if starts_with_at(s, pos, "<"@) {
        element_at(s, pos)
    } else {
        Ok(text_at(s, pos))
    }
}

/// A list of siblings, added to `seen`: nodes, each after optional
/// whitespace, up to the end of the text or a `</`, which is not passed.
///
/// The list goes on behind each node. That a node ends behind its start is
/// asked for here so that the definition is seen to end; it always holds
/// (`lemma_node_bounds`).
pub open spec fn nodes_from(s: Seq<char>, pos: int, seen: Seq<NodeView>) -> Result<
    (Seq<NodeView>, int),
    Failure,
>
    decreases remaining(s, pos), 2nat,
{
    let start = run_end(s, pos, whitespace());
    if start >= s.len() || starts_with_at(s, start, "</"@) {
        Ok((seen, start))
    } else {
        proof {
            if 0 <= pos {
                lemma_run_end(s, pos, whitespace());
            }
        }
        match node_at(s, start) {
            Err(f) => Err(f),
            Ok((node, next)) => {
                if 0 <= start < next {
                    nodes_from(s, next, seen.push(node))
                } else {
                    Ok((seen.push(node), next))
                }
            },
        }
    }
}

/// An element: an opening tag, its children, and the closing tag of the
/// same name.
pub open spec fn element_at(s: Seq<char>, pos: int) -> Result<(NodeView, int), Failure>
    decreases remaining(s, pos), 0nat,
{
    match open_tag_at(s, pos) {
        Err(f) => Err(f),
        Ok((tag, inside)) => {
            proof {
                lemma_open_tag_bounds(s, pos);
            }
            match nodes_from(s, inside, Seq::empty()) {
                Err(f) => Err(f),
                Ok((children, c1)) => match close_tag_at(s, c1, tag.0) {
                    Err(f) => Err(f),
                    Ok(end) => Ok(
                        (NodeView::Element { tag_name: tag.0, attributes: tag.1, children }, end),
                    ),
                },
            }
        },
    }
}

/// The tree of a list of top-level nodes: the node itself where there is
/// exactly one, else an `html` element without attributes that holds them.
pub open spec fn root_of(nodes: Seq<NodeView>) -> NodeView {
    if nodes.len() == 1 {
        nodes[0]
    } else {
        NodeView::Element { tag_name: "html"@, attributes: Map::empty(), children: nodes }
    }
}

/// The tree of a whole text.
pub open spec fn document(s: Seq<char>) -> Result<NodeView, Failure> {
    match nodes_from(s, 0, Seq::empty()) {
        Err(f) => Err(f),
        Ok((nodes, _)) => Ok(root_of(nodes)),
    }
}

/// A node that does not start at the end of the text spans at least one
/// character and ends inside the text.
pub proof fn lemma_node_bounds(s: Seq<char>, pos: int)
    requires
        0 <= pos < s.len(),
    ensures
        node_at(s, pos) matches Ok((_, next)) ==> pos < next <= s.len(),
    decreases remaining(s, pos), 1nat,
{
    reveal_strlit("<!--");
    reveal_strlit("<");
    if starts_with_at(s, pos, "<!--"@) {
        let start = run_end(s, pos + 4, whitespace());
        lemma_run_end(s, pos + 4, whitespace());
        lemma_run_end(s, start, all_but('-'));
    } else if starts_with_at(s, pos, "<"@) {
        lemma_element_bounds(s, pos);
    } else {
        if s[pos] == '<' {
            assert(s.subrange(pos, pos + 1) =~= "<"@);
        }
        lemma_run_end(s, pos + 1, all_but('<'));
    }
}

/// A list of siblings ends inside the text.
pub proof fn lemma_nodes_bounds(s: Seq<char>, pos: int, seen: Seq<NodeView>)
    requires
        0 <= pos <= s.len(),
    ensures
        nodes_from(s, pos, seen) matches Ok((_, end)) ==> pos <= end <= s.len(),
    decreases remaining(s, pos), 2nat,
{
    let start = run_end(s, pos, whitespace());
    lemma_run_end(s, pos, whitespace());
    if !(start >= s.len() || starts_with_at(s, start, "</"@)) {
        lemma_node_bounds(s, start);
        if let Ok((node, next)) = node_at(s, start) {
            lemma_nodes_bounds(s, next, seen.push(node));
        }
    }
}

/// An element spans at least one character and ends inside the text.
pub proof fn lemma_element_bounds(s: Seq<char>, pos: int)
    ensures
        element_at(s, pos) matches Ok((_, end)) ==> 0 <= pos < end <= s.len(),
    decreases remaining(s, pos), 0nat,
{
    lemma_open_tag_bounds(s, pos);
    if let Ok((tag, inside)) = open_tag_at(s, pos) {
        lemma_nodes_bounds(s, inside, Seq::empty());
        if let Ok((children, c1)) = nodes_from(s, inside, Seq::empty()) {
            if close_tag_at(s, c1, tag.0) is Ok {
                let c2 = expect_at(s, c1, "</"@)->Ok_0;
                lemma_run_end(s, c2, name_chars());
            }
        }
    }
}

/// Trimming keeps a prefix: all of `t` up to its last character that is no
/// whitespace.
pub proof fn lemma_trim_end(t: Seq<char>)
    ensures
        trim_end(t).len() <= t.len(),
        trim_end(t) == t.take(trim_end(t).len() as int),
        trim_end(t).len() > 0 ==> !is_whitespace(trim_end(t).last()),
        forall|i: int| trim_end(t).len() <= i < t.len() ==> is_whitespace(#[trigger] t[i]),
    decreases t.len(),
{
    if t.len() > 0 && is_whitespace(t.last()) {
        lemma_trim_end(t.drop_last());
        let n = trim_end(t).len() as int;
        assert(t.drop_last().take(n) =~= t.take(n));
        assert forall|i: int| n <= i < t.len() implies is_whitespace(#[trigger] t[i]) by {
            if i < t.len() - 1 {
                assert(t.drop_last()[i] == t[i]);
            }
        }
    } else {
        assert(t.take(t.len() as int) =~= t);
    }
}

/// A prefix of `t` that ends at its last character that is no whitespace is
/// `t` trimmed.
pub proof fn lemma_trim_end_unique(t: Seq<char>, n: int)
    requires
        0 <= n <= t.len(),
        n > 0 ==> !is_whitespace(t[n - 1]),
        forall|i: int| n <= i < t.len() ==> is_whitespace(#[trigger] t[i]),
    ensures
        trim_end(t) == t.take(n),
    decreases t.len(),
{
    if t.len() > n {
        assert(is_whitespace(t[t.len() - 1]));
        lemma_trim_end_unique(t.drop_last(), n);
        assert(t.drop_last().take(n) =~= t.take(n));
    } else {
        assert(t.take(n) =~= t);
    }
}

/// The text of the comment at `pos`.
pub open spec fn comment_text(s: Seq<char>, pos: int) -> Seq<char> {
    comment_at(s, pos)->Ok_0.0->Comment_0
}

/// The text of a comment neither starts nor ends with whitespace, and holds
/// no `-`: the whitespace around it is dropped, what is inside is kept.
pub proof fn lemma_comment_is_trimmed(s: Seq<char>, pos: int)
    requires
        0 <= pos <= s.len(),
        comment_at(s, pos) is Ok,
    ensures
        comment_at(s, pos)->Ok_0.0 is Comment,
        comment_text(s, pos).len() > 0 ==> !is_whitespace(comment_text(s, pos).first())
            && !is_whitespace(comment_text(s, pos).last()),
        forall|i: int| 0 <= i < comment_text(s, pos).len() ==> comment_text(s, pos)[i] != '-',
        exists|from: int|
            pos <= from && from + comment_text(s, pos).len() <= s.len() && comment_text(s, pos)
                == #[trigger] s.subrange(from, from + comment_text(s, pos).len()),
{
    let open = expect_at(s, pos, "<!--"@)->Ok_0;
    lemma_run_end(s, open, whitespace());
    let start = run_end(s, open, whitespace());
    lemma_run_end(s, start, all_but('-'));
    let end = run_end(s, start, all_but('-'));
    let body = s.subrange(start, end);
    let content = trim_end(body);
    lemma_trim_end(body);
    assert(comment_at(s, pos)->Ok_0.0 == NodeView::Comment(content));
    assert(content =~= s.subrange(start, start + content.len()));
    assert forall|i: int| 0 <= i < content.len() implies content[i] != '-' by {
        assert(content[i] == s[start + i]);
    }
    if content.len() > 0 {
        assert(content.first() == s[start]);
        assert(!is_whitespace(s[start]));
    }
    assert(comment_text(s, pos) == s.subrange(start, start + comment_text(s, pos).len()));
}

/// Every text node among the siblings that `nodes_from` adds is not empty
/// and starts with a character that is no whitespace: whitespace between
/// siblings makes no node.
pub proof fn lemma_no_whitespace_nodes(s: Seq<char>, pos: int, seen: Seq<NodeView>)
    requires
        0 <= pos <= s.len(),
        nodes_from(s, pos, seen) is Ok,
    ensures
        ({
            let nodes = nodes_from(s, pos, seen)->Ok_0.0;
            &&& seen.len() <= nodes.len()
            &&& nodes.take(seen.len() as int) == seen
            &&& forall|i: int|
                seen.len() <= i < nodes.len() ==> (#[trigger] nodes[i] matches NodeView::Text(t)
                    ==> t.len() > 0 && !is_whitespace(t.first()))
        }),
    decreases remaining(s, pos),
{
    let start = run_end(s, pos, whitespace());
    lemma_run_end(s, pos, whitespace());
    if start >= s.len() || starts_with_at(s, start, "</"@) {
        assert(seen.take(seen.len() as int) =~= seen);
    } else {
        lemma_node_bounds(s, start);
        let (node, next) = node_at(s, start)->Ok_0;
        lemma_no_whitespace_nodes(s, next, seen.push(node));
        let nodes = nodes_from(s, pos, seen)->Ok_0.0;
        let n = seen.len() as int;
        assert(nodes.take(n) =~= nodes.take(n + 1).take(n));
        assert(seen.push(node).take(n) =~= seen);
        assert(nodes[n] == nodes.take(n + 1)[n]);
        if let NodeView::Text(t) = node {
            assert(t.first() == s[start]);
        }
    }
}

/// Where a text holds exactly one top-level node, its tree is that node.
pub proof fn lemma_single_root(s: Seq<char>)
    requires
        nodes_from(s, 0, Seq::empty()) matches Ok((nodes, _)) && nodes.len() == 1,
    ensures
        document(s) == Ok::<NodeView, Failure>(nodes_from(s, 0, Seq::empty())->Ok_0.0[0]),
{
}

/// Where a text holds no top-level node or several, its tree is an `html`
/// element without attributes that holds them in their order.
pub proof fn lemma_wrapped_roots(s: Seq<char>)
    requires
        nodes_from(s, 0, Seq::empty()) matches Ok((nodes, _)) && nodes.len() != 1,
    ensures
        document(s) == Ok::<NodeView, Failure>(
            NodeView::Element {
                tag_name: "html"@,
                attributes: Map::empty(),
                children: nodes_from(s, 0, Seq::empty())->Ok_0.0,
            },
        ),
{
}

/// A name as the grammar reads it: one or more name characters.
pub open spec fn is_name(name: Seq<char>) -> bool {
    name.len() > 0 && forall|i: int| 0 <= i < name.len() ==> is_name_char(#[trigger] name[i])
}

/// The opening tag of an element `name` without attributes.
pub open spec fn open_tag(name: Seq<char>) -> Seq<char> {
    seq!['<'] + name + seq!['>']
}

/// The closing tag of an element `name`.
pub open spec fn close_tag(name: Seq<char>) -> Seq<char> {
    seq!['<', '/'] + name + seq!['>']
}

/// A run of text between tags is one text node that holds it as written.
pub proof fn lemma_text_node(s: Seq<char>, pos: int, t: Seq<char>)
    requires
        starts_with_at(s, pos, t),
        t.len() > 0,
        forall|i: int| 0 <= i < t.len() ==> t[i] != '<',
        pos + t.len() == s.len() || s[pos + t.len()] == '<',
    ensures
        node_at(s, pos) == Ok::<(NodeView, int), Failure>((NodeView::Text(t), pos + t.len())),
{
    reveal_strlit("<!--");
    reveal_strlit("<");
    let found = s.subrange(pos, pos + t.len());
    assert(found[0] == s[pos]);
    if starts_with_at(s, pos, "<!--"@) {
        assert(s.subrange(pos, pos + 4)[0] == '<');
    }
    if starts_with_at(s, pos, "<"@) {
        assert(s.subrange(pos, pos + 1)[0] == '<');
    }
    assert forall|i: int| pos <= i < pos + t.len() implies all_but('<')(#[trigger] s[i]) by {
        assert(found[i - pos] == s[i]);
    }
    lemma_run_end_unique(s, pos, all_but('<'), pos + t.len());
}

/// A node that stands alone between the tags of its parent, or alone in
/// the text, is the only sibling in its list.
pub proof fn lemma_only_child(s: Seq<char>, pos: int, node: NodeView, next: int)
    requires
        0 <= pos < next <= s.len(),
        !is_whitespace(s[pos]),
        !starts_with_at(s, pos, "</"@),
        node_at(s, pos) == Ok::<(NodeView, int), Failure>((node, next)),
        next == s.len() || starts_with_at(s, next, "</"@),
    ensures
        nodes_from(s, pos, Seq::empty()) == Ok::<(Seq<NodeView>, int), Failure>((seq![node], next)),
{
    reveal_strlit("</");
    assert(run_end(s, pos, whitespace()) == pos);
    if next < s.len() {
        assert(s.subrange(next, next + 2)[0] == '<');
        assert(!is_whitespace(s[next]));
    }
    assert(run_end(s, next, whitespace()) == next);
    assert(Seq::<NodeView>::empty().push(node) =~= seq![node]);
    assert(nodes_from(s, next, seq![node]) == Ok::<(Seq<NodeView>, int), Failure>(
        (seq![node], next),
    ));
}

/// An opening tag without attributes, a list of siblings, and the closing
/// tag of the same name are one element that holds those siblings.
pub proof fn lemma_plain_element(
    s: Seq<char>,
    pos: int,
    name: Seq<char>,
    children: Seq<NodeView>,
    inner_end: int,
)
    requires
        is_name(name),
        starts_with_at(s, pos, open_tag(name)),
        nodes_from(s, pos + name.len() + 2, Seq::empty()) == Ok::<(Seq<NodeView>, int), Failure>(
            (children, inner_end),
        ),
        starts_with_at(s, inner_end, close_tag(name)),
    ensures
        node_at(s, pos) == Ok::<(NodeView, int), Failure>(
            (
                NodeView::Element { tag_name: name, attributes: Map::empty(), children },
                inner_end + name.len() + 3,
            ),
        ),
{
    reveal_strlit("<!--");
    reveal_strlit("<");
    reveal_strlit(">");
    reveal_strlit("</");
    let n = name.len() as int;
    let opening = s.subrange(pos, pos + n + 2);
    assert(opening == open_tag(name));
    assert(opening[0] == s[pos] && opening[n + 1] == s[pos + n + 1] && opening[1] == s[pos + 1]);
    assert(open_tag(name)[1] == name[0]);
    assert(s.subrange(pos, pos + 1) =~= "<"@);
    if starts_with_at(s, pos, "<!--"@) {
        assert(s.subrange(pos, pos + 4)[1] == '!');
    }
    assert forall|i: int| pos + 1 <= i < pos + 1 + n implies name_chars()(#[trigger] s[i]) by {
        assert(opening[i - pos] == s[i]);
        assert(open_tag(name)[i - pos] == name[i - pos - 1]);
    }
    lemma_run_end_unique(s, pos + 1, name_chars(), pos + 1 + n);
    assert(s.subrange(pos + 1, pos + 1 + n) =~= name) by {
        assert forall|i: int| 0 <= i < n implies s.subrange(pos + 1, pos + 1 + n)[i] == name[i] by {
            assert(opening[i + 1] == s[pos + 1 + i]);
            assert(open_tag(name)[i + 1] == name[i]);
        }
    }
    assert(run_end(s, pos + 1 + n, whitespace()) == pos + 1 + n);
    assert(s.subrange(pos + 1 + n, pos + 2 + n) =~= ">"@);
    assert(open_tag_at(s, pos) == Ok::<_, Failure>(
        ((name, Map::<Seq<char>, Seq<char>>::empty()), pos + n + 2),
    ));

    let closing = s.subrange(inner_end, inner_end + n + 3);
    assert(closing == close_tag(name));
    assert(closing[0] == s[inner_end] && closing[1] == s[inner_end + 1] && closing[n + 2] == s[
        inner_end + n + 2]);
    assert(s.subrange(inner_end, inner_end + 2) =~= "</"@);
    assert forall|i: int| inner_end + 2 <= i < inner_end + 2 + n implies name_chars()(
        #[trigger] s[i],
    ) by {
        assert(closing[i - inner_end] == s[i]);
        assert(close_tag(name)[i - inner_end] == name[i - inner_end - 2]);
    }
    lemma_run_end_unique(s, inner_end + 2, name_chars(), inner_end + 2 + n);
    assert(s.subrange(inner_end + 2, inner_end + 2 + n) =~= name) by {
        assert forall|i: int| 0 <= i < n implies s.subrange(inner_end + 2, inner_end + 2 + n)[i]
            == name[i] by {
            assert(closing[i + 2] == s[inner_end + 2 + i]);
            assert(close_tag(name)[i + 2] == name[i]);
        }
    }
    assert(s.subrange(inner_end + 2 + n, inner_end + 3 + n) =~= ">"@);
    assert(close_tag_at(s, inner_end, name) == Ok::<int, Failure>(inner_end + n + 3));
}

/// Nesting is kept: an element `outer` that holds an element `inner` that
/// holds the text `t` is read as a tree of exactly these three nodes.
pub proof fn lemma_nested_elements(outer: Seq<char>, inner: Seq<char>, t: Seq<char>)
    requires
        is_name(outer),
        is_name(inner),
        t.len() > 0,
        !is_whitespace(t.first()),
        forall|i: int| 0 <= i < t.len() ==> t[i] != '<',
    ensures
        document(open_tag(outer) + open_tag(inner) + t + close_tag(inner) + close_tag(outer)) == Ok::<
            NodeView,
            Failure,
        >(
            NodeView::Element {
                tag_name: outer,
                attributes: Map::empty(),
                children: seq![
                    NodeView::Element {
                        tag_name: inner,
                        attributes: Map::empty(),
                        children: seq![NodeView::Text(t)],
                    },
                ],
            },
        ),
{
    reveal_strlit("</");
    let s = open_tag(outer) + open_tag(inner) + t + close_tag(inner) + close_tag(outer);
    let a = outer.len() as int;
    let b = inner.len() as int;
    let c1 = a + 2;  // the opening tag of `inner`
    let c2 = c1 + b + 2;  // the text
    let c3 = c2 + t.len();  // the closing tag of `inner`
    let c4 = c3 + b + 3;  // the closing tag of `outer`
    assert(s.len() == c4 + a + 3);
    assert(s.subrange(0, c1) =~= open_tag(outer));
    assert(s.subrange(c1, c2) =~= open_tag(inner));
    assert(s.subrange(c2, c3) =~= t);
    assert(s.subrange(c3, c4) =~= close_tag(inner));
    assert(s.subrange(c4, c4 + a + 3) =~= close_tag(outer));
    assert(s[c1] == '<' && s[c1 + 1] == inner[0]);
    assert(s[c2] == t[0]);
    assert(s[c3] == '<' && s[c3 + 1] == '/');
    assert(s[c4] == '<' && s[c4 + 1] == '/');
    assert(s[0] == '<' && s[1] == outer[0]);
    assert(s.subrange(c3, c3 + 2) =~= "</"@);
    assert(s.subrange(c4, c4 + 2) =~= "</"@);

    let text = NodeView::Text(t);
    lemma_text_node(s, c2, t);
    if starts_with_at(s, c2, "</"@) {
        assert(s.subrange(c2, c2 + 2)[0] == '<');
    }
    lemma_only_child(s, c2, text, c3);

    let middle = NodeView::Element {
        tag_name: inner,
        attributes: Map::empty(),
        children: seq![text],
    };
    lemma_plain_element(s, c1, inner, seq![text], c3);
    if starts_with_at(s, c1, "</"@) {
        assert(s.subrange(c1, c1 + 2)[1] == '/');
    }
    lemma_only_child(s, c1, middle, c4);

    let top = NodeView::Element {
        tag_name: outer,
        attributes: Map::empty(),
        children: seq![middle],
    };
    lemma_plain_element(s, 0, outer, seq![middle], c4);
    if starts_with_at(s, 0, "</"@) {
        assert(s.subrange(0, 2)[1] == '/');
    }
    lemma_only_child(s, 0, top, s.len() as int);
}

} // verus!
