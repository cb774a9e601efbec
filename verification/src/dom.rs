//! The document tree.

use vstd::prelude::*;

verus! {

/// The attributes of one element: each name once, with its value.
#[derive(Debug)]
pub struct AttrMap {
    entries: Vec<(String, String)>,
}

/// What a list of pairs maps each name to, where a later pair replaces an
/// earlier one of the same name.
pub open spec fn pairs_map(pairs: Seq<(String, String)>) -> Map<Seq<char>, Seq<char>>
    decreases pairs.len(),
{
    if pairs.len() == 0 {
        Map::empty()
    } else {
        pairs_map(pairs.drop_last()).insert(pairs.last().0@, pairs.last().1@)
    }
}

/// No two pairs share a name.
pub open spec fn distinct_names(pairs: Seq<(String, String)>) -> bool {
    forall|i: int, j: int|
        0 <= i < j < pairs.len() ==> (#[trigger] pairs[i]).0@ != (#[trigger] pairs[j]).0@
}

/// A list of pairs maps exactly its names.
pub proof fn lemma_pairs_map_dom(pairs: Seq<(String, String)>, name: Seq<char>)
    ensures
        pairs_map(pairs).dom().contains(name) <==> exists|i: int|
            0 <= i < pairs.len() && (#[trigger] pairs[i]).0@ == name,
    decreases pairs.len(),
{
    if pairs.len() > 0 {
        let front = pairs.drop_last();
        lemma_pairs_map_dom(front, name);
        if pairs_map(pairs).dom().contains(name) {
            if pairs.last().0@ == name {
                assert(pairs[pairs.len() - 1].0@ == name);
            } else {
                let i = choose|i: int| 0 <= i < front.len() && (#[trigger] front[i]).0@ == name;
                assert(pairs[i].0@ == name);
            }
        }
        if exists|i: int| 0 <= i < pairs.len() && (#[trigger] pairs[i]).0@ == name {
            let i = choose|i: int| 0 <= i < pairs.len() && (#[trigger] pairs[i]).0@ == name;
            if i < pairs.len() - 1 {
                assert(front[i].0@ == name);
            }
        }
    }
}

/// Where names are distinct, each pair's name maps to that pair's value.
pub proof fn lemma_pairs_map_value(pairs: Seq<(String, String)>, i: int)
    requires
        distinct_names(pairs),
        0 <= i < pairs.len(),
    ensures
        pairs_map(pairs).dom().contains(pairs[i].0@),
        pairs_map(pairs)[pairs[i].0@] == pairs[i].1@,
    decreases pairs.len(),
{
    let front = pairs.drop_last();
    if i < pairs.len() - 1 {
        assert(front[i] == pairs[i]);
        assert(distinct_names(front)) by {
            assert forall|a: int, b: int| 0 <= a < b < front.len() implies (#[trigger] front[a]).0@
                != (#[trigger] front[b]).0@ by {
                assert(front[a] == pairs[a]);
                assert(front[b] == pairs[b]);
            }
        }
        lemma_pairs_map_value(front, i);
        assert(pairs[i].0@ != pairs[pairs.len() - 1].0@);
    }
}

/// Where names are distinct, there are as many names as pairs.
pub proof fn lemma_pairs_map_len(pairs: Seq<(String, String)>)
    requires
        distinct_names(pairs),
    ensures
        pairs_map(pairs).dom().finite(),
        pairs_map(pairs).dom().len() == pairs.len(),
    decreases pairs.len(),
{
    if pairs.len() > 0 {
        let front = pairs.drop_last();
        assert(distinct_names(front)) by {
            assert forall|a: int, b: int| 0 <= a < b < front.len() implies (#[trigger] front[a]).0@
                != (#[trigger] front[b]).0@ by {
                assert(front[a] == pairs[a]);
                assert(front[b] == pairs[b]);
            }
        }
        lemma_pairs_map_len(front);
        lemma_pairs_map_dom(front, pairs.last().0@);
        if exists|i: int| 0 <= i < front.len() && (#[trigger] front[i]).0@ == pairs.last().0@ {
            let i = choose|i: int| 0 <= i < front.len() && (#[trigger] front[i]).0@ == pairs.last().0@;
            assert(pairs[i].0@ == pairs[pairs.len() - 1].0@);
        }
    }
}

/// Replacing the value of one pair replaces what its name maps to.
pub proof fn lemma_pairs_map_update(pairs: Seq<(String, String)>, i: int, pair: (String, String))
    requires
        distinct_names(pairs),
        0 <= i < pairs.len(),
        pair.0@ == pairs[i].0@,
    ensures
        distinct_names(pairs.update(i, pair)),
        pairs_map(pairs.update(i, pair)) == pairs_map(pairs).insert(pair.0@, pair.1@),
    decreases pairs.len(),
{
    let next = pairs.update(i, pair);
    assert(distinct_names(next)) by {
        assert forall|a: int, b: int| 0 <= a < b < next.len() implies (#[trigger] next[a]).0@ != (
        #[trigger] next[b]).0@ by {
            assert(next[a].0@ == pairs[a].0@);
            assert(next[b].0@ == pairs[b].0@);
        }
    }
    let front = pairs.drop_last();
    if i == pairs.len() - 1 {
        assert(next.drop_last() =~= front);
        assert(pairs_map(next) =~= pairs_map(pairs).insert(pair.0@, pair.1@));
    } else {
        assert(distinct_names(front)) by {
            assert forall|a: int, b: int| 0 <= a < b < front.len() implies (#[trigger] front[a]).0@
                != (#[trigger] front[b]).0@ by {
                assert(front[a] == pairs[a]);
                assert(front[b] == pairs[b]);
            }
        }
        assert(front[i] == pairs[i]);
        lemma_pairs_map_update(front, i, pair);
        assert(next.drop_last() =~= front.update(i, pair));
        assert(next.last() == pairs.last());
        assert(pairs[i].0@ != pairs[pairs.len() - 1].0@);
        assert(pairs_map(next) =~= pairs_map(pairs).insert(pair.0@, pair.1@));
    }
}

impl View for AttrMap {
    type V = Map<Seq<char>, Seq<char>>;

    open spec fn view(&self) -> Map<Seq<char>, Seq<char>> {
        pairs_map(self.pairs())
    }
}

impl AttrMap {
    #[verifier::type_invariant]
    spec fn unique(self) -> bool {
        distinct_names(self.entries@)
    }

    /// The pairs in the order in which their names were first inserted.
    pub closed spec fn pairs(&self) -> Seq<(String, String)> {
        self.entries@
    }

    /// A map without attributes.
    pub fn new() -> (map: AttrMap)
        ensures
            map@ == Map::<Seq<char>, Seq<char>>::empty(),
            map.pairs().len() == 0,
    {
        AttrMap { entries: Vec::new() }
    }

    /// The index of the pair named `name`.
    fn position(&self, name: &String) -> (found: Option<usize>)
        ensures
            match found {
                Some(i) => i < self.entries@.len() && self.entries@[i as int].0@ == name@,
                None => forall|i: int|
                    0 <= i < self.entries@.len() ==> (#[trigger] self.entries@[i]).0@ != name@,
            },
    {
        let mut i: usize = 0;
        while i < self.entries.len()
            invariant
                i <= self.entries@.len(),
                forall|j: int| 0 <= j < i ==> (#[trigger] self.entries@[j]).0@ != name@,
            decreases self.entries@.len() - i,
        {
            if self.entries[i].0 == *name {
                return Some(i);
            }
            i = i + 1;
        }
        None
    }

    /// Maps `name` to `value`, and returns the value that `name` had before.
    pub fn insert(&mut self, name: String, value: String) -> (previous: Option<String>)
        ensures
            final(self)@ == old(self)@.insert(name@, value@),
            match previous {
                Some(v) => old(self)@.dom().contains(name@) && old(self)@[name@] == v@ && exists|
                    i: int,
                |
                    0 <= i < old(self).pairs().len() && (#[trigger] old(self).pairs()[i]).0@ == name@
                        && final(self).pairs() == old(self).pairs().update(i, (name, value)),
                None => !old(self)@.dom().contains(name@) && final(self).pairs() == old(
                    self,
                ).pairs().push((name, value)),
            },
    {
        proof {
            use_type_invariant(&*self);
            lemma_pairs_map_dom(self.entries@, name@);
        }
        let found = self.position(&name);
        let mut taken = AttrMap { entries: Vec::new() };
        std::mem::swap(self, &mut taken);
        let mut entries = taken.entries;
        let mut entry = (name, value);
        let previous = match found {
            Some(i) => {
                proof {
                    lemma_pairs_map_value(entries@, i as int);
                    lemma_pairs_map_update(entries@, i as int, entry);
                }
                std::mem::swap(&mut entries[i], &mut entry);
                Some(entry.1)
            },
            None => {
                proof {
                    let grown = entries@.push(entry);
                    assert(grown.drop_last() =~= entries@);
                    assert(distinct_names(grown)) by {
                        assert forall|a: int, b: int| 0 <= a < b < grown.len() implies (
                        #[trigger] grown[a]).0@ != (#[trigger] grown[b]).0@ by {
                            assert(grown[a] == entries@[a]);
                        }
                    }
                }
                entries.push(entry);
                None
            },
        };
        *self = AttrMap { entries };
        previous
    }

    /// The value of `name`.
    pub fn get(&self, name: &str) -> (value: Option<&String>)
        ensures
            match value {
                Some(v) => self@.dom().contains(name@) && self@[name@] == v@,
                None => !self@.dom().contains(name@),
            },
    {
        proof {
            use_type_invariant(self);
            lemma_pairs_map_dom(self.entries@, name@);
        }
        let owned = name.to_owned();
        match self.position(&owned) {
            Some(i) => {
                proof {
                    lemma_pairs_map_value(self.entries@, i as int);
                }
                Some(&self.entries[i].1)
            },
            None => None,
        }
    }

    /// Whether `name` has a value.
    pub fn contains_key(&self, name: &str) -> (found: bool)
        ensures
            found == self@.dom().contains(name@),
    {
        self.get(name).is_some()
    }

    /// The number of attributes.
    pub fn len(&self) -> (n: usize)
        ensures
            self@.dom().finite(),
            n == self@.dom().len(),
            n == self.pairs().len(),
            distinct_names(self.pairs()),
    {
        proof {
            use_type_invariant(self);
            lemma_pairs_map_len(self.entries@);
        }
        self.entries.len()
    }

    /// Whether there is no attribute.
    pub fn is_empty(&self) -> (empty: bool)
        ensures
            empty == (self@ == Map::<Seq<char>, Seq<char>>::empty()),
    {
        proof {
            use_type_invariant(self);
            lemma_pairs_map_len(self.entries@);
            if self.entries@.len() > 0 {
                lemma_pairs_map_value(self.entries@, 0);
            }
        }
        self.entries.len() == 0
    }

    /// The `i`-th attribute, in the order in which the names were first
    /// inserted.
    pub fn entry(&self, i: usize) -> (pair: (&String, &String))
        requires
            i < self.pairs().len(),
        ensures
            *pair.0 == self.pairs()[i as int].0,
            *pair.1 == self.pairs()[i as int].1,
            self@.dom().contains(pair.0@),
            self@[pair.0@] == pair.1@,
    {
        proof {
            use_type_invariant(self);
            lemma_pairs_map_value(self.entries@, i as int);
        }
        (&self.entries[i].0, &self.entries[i].1)
    }
}

/// What an element is, apart from its children.
#[derive(Debug)]
pub struct ElementData {
    pub tag_name: String,
    pub attrs: AttrMap,
}

/// What a node is.
#[derive(Debug)]
pub enum NodeType {
    Text(String),
    Element(ElementData),
    Comment(String),
}

/// One node of a document tree. It owns its children.
#[derive(Debug)]
pub struct Node {
    pub children: Vec<Node>,
    pub node_type: NodeType,
}

/// The mathematical value of a node.
pub enum NodeView {
    /// Character data, as written.
    Text(Seq<char>),
    /// The text of a comment, without the whitespace around it.
    Comment(Seq<char>),
    /// An element with its attributes and its children in document order.
    Element { tag_name: Seq<char>, attributes: Map<Seq<char>, Seq<char>>, children: Seq<NodeView> },
}

impl View for Node {
    type V = NodeView;

    open spec fn view(&self) -> NodeView
        decreases self,
    {
        match self.node_type {
            NodeType::Text(content) => NodeView::Text(content@),
            NodeType::Comment(content) => NodeView::Comment(content@),
            NodeType::Element(data) => NodeView::Element {
                tag_name: data.tag_name@,
                attributes: data.attrs@,
                children: Seq::new(
                    self.children.len() as nat,
                    |i: int|
                        if 0 <= i < self.children.len() {
                            self.children[i].view()
                        } else {
                            NodeView::Text(Seq::empty())
                        },
                ),
            },
        }
    }
}

/// The values of a list of nodes.
pub open spec fn views(nodes: Seq<Node>) -> Seq<NodeView> {
    nodes.map_values(|node: Node| node@)
}

impl Node {
    /// Only elements have children, at every depth.
    pub open spec fn well_formed(self) -> bool
        decreases self,
    {
        match self.node_type {
            NodeType::Element(_) => forall|i: int|
                0 <= i < self.children.len() ==> (#[trigger] self.children[i]).well_formed(),
            _ => self.children.len() == 0,
        }
    }
}

/// An element's value holds the values of its children.
pub proof fn lemma_element_view(node: Node)
    requires
        node.node_type is Element,
    ensures
        node@ == (NodeView::Element {
            tag_name: node.node_type->Element_0.tag_name@,
            attributes: node.node_type->Element_0.attrs@,
            children: views(node.children@),
        }),
{
    assert(node@->children =~= views(node.children@));
}

/// A text node holding `data`.
pub fn text(data: String) -> (node: Node)
    ensures
        node@ == NodeView::Text(data@),
        node.node_type == NodeType::Text(data),
        node.children@.len() == 0,
        node.well_formed(),
{
    Node { children: Vec::new(), node_type: NodeType::Text(data) }
}

/// A comment node holding `data`.
pub fn comment(data: String) -> (node: Node)
    ensures
        node@ == NodeView::Comment(data@),
        node.node_type == NodeType::Comment(data),
        node.children@.len() == 0,
        node.well_formed(),
{
    Node { children: Vec::new(), node_type: NodeType::Comment(data) }
}

/// An element named `tag_name` with the attributes `attrs` and the children
/// `children`. Nothing is checked: an empty name is accepted.
pub fn elem(tag_name: String, attrs: AttrMap, children: Vec<Node>) -> (node: Node)
    ensures
        node@ == (NodeView::Element {
            tag_name: tag_name@,
            attributes: attrs@,
            children: views(children@),
        }),
        node.children == children,
        node.node_type == NodeType::Element(ElementData { tag_name, attrs }),
        (forall|i: int| 0 <= i < children.len() ==> (#[trigger] children[i]).well_formed())
            ==> node.well_formed(),
{
    let node = Node { children, node_type: NodeType::Element(ElementData { tag_name, attrs }) };
    proof {
        lemma_element_view(node);
    }
    node
}

} // verus!
