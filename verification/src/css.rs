//! The style model: rules, selectors and declared values, and the order of
//! selectors by specificity.

use crate::lex::{lemma_run_end, lemma_run_end_unique, run_end};
use vstd::prelude::*;

verus! {

/// A style sheet: its rules in source order.
#[derive(Debug)]
pub struct Stylesheet {
    pub rules: Vec<Rule>,
}

/// One rule: its selectors, the most specific first, and its declarations
/// in source order.
#[derive(Debug)]
pub struct Rule {
    pub selectors: Vec<Selector>,
    pub declarations: Vec<Declaration>,
}

/// A selector. Only simple selectors exist.
#[derive(Debug)]
pub enum Selector {
    Simple(SimpleSelector),
}

/// How specific a selector is: the number of ids, of classes and of tag
/// names in it, compared in that order.
pub type Specificity = (usize, usize, usize);

/// A selector on at most one tag name, at most one id and any number of
/// classes. Without any of them it matches every element.
#[derive(Debug)]
pub struct SimpleSelector {
    pub tag_name: Option<String>,
    pub id: Option<String>,
    pub class: Vec<String>,
}

/// One declaration: a property and its value.
#[derive(Debug)]
pub struct Declaration {
    pub name: String,
    pub value: Value,
}

/// A declared value.
#[derive(Debug)]
pub enum Value {
    Keyword(String),
    Length(Decimal, Unit),
    ColorValue(Color),
}

/// The unit of a length.
#[derive(Clone, Copy, PartialEq, Eq, Debug, Structural)]
pub enum Unit {
    Px,
}

/// A colour, with its opacity in `a`.
#[derive(Clone, Copy, PartialEq, Eq, Debug, Structural)]
pub struct Color {
    pub r: u8,
    pub g: u8,
    pub b: u8,
    pub a: u8,
}

/// A decimal number without sign: `mantissa` divided by ten to the power
/// `scale`.
#[derive(Clone, Copy, PartialEq, Eq, Debug, Structural)]
pub struct Decimal {
    pub mantissa: u64,
    pub scale: usize,
}

/// The mathematical value of a simple selector.
pub struct SimpleSelectorView {
    pub tag_name: Option<Seq<char>>,
    pub id: Option<Seq<char>>,
    pub class: Seq<Seq<char>>,
}

/// The mathematical value of a selector.
pub enum SelectorView {
    Simple(SimpleSelectorView),
}

/// The mathematical value of a declared value.
pub enum ValueView {
    Keyword(Seq<char>),
    Length(Decimal, Unit),
    ColorValue(Color),
}

/// The mathematical value of a declaration.
pub struct DeclarationView {
    pub name: Seq<char>,
    pub value: ValueView,
}

/// The mathematical value of a rule.
pub struct RuleView {
    pub selectors: Seq<SelectorView>,
    pub declarations: Seq<DeclarationView>,
}

/// The mathematical value of a style sheet.
pub struct StylesheetView {
    pub rules: Seq<RuleView>,
}

/// The text of an optional string.
pub open spec fn optional_text(s: Option<String>) -> Option<Seq<char>> {
    match s {
        Some(t) => Some(t@),
        None => None,
    }
}

/// The texts of a list of strings.
pub open spec fn texts(list: Seq<String>) -> Seq<Seq<char>> {
    list.map_values(|s: String| s@)
}

impl View for SimpleSelector {
    type V = SimpleSelectorView;

    open spec fn view(&self) -> SimpleSelectorView {
        SimpleSelectorView {
            tag_name: optional_text(self.tag_name),
            id: optional_text(self.id),
            class: texts(self.class@),
        }
    }
}

impl View for Selector {
    type V = SelectorView;

    open spec fn view(&self) -> SelectorView {
        match self {
            Selector::Simple(simple) => SelectorView::Simple(simple@),
        }
    }
}

impl View for Value {
    type V = ValueView;

    open spec fn view(&self) -> ValueView {
        match self {
            Value::Keyword(word) => ValueView::Keyword(word@),
            Value::Length(number, unit) => ValueView::Length(*number, *unit),
            Value::ColorValue(color) => ValueView::ColorValue(*color),
        }
    }
}

impl View for Declaration {
    type V = DeclarationView;

    open spec fn view(&self) -> DeclarationView {
        DeclarationView { name: self.name@, value: self.value@ }
    }
}

/// The values of a list of selectors.
pub open spec fn selector_views(list: Seq<Selector>) -> Seq<SelectorView> {
    list.map_values(|s: Selector| s@)
}

/// The values of a list of declarations.
pub open spec fn declaration_views(list: Seq<Declaration>) -> Seq<DeclarationView> {
    list.map_values(|d: Declaration| d@)
}

impl View for Rule {
    type V = RuleView;

    open spec fn view(&self) -> RuleView {
        RuleView {
            selectors: selector_views(self.selectors@),
            declarations: declaration_views(self.declarations@),
        }
    }
}

/// The values of a list of rules.
pub open spec fn rule_views(list: Seq<Rule>) -> Seq<RuleView> {
    list.map_values(|r: Rule| r@)
}

impl View for Stylesheet {
    type V = StylesheetView;

    open spec fn view(&self) -> StylesheetView {
        StylesheetView { rules: rule_views(self.rules@) }
    }
}

impl SelectorView {
    /// The number of ids, of classes and of tag names in the selector.
    pub open spec fn specificity(self) -> (nat, nat, nat) {
        match self {
            SelectorView::Simple(simple) => (
                if simple.id is Some {
                    1nat
                } else {
                    0nat
                },
                simple.class.len(),
                if simple.tag_name is Some {
                    1nat
                } else {
                    0nat
                },
            ),
        }
    }
}

/// `a` is more specific than `b`: it is greater in the first count in which
/// they differ.
pub open spec fn outranks(a: (nat, nat, nat), b: (nat, nat, nat)) -> bool {
    a.0 > b.0 || (a.0 == b.0 && (a.1 > b.1 || (a.1 == b.1 && a.2 > b.2)))
}

/// The selectors that `x` does not outrank.
pub open spec fn holds_against(x: SelectorView) -> spec_fn(SelectorView) -> bool {
    |y: SelectorView| !outranks(x.specificity(), y.specificity())
}

/// The selectors of specificity `k`.
pub open spec fn of_rank(k: (nat, nat, nat)) -> spec_fn(SelectorView) -> bool {
    |y: SelectorView| y.specificity() == k
}

/// Where `x` enters a ranked list: before the first selector that it
/// outranks, so behind every selector of its own specificity.
pub open spec fn entry_point(ranked: Seq<SelectorView>, x: SelectorView) -> int {
    run_end(ranked, 0, holds_against(x))
}

/// The selectors of `list`, the most specific first; selectors of equal
/// specificity keep the order that they have in `list`.
pub open spec fn ranked(list: Seq<SelectorView>) -> Seq<SelectorView>
    decreases list.len(),
{
    if list.len() == 0 {
        list
    } else {
        let front = ranked(list.drop_last());
        front.insert(entry_point(front, list.last()), list.last())
    }
}

/// No selector of the list is outranked by a later one.
pub open spec fn descending(list: Seq<SelectorView>) -> bool {
    forall|i: int, j: int|
        0 <= i < j < list.len() ==> !outranks(
            (#[trigger] list[j]).specificity(),
            (#[trigger] list[i]).specificity(),
        )
}

impl Selector {
    /// The number of ids, of classes and of tag names in the selector.
    pub fn specificity(&self) -> (result: Specificity)
        ensures
            result.0 == self@.specificity().0,
            result.1 == self@.specificity().1,
            result.2 == self@.specificity().2,
    {
        match self {
            Selector::Simple(simple) => {
                let a: usize = if simple.id.is_some() {
                    1
                } else {
                    0
                };
                let b: usize = simple.class.len();
                let c: usize = if simple.tag_name.is_some() {
                    1
                } else {
                    0
                };
                (a, b, c)
            },
        }
    }

    /// Whether `self` is more specific than `other`.
    pub fn outranks(&self, other: &Selector) -> (result: bool)
        ensures
            result == outranks(self@.specificity(), other@.specificity()),
    {
        let a = self.specificity();
        let b = other.specificity();
        a.0 > b.0 || (a.0 == b.0 && (a.1 > b.1 || (a.1 == b.1 && a.2 > b.2)))
    }
}

/// Ranking keeps the number of selectors.
pub proof fn lemma_ranked_len(list: Seq<SelectorView>)
    ensures
        ranked(list).len() == list.len(),
    decreases list.len(),
{
    if list.len() > 0 {
        lemma_ranked_len(list.drop_last());
        lemma_run_end(ranked(list.drop_last()), 0, holds_against(list.last()));
    }
}

/// A ranked list is in descending order of specificity.
pub proof fn lemma_ranked_descending(list: Seq<SelectorView>)
    ensures
        descending(ranked(list)),
    decreases list.len(),
{
    if list.len() > 0 {
        let front = ranked(list.drop_last());
        let x = list.last();
        let at = entry_point(front, x);
        lemma_ranked_descending(list.drop_last());
        lemma_run_end(front, 0, holds_against(x));
        let out = front.insert(at, x);
        assert forall|i: int, j: int| 0 <= i < j < out.len() implies !outranks(
            (#[trigger] out[j]).specificity(),
            (#[trigger] out[i]).specificity(),
        ) by {
            if j < at {
                assert(out[i] == front[i] && out[j] == front[j]);
            } else if j == at {
                assert(out[i] == front[i]);
                assert(holds_against(x)(front[i]));
            } else if i < at {
                assert(out[i] == front[i] && out[j] == front[j - 1]);
            } else if i == at {
                assert(out[j] == front[j - 1]);
                assert(outranks(x.specificity(), front[at].specificity()));
                if at < j - 1 {
                    assert(!outranks(front[j - 1].specificity(), front[at].specificity()));
                }
            } else {
                assert(out[i] == front[i - 1] && out[j] == front[j - 1]);
            }
        }
    }
}

/// Ranking moves selectors and neither adds nor loses one.
pub proof fn lemma_ranked_permutes(list: Seq<SelectorView>)
    ensures
        ranked(list).to_multiset() == list.to_multiset(),
    decreases list.len(),
{
    broadcast use vstd::seq_lib::group_to_multiset_ensures;

    if list.len() > 0 {
        let front = ranked(list.drop_last());
        let x = list.last();
        lemma_ranked_permutes(list.drop_last());
        lemma_run_end(front, 0, holds_against(x));
        assert(list =~= list.drop_last().push(x));
        front.to_multiset_ensures();
        list.drop_last().to_multiset_ensures();
    }
}

/// Ranking is stable: the selectors of any one specificity stand in the
/// ranked list in the order in which they stand in the original.
pub proof fn lemma_ranked_stable(list: Seq<SelectorView>, k: (nat, nat, nat))
    ensures
        ranked(list).filter(of_rank(k)) == list.filter(of_rank(k)),
    decreases list.len(),
{
    if list.len() > 0 {
        let rest = list.drop_last();
        let front = ranked(rest);
        let x = list.last();
        let at = entry_point(front, x);
        lemma_ranked_stable(rest, k);
        lemma_ranked_descending(rest);
        lemma_run_end(front, 0, holds_against(x));
        let head = front.take(at);
        let tail = front.skip(at);
        assert(front =~= head + tail);
        assert(front.insert(at, x) =~= head.push(x) + tail);
        assert(list =~= rest.push(x));
        Seq::filter_distributes_over_add(head, tail, of_rank(k));
        Seq::filter_distributes_over_add(head.push(x), tail, of_rank(k));
        assert(head.push(x).drop_last() =~= head);
        assert(rest.push(x).drop_last() =~= rest);
        reveal(Seq::filter);
        if x.specificity() == k {
            // behind the entry point nothing has the specificity of `x`
            assert forall|i: int| 0 <= i < tail.len() implies !of_rank(k)(#[trigger] tail[i]) by {
                assert(tail[i] == front[at + i]);
                assert(outranks(x.specificity(), front[at].specificity()));
                if i > 0 {
                    assert(!outranks(front[at + i].specificity(), front[at].specificity()));
                }
            }
            lemma_filter_none(tail, of_rank(k));
            assert(head.push(x).filter(of_rank(k)) == head.filter(of_rank(k)).push(x));
            assert(rest.push(x).filter(of_rank(k)) == rest.filter(of_rank(k)).push(x));
            assert(head.filter(of_rank(k)) + Seq::<SelectorView>::empty() =~= head.filter(of_rank(k)));
            assert(head.filter(of_rank(k)).push(x) + Seq::<SelectorView>::empty()
                =~= head.filter(of_rank(k)).push(x));
        } else {
            assert(head.push(x).filter(of_rank(k)) == head.filter(of_rank(k)));
            assert(rest.push(x).filter(of_rank(k)) == rest.filter(of_rank(k)));
        }
    }
}

/// A filter that accepts nothing of a list leaves nothing.
pub proof fn lemma_filter_none<T>(list: Seq<T>, keep: spec_fn(T) -> bool)
    requires
        forall|i: int| 0 <= i < list.len() ==> !keep(#[trigger] list[i]),
    ensures
        list.filter(keep) == Seq::<T>::empty(),
    decreases list.len(),
{
    reveal(Seq::filter);
    if list.len() > 0 {
        assert forall|i: int| 0 <= i < list.drop_last().len() implies !keep(
            #[trigger] list.drop_last()[i],
        ) by {
            assert(list.drop_last()[i] == list[i]);
        }
        lemma_filter_none(list.drop_last(), keep);
    }
}

/// Orders `selectors` by specificity, the most specific first. Selectors of
/// equal specificity keep their order.
pub fn sort_by_specificity(selectors: Vec<Selector>) -> (sorted: Vec<Selector>)
    ensures
        selector_views(sorted@) == ranked(selector_views(selectors@)),
{
    let mut sorted: Vec<Selector> = Vec::new();
    proof {
        assert(selector_views(selectors@.take(0)) =~= Seq::<SelectorView>::empty());
        assert(selector_views(sorted@) =~= Seq::<SelectorView>::empty());
    }
    for selector in it: selectors
        invariant
            it.seq() == selectors@,
            selector_views(sorted@) == ranked(selector_views(selectors@.take(it.index() as int))),
    {
        let ghost done = selector_views(selectors@.take(it.index() as int));
        let mut at: usize = 0;
        while at < sorted.len() && !selector.outranks(&sorted[at])
            invariant
                at <= sorted@.len(),
                forall|i: int|
                    0 <= i < at ==> holds_against(selector@)(#[trigger] selector_views(sorted@)[i]),
            decreases sorted@.len() - at,
        {
            at = at + 1;
        }
        proof {
            let views = selector_views(sorted@);
            lemma_run_end_unique(views, 0, holds_against(selector@), at as int);
            assert(selector_views(sorted@.insert(at as int, selector)) =~= views.insert(
                at as int,
                selector@,
            ));
            let next = selector_views(selectors@.take(it.index() + 1));
            assert(next.drop_last() =~= done);
            assert(next.last() == selector@);
        }
        sorted.insert(at, selector);
    }
    proof {
        assert(selectors@.take(selectors@.len() as int) =~= selectors@);
    }
    sorted
}

} // verus!
