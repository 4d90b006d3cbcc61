//! The style resolver: matches and cascades stylesheet rules onto a document
//! tree, producing a styled tree that mirrors it node for node, each element
//! carrying its resolved property map.

use crate::css::{Rule, Selector, SimpleSelector, Specificity, Stylesheet, StylesheetV, Value, ValueV, SelectorV, SimpleSelectorV, RuleV, spec_specificity, spec_ge};
use crate::dom::{ElementData, ElementDataV, Node, NodeType, NodeTypeV, spec_classes};
use crate::strmap::{str_eq, StrMap};
use vstd::prelude::*;

verus! {

broadcast use vstd::std_specs::vec::group_vec_axioms;

/// Property name to resolved value.
pub type PropertyMap = StrMap<Value>;

/// Mathematical model of a styled node.
pub struct StyledNodeV {
    pub node_type: NodeTypeV,
    pub specified_values: Map<Seq<char>, ValueV>,
    pub children: Seq<StyledNodeV>,
}

/// A styled node: the document node's content, its resolved property map,
/// and its styled children, mirroring the document tree's shape.
#[derive(Debug, PartialEq)]
pub struct StyledNode {
    pub node_type: NodeType,
    pub specified_values: PropertyMap,
    pub children: Vec<StyledNode>,
}

/// The views of a sequence of styled nodes, in order.
pub open spec fn styled_children_view(cs: Seq<StyledNode>) -> Seq<StyledNodeV>
    decreases cs,
{
    if cs.len() == 0 {
        Seq::empty()
    } else {
        styled_children_view(cs.drop_last()).push(cs.last().view())
    }
}

impl View for StyledNode {
    type V = StyledNodeV;

    open spec fn view(&self) -> StyledNodeV
        decreases self,
    {
        StyledNodeV {
            node_type: self.node_type@,
            specified_values: self.specified_values@,
            children: styled_children_view(self.children@),
        }
    }
}

/// `styled_children_view` keeps the sequence's length.
pub proof fn lemma_styled_children_view_len(cs: Seq<StyledNode>)
    ensures
        styled_children_view(cs).len() == cs.len(),
    decreases cs.len(),
{
    if cs.len() > 0 {
        lemma_styled_children_view_len(cs.drop_last());
        assert(styled_children_view(cs) == styled_children_view(cs.drop_last()).push(
            cs.last().view(),
        ));
    }
}

/// The view of the sequence of styled children holds each child's view.
pub proof fn lemma_styled_children_view_index(cs: Seq<StyledNode>, i: int)
    requires
        0 <= i < cs.len(),
    ensures
        styled_children_view(cs)[i] == cs[i]@,
    decreases cs.len(),
{
    lemma_styled_children_view_len(cs);
    assert(styled_children_view(cs) == styled_children_view(cs.drop_last()).push(
        cs.last().view(),
    ));
    lemma_styled_children_view_len(cs.drop_last());
    if i < cs.len() - 1 {
        lemma_styled_children_view_index(cs.drop_last(), i);
        assert(styled_children_view(cs)[i] == styled_children_view(cs.drop_last())[i]);
        assert(cs.drop_last()[i] == cs[i]);
    } else {
        assert(styled_children_view(cs)[i] == cs.last().view());
        assert(cs.last() == cs[i]);
    }
}

/// How an element is displayed. `Hidden` is the `display: none` case: the
/// element and its whole subtree produce no layout box.
#[derive(Debug, Clone, Copy, PartialEq, Eq, Structural)]
pub enum Display {
    Inline,
    Block,
    Hidden,
}

/// Whether a simple selector matches an element: the tag name is absent or
/// equal, the id is absent or equal, and every listed class is among the
/// element's classes.
pub open spec fn sel_matches(e: ElementDataV, sel: SimpleSelectorV) -> bool {
    &&& match sel.tag_name {
        Some(t) => t == e.tag_name,
        None => true,
    }
    &&& match sel.id {
        Some(i) => e.attributes.contains_key("id"@) && e.attributes["id"@] == i,
        None => true,
    }
    &&& forall|k: int| 0 <= k < sel.class.len() ==> spec_classes(e).contains(#[trigger] sel.class[k])
}

/// Whether a selector matches an element.
pub open spec fn spec_matches(e: ElementDataV, sel: SelectorV) -> bool {
    match sel {
        SelectorV::Simple(ss) => sel_matches(e, ss),
    }
}

/// Whether a vector of strings contains one equal to the given slice.
fn vec_contains_str(hay: &Vec<String>, needle: &str) -> (r: bool)
    ensures
        r == hay@.map_values(|c: String| c@).contains(needle@),
{
    let n = hay.len();
    let mut i: usize = 0;
    while i < n
        invariant
            i <= n,
            n == hay@.len(),
            forall|j: int| #![trigger hay@[j]] 0 <= j < i ==> hay@.map_values(|c: String| c@)[j]
                != needle@,
        decreases n - i,
    {
        proof {
            assert(hay@.map_values(|c: String| c@)[i as int] == hay@[i as int]@);
        }
        if str_eq(hay[i].as_str(), needle) {
            return true;
        }
        i = i + 1;
    }
    proof {
        assert forall|j: int| #![trigger hay@[j]]
            0 <= j < hay@.map_values(|c: String| c@).len() implies hay@.map_values(
            |c: String| c@,
        )[j] != needle@ by {
            assert(hay@.map_values(|c: String| c@)[j] == hay@[j]@);
        }
    }
    false
}

/// Tests whether a simple selector matches an element.
pub fn matchs_simple_selector(elem: &ElementData, selector: &SimpleSelector) -> (r: bool)
    ensures
        r == sel_matches(elem@, selector@),
{
    match &selector.tag_name {
        Some(t) => {
            if !str_eq(t.as_str(), elem.tag_name.as_str()) {
                return false;
            }
        },
        None => {},
    }
    match &selector.id {
        Some(id) => {
            match elem.id() {
                Some(v) => {
                    if !str_eq(v.as_str(), id.as_str()) {
                        return false;
                    }
                },
                None => {
                    return false;
                },
            }
        },
        None => {},
    }
    let elem_classes = elem.classes();
    let n = selector.class.len();
    let mut i: usize = 0;
    while i < n
        invariant
            i <= n,
            n == selector.class@.len(),
            elem_classes@.map_values(|c: String| c@) == spec_classes(elem@),
            forall|k: int|
                0 <= k < i ==> spec_classes(elem@).contains(#[trigger] selector@.class[k]),
            selector@.class.len() == n,
            sel_matches(elem@, selector@) <==> forall|k: int|
                0 <= k < n ==> spec_classes(elem@).contains(#[trigger] selector@.class[k]),
        decreases n - i,
    {
        proof {
            assert(selector@.class[i as int] == selector.class@[i as int]@);
        }
        if !vec_contains_str(&elem_classes, selector.class[i].as_str()) {
            return false;
        }
        i = i + 1;
    }
    true
}

/// Tests whether a selector matches an element.
pub fn matchs(elem: &ElementData, selector: &Selector) -> (r: bool)
    ensures
        r == spec_matches(elem@, selector@),
{
    let Selector::Simple(simple_selector) = selector;
    matchs_simple_selector(elem, simple_selector)
}

/// The specificity a rule attaches for an element: that of the first of its
/// (descending-sorted) selectors that matches, if any does.
pub open spec fn sp_first_match(e: ElementDataV, sels: Seq<SelectorV>) -> Option<(int, int, int)>
    decreases sels.len(),
{
    if sels.len() == 0 {
        None
    } else if spec_matches(e, sels[0]) {
        Some(spec_specificity(sels[0]))
    } else {
        sp_first_match(e, sels.drop_first())
    }
}

/// A rule attaches a specificity for an element exactly when at least one
/// of its selectors matches the element.
pub proof fn lemma_first_match_some(e: ElementDataV, sels: Seq<SelectorV>)
    ensures
        sp_first_match(e, sels) is Some <==> exists|i: int|
            0 <= i < sels.len() && spec_matches(e, #[trigger] sels[i]),
    decreases sels.len(),
{
    if sels.len() > 0 {
        lemma_first_match_some(e, sels.drop_first());
        if spec_matches(e, sels[0]) {
        } else if sp_first_match(e, sels.drop_first()) is Some {
            let i = choose|i: int|
                0 <= i < sels.drop_first().len() && spec_matches(e, #[trigger] sels.drop_first()[i]);
            assert(sels.drop_first()[i] == sels[i + 1]);
            assert(spec_matches(e, sels[i + 1]));
        } else {
            assert forall|i: int| 0 <= i < sels.len() implies !spec_matches(
                e,
                #[trigger] sels[i],
            ) by {
                if i > 0 {
                    assert(sels.drop_first()[i - 1] == sels[i]);
                }
            }
        }
    }
}

/// The matched rules for an element: each matching rule's attached
/// specificity paired with the rule's position in the stylesheet, in
/// stylesheet order.
pub open spec fn sp_matching(e: ElementDataV, rules: Seq<RuleV>) -> Seq<((int, int, int), int)>
    decreases rules.len(),
{
    if rules.len() == 0 {
        Seq::empty()
    } else {
        let rest = sp_matching(e, rules.drop_last());
        match sp_first_match(e, rules.last().selectors) {
            Some(sp) => rest.push((sp, rules.len() - 1)),
            None => rest,
        }
    }
}

/// The matched list holds exactly the rules with a matching selector: every
/// entry names a rule that matches with its attached specificity, and every
/// matching rule appears.
pub proof fn lemma_matching_exact(e: ElementDataV, rules: Seq<RuleV>)
    ensures
        forall|k: int|
            0 <= k < sp_matching(e, rules).len() ==> {
                let p = #[trigger] sp_matching(e, rules)[k];
                0 <= p.1 < rules.len() && sp_first_match(e, rules[p.1].selectors) == Some(p.0)
            },
        forall|i: int|
            0 <= i < rules.len() && sp_first_match(e, (#[trigger] rules[i]).selectors) is Some
                ==> exists|k: int|
                0 <= k < sp_matching(e, rules).len() && #[trigger] sp_matching(e, rules)[k] == (
                sp_first_match(e, rules[i].selectors)->0,
                i,
            ),
    decreases rules.len(),
{
    if rules.len() > 0 {
        lemma_matching_exact(e, rules.drop_last());
        let rest = sp_matching(e, rules.drop_last());
        assert(forall|i: int| 0 <= i < rules.len() - 1 ==> #[trigger] rules.drop_last()[i]
            == rules[i]);
        assert forall|k: int| 0 <= k < sp_matching(e, rules).len() implies {
            let p = #[trigger] sp_matching(e, rules)[k];
            0 <= p.1 < rules.len() && sp_first_match(e, rules[p.1].selectors) == Some(p.0)
        } by {
            if k < rest.len() {
                assert(sp_matching(e, rules)[k] == rest[k]);
            }
        }
        assert forall|i: int|
            0 <= i < rules.len() && sp_first_match(e, (#[trigger] rules[i]).selectors)
                is Some implies exists|k: int|
            0 <= k < sp_matching(e, rules).len() && #[trigger] sp_matching(e, rules)[k] == (
            sp_first_match(e, rules[i].selectors)->0,
            i,
        ) by {
            if i < rules.len() - 1 {
                assert(rules.drop_last()[i] == rules[i]);
                let k = choose|k: int|
                    0 <= k < rest.len() && #[trigger] rest[k] == (
                    sp_first_match(e, rules.drop_last()[i].selectors)->0,
                    i,
                );
                assert(sp_matching(e, rules)[k] == rest[k]);
            } else {
                assert(rules.last() == rules[i]);
                let k = sp_matching(e, rules).len() - 1;
                assert(sp_matching(e, rules)[k] == (
                    sp_first_match(e, rules[i].selectors)->0,
                    i,
                ));
            }
        }
    }
}

/// Ascending lexicographic order on (specificity, stylesheet position).
pub open spec fn pair_le(a: ((int, int, int), int), b: ((int, int, int), int)) -> bool {
    !spec_ge(a.0, b.0) || (a.0 == b.0 && a.1 <= b.1)
}

/// Inserts a matched pair into an ascending-sorted list, after every pair
/// that sorts no later.
pub open spec fn insert_asc(sorted: Seq<((int, int, int), int)>, x: ((int, int, int), int)) -> Seq<
    ((int, int, int), int),
>
    decreases sorted.len(),
{
    if sorted.len() == 0 {
        seq![x]
    } else if pair_le(sorted[0], x) {
        seq![sorted[0]] + insert_asc(sorted.drop_first(), x)
    } else {
        seq![x] + sorted
    }
}

/// Sorts matched pairs by ascending (specificity, stylesheet position).
pub open spec fn sort_asc(s: Seq<((int, int, int), int)>) -> Seq<((int, int, int), int)>
    decreases s.len(),
{
    if s.len() == 0 {
        Seq::empty()
    } else {
        insert_asc(sort_asc(s.drop_last()), s.last())
    }
}

/// A matched-pair list in ascending (specificity, position) order.
pub open spec fn sorted_asc(s: Seq<((int, int, int), int)>) -> bool {
    forall|i: int, j: int| 0 <= i < j < s.len() ==> pair_le(#[trigger] s[i], #[trigger] s[j])
}

/// Inserting a pair into an ascending-sorted list keeps it sorted, and adds
/// exactly that pair to its elements.
proof fn lemma_insert_asc_sorted(s: Seq<((int, int, int), int)>, x: ((int, int, int), int))
    requires
        sorted_asc(s),
    ensures
        sorted_asc(insert_asc(s, x)),
        insert_asc(s, x).len() == s.len() + 1,
        forall|k: int|
            0 <= k < insert_asc(s, x).len() ==> (#[trigger] insert_asc(s, x)[k] == x || exists|i: int|
                0 <= i < s.len() && insert_asc(s, x)[k] == s[i]),
    decreases s.len(),
{
    let r = insert_asc(s, x);
    if s.len() == 0 {
        assert(r == seq![x]);
        assert(r[0] == x);
    } else if pair_le(s[0], x) {
        let tail = insert_asc(s.drop_first(), x);
        assert(r == seq![s[0]] + tail);
        assert(forall|i: int, j: int|
            0 <= i < j < s.drop_first().len() ==> pair_le(
                #[trigger] s.drop_first()[i],
                #[trigger] s.drop_first()[j],
            ));
        lemma_insert_asc_sorted(s.drop_first(), x);
        assert(r[0] == s[0]);
        assert forall|k: int| 1 <= k < r.len() implies pair_le(r[0], #[trigger] r[k]) by {
            assert(r[k] == tail[k - 1]);
            if tail[k - 1] == x {
            } else {
                let i = choose|i: int| 0 <= i < s.drop_first().len() && tail[k - 1]
                    == s.drop_first()[i];
                assert(s.drop_first()[i] == s[i + 1]);
                assert(pair_le(s[0], s[i + 1]));
            }
        }
        assert forall|p: int, q: int| 0 <= p < q < r.len() implies pair_le(
            #[trigger] r[p],
            #[trigger] r[q],
        ) by {
            if p > 0 {
                assert(r[p] == tail[p - 1]);
                assert(r[q] == tail[q - 1]);
            }
        }
        assert forall|k: int| 0 <= k < r.len() implies (#[trigger] r[k] == x || exists|i: int|
            0 <= i < s.len() && r[k] == s[i]) by {
            if k == 0 {
                assert(r[0] == s[0]);
            } else {
                assert(r[k] == tail[k - 1]);
                if tail[k - 1] != x {
                    let i = choose|i: int| 0 <= i < s.drop_first().len() && tail[k - 1]
                        == s.drop_first()[i];
                    assert(s.drop_first()[i] == s[i + 1]);
                    assert(r[k] == s[i + 1]);
                }
            }
        }
    } else {
        assert(r == seq![x] + s);
        assert(r[0] == x);
        assert(pair_le(x, s[0]));
        assert forall|p: int, q: int| 0 <= p < q < r.len() implies pair_le(
            #[trigger] r[p],
            #[trigger] r[q],
        ) by {
            if p == 0 {
                assert(r[q] == s[q - 1]);
                if q - 1 > 0 {
                    assert(pair_le(s[0], s[q - 1]));
                }
            } else {
                assert(r[p] == s[p - 1]);
                assert(r[q] == s[q - 1]);
            }
        }
        assert forall|k: int| 0 <= k < r.len() implies (#[trigger] r[k] == x || exists|i: int|
            0 <= i < s.len() && r[k] == s[i]) by {
            if k > 0 {
                assert(r[k] == s[k - 1]);
            }
        }
    }
}

/// The matched rules are applied in ascending (specificity, position) order:
/// after sorting, no pair stands before one that sorts earlier, so higher
/// specificity is applied later and, at equal specificity, so is the
/// later-declared rule.
pub proof fn lemma_sort_asc_sorted(s: Seq<((int, int, int), int)>)
    ensures
        sorted_asc(sort_asc(s)),
    decreases s.len(),
{
    if s.len() > 0 {
        lemma_sort_asc_sorted(s.drop_last());
        lemma_insert_asc_sorted(sort_asc(s.drop_last()), s.last());
    }
}

/// Applies a rule's declarations in order, later ones overwriting earlier.
pub open spec fn sp_apply(m: Map<Seq<char>, ValueV>, decls: Seq<crate::css::DeclarationV>) -> Map<
    Seq<char>,
    ValueV,
>
    decreases decls.len(),
{
    if decls.len() == 0 {
        m
    } else {
        sp_apply(m, decls.drop_last()).insert(decls.last().name, decls.last().value)
    }
}

/// Applies the declarations of the listed rules in order.
pub open spec fn sp_apply_rules(
    m: Map<Seq<char>, ValueV>,
    rules: Seq<RuleV>,
    pairs: Seq<((int, int, int), int)>,
) -> Map<Seq<char>, ValueV>
    decreases pairs.len(),
{
    if pairs.len() == 0 {
        m
    } else {
        sp_apply(
            sp_apply_rules(m, rules, pairs.drop_last()),
            rules[pairs.last().1].declarations,
        )
    }
}

/// The resolved property map of an element: every matching rule's
/// declarations, applied in ascending order of (specificity, stylesheet
/// position), later writes winning.
pub open spec fn specified_values_spec(e: ElementDataV, sheet: StylesheetV) -> Map<
    Seq<char>,
    ValueV,
> {
    sp_apply_rules(Map::empty(), sheet.rules, sort_asc(sp_matching(e, sheet.rules)))
}


/// The mathematical value of a matched pair.
pub open spec fn pair_view(p: (Specificity, usize)) -> ((int, int, int), int) {
    ((p.0.0 as int, p.0.1 as int, p.0.2 as int), p.1 as int)
}

/// The specificity a rule attaches for an element, if the rule matches.
fn match_rule(elem: &ElementData, rule: &Rule) -> (r: Option<Specificity>)
    ensures
        match (r, sp_first_match(elem@, rule@.selectors)) {
            (Some(sp), Some(spv)) => (sp.0 as int, sp.1 as int, sp.2 as int) == spv,
            (None, None) => true,
            _ => false,
        },
{
    let n = rule.selectors.len();
    let mut j: usize = 0;
    proof {
        assert(rule@.selectors.subrange(0, n as int) =~= rule@.selectors);
    }
    while j < n
        invariant
            j <= n,
            n == rule.selectors@.len(),
            n == rule@.selectors.len(),
            sp_first_match(elem@, rule@.selectors) == sp_first_match(
                elem@,
                rule@.selectors.subrange(j as int, n as int),
            ),
        decreases n - j,
    {
        proof {
            assert(rule@.selectors[j as int] == rule.selectors@[j as int]@);
            assert(rule@.selectors.subrange(j as int, n as int)[0] == rule@.selectors[j as int]);
        }
        if matchs(elem, &rule.selectors[j]) {
            return Some(rule.selectors[j].specificity());
        }
        proof {
            assert(rule@.selectors.subrange(j as int, n as int).drop_first()
                =~= rule@.selectors.subrange(j + 1, n as int));
        }
        j = j + 1;
    }
    None
}

/// The matched rules for an element, each with its attached specificity and
/// its position in the stylesheet, in stylesheet order.
fn matching_rules(elem: &ElementData, stylesheet: &Stylesheet) -> (r: Vec<(Specificity, usize)>)
    ensures
        r@.map_values(|p: (Specificity, usize)| pair_view(p)) == sp_matching(
            elem@,
            stylesheet@.rules,
        ),
        forall|k: int| 0 <= k < r@.len() ==> (#[trigger] r@[k]).1 < stylesheet.rules@.len(),
{
    let n = stylesheet.rules.len();
    let mut out: Vec<(Specificity, usize)> = Vec::new();
    let mut i: usize = 0;
    proof {
        assert(stylesheet@.rules.subrange(0, 0) =~= Seq::<RuleV>::empty());
        assert(out@.map_values(|p: (Specificity, usize)| pair_view(p)) =~= Seq::<
            ((int, int, int), int),
        >::empty());
    }
    while i < n
        invariant
            i <= n,
            n == stylesheet.rules@.len(),
            n == stylesheet@.rules.len(),
            out@.map_values(|p: (Specificity, usize)| pair_view(p)) == sp_matching(
                elem@,
                stylesheet@.rules.subrange(0, i as int),
            ),
            forall|k: int| 0 <= k < out@.len() ==> (#[trigger] out@[k]).1 < n,
        decreases n - i,
    {
        let ghost pre = stylesheet@.rules.subrange(0, i as int);
        let ghost pre1 = stylesheet@.rules.subrange(0, i + 1);
        proof {
            assert(pre1.drop_last() =~= pre);
            assert(stylesheet@.rules[i as int] == stylesheet.rules@[i as int]@);
            assert(pre1.last() == stylesheet@.rules[i as int]);
        }
        match match_rule(elem, &stylesheet.rules[i]) {
            Some(sp) => {
                let ghost out0 = out@.map_values(|p: (Specificity, usize)| pair_view(p));
                out.push((sp, i));
                proof {
                    assert(out@.map_values(|p: (Specificity, usize)| pair_view(p)) =~= out0.push(
                        pair_view((sp, i)),
                    ));
                }
            },
            None => {},
        }
        i = i + 1;
    }
    proof {
        assert(stylesheet@.rules.subrange(0, n as int) =~= stylesheet@.rules);
    }
    out
}

/// Ascending comparison of matched pairs.
fn pair_le_exec(a: (Specificity, usize), b: (Specificity, usize)) -> (r: bool)
    ensures
        r == pair_le(pair_view(a), pair_view(b)),
{
    if !crate::css::specificity_ge(a.0, b.0) {
        true
    } else if a.0.0 == b.0.0 && a.0.1 == b.0.1 && a.0.2 == b.0.2 {
        a.1 <= b.1
    } else {
        false
    }
}

proof fn lemma_insert_asc_at(s: Seq<((int, int, int), int)>, x: ((int, int, int), int), j: int)
    requires
        0 <= j <= s.len(),
        forall|k: int| 0 <= k < j ==> pair_le(#[trigger] s[k], x),
        j < s.len() ==> !pair_le(s[j], x),
    ensures
        insert_asc(s, x) =~= s.subrange(0, j) + seq![x] + s.subrange(j, s.len() as int),
    decreases s.len(),
{
    if j == 0 {
        assert(s.subrange(0, 0) =~= Seq::<((int, int, int), int)>::empty());
        assert(s.subrange(0, s.len() as int) =~= s);
    } else {
        assert(pair_le(s[0], x));
        assert(insert_asc(s, x) == seq![s[0]] + insert_asc(s.drop_first(), x));
        assert(forall|k: int| 0 <= k < j - 1 ==> pair_le(#[trigger] s.drop_first()[k], x));
        lemma_insert_asc_at(s.drop_first(), x, j - 1);
    }
}

/// Mapping pair views commutes with inserting a pair.
proof fn lemma_map_pair_insert(pre: Seq<(Specificity, usize)>, j: int, x: (Specificity, usize))
    requires
        0 <= j <= pre.len(),
    ensures
        pre.insert(j, x).map_values(|p: (Specificity, usize)| pair_view(p)) =~= pre.map_values(
            |p: (Specificity, usize)| pair_view(p),
        ).subrange(0, j) + seq![pair_view(x)] + pre.map_values(
            |p: (Specificity, usize)| pair_view(p),
        ).subrange(j, pre.len() as int),
{
    let lhs = pre.insert(j, x).map_values(|p: (Specificity, usize)| pair_view(p));
    let rhs = pre.map_values(|p: (Specificity, usize)| pair_view(p)).subrange(0, j) + seq![
        pair_view(x),
    ] + pre.map_values(|p: (Specificity, usize)| pair_view(p)).subrange(j, pre.len() as int);
    assert forall|k: int| #![trigger lhs[k]] 0 <= k < lhs.len() implies lhs[k] == rhs[k] by {
        if k < j {
            assert(pre.insert(j, x)[k] == pre[k]);
            assert(pre.map_values(|p: (Specificity, usize)| pair_view(p))[k] == pair_view(pre[k]));
        } else if k == j {
            assert(pre.insert(j, x)[k] == x);
        } else {
            assert(pre.insert(j, x)[k] == pre[k - 1]);
            assert(pre.map_values(|p: (Specificity, usize)| pair_view(p))[k - 1] == pair_view(
                pre[k - 1],
            ));
        }
    }
}

/// Sorts matched pairs by ascending (specificity, stylesheet position).
fn sort_pairs(pairs: Vec<(Specificity, usize)>, Ghost(bound): Ghost<int>) -> (r: Vec<
    (Specificity, usize),
>)
    requires
        forall|k: int| 0 <= k < pairs@.len() ==> (#[trigger] pairs@[k]).1 < bound,
    ensures
        r@.map_values(|p: (Specificity, usize)| pair_view(p)) == sort_asc(
            pairs@.map_values(|p: (Specificity, usize)| pair_view(p)),
        ),
        forall|k: int| 0 <= k < r@.len() ==> (#[trigger] r@[k]).1 < bound,
{
    let mut rest = pairs;
    let mut out: Vec<(Specificity, usize)> = Vec::new();
    let ghost all = rest@.map_values(|p: (Specificity, usize)| pair_view(p));
    let ghost mut taken: int = 0;
    proof {
        assert(all.subrange(0, 0) =~= Seq::<((int, int, int), int)>::empty());
        assert(out@.map_values(|p: (Specificity, usize)| pair_view(p)) =~= Seq::<
            ((int, int, int), int),
        >::empty());
    }
    while rest.len() > 0
        invariant
            0 <= taken <= all.len(),
            rest@.map_values(|p: (Specificity, usize)| pair_view(p)) =~= all.subrange(
                taken,
                all.len() as int,
            ),
            out@.map_values(|p: (Specificity, usize)| pair_view(p)) == sort_asc(
                all.subrange(0, taken),
            ),
            forall|k: int| 0 <= k < rest@.len() ==> (#[trigger] rest@[k]).1 < bound,
            forall|k: int| 0 <= k < out@.len() ==> (#[trigger] out@[k]).1 < bound,
        decreases rest@.len(),
    {
        let ghost out0 = out@.map_values(|p: (Specificity, usize)| pair_view(p));
        let ghost rest0 = rest@;
        let x = rest.remove(0);
        let ghost xv = pair_view(x);
        proof {
            assert(rest@ =~= rest0.drop_first());
            assert(rest0.map_values(|p: (Specificity, usize)| pair_view(p)).len() == rest0.len());
            assert(all.subrange(taken, all.len() as int).len() == all.len() - taken);
            assert(taken < all.len());
            assert(rest0.map_values(|p: (Specificity, usize)| pair_view(p))[0] == xv);
            assert(all.subrange(taken, all.len() as int)[0] == all[taken]);
            assert(xv == all[taken]);
            assert forall|k: int| #![trigger rest@[k]] 0 <= k < rest@.len() implies rest@.map_values(
                |p: (Specificity, usize)| pair_view(p),
            )[k] == all.subrange(taken + 1, all.len() as int)[k] by {
                assert(rest@[k] == rest0[k + 1]);
                assert(rest@.map_values(|p: (Specificity, usize)| pair_view(p))[k] == pair_view(
                    rest@[k],
                ));
                assert(rest0.map_values(|p: (Specificity, usize)| pair_view(p))[k + 1] == pair_view(
                    rest0[k + 1],
                ));
                assert(all.subrange(taken, all.len() as int)[k + 1] == all[taken + 1 + k]);
                assert(all.subrange(taken + 1, all.len() as int)[k] == all[taken + 1 + k]);
            }
            assert(rest@.map_values(|p: (Specificity, usize)| pair_view(p)) =~= all.subrange(
                taken + 1,
                all.len() as int,
            ));
        }
        let mut j: usize = 0;
        while j < out.len()
            invariant_except_break
                0 <= j <= out@.len(),
            invariant
                out@.map_values(|p: (Specificity, usize)| pair_view(p)) == out0,
                out0.len() == out@.len(),
                xv == pair_view(x),
                forall|k: int| 0 <= k < j ==> pair_le(#[trigger] out0[k], xv),
            ensures
                0 <= j <= out@.len(),
                j < out@.len() ==> !pair_le(out0[j as int], xv),
            decreases out@.len() - j,
        {
            proof {
                assert(out@.map_values(|p: (Specificity, usize)| pair_view(p))[j as int]
                    == pair_view(out@[j as int]));
            }
            if !pair_le_exec(out[j], x) {
                break;
            }
            j = j + 1;
        }
        proof {
            lemma_insert_asc_at(out0, xv, j as int);
        }
        let ghost out_pre = out@;
        out.insert(j, x);
        proof {
            lemma_map_pair_insert(out_pre, j as int, x);
            assert(out0.subrange(0, j as int) + seq![xv] + out0.subrange(j as int, out0.len() as int)
                =~= insert_asc(out0, xv));
            assert(out@.map_values(|p: (Specificity, usize)| pair_view(p)) =~= insert_asc(
                out0,
                xv,
            ));
            assert(all.subrange(0, taken + 1).drop_last() =~= all.subrange(0, taken));
            assert(all.subrange(0, taken + 1).last() == all[taken]);
            assert(sort_asc(all.subrange(0, taken + 1)) == insert_asc(
                sort_asc(all.subrange(0, taken)),
                all[taken],
            ));
            assert forall|k: int| 0 <= k < out@.len() implies (#[trigger] out@[k]).1 < bound by {
                assert(out@ == out_pre.insert(j as int, x));
                if k < j {
                    assert(out@[k] == out_pre[k]);
                } else if k > j {
                    assert(out@[k] == out_pre[k - 1]);
                } else {
                    assert(out@[k] == x);
                }
            }
            taken = taken + 1;
        }
    }
    proof {
        assert(all.subrange(0, all.len() as int) =~= all);
    }
    out
}

/// Resolves an element's property map: every matching rule's declarations,
/// applied in ascending order of (specificity, stylesheet position), later
/// writes winning.
fn specified_values(elem: &ElementData, stylesheet: &Stylesheet) -> (r: PropertyMap)
    ensures
        r@ == specified_values_spec(elem@, stylesheet@),
{
    let pairs = matching_rules(elem, stylesheet);
    let sorted = sort_pairs(pairs, Ghost(stylesheet.rules@.len() as int));
    let ghost rulesv = stylesheet@.rules;
    let ghost sortedv = sorted@.map_values(|p: (Specificity, usize)| pair_view(p));
    let mut values = PropertyMap::new();
    let m = sorted.len();
    let mut k: usize = 0;
    proof {
        assert(sortedv.subrange(0, 0) =~= Seq::<((int, int, int), int)>::empty());
    }
    while k < m
        invariant
            k <= m,
            m == sorted@.len(),
            sortedv == sorted@.map_values(|p: (Specificity, usize)| pair_view(p)),
            sortedv.len() == m,
            forall|t: int| 0 <= t < sorted@.len() ==> (#[trigger] sorted@[t]).1
                < stylesheet.rules@.len(),
            rulesv == stylesheet@.rules,
            rulesv.len() == stylesheet.rules@.len(),
            values@ == sp_apply_rules(Map::empty(), rulesv, sortedv.subrange(0, k as int)),
        decreases m - k,
    {
        let idx = sorted[k].1;
        proof {
            assert(sortedv[k as int] == pair_view(sorted@[k as int]));
            assert(sortedv.subrange(0, k + 1).drop_last() =~= sortedv.subrange(0, k as int));
            assert(sortedv.subrange(0, k + 1).last() == sortedv[k as int]);
            assert(stylesheet@.rules[idx as int] == stylesheet.rules@[idx as int]@);
        }
        let rule = &stylesheet.rules[idx];
        let ghost declsv = rulesv[idx as int].declarations;
        let dn = rule.declarations.len();
        let mut t: usize = 0;
        let ghost base = values@;
        proof {
            assert(declsv.subrange(0, 0) =~= Seq::<crate::css::DeclarationV>::empty());
        }
        while t < dn
            invariant
                t <= dn,
                dn == rule.declarations@.len(),
                declsv == rulesv[idx as int].declarations,
                declsv == rule@.declarations,
                declsv.len() == dn,
                rule@ == stylesheet@.rules[idx as int],
                values@ == sp_apply(base, declsv.subrange(0, t as int)),
            decreases dn - t,
        {
            proof {
                assert(declsv[t as int] == rule.declarations@[t as int]@);
                assert(declsv.subrange(0, t + 1).drop_last() =~= declsv.subrange(0, t as int));
                assert(declsv.subrange(0, t + 1).last() == declsv[t as int]);
            }
            let name = rule.declarations[t].name.clone();
            let value = rule.declarations[t].value.clone();
            values.insert(name, value);
            t = t + 1;
        }
        proof {
            assert(declsv.subrange(0, dn as int) =~= declsv);
        }
        k = k + 1;
    }
    proof {
        assert(sortedv.subrange(0, m as int) =~= sortedv);
    }
    values
}


/// The lookup with a fallback property and a final default, as the layout
/// engine reads shorthand-expanded properties.
pub open spec fn sp_lookup(
    m: Map<Seq<char>, ValueV>,
    name: Seq<char>,
    fallback: Seq<char>,
    default: ValueV,
) -> ValueV {
    if m.contains_key(name) {
        m[name]
    } else if m.contains_key(fallback) {
        m[fallback]
    } else {
        default
    }
}

/// How a styled node is displayed: the `display` property's keyword, with
/// anything but `block` and `none` (including an absent property) inline.
pub open spec fn sp_display(sn: StyledNodeV) -> Display {
    if sn.specified_values.contains_key("display"@) {
        match sn.specified_values["display"@] {
            ValueV::Keyword(kw) => {
                if kw == "block"@ {
                    Display::Block
                } else if kw == "none"@ {
                    Display::Hidden
                } else {
                    Display::Inline
                }
            },
            _ => Display::Inline,
        }
    } else {
        Display::Inline
    }
}

impl StyledNode {
    /// The node's resolved value for a property, if one was specified.
    pub fn value(&self, name: &str) -> (r: Option<Value>)
        ensures
            match r {
                Some(v) => self@.specified_values.contains_key(name@) && v@
                    == self@.specified_values[name@],
                None => !self@.specified_values.contains_key(name@),
            },
    {
        match self.specified_values.get(name) {
            Some(v) => Some(v.clone()),
            None => None,
        }
    }

    /// The node's value for a property, or for a fallback property, or the
    /// given default.
    pub fn lookup(&self, name: &str, fallback: &str, default: &Value) -> (r: Value)
        ensures
            r@ == sp_lookup(self@.specified_values, name@, fallback@, default@),
    {
        match self.value(name) {
            Some(v) => v,
            None => match self.value(fallback) {
                Some(v) => v,
                None => default.clone(),
            },
        }
    }

    /// How the node is displayed.
    pub fn display(&self) -> (r: Display)
        ensures
            r == sp_display(self@),
    {
        proof {
            reveal_strlit("display");
            reveal_strlit("block");
            reveal_strlit("none");
        }
        match self.value("display") {
            Some(v) => match v {
                Value::Keyword(kw) => {
                    if str_eq(kw.as_str(), "block") {
                        Display::Block
                    } else if str_eq(kw.as_str(), "none") {
                        Display::Hidden
                    } else {
                        Display::Inline
                    }
                },
                _ => Display::Inline,
            },
            None => Display::Inline,
        }
    }
}

/// The styled tree of a document node: the same tree, each element carrying
/// its resolved property map and each text node an empty one.
pub open spec fn sp_style_tree(n: crate::dom::NodeV, sheet: StylesheetV) -> StyledNodeV
    decreases n,
{
    StyledNodeV {
        node_type: n.node_type,
        specified_values: match n.node_type {
            NodeTypeV::Element(e) => specified_values_spec(e, sheet),
            NodeTypeV::Text(_) => Map::empty(),
        },
        children: sp_style_children(n.childlen, sheet),
    }
}

/// The styled trees of a sequence of document nodes, in order.
pub open spec fn sp_style_children(cs: Seq<crate::dom::NodeV>, sheet: StylesheetV) -> Seq<
    StyledNodeV,
>
    decreases cs,
{
    if cs.len() == 0 {
        Seq::empty()
    } else {
        sp_style_children(cs.drop_last(), sheet).push(sp_style_tree(cs.last(), sheet))
    }
}

/// `sp_style_children` keeps the sequence's length.
pub proof fn lemma_sp_style_children_len(cs: Seq<crate::dom::NodeV>, sheet: StylesheetV)
    ensures
        sp_style_children(cs, sheet).len() == cs.len(),
    decreases cs.len(),
{
    if cs.len() > 0 {
        lemma_sp_style_children_len(cs.drop_last(), sheet);
    }
}

/// The styled children are the styled trees of the children, index by index.
pub proof fn lemma_sp_style_children_index(cs: Seq<crate::dom::NodeV>, sheet: StylesheetV, i: int)
    requires
        0 <= i < cs.len(),
    ensures
        sp_style_children(cs, sheet)[i] == sp_style_tree(cs[i], sheet),
    decreases cs.len(),
{
    lemma_sp_style_children_len(cs, sheet);
    lemma_sp_style_children_len(cs.drop_last(), sheet);
    if i < cs.len() - 1 {
        lemma_sp_style_children_index(cs.drop_last(), sheet, i);
        assert(cs.drop_last()[i] == cs[i]);
    } else {
        assert(cs.last() == cs[i]);
    }
}

/// The styled tree mirrors the document tree exactly: the same node kind,
/// the same child count, and each styled child the styled tree of the
/// document child at the same position.
pub proof fn lemma_style_tree_mirrors(n: crate::dom::NodeV, sheet: StylesheetV)
    ensures
        sp_style_tree(n, sheet).node_type == n.node_type,
        sp_style_tree(n, sheet).children.len() == n.childlen.len(),
        forall|i: int|
            0 <= i < n.childlen.len() ==> sp_style_tree(n, sheet).children[i] == sp_style_tree(
                #[trigger] n.childlen[i],
                sheet,
            ),
{
    lemma_sp_style_children_len(n.childlen, sheet);
    assert forall|i: int| 0 <= i < n.childlen.len() implies sp_style_tree(n, sheet).children[i]
        == sp_style_tree(#[trigger] n.childlen[i], sheet) by {
        lemma_sp_style_children_index(n.childlen, sheet, i);
    }
}

/// Builds the styled tree of a document tree: the same tree, each element
/// carrying the property map the stylesheet resolves for it.
#[verifier::loop_isolation(false)]
pub fn style_tree(root: Node, stylesheet: &Stylesheet) -> (r: StyledNode)
    ensures
        r@ == sp_style_tree(root@, stylesheet@),
    decreases root,
{
    let ghost root0 = root;
    let Node { childlen, node_type } = root;
    let sv: PropertyMap = match &node_type {
        NodeType::Element(elem) => specified_values(elem, stylesheet),
        NodeType::Text(_) => PropertyMap::new(),
    };
    let ghost n = childlen@.len();
    let mut pending = childlen;
    let mut stack: Vec<Node> = Vec::new();
    while pending.len() > 0
        invariant
            n == root0.childlen@.len(),
            stack@.len() + pending@.len() == n,
            pending@ =~= root0.childlen@.subrange(0, pending@.len() as int),
            forall|k: int| 0 <= k < stack@.len() ==> stack@[k] == root0.childlen@[n - 1 - k],
        decreases pending@.len(),
    {
        let ghost pend0 = pending@;
        match pending.pop() {
            None => {},
            Some(c) => {
                proof {
                    assert(pend0 == root0.childlen@.subrange(0, pend0.len() as int));
                    assert(root0.childlen@.subrange(0, pend0.len() as int)[pend0.len() - 1]
                        == root0.childlen@[pend0.len() - 1]);
                    assert(pend0.last() == root0.childlen@[pend0.len() - 1]);
                    assert forall|k: int| 0 <= k < pending@.len() implies pending@[k]
                        == root0.childlen@.subrange(0, pending@.len() as int)[k] by {
                        assert(pending@[k] == pend0[k]);
                        assert(root0.childlen@.subrange(0, pend0.len() as int)[k]
                            == root0.childlen@[k]);
                        assert(root0.childlen@.subrange(0, pending@.len() as int)[k]
                            == root0.childlen@[k]);
                    }
                    assert(pending@ =~= root0.childlen@.subrange(0, pending@.len() as int));
                }
                stack.push(c);
            },
        }
    }
    let mut children: Vec<StyledNode> = Vec::new();
    proof {
        lemma_children_view_len_local(root0);
        assert(children@.map_values(|x: StyledNode| x@) =~= Seq::<StyledNodeV>::empty());
        assert(root0@.childlen.subrange(0, 0) =~= Seq::<crate::dom::NodeV>::empty());
    }
    while stack.len() > 0
        invariant
            n == root0.childlen@.len(),
            stack@.len() <= n,
            forall|k: int| 0 <= k < stack@.len() ==> stack@[k] == root0.childlen@[n - 1 - k],
            children@.len() == n - stack@.len(),
            root0@.childlen.len() == n,
            children@.map_values(|x: StyledNode| x@) == sp_style_children(
                root0@.childlen.subrange(0, children@.len() as int),
                stylesheet@,
            ),
        decreases stack@.len(),
    {
        match stack.pop() {
            None => {},
            Some(c) => {
                let ghost m = children@.len() as int;
                proof {
                    assert(c == root0.childlen@[m]);
                    assert(c == root0.childlen[m]);
                    assert(decreases_to!(root0 => root0.childlen));
                    assert(decreases_to!(root0.childlen => root0.childlen[m]));
                    assert(decreases_to!(root0 => c));
                }
                let styled = style_tree(c, stylesheet);
                let ghost cv0 = children@.map_values(|x: StyledNode| x@);
                children.push(styled);
                proof {
                    crate::dom::lemma_children_view_index(root0.childlen@, m);
                    assert(root0@.childlen[m] == root0.childlen@[m]@);
                    let pre = root0@.childlen.subrange(0, m);
                    let pre1 = root0@.childlen.subrange(0, m + 1);
                    assert(pre1.drop_last() =~= pre);
                    assert(pre1.last() == root0@.childlen[m]);
                    assert(children@.map_values(|x: StyledNode| x@) =~= cv0.push(styled@));
                }
            },
        }
    }
    proof {
        assert(root0@.childlen.subrange(0, n as int) =~= root0@.childlen);
    }
    let ghost cviews = children@.map_values(|x: StyledNode| x@);
    let r = StyledNode { node_type: node_type, specified_values: sv, children: children };
    proof {
        lemma_styled_children_view_len(r.children@);
        assert forall|k: int| 0 <= k < r.children@.len() implies styled_children_view(r.children@)[k]
            == cviews[k] by {
            lemma_styled_children_view_index(r.children@, k);
            assert(cviews[k] == r.children@[k]@);
        }
        assert(styled_children_view(r.children@) =~= cviews);
    }
    r
}

/// The length of a node's viewed children equals its child count.
proof fn lemma_children_view_len_local(n: Node)
    ensures
        n@.childlen.len() == n.childlen@.len(),
{
    crate::dom::lemma_children_view_len(n.childlen@);
}


/// The value of the last declaration of a property in a declaration list.
pub open spec fn last_decl_value(decls: Seq<crate::css::DeclarationV>, n: Seq<char>) -> Option<
    ValueV,
>
    decreases decls.len(),
{
    if decls.len() == 0 {
        None
    } else if decls.last().name == n {
        Some(decls.last().value)
    } else {
        last_decl_value(decls.drop_last(), n)
    }
}

/// Applying a declaration list binds each property to its last declared
/// value, and leaves properties it never names as they were.
pub proof fn lemma_sp_apply_binds(
    m: Map<Seq<char>, ValueV>,
    decls: Seq<crate::css::DeclarationV>,
    n: Seq<char>,
)
    ensures
        match last_decl_value(decls, n) {
            Some(v) => sp_apply(m, decls).contains_key(n) && sp_apply(m, decls)[n] == v,
            None => (sp_apply(m, decls).contains_key(n) <==> m.contains_key(n)) && (m.contains_key(
                n,
            ) ==> sp_apply(m, decls)[n] == m[n]),
        },
    decreases decls.len(),
{
    if decls.len() > 0 {
        lemma_sp_apply_binds(m, decls.drop_last(), n);
    }
}

/// Cascade precedence and tie-break for a stylesheet of two rules that both
/// match an element and both declare a property: the rule of strictly higher
/// attached specificity wins whatever its position; at equal specificity the
/// later-declared rule wins. The winning rule's last declaration of the
/// property gives the resolved value.
pub proof fn lemma_cascade_two_rules(e: ElementDataV, sheet: StylesheetV, n: Seq<char>)
    requires
        sheet.rules.len() == 2,
        sp_first_match(e, sheet.rules[0].selectors) is Some,
        sp_first_match(e, sheet.rules[1].selectors) is Some,
        last_decl_value(sheet.rules[0].declarations, n) is Some,
        last_decl_value(sheet.rules[1].declarations, n) is Some,
    ensures
        ({
            let s0 = sp_first_match(e, sheet.rules[0].selectors)->0;
            let s1 = sp_first_match(e, sheet.rules[1].selectors)->0;
            let winner: int = if spec_ge(s0, s1) && s0 != s1 {
                0
            } else {
                1
            };
            &&& specified_values_spec(e, sheet).contains_key(n)
            &&& specified_values_spec(e, sheet)[n] == last_decl_value(
                sheet.rules[winner].declarations,
                n,
            )->0
        }),
{
    let rules = sheet.rules;
    let s0 = sp_first_match(e, rules[0].selectors)->0;
    let s1 = sp_first_match(e, rules[1].selectors)->0;
    assert(rules.drop_last().drop_last() =~= Seq::<RuleV>::empty());
    assert(rules.drop_last().len() == 1);
    assert(rules.drop_last().last() == rules[0]);
    assert(rules.last() == rules[1]);
    assert(sp_matching(e, Seq::<RuleV>::empty()) =~= Seq::<((int, int, int), int)>::empty());
    assert(sp_matching(e, rules.drop_last()) == sp_matching(
        e,
        rules.drop_last().drop_last(),
    ).push((s0, 0int)));
    assert(sp_matching(e, rules.drop_last()) =~= seq![(s0, 0int)]);
    let pairs = seq![(s0, 0int), (s1, 1int)];
    assert(sp_matching(e, rules) == sp_matching(e, rules.drop_last()).push((s1, 1int)));
    assert(sp_matching(e, rules) =~= pairs);
    assert(pairs.drop_last() =~= seq![(s0, 0int)]);
    assert(seq![(s0, 0int)].drop_last() =~= Seq::<((int, int, int), int)>::empty());
    assert(sort_asc(Seq::<((int, int, int), int)>::empty()) == Seq::<
        ((int, int, int), int),
    >::empty());
    assert(sort_asc(seq![(s0, 0int)]) == insert_asc(
        sort_asc(seq![(s0, 0int)].drop_last()),
        (s0, 0int),
    ));
    assert(insert_asc(Seq::<((int, int, int), int)>::empty(), (s0, 0int)) =~= seq![(s0, 0int)]);
    assert(sort_asc(seq![(s0, 0int)]) =~= seq![(s0, 0int)]);
    assert(sort_asc(pairs) == insert_asc(sort_asc(pairs.drop_last()), (s1, 1int)));
    assert(seq![(s0, 0int)].drop_first() =~= Seq::<((int, int, int), int)>::empty());
    let lo_first = seq![(s0, 0int), (s1, 1int)];
    let hi_first = seq![(s1, 1int), (s0, 0int)];
    assert(insert_asc(Seq::<((int, int, int), int)>::empty(), (s1, 1int)) =~= seq![(s1, 1int)]);
    if pair_le((s0, 0int), (s1, 1int)) {
        assert(insert_asc(seq![(s0, 0int)], (s1, 1int)) == seq![(s0, 0int)] + insert_asc(
            seq![(s0, 0int)].drop_first(),
            (s1, 1int),
        ));
        assert(insert_asc(seq![(s0, 0int)], (s1, 1int)) =~= lo_first);
    } else {
        assert(insert_asc(seq![(s0, 0int)], (s1, 1int)) =~= hi_first);
    }
    let m0 = Map::<Seq<char>, ValueV>::empty();
    let sorted = sort_asc(sp_matching(e, rules));
    assert(specified_values_spec(e, sheet) == sp_apply_rules(m0, rules, sorted));
    assert(lo_first.drop_last() =~= seq![(s0, 0int)]);
    assert(hi_first.drop_last() =~= seq![(s1, 1int)]);
    assert(seq![(s1, 1int)].drop_last() =~= Seq::<((int, int, int), int)>::empty());
    assert(sp_apply_rules(m0, rules, Seq::<((int, int, int), int)>::empty()) == m0);
    if pair_le((s0, 0int), (s1, 1int)) {
        assert(sorted =~= lo_first);
        assert(!(spec_ge(s0, s1) && s0 != s1));
        assert(sorted.drop_last() =~= seq![(s0, 0int)]);
        assert(sorted.last() == (s1, 1int));
        assert(sp_apply_rules(m0, rules, sorted.drop_last()) == sp_apply(
            sp_apply_rules(m0, rules, sorted.drop_last().drop_last()),
            rules[0].declarations,
        ));
        assert(sorted.drop_last().drop_last() =~= Seq::<((int, int, int), int)>::empty());
        let base = sp_apply(m0, rules[0].declarations);
        assert(sp_apply_rules(m0, rules, sorted.drop_last()) == base);
        assert(sp_apply_rules(m0, rules, sorted) == sp_apply(base, rules[1].declarations));
        lemma_sp_apply_binds(base, rules[1].declarations, n);
    } else {
        assert(sorted =~= hi_first);
        assert(spec_ge(s0, s1) && s0 != s1);
        assert(sorted.drop_last() =~= seq![(s1, 1int)]);
        assert(sorted.last() == (s0, 0int));
        assert(sp_apply_rules(m0, rules, sorted.drop_last()) == sp_apply(
            sp_apply_rules(m0, rules, sorted.drop_last().drop_last()),
            rules[1].declarations,
        ));
        assert(sorted.drop_last().drop_last() =~= Seq::<((int, int, int), int)>::empty());
        let base = sp_apply(m0, rules[1].declarations);
        assert(sp_apply_rules(m0, rules, sorted.drop_last()) == base);
        assert(sp_apply_rules(m0, rules, sorted) == sp_apply(base, rules[0].declarations));
        lemma_sp_apply_binds(base, rules[0].declarations, n);
    }
}

} // verus!
