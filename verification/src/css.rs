//! The CSS rule model and the stylesheet parser.
//!
//! A stylesheet is a sequence of rules; a rule pairs a selector list with a
//! declaration list. The parser is a recursive-descent reader of stylesheet
//! text whose behaviour is pinned down, position by position, by spec-level
//! twin functions over the text's characters. Any structurally invalid input
//! is a fatal [`ParseError`]; no partial stylesheet is returned.

use crate::px::Px;
use vstd::prelude::*;

verus! {

broadcast use vstd::std_specs::vec::group_vec_axioms;

/// An RGBA color, one byte per channel.
#[derive(Debug, Clone, Copy, PartialEq, Eq, Structural)]
pub struct Color {
    pub r: u8,
    pub g: u8,
    pub b: u8,
    pub a: u8,
}

/// The unit of a length value.
#[derive(Debug, Clone, Copy, PartialEq, Eq, Structural)]
pub enum Unit {
    Px,
}

/// Mathematical model of a property value.
pub enum ValueV {
    Keyword(Seq<char>),
    Length(int, Unit),
    ColorValue(Color),
}

/// A property value: a bare keyword, a length, or a color.
#[derive(Debug, PartialEq)]
pub enum Value {
    Keyword(String),
    Length(Px, Unit),
    ColorValue(Color),
}

impl View for Value {
    type V = ValueV;

    open spec fn view(&self) -> ValueV {
        match self {
            Value::Keyword(s) => ValueV::Keyword(s@),
            Value::Length(p, u) => ValueV::Length(*p as int, *u),
            Value::ColorValue(c) => ValueV::ColorValue(*c),
        }
    }
}

impl Clone for Value {
    /// Clones the value; the copy denotes the same property value.
    fn clone(&self) -> (r: Self)
        ensures
            r@ == self@,
    {
        match self {
            Value::Keyword(s) => Value::Keyword(s.clone()),
            Value::Length(p, u) => Value::Length(*p, *u),
            Value::ColorValue(c) => Value::ColorValue(*c),
        }
    }
}

/// The numeric length of a value in pixels: `0` for anything that is not a
/// pixel length (a permissive coercion, not an error).
pub open spec fn spec_to_px(v: ValueV) -> int {
    match v {
        ValueV::Length(p, Unit::Px) => p,
        _ => 0,
    }
}

impl Value {
    /// The value's length in pixels; `0` for non-length values.
    pub fn to_px(&self) -> (r: Px)
        ensures
            r as int == spec_to_px(self@),
    {
        match self {
            Value::Length(p, Unit::Px) => *p,
            _ => 0,
        }
    }
}

/// Mathematical model of a simple selector.
pub struct SimpleSelectorV {
    pub tag_name: Option<Seq<char>>,
    pub id: Option<Seq<char>>,
    pub class: Seq<Seq<char>>,
}

/// Mathematical model of a selector.
pub enum SelectorV {
    Simple(SimpleSelectorV),
}

/// A simple selector: an optional tag name, an optional id, and class names.
#[derive(Debug, PartialEq)]
pub struct SimpleSelector {
    pub tag_name: Option<String>,
    pub id: Option<String>,
    pub class: Vec<String>,
}

/// A selector; only simple selectors exist.
#[derive(Debug, PartialEq)]
pub enum Selector {
    Simple(SimpleSelector),
}

impl View for SimpleSelector {
    type V = SimpleSelectorV;

    open spec fn view(&self) -> SimpleSelectorV {
        SimpleSelectorV {
            tag_name: match &self.tag_name {
                Some(t) => Some(t@),
                None => None,
            },
            id: match &self.id {
                Some(t) => Some(t@),
                None => None,
            },
            class: self.class@.map_values(|c: String| c@),
        }
    }
}

impl View for Selector {
    type V = SelectorV;

    open spec fn view(&self) -> SelectorV {
        match self {
            Selector::Simple(s) => SelectorV::Simple(s@),
        }
    }
}

/// Mathematical model of a declaration.
pub struct DeclarationV {
    pub name: Seq<char>,
    pub value: ValueV,
}

/// A declaration: a property name bound to a value.
#[derive(Debug, PartialEq)]
pub struct Declaration {
    pub name: String,
    pub value: Value,
}

impl View for Declaration {
    type V = DeclarationV;

    open spec fn view(&self) -> DeclarationV {
        DeclarationV { name: self.name@, value: self.value@ }
    }
}

/// Mathematical model of a rule.
pub struct RuleV {
    pub selectors: Seq<SelectorV>,
    pub declarations: Seq<DeclarationV>,
}

/// A rule: selectors, sorted by descending specificity, and declarations.
#[derive(Debug, PartialEq)]
pub struct Rule {
    pub selectors: Vec<Selector>,
    pub declarations: Vec<Declaration>,
}

impl View for Rule {
    type V = RuleV;

    open spec fn view(&self) -> RuleV {
        RuleV {
            selectors: self.selectors@.map_values(|s: Selector| s@),
            declarations: self.declarations@.map_values(|d: Declaration| d@),
        }
    }
}

/// Mathematical model of a stylesheet.
pub struct StylesheetV {
    pub rules: Seq<RuleV>,
}

/// A stylesheet: its rules, in source order.
#[derive(Debug, PartialEq)]
pub struct Stylesheet {
    pub rules: Vec<Rule>,
}

impl View for Stylesheet {
    type V = StylesheetV;

    open spec fn view(&self) -> StylesheetV {
        StylesheetV { rules: self.rules@.map_values(|r: Rule| r@) }
    }
}

/// A selector's precedence weight: id count, class count, tag presence.
pub type Specificity = (usize, usize, usize);

/// The specificity of a selector: how many id tokens it names (0 or 1), how
/// many class names it lists, and whether it names a tag (0 or 1). Compared
/// lexicographically, id dominating class dominating tag.
pub open spec fn spec_specificity(s: SelectorV) -> (int, int, int) {
    let SelectorV::Simple(ss) = s;
    (
        if ss.id is Some {
            1int
        } else {
            0int
        },
        ss.class.len() as int,
        if ss.tag_name is Some {
            1int
        } else {
            0int
        },
    )
}

impl Selector {
    /// The selector's precedence weight.
    pub fn specificity(&self) -> (r: Specificity)
        ensures
            (r.0 as int, r.1 as int, r.2 as int) == spec_specificity(self@),
    {
        let Selector::Simple(simple) = self;
        let a: usize = if simple.id.is_some() {
            1
        } else {
            0
        };
        let b: usize = simple.class.len();
        let c: usize = if simple.tag_name.is_some() {
            1
        } else {
            0
        };
        (a, b, c)
    }
}

/// Descending lexicographic order on specificity triples: `a` sorts no later
/// than `b`.
pub open spec fn spec_ge(a: (int, int, int), b: (int, int, int)) -> bool {
    a.0 > b.0 || (a.0 == b.0 && (a.1 > b.1 || (a.1 == b.1 && a.2 >= b.2)))
}

/// Inserts a selector into a list sorted by descending specificity, after
/// every selector of no smaller specificity, so that selectors of equal
/// specificity keep their source order.
pub open spec fn insert_desc(sorted: Seq<SelectorV>, x: SelectorV) -> Seq<SelectorV>
    decreases sorted.len(),
{
    if sorted.len() == 0 {
        seq![x]
    } else if spec_ge(spec_specificity(sorted[0]), spec_specificity(x)) {
        seq![sorted[0]] + insert_desc(sorted.drop_first(), x)
    } else {
        seq![x] + sorted
    }
}

/// Sorts selectors by descending specificity, stably.
pub open spec fn sort_desc(s: Seq<SelectorV>) -> Seq<SelectorV>
    decreases s.len(),
{
    if s.len() == 0 {
        Seq::empty()
    } else {
        insert_desc(sort_desc(s.drop_last()), s.last())
    }
}

proof fn lemma_insert_desc_at(s: Seq<SelectorV>, x: SelectorV, j: int)
    requires
        0 <= j <= s.len(),
        forall|k: int| 0 <= k < j ==> spec_ge(spec_specificity(s[k]), spec_specificity(x)),
        j < s.len() ==> !spec_ge(spec_specificity(s[j]), spec_specificity(x)),
    ensures
        insert_desc(s, x) =~= s.subrange(0, j) + seq![x] + s.subrange(j, s.len() as int),
    decreases s.len(),
{
    if j == 0 {
        if s.len() == 0 {
            assert(insert_desc(s, x) == seq![x]);
        } else {
            assert(insert_desc(s, x) == seq![x] + s);
        }
        assert(s.subrange(0, 0) =~= Seq::<SelectorV>::empty());
        assert(s.subrange(0, s.len() as int) =~= s);
    } else {
        assert(spec_ge(spec_specificity(s[0]), spec_specificity(x)));
        assert(insert_desc(s, x) == seq![s[0]] + insert_desc(s.drop_first(), x));
        assert(forall|k: int|
            0 <= k < j - 1 ==> spec_ge(
                spec_specificity(#[trigger] s.drop_first()[k]),
                spec_specificity(x),
            ));
        lemma_insert_desc_at(s.drop_first(), x, j - 1);
    }
}

/// Compares two specificity weights: descending lexicographic order.
pub(crate) fn specificity_ge(a: Specificity, b: Specificity) -> (r: bool)
    ensures
        r == spec_ge(
            (a.0 as int, a.1 as int, a.2 as int),
            (b.0 as int, b.1 as int, b.2 as int),
        ),
{
    a.0 > b.0 || (a.0 == b.0 && (a.1 > b.1 || (a.1 == b.1 && a.2 >= b.2)))
}

/// Mapping views commutes with inserting an element into a sequence.
proof fn lemma_map_values_insert(pre: Seq<Selector>, j: int, x: Selector)
    requires
        0 <= j <= pre.len(),
    ensures
        pre.insert(j, x).map_values(|s: Selector| s@) =~= pre.map_values(
            |s: Selector| s@,
        ).subrange(0, j) + seq![x@] + pre.map_values(|s: Selector| s@).subrange(
            j,
            pre.len() as int,
        ),
{
    let lhs = pre.insert(j, x).map_values(|s: Selector| s@);
    let rhs = pre.map_values(|s: Selector| s@).subrange(0, j) + seq![x@] + pre.map_values(
        |s: Selector| s@,
    ).subrange(j, pre.len() as int);
    assert forall|k: int| #![trigger lhs[k]] 0 <= k < lhs.len() implies lhs[k] == rhs[k] by {
        if k < j {
            assert(pre.insert(j, x)[k] == pre[k]);
            assert(pre.map_values(|s: Selector| s@)[k] == pre[k]@);
        } else if k == j {
            assert(pre.insert(j, x)[k] == x);
        } else {
            assert(pre.insert(j, x)[k] == pre[k - 1]);
            assert(pre.map_values(|s: Selector| s@)[k - 1] == pre[k - 1]@);
        }
    }
}

/// Sorts a selector list by descending specificity, stably.
fn sort_selectors(sels: Vec<Selector>) -> (r: Vec<Selector>)
    ensures
        r@.map_values(|s: Selector| s@) == sort_desc(sels@.map_values(|s: Selector| s@)),
{
    let mut rest = sels;
    let mut out: Vec<Selector> = Vec::new();
    let ghost all = rest@.map_values(|s: Selector| s@);
    let ghost mut taken: int = 0;
    proof {
        assert(all.subrange(0, 0) =~= Seq::<SelectorV>::empty());
        assert(out@.map_values(|s: Selector| s@) =~= Seq::<SelectorV>::empty());
    }
    while rest.len() > 0
        invariant
            0 <= taken <= all.len(),
            rest@.map_values(|s: Selector| s@) =~= all.subrange(taken, all.len() as int),
            out@.map_values(|s: Selector| s@) == sort_desc(all.subrange(0, taken)),
        decreases rest@.len(),
    {
        let ghost out0 = out@.map_values(|s: Selector| s@);
        let ghost rest0 = rest@;
        let x = rest.remove(0);
        let ghost xv = x@;
        proof {
            assert(rest@ =~= rest0.drop_first());
            assert(rest0.map_values(|s: Selector| s@).len() == rest0.len());
            assert(all.subrange(taken, all.len() as int).len() == all.len() - taken);
            assert(taken < all.len());
            assert(rest0.map_values(|s: Selector| s@)[0] == xv);
            assert(all.subrange(taken, all.len() as int)[0] == all[taken]);
            assert(xv == all[taken]);
            assert forall|k: int| #![trigger rest@[k]] 0 <= k < rest@.len() implies rest@.map_values(
                |s: Selector| s@,
            )[k] == all.subrange(taken + 1, all.len() as int)[k] by {
                assert(rest@[k] == rest0[k + 1]);
                assert(rest@.map_values(|s: Selector| s@)[k] == rest@[k]@);
                assert(rest0.map_values(|s: Selector| s@)[k + 1] == rest0[k + 1]@);
                assert(all.subrange(taken, all.len() as int)[k + 1] == all[taken + 1 + k]);
                assert(all.subrange(taken + 1, all.len() as int)[k] == all[taken + 1 + k]);
            }
            assert(rest@.map_values(|s: Selector| s@) =~= all.subrange(taken + 1, all.len() as int));
        }
        let spec_x = x.specificity();
        let mut j: usize = 0;
        while j < out.len()
            invariant_except_break
                0 <= j <= out@.len(),
            invariant
                out@.map_values(|s: Selector| s@) == out0,
                out0.len() == out@.len(),
                (spec_x.0 as int, spec_x.1 as int, spec_x.2 as int) == spec_specificity(xv),
                forall|k: int|
                    0 <= k < j ==> spec_ge(spec_specificity(out0[k]), spec_specificity(xv)),
            ensures
                0 <= j <= out@.len(),
                j < out@.len() ==> !spec_ge(spec_specificity(out0[j as int]), spec_specificity(xv)),
            decreases out@.len() - j,
        {
            let sj = out[j].specificity();
            proof {
                assert(out@.map_values(|s: Selector| s@)[j as int] == out@[j as int]@);
            }
            if !specificity_ge(sj, spec_x) {
                break;
            }
            j = j + 1;
        }
        proof {
            lemma_insert_desc_at(out0, xv, j as int);
        }
        let ghost out_pre = out@;
        out.insert(j, x);
        proof {
            lemma_map_values_insert(out_pre, j as int, x);
            assert(out0.subrange(0, j as int) + seq![xv] + out0.subrange(j as int, out0.len() as int)
                =~= insert_desc(out0, xv));
            assert(out@.map_values(|s: Selector| s@) =~= insert_desc(out0, xv));
            assert(all.subrange(0, taken + 1).drop_last() =~= all.subrange(0, taken));
            assert(all.subrange(0, taken + 1).last() == all[taken]);
            assert(sort_desc(all.subrange(0, taken + 1)) == insert_desc(
                sort_desc(all.subrange(0, taken)),
                all[taken],
            ));
            taken = taken + 1;
        }
    }
    proof {
        assert(all.subrange(0, all.len() as int) =~= all);
    }
    out
}

/// An id selector outweighs any selector without an id, however many class
/// names the latter lists: the id count dominates the specificity order.
pub proof fn lemma_specificity_id_dominates(a: SelectorV, b: SelectorV)
    requires
        (a->Simple_0).id is Some,
        (b->Simple_0).id is None,
    ensures
        spec_ge(spec_specificity(a), spec_specificity(b)),
        spec_specificity(a) != spec_specificity(b),
{
}

/// Among selectors without an id, more class names outweigh any tag name:
/// the class count dominates tag presence.
pub proof fn lemma_specificity_class_dominates(a: SelectorV, b: SelectorV)
    requires
        (a->Simple_0).id is None,
        (b->Simple_0).id is None,
        (a->Simple_0).class.len() > (b->Simple_0).class.len(),
    ensures
        spec_ge(spec_specificity(a), spec_specificity(b)),
        spec_specificity(a) != spec_specificity(b),
{
}

/// A selector list in descending specificity order.
pub open spec fn sorted_desc(s: Seq<SelectorV>) -> bool {
    forall|i: int, j: int|
        0 <= i < j < s.len() ==> spec_ge(
            spec_specificity(#[trigger] s[i]),
            spec_specificity(#[trigger] s[j]),
        )
}

/// Inserting a selector into a descending-sorted list keeps it sorted, and
/// adds exactly that selector to its elements.
proof fn lemma_insert_desc_sorted(s: Seq<SelectorV>, x: SelectorV)
    requires
        sorted_desc(s),
    ensures
        sorted_desc(insert_desc(s, x)),
        insert_desc(s, x).len() == s.len() + 1,
        forall|k: int|
            0 <= k < insert_desc(s, x).len() ==> (#[trigger] insert_desc(s, x)[k] == x || exists|i: int|
                0 <= i < s.len() && insert_desc(s, x)[k] == s[i]),
    decreases s.len(),
{
    let r = insert_desc(s, x);
    if s.len() == 0 {
        assert(r == seq![x]);
        assert(r[0] == x);
    } else if spec_ge(spec_specificity(s[0]), spec_specificity(x)) {
        let tail = insert_desc(s.drop_first(), x);
        assert(r == seq![s[0]] + tail);
        assert(forall|i: int, j: int|
            0 <= i < j < s.drop_first().len() ==> spec_ge(
                spec_specificity(#[trigger] s.drop_first()[i]),
                spec_specificity(#[trigger] s.drop_first()[j]),
            ));
        lemma_insert_desc_sorted(s.drop_first(), x);
        assert(r[0] == s[0]);
        assert forall|k: int| 1 <= k < r.len() implies spec_ge(
            spec_specificity(r[0]),
            spec_specificity(#[trigger] r[k]),
        ) by {
            assert(r[k] == tail[k - 1]);
            if tail[k - 1] == x {
            } else {
                let i = choose|i: int| 0 <= i < s.drop_first().len() && tail[k - 1]
                    == s.drop_first()[i];
                assert(s.drop_first()[i] == s[i + 1]);
                assert(spec_ge(spec_specificity(s[0]), spec_specificity(s[i + 1])));
            }
        }
        assert forall|p: int, q: int| 0 <= p < q < r.len() implies spec_ge(
            spec_specificity(#[trigger] r[p]),
            spec_specificity(#[trigger] r[q]),
        ) by {
            if p > 0 {
                assert(r[p] == tail[p - 1]);
                assert(r[q] == tail[q - 1]);
            }
        }
        assert forall|k: int| 0 <= k < r.len() implies (#[trigger] r[k] == x || exists|i: int|
            0 <= i < s.len() && r[k] == s[i]) by {
            if k == 0 {
                assert(r[0] == s[0]);
            } else {
                assert(r[k] == tail[k - 1]);
                if tail[k - 1] != x {
                    let i = choose|i: int| 0 <= i < s.drop_first().len() && tail[k - 1]
                        == s.drop_first()[i];
                    assert(s.drop_first()[i] == s[i + 1]);
                    assert(r[k] == s[i + 1]);
                }
            }
        }
    } else {
        assert(r == seq![x] + s);
        assert(r[0] == x);
        assert(spec_ge(spec_specificity(x), spec_specificity(s[0])));
        assert forall|p: int, q: int| 0 <= p < q < r.len() implies spec_ge(
            spec_specificity(#[trigger] r[p]),
            spec_specificity(#[trigger] r[q]),
        ) by {
            if p == 0 {
                assert(r[q] == s[q - 1]);
                if q - 1 > 0 {
                    assert(spec_ge(spec_specificity(s[0]), spec_specificity(s[q - 1])));
                }
            } else {
                assert(r[p] == s[p - 1]);
                assert(r[q] == s[q - 1]);
            }
        }
        assert forall|k: int| 0 <= k < r.len() implies (#[trigger] r[k] == x || exists|i: int|
            0 <= i < s.len() && r[k] == s[i]) by {
            if k > 0 {
                assert(r[k] == s[k - 1]);
            }
        }
    }
}

/// Sorting a selector list by descending specificity yields a list in
/// descending specificity order: in every parsed rule, a selector never
/// stands after one of lower specificity.
pub proof fn lemma_sort_desc_sorted(s: Seq<SelectorV>)
    ensures
        sorted_desc(sort_desc(s)),
    decreases s.len(),
{
    if s.len() > 0 {
        lemma_sort_desc_sorted(s.drop_last());
        lemma_insert_desc_sorted(sort_desc(s.drop_last()), s.last());
    }
}

/// Why a parse failed; any failure aborts the whole parse.
#[derive(Debug, Clone, Copy, PartialEq, Eq, Structural)]
pub enum ParseError {
    /// A character that can start neither a selector separator nor a rule.
    UnexpectedCharacter,
    /// A required `:`, `;`, `{`, `}` or value was missing or cut short.
    MissingDelimiter,
    /// A length carried a unit other than `px`.
    UnknownUnit,
    /// A color was not `#` followed by six hex digits.
    MalformedColor,
    /// A numeric literal that is not a whole pixel count, or is out of range.
    BadNumber,
}


/// The character classes the tokenizer consumes runs of.
#[derive(Debug, Clone, Copy, PartialEq, Eq, Structural)]
pub enum CharClass {
    /// ASCII whitespace.
    Whitespace,
    /// Identifier characters: letters, digits, `-` and `_`.
    Identifier,
    /// Numeric literal characters: digits and `.`.
    Numeric,
}

/// ASCII whitespace.
pub open spec fn is_space_char(c: char) -> bool {
    c == ' ' || c == '\t' || c == '\n' || c == '\r' || c == '\u{b}' || c == '\u{c}'
}

/// A character an identifier may contain.
pub open spec fn is_ident_char(c: char) -> bool {
    ('a' as u32 <= c as u32 && c as u32 <= 'z' as u32) || ('A' as u32 <= c as u32 && c as u32
        <= 'Z' as u32) || ('0' as u32 <= c as u32 && c as u32 <= '9' as u32) || c == '-' || c == '_'
}

/// A decimal digit.
pub open spec fn is_digit_char(c: char) -> bool {
    '0' as u32 <= c as u32 && c as u32 <= '9' as u32
}

/// A character a numeric literal may contain.
pub open spec fn is_num_char(c: char) -> bool {
    is_digit_char(c) || c == '.'
}

/// Whether a character belongs to a class.
pub open spec fn class_holds(cl: CharClass, c: char) -> bool {
    match cl {
        CharClass::Whitespace => is_space_char(c),
        CharClass::Identifier => is_ident_char(c),
        CharClass::Numeric => is_num_char(c),
    }
}

/// Where the run of class characters beginning at `p` ends.
pub open spec fn run_end(cl: CharClass, s: Seq<char>, p: int) -> int
    decreases s.len() - p,
{
    if 0 <= p < s.len() && class_holds(cl, s[p]) {
        run_end(cl, s, p + 1)
    } else {
        p
    }
}

/// Where the whitespace beginning at `p` ends.
pub open spec fn skip_ws(s: Seq<char>, p: int) -> int {
    run_end(CharClass::Whitespace, s, p)
}

/// A run of class characters stays within the text, and every character in
/// it belongs to the class.
pub proof fn lemma_run_end(cl: CharClass, s: Seq<char>, p: int)
    requires
        0 <= p <= s.len(),
    ensures
        p <= run_end(cl, s, p) <= s.len(),
        forall|k: int| p <= k < run_end(cl, s, p) ==> class_holds(cl, s[k]),
        run_end(cl, s, p) < s.len() ==> !class_holds(cl, s[run_end(cl, s, p)]),
    decreases s.len() - p,
{
    if p < s.len() && class_holds(cl, s[p]) {
        lemma_run_end(cl, s, p + 1);
    }
}

/// The numeric value of a string of decimal digits.
pub open spec fn digits_val(t: Seq<char>) -> int
    decreases t.len(),
{
    if t.len() == 0 {
        0
    } else {
        10 * digits_val(t.drop_last()) + (t.last() as u32 - '0' as u32)
    }
}

/// Whether the token contains a decimal point.
pub open spec fn has_dot(t: Seq<char>) -> bool {
    exists|i: int| 0 <= i < t.len() && t[i] == '.'
}

/// The value of a hex digit, if the character is one.
pub open spec fn hex_val(c: char) -> Option<int> {
    if '0' as u32 <= c as u32 && c as u32 <= '9' as u32 {
        Some(c as u32 - '0' as u32)
    } else if 'a' as u32 <= c as u32 && c as u32 <= 'f' as u32 {
        Some(c as u32 - 'a' as u32 + 10)
    } else if 'A' as u32 <= c as u32 && c as u32 <= 'F' as u32 {
        Some(c as u32 - 'A' as u32 + 10)
    } else {
        None
    }
}

/// Whether the token is the unit keyword `px`, case-insensitively.
pub open spec fn is_px_keyword(t: Seq<char>) -> bool {
    t.len() == 2 && (t[0] == 'p' || t[0] == 'P') && (t[1] == 'x' || t[1] == 'X')
}

/// A simple selector with no tokens read yet.
pub open spec fn empty_simple_selector() -> SimpleSelectorV {
    SimpleSelectorV { tag_name: None, id: None, class: Seq::empty() }
}

/// Reads simple-selector tokens from `p` onward into the accumulator `acc`,
/// a later tag-name or id token overwriting an earlier one, and stops at the
/// first character that starts no token.
pub open spec fn sp_simple_selector(s: Seq<char>, p: int, acc: SimpleSelectorV) -> (
    SimpleSelectorV,
    int,
)
    decreases s.len() - p,
    via sp_simple_selector_dec
{
    if !(0 <= p < s.len()) {
        (acc, p)
    } else if s[p] == '#' {
        let q = run_end(CharClass::Identifier, s, p + 1);
        sp_simple_selector(s, q, SimpleSelectorV { id: Some(s.subrange(p + 1, q)), ..acc })
    } else if s[p] == '.' {
        let q = run_end(CharClass::Identifier, s, p + 1);
        sp_simple_selector(
            s,
            q,
            SimpleSelectorV { class: acc.class.push(s.subrange(p + 1, q)), ..acc },
        )
    } else if s[p] == '*' {
        sp_simple_selector(s, p + 1, acc)
    } else if is_ident_char(s[p]) {
        let q = run_end(CharClass::Identifier, s, p);
        sp_simple_selector(s, q, SimpleSelectorV { tag_name: Some(s.subrange(p, q)), ..acc })
    } else {
        (acc, p)
    }
}

#[via_fn]
proof fn sp_simple_selector_dec(s: Seq<char>, p: int, acc: SimpleSelectorV) {
    if 0 <= p < s.len() {
        lemma_run_end(CharClass::Identifier, s, p + 1);
        if is_ident_char(s[p]) {
            lemma_run_end(CharClass::Identifier, s, p);
            assert(run_end(CharClass::Identifier, s, p) == run_end(CharClass::Identifier, s, p + 1));
        }
    }
}

/// Reading a simple selector never runs past the end of the text.
pub proof fn lemma_simple_selector_bounds(s: Seq<char>, p: int, acc: SimpleSelectorV)
    requires
        0 <= p <= s.len(),
    ensures
        p <= sp_simple_selector(s, p, acc).1 <= s.len(),
    decreases s.len() - p,
{
    if 0 <= p < s.len() {
        lemma_run_end(CharClass::Identifier, s, p + 1);
        if s[p] == '#' {
            let q = run_end(CharClass::Identifier, s, p + 1);
            lemma_simple_selector_bounds(s, q, SimpleSelectorV { id: Some(s.subrange(p + 1, q)), ..acc });
        } else if s[p] == '.' {
            let q = run_end(CharClass::Identifier, s, p + 1);
            lemma_simple_selector_bounds(
                s,
                q,
                SimpleSelectorV { class: acc.class.push(s.subrange(p + 1, q)), ..acc },
            );
        } else if s[p] == '*' {
            lemma_simple_selector_bounds(s, p + 1, acc);
        } else if is_ident_char(s[p]) {
            lemma_run_end(CharClass::Identifier, s, p);
            assert(run_end(CharClass::Identifier, s, p) == run_end(CharClass::Identifier, s, p + 1));
            let q = run_end(CharClass::Identifier, s, p);
            lemma_simple_selector_bounds(s, q, SimpleSelectorV { tag_name: Some(s.subrange(p, q)), ..acc });
        }
    }
}

/// Reads a comma-separated selector list from `p`, in source order, stopping
/// just before the `{` that opens the declaration block.
pub open spec fn sp_selector_list(s: Seq<char>, p: int) -> Result<(Seq<SelectorV>, int), ParseError>
    decreases s.len() - p,
    via sp_selector_list_dec
{
    let (sel, p1) = sp_simple_selector(s, p, empty_simple_selector());
    let p2 = skip_ws(s, p1);
    if !(0 <= p2 < s.len()) {
        Err(ParseError::MissingDelimiter)
    } else if s[p2] == ',' {
        let p3 = skip_ws(s, p2 + 1);
        match sp_selector_list(s, p3) {
            Ok((rest, p4)) => Ok((seq![SelectorV::Simple(sel)] + rest, p4)),
            Err(e) => Err(e),
        }
    } else if s[p2] == '{' {
        Ok((seq![SelectorV::Simple(sel)], p2))
    } else {
        Err(ParseError::UnexpectedCharacter)
    }
}

#[via_fn]
proof fn sp_selector_list_dec(s: Seq<char>, p: int) {
    if 0 <= p <= s.len() {
        lemma_simple_selector_bounds(s, p, empty_simple_selector());
        let p1 = sp_simple_selector(s, p, empty_simple_selector()).1;
        lemma_run_end(CharClass::Whitespace, s, p1);
        let p2 = skip_ws(s, p1);
        if 0 <= p2 < s.len() && s[p2] == ',' {
            lemma_run_end(CharClass::Whitespace, s, p2 + 1);
        }
    }
}

/// The selector list of a rule: the selectors read in source order, then
/// sorted by descending specificity.
pub open spec fn sp_selectors(s: Seq<char>, p: int) -> Result<(Seq<SelectorV>, int), ParseError> {
    match sp_selector_list(s, p) {
        Ok((sels, q)) => Ok((sort_desc(sels), q)),
        Err(e) => Err(e),
    }
}

/// A selector list that reads successfully stops on the `{` that follows it.
pub proof fn lemma_selector_list_bounds(s: Seq<char>, p: int)
    requires
        0 <= p <= s.len(),
    ensures
        match sp_selector_list(s, p) {
            Ok((sels, q)) => p <= q < s.len() && s[q] == '{',
            Err(_) => true,
        },
    decreases s.len() - p,
{
    lemma_simple_selector_bounds(s, p, empty_simple_selector());
    let p1 = sp_simple_selector(s, p, empty_simple_selector()).1;
    lemma_run_end(CharClass::Whitespace, s, p1);
    let p2 = skip_ws(s, p1);
    if 0 <= p2 < s.len() && s[p2] == ',' {
        lemma_run_end(CharClass::Whitespace, s, p2 + 1);
        let p3 = skip_ws(s, p2 + 1);
        lemma_selector_list_bounds(s, p3);
    }
}

/// Reads a numeric literal at `p`: the run of digits, read as a whole pixel
/// count. A literal with a decimal point, or one beyond the pixel range, is
/// a [`ParseError::BadNumber`].
pub open spec fn sp_number(s: Seq<char>, p: int) -> Result<(int, int), ParseError> {
    let q = run_end(CharClass::Numeric, s, p);
    let t = s.subrange(p, q);
    if has_dot(t) || digits_val(t) > i64::MAX {
        Err(ParseError::BadNumber)
    } else {
        Ok((digits_val(t), q))
    }
}

/// Reads the unit keyword at `p`; only `px` (case-insensitive) is known.
pub open spec fn sp_unit(s: Seq<char>, p: int) -> Result<(Unit, int), ParseError> {
    let q = run_end(CharClass::Identifier, s, p);
    if is_px_keyword(s.subrange(p, q)) {
        Ok((Unit::Px, q))
    } else {
        Err(ParseError::UnknownUnit)
    }
}

/// Reads a length value: a numeric literal immediately followed by a unit.
pub open spec fn sp_length(s: Seq<char>, p: int) -> Result<(ValueV, int), ParseError> {
    match sp_number(s, p) {
        Err(e) => Err(e),
        Ok((v, q)) => match sp_unit(s, q) {
            Err(e) => Err(e),
            Ok((u, q2)) => Ok((ValueV::Length(v, u), q2)),
        },
    }
}

/// Reads two hex digits at `p` as one color channel.
pub open spec fn sp_hex_pair(s: Seq<char>, p: int) -> Result<(int, int), ParseError> {
    if p + 2 > s.len() {
        Err(ParseError::MalformedColor)
    } else {
        match (hex_val(s[p]), hex_val(s[p + 1])) {
            (Some(h1), Some(h2)) => Ok((16 * h1 + h2, p + 2)),
            _ => Err(ParseError::MalformedColor),
        }
    }
}

/// Reads a color value: `#` followed by exactly six hex digits, with the
/// alpha channel forced to 255.
pub open spec fn sp_color(s: Seq<char>, p: int) -> Result<(ValueV, int), ParseError> {
    match sp_hex_pair(s, p + 1) {
        Err(e) => Err(e),
        Ok((r, p1)) => match sp_hex_pair(s, p1) {
            Err(e) => Err(e),
            Ok((g, p2)) => match sp_hex_pair(s, p2) {
                Err(e) => Err(e),
                Ok((b, p3)) => Ok(
                    (
                        ValueV::ColorValue(
                            Color { r: r as u8, g: g as u8, b: b as u8, a: 255 },
                        ),
                        p3,
                    ),
                ),
            },
        },
    }
}

/// Reads a declaration's value: a length if a digit follows, a color after
/// `#`, and otherwise a bare keyword.
pub open spec fn sp_value(s: Seq<char>, p: int) -> Result<(ValueV, int), ParseError> {
    if !(0 <= p < s.len()) {
        Err(ParseError::MissingDelimiter)
    } else if is_digit_char(s[p]) {
        sp_length(s, p)
    } else if s[p] == '#' {
        sp_color(s, p)
    } else {
        let q = run_end(CharClass::Identifier, s, p);
        Ok((ValueV::Keyword(s.subrange(p, q)), q))
    }
}

/// A value that reads successfully never runs past the end of the text.
pub proof fn lemma_value_bounds(s: Seq<char>, p: int)
    requires
        0 <= p <= s.len(),
    ensures
        match sp_value(s, p) {
            Ok((v, q)) => p <= q <= s.len(),
            Err(_) => true,
        },
{
    if 0 <= p < s.len() {
        lemma_run_end(CharClass::Numeric, s, p);
        lemma_run_end(CharClass::Identifier, s, p);
        let qn = run_end(CharClass::Numeric, s, p);
        lemma_run_end(CharClass::Identifier, s, qn);
    }
}

/// Reads one declaration: `identifier ':' value ';'`, whitespace allowed
/// between the tokens.
pub open spec fn sp_declaration(s: Seq<char>, p: int) -> Result<(DeclarationV, int), ParseError> {
    let q = run_end(CharClass::Identifier, s, p);
    let name = s.subrange(p, q);
    let q1 = skip_ws(s, q);
    if !(0 <= q1 < s.len() && s[q1] == ':') {
        Err(ParseError::MissingDelimiter)
    } else {
        let q2 = skip_ws(s, q1 + 1);
        match sp_value(s, q2) {
            Err(e) => Err(e),
            Ok((v, q3)) => {
                let q4 = skip_ws(s, q3);
                if !(0 <= q4 < s.len() && s[q4] == ';') {
                    Err(ParseError::MissingDelimiter)
                } else {
                    Ok((DeclarationV { name: name, value: v }, q4 + 1))
                }
            },
        }
    }
}

/// A declaration that reads successfully consumes at least one character.
pub proof fn lemma_declaration_bounds(s: Seq<char>, p: int)
    requires
        0 <= p <= s.len(),
    ensures
        match sp_declaration(s, p) {
            Ok((d, q)) => p < q <= s.len(),
            Err(_) => true,
        },
{
    lemma_run_end(CharClass::Identifier, s, p);
    let q = run_end(CharClass::Identifier, s, p);
    lemma_run_end(CharClass::Whitespace, s, q);
    let q1 = skip_ws(s, q);
    if 0 <= q1 < s.len() && s[q1] == ':' {
        lemma_run_end(CharClass::Whitespace, s, q1 + 1);
        let q2 = skip_ws(s, q1 + 1);
        lemma_value_bounds(s, q2);
        match sp_value(s, q2) {
            Ok((v, q3)) => {
                lemma_run_end(CharClass::Whitespace, s, q3);
            },
            Err(_) => {},
        }
    }
}

/// Reads the declarations after a `{`, up to and through the closing `}`.
pub open spec fn sp_decl_list(s: Seq<char>, p: int) -> Result<(Seq<DeclarationV>, int), ParseError>
    decreases s.len() - p,
    via sp_decl_list_dec
{
    let q = skip_ws(s, p);
    if !(0 <= q < s.len()) {
        Err(ParseError::MissingDelimiter)
    } else if s[q] == '}' {
        Ok((Seq::empty(), q + 1))
    } else {
        match sp_declaration(s, q) {
            Err(e) => Err(e),
            Ok((d, q2)) => match sp_decl_list(s, q2) {
                Err(e) => Err(e),
                Ok((ds, q3)) => Ok((seq![d] + ds, q3)),
            },
        }
    }
}

#[via_fn]
proof fn sp_decl_list_dec(s: Seq<char>, p: int) {
    if 0 <= p <= s.len() {
        lemma_run_end(CharClass::Whitespace, s, p);
        let q = skip_ws(s, p);
        lemma_declaration_bounds(s, q);
    }
}

/// A declaration block that reads successfully consumes at least its `}`.
pub proof fn lemma_decl_list_bounds(s: Seq<char>, p: int)
    requires
        0 <= p <= s.len(),
    ensures
        match sp_decl_list(s, p) {
            Ok((ds, q)) => p < q <= s.len(),
            Err(_) => true,
        },
    decreases s.len() - p,
{
    lemma_run_end(CharClass::Whitespace, s, p);
    let q = skip_ws(s, p);
    if 0 <= q < s.len() && s[q] != '}' {
        lemma_declaration_bounds(s, q);
        match sp_declaration(s, q) {
            Ok((d, q2)) => {
                lemma_decl_list_bounds(s, q2);
            },
            Err(_) => {},
        }
    }
}

/// Reads a brace-delimited declaration block, `{` and `}` included.
pub open spec fn sp_declarations(s: Seq<char>, p: int) -> Result<
    (Seq<DeclarationV>, int),
    ParseError,
> {
    if !(0 <= p < s.len() && s[p] == '{') {
        Err(ParseError::MissingDelimiter)
    } else {
        sp_decl_list(s, p + 1)
    }
}

/// Reads one rule: a selector list, then a brace-delimited declaration block.
pub open spec fn sp_rule(s: Seq<char>, p: int) -> Result<(RuleV, int), ParseError> {
    match sp_selectors(s, p) {
        Err(e) => Err(e),
        Ok((sels, q)) => match sp_declarations(s, q) {
            Err(e) => Err(e),
            Ok((ds, q2)) => Ok((RuleV { selectors: sels, declarations: ds }, q2)),
        },
    }
}

/// A rule that reads successfully consumes at least one character.
pub proof fn lemma_rule_bounds(s: Seq<char>, p: int)
    requires
        0 <= p <= s.len(),
    ensures
        match sp_rule(s, p) {
            Ok((r, q)) => p < q <= s.len(),
            Err(_) => true,
        },
{
    lemma_selector_list_bounds(s, p);
    match sp_selector_list(s, p) {
        Ok((sels, q)) => {
            lemma_decl_list_bounds(s, q + 1);
        },
        Err(_) => {},
    }
}

/// Prefixing a mapped sequence with one element's view.
proof fn lemma_map_values_cons_selector(rest: Seq<Selector>, x: Selector)
    ensures
        rest.insert(0, x).map_values(|s: Selector| s@) =~= seq![x@] + rest.map_values(
            |s: Selector| s@,
        ),
{
    let lhs = rest.insert(0, x).map_values(|s: Selector| s@);
    assert forall|k: int| #![trigger lhs[k]] 0 <= k < lhs.len() implies lhs[k] == (seq![x@]
        + rest.map_values(|s: Selector| s@))[k] by {
        if k == 0 {
            assert(rest.insert(0, x)[0] == x);
        } else {
            assert(rest.insert(0, x)[k] == rest[k - 1]);
            assert(rest.map_values(|s: Selector| s@)[k - 1] == rest[k - 1]@);
        }
    }
}

/// Prefixing a mapped sequence with one element's view.
proof fn lemma_map_values_cons_declaration(rest: Seq<Declaration>, x: Declaration)
    ensures
        rest.insert(0, x).map_values(|d: Declaration| d@) =~= seq![x@] + rest.map_values(
            |d: Declaration| d@,
        ),
{
    let lhs = rest.insert(0, x).map_values(|d: Declaration| d@);
    assert forall|k: int| #![trigger lhs[k]] 0 <= k < lhs.len() implies lhs[k] == (seq![x@]
        + rest.map_values(|d: Declaration| d@))[k] by {
        if k == 0 {
            assert(rest.insert(0, x)[0] == x);
        } else {
            assert(rest.insert(0, x)[k] == rest[k - 1]);
            assert(rest.map_values(|d: Declaration| d@)[k - 1] == rest[k - 1]@);
        }
    }
}

/// Prefixing a mapped sequence with one element's view.
proof fn lemma_map_values_cons_rule(rest: Seq<Rule>, x: Rule)
    ensures
        rest.insert(0, x).map_values(|r: Rule| r@) =~= seq![x@] + rest.map_values(|r: Rule| r@),
{
    let lhs = rest.insert(0, x).map_values(|r: Rule| r@);
    assert forall|k: int| #![trigger lhs[k]] 0 <= k < lhs.len() implies lhs[k] == (seq![x@]
        + rest.map_values(|r: Rule| r@))[k] by {
        if k == 0 {
            assert(rest.insert(0, x)[0] == x);
        } else {
            assert(rest.insert(0, x)[k] == rest[k - 1]);
            assert(rest.map_values(|r: Rule| r@)[k - 1] == rest[k - 1]@);
        }
    }
}

/// Appending to a mapped sequence of strings.
proof fn lemma_map_values_push_string(s: Seq<String>, x: String)
    ensures
        s.push(x).map_values(|c: String| c@) =~= s.map_values(|c: String| c@).push(x@),
{
    let lhs = s.push(x).map_values(|c: String| c@);
    assert forall|k: int| #![trigger lhs[k]] 0 <= k < lhs.len() implies lhs[k] == s.map_values(
        |c: String| c@,
    ).push(x@)[k] by {
        if k < s.len() {
            assert(s.push(x)[k] == s[k]);
            assert(s.map_values(|c: String| c@)[k] == s[k]@);
        } else {
            assert(s.push(x)[k] == x);
        }
    }
}

/// Reads rules separated by whitespace until the end of the text.
pub open spec fn sp_rules(s: Seq<char>, p: int) -> Result<(Seq<RuleV>, int), ParseError>
    decreases s.len() - p,
    via sp_rules_dec
{
    let q = skip_ws(s, p);
    if !(0 <= q < s.len()) {
        Ok((Seq::empty(), q))
    } else {
        match sp_rule(s, q) {
            Err(e) => Err(e),
            Ok((r, q2)) => match sp_rules(s, q2) {
                Err(e) => Err(e),
                Ok((rs, q3)) => Ok((seq![r] + rs, q3)),
            },
        }
    }
}

#[via_fn]
proof fn sp_rules_dec(s: Seq<char>, p: int) {
    if 0 <= p <= s.len() {
        lemma_run_end(CharClass::Whitespace, s, p);
        let q = skip_ws(s, p);
        lemma_rule_bounds(s, q);
    }
}

/// What parsing the whole text yields: the stylesheet's rules, or the error
/// that aborted the parse.
pub open spec fn sp_parse(s: Seq<char>) -> Result<StylesheetV, ParseError> {
    match sp_rules(s, 0) {
        Ok((rs, _)) => Ok(StylesheetV { rules: rs }),
        Err(e) => Err(e),
    }
}


/// Tests whether a character may appear in an identifier.
pub fn valid_identifier_char(c: char) -> (r: bool)
    ensures
        r == is_ident_char(c),
{
    let u = c as u32;
    (97 <= u && u <= 122) || (65 <= u && u <= 90) || (48 <= u && u <= 57) || c == '-' || c == '_'
}

/// Tests whether a character belongs to a class.
fn class_check(cl: CharClass, c: char) -> (r: bool)
    ensures
        r == class_holds(cl, c),
{
    match cl {
        CharClass::Whitespace => {
            c == ' ' || c == '\t' || c == '\n' || c == '\r' || c == '\u{b}' || c == '\u{c}'
        },
        CharClass::Identifier => valid_identifier_char(c),
        CharClass::Numeric => {
            let u = c as u32;
            (48 <= u && u <= 57) || c == '.'
        },
    }
}

/// The value of a hex digit, if the character is one.
fn hex_digit(c: char) -> (r: Option<u8>)
    ensures
        match r {
            Some(b) => hex_val(c) == Some(b as int),
            None => hex_val(c) is None,
        },
{
    let u = c as u32;
    if 48 <= u && u <= 57 {
        Some((u - 48) as u8)
    } else if 97 <= u && u <= 102 {
        Some((u - 97 + 10) as u8)
    } else if 65 <= u && u <= 70 {
        Some((u - 65 + 10) as u8)
    } else {
        None
    }
}

/// Digit strings are never negative.
proof fn lemma_digits_nonneg(t: Seq<char>)
    requires
        forall|k: int| 0 <= k < t.len() ==> is_digit_char(t[k]),
    ensures
        digits_val(t) >= 0,
    decreases t.len(),
{
    if t.len() > 0 {
        lemma_digits_nonneg(t.drop_last());
        assert(is_digit_char(t[t.len() - 1]));
    }
}

/// A digit string is worth at least any of its prefixes.
proof fn lemma_digits_prefix_le(t: Seq<char>, k: int)
    requires
        forall|j: int| 0 <= j < t.len() ==> is_digit_char(t[j]),
        0 <= k <= t.len(),
    ensures
        digits_val(t.subrange(0, k)) <= digits_val(t),
    decreases t.len() - k,
{
    if k == t.len() {
        assert(t.subrange(0, k) =~= t);
    } else {
        let a = t.subrange(0, k);
        let b = t.subrange(0, k + 1);
        assert(b.drop_last() =~= a);
        assert(is_digit_char(b.last()));
        assert(forall|j: int| 0 <= j < a.len() ==> is_digit_char(a[j]));
        lemma_digits_nonneg(a);
        assert(digits_val(b) == 10 * digits_val(a) + (b.last() as u32 - '0' as u32));
        lemma_digits_prefix_le(t, k + 1);
    }
}

/// Reads a run of numeric characters as a whole pixel count; a decimal point
/// or a value beyond the pixel range is a [`ParseError::BadNumber`].
fn digits_to_px(t: &str) -> (r: Result<Px, ParseError>)
    requires
        forall|k: int| 0 <= k < t@.len() ==> is_num_char(t@[k]),
    ensures
        match r {
            Ok(v) => !has_dot(t@) && digits_val(t@) <= i64::MAX && v as int == digits_val(t@),
            Err(e) => e == ParseError::BadNumber && (has_dot(t@) || digits_val(t@) > i64::MAX),
        },
{
    let n = t.unicode_len();
    let mut acc: i64 = 0;
    let mut i: usize = 0;
    proof {
        assert(t@.subrange(0, 0) =~= Seq::<char>::empty());
    }
    while i < n
        invariant
            0 <= i <= n,
            n == t@.len(),
            forall|k: int| 0 <= k < t@.len() ==> is_num_char(t@[k]),
            forall|k: int| 0 <= k < i ==> t@[k] != '.',
            0 <= acc <= i64::MAX,
            acc as int == digits_val(t@.subrange(0, i as int)),
        decreases n - i,
    {
        let c = t.get_char(i);
        if c == '.' {
            proof {
                assert(has_dot(t@));
            }
            return Err(ParseError::BadNumber);
        }
        proof {
            assert(is_num_char(t@[i as int]));
            assert(is_digit_char(t@[i as int]));
        }
        let u = c as u32;
        let d = (u - 48) as i64;
        let ghost prefix = t@.subrange(0, i as int);
        let ghost prefix1 = t@.subrange(0, i + 1);
        proof {
            assert(prefix1.drop_last() =~= prefix);
            assert(prefix1.last() == t@[i as int]);
            assert(digits_val(prefix1) == 10 * digits_val(prefix) + (t@[i as int] as u32 - '0'
                as u32));
        }
        if acc > 922337203685477580 || (acc == 922337203685477580 && d > 7) {
            proof {
                assert(digits_val(prefix1) > i64::MAX);
                if !has_dot(t@) {
                    assert(forall|j: int| 0 <= j < t@.len() ==> is_digit_char(t@[j]));
                    lemma_digits_prefix_le(t@, i + 1);
                }
            }
            return Err(ParseError::BadNumber);
        }
        acc = acc * 10 + d;
        i = i + 1;
    }
    proof {
        assert(t@.subrange(0, n as int) =~= t@);
        assert(!has_dot(t@));
    }
    Ok(acc)
}

/// The stylesheet reader: the text and how far it has read.
struct Parser {
    pos: usize,
    input: String,
}

impl Parser {
    /// The reading position never passes the end of the text, whose length
    /// is known to be addressable.
    spec fn wf(self) -> bool {
        self.pos as int <= self.input@.len() && self.input@.len() <= usize::MAX as int
    }

    /// Whether the whole text has been read.
    fn eof(&self) -> (r: bool)
        ensures
            r == (self.pos as int >= self.input@.len()),
    {
        self.pos >= self.input.as_str().unicode_len()
    }

    /// The next character; the caller must know there is one.
    fn next_char(&self) -> (c: char)
        requires
            self.pos < self.input@.len(),
        ensures
            c == self.input@[self.pos as int],
    {
        self.input.as_str().get_char(self.pos)
    }

    /// Reads the next character and moves past it.
    fn consume_char(&mut self) -> (c: char)
        requires
            old(self).wf(),
            old(self).pos < old(self).input@.len(),
        ensures
            final(self).wf(),
            final(self).input == old(self).input,
            final(self).pos == old(self).pos + 1,
            c == old(self).input@[old(self).pos as int],
    {
        let c = self.next_char();
        self.pos = self.pos + 1;
        c
    }

    /// Reads the run of characters of one class starting here.
    fn consume_while(&mut self, cl: CharClass) -> (r: String)
        requires
            old(self).wf(),
        ensures
            final(self).wf(),
            final(self).input == old(self).input,
            final(self).pos as int == run_end(cl, old(self).input@, old(self).pos as int),
            r@ == old(self).input@.subrange(old(self).pos as int, final(self).pos as int),
    {
        let ghost in0 = self.input;
        let ghost s0 = self.input@;
        let ghost p0 = self.pos as int;
        let start = self.pos;
        loop
            invariant
                self.wf(),
                self.input == in0,
                self.input@ == s0,
                p0 <= self.pos as int <= s0.len(),
                start as int == p0,
                run_end(cl, s0, p0) == run_end(cl, s0, self.pos as int),
            ensures
                self.wf(),
                self.input == in0,
                self.input@ == s0,
                self.pos as int == run_end(cl, s0, p0),
                start as int == p0,
            decreases s0.len() - self.pos,
        {
            if self.eof() {
                proof {
                    assert(run_end(cl, s0, self.pos as int) == self.pos as int);
                }
                break;
            }
            let c = self.next_char();
            if !class_check(cl, c) {
                proof {
                    assert(run_end(cl, s0, self.pos as int) == self.pos as int);
                }
                break;
            }
            proof {
                assert(run_end(cl, s0, self.pos as int) == run_end(cl, s0, self.pos + 1));
            }
            self.pos = self.pos + 1;
        }
        self.input.as_str().substring_char(start, self.pos).to_owned()
    }

    /// Reads the identifier starting here; it may be empty.
    fn parse_identifier(&mut self) -> (r: String)
        requires
            old(self).wf(),
        ensures
            final(self).wf(),
            final(self).input == old(self).input,
            final(self).pos as int == run_end(
                CharClass::Identifier,
                old(self).input@,
                old(self).pos as int,
            ),
            r@ == old(self).input@.subrange(old(self).pos as int, final(self).pos as int),
    {
        self.consume_while(CharClass::Identifier)
    }

    /// Moves past any whitespace here.
    fn consume_whitespace(&mut self)
        requires
            old(self).wf(),
        ensures
            final(self).wf(),
            final(self).input == old(self).input,
            final(self).pos as int == skip_ws(old(self).input@, old(self).pos as int),
    {
        let _ = self.consume_while(CharClass::Whitespace);
    }

    /// Reads the unit keyword here; only `px` (case-insensitive) is known.
    fn parse_unit(&mut self) -> (r: Result<Unit, ParseError>)
        requires
            old(self).wf(),
        ensures
            final(self).wf(),
            final(self).input == old(self).input,
            ({
                let t = sp_unit(old(self).input@, old(self).pos as int);
                match (r, t) {
                    (Ok(u), Ok(tv)) => u == tv.0 && final(self).pos as int == tv.1,
                    (Err(e), Err(te)) => e == te,
                    _ => false,
                }
            }),
    {
        let id = self.parse_identifier();
        let idr = id.as_str();
        if idr.unicode_len() == 2 {
            let c0 = idr.get_char(0);
            let c1 = idr.get_char(1);
            if (c0 == 'p' || c0 == 'P') && (c1 == 'x' || c1 == 'X') {
                return Ok(Unit::Px);
            }
        }
        Err(ParseError::UnknownUnit)
    }

    /// Reads a length value: a whole pixel count followed by its unit.
    fn parse_length(&mut self) -> (r: Result<Value, ParseError>)
        requires
            old(self).wf(),
        ensures
            final(self).wf(),
            final(self).input == old(self).input,
            ({
                let t = sp_length(old(self).input@, old(self).pos as int);
                match (r, t) {
                    (Ok(v), Ok(tv)) => v@ == tv.0 && final(self).pos as int == tv.1,
                    (Err(e), Err(te)) => e == te,
                    _ => false,
                }
            }),
    {
        let ghost s0 = self.input@;
        let ghost p0 = self.pos as int;
        let tok = self.consume_while(CharClass::Numeric);
        proof {
            lemma_run_end(CharClass::Numeric, s0, p0);
        }
        let v = match digits_to_px(tok.as_str()) {
            Ok(v) => v,
            Err(e) => {
                return Err(e);
            },
        };
        let u = match self.parse_unit() {
            Ok(u) => u,
            Err(e) => {
                return Err(e);
            },
        };
        Ok(Value::Length(v, u))
    }

    /// Reads two hex digits as one color channel.
    fn parse_hex_pair(&mut self) -> (r: Result<u8, ParseError>)
        requires
            old(self).wf(),
        ensures
            final(self).wf(),
            final(self).input == old(self).input,
            ({
                let t = sp_hex_pair(old(self).input@, old(self).pos as int);
                match (r, t) {
                    (Ok(b), Ok(tv)) => b as int == tv.0 && final(self).pos as int == tv.1,
                    (Err(e), Err(te)) => e == te,
                    _ => false,
                }
            }),
    {
        let n = self.input.as_str().unicode_len();
        if n - self.pos < 2 {
            return Err(ParseError::MalformedColor);
        }
        let c1 = self.consume_char();
        let c2 = self.consume_char();
        let h1 = match hex_digit(c1) {
            Some(h) => h,
            None => {
                return Err(ParseError::MalformedColor);
            },
        };
        let h2 = match hex_digit(c2) {
            Some(h) => h,
            None => {
                return Err(ParseError::MalformedColor);
            },
        };
        Ok(h1 * 16 + h2)
    }

    /// Reads a color value: six hex digits after the `#`.
    fn parse_color(&mut self) -> (r: Result<Value, ParseError>)
        requires
            old(self).wf(),
            old(self).pos < old(self).input@.len(),
        ensures
            final(self).wf(),
            final(self).input == old(self).input,
            ({
                let t = sp_color(old(self).input@, old(self).pos as int);
                match (r, t) {
                    (Ok(v), Ok(tv)) => v@ == tv.0 && final(self).pos as int == tv.1,
                    (Err(e), Err(te)) => e == te,
                    _ => false,
                }
            }),
    {
        let _hash = self.consume_char();
        let r = match self.parse_hex_pair() {
            Ok(h) => h,
            Err(e) => {
                return Err(e);
            },
        };
        let g = match self.parse_hex_pair() {
            Ok(h) => h,
            Err(e) => {
                return Err(e);
            },
        };
        let b = match self.parse_hex_pair() {
            Ok(h) => h,
            Err(e) => {
                return Err(e);
            },
        };
        Ok(Value::ColorValue(Color { r: r, g: g, b: b, a: 255 }))
    }

    /// Reads a declaration's value.
    fn parse_value(&mut self) -> (r: Result<Value, ParseError>)
        requires
            old(self).wf(),
        ensures
            final(self).wf(),
            final(self).input == old(self).input,
            ({
                let t = sp_value(old(self).input@, old(self).pos as int);
                match (r, t) {
                    (Ok(v), Ok(tv)) => v@ == tv.0 && final(self).pos as int == tv.1,
                    (Err(e), Err(te)) => e == te,
                    _ => false,
                }
            }),
    {
        if self.eof() {
            return Err(ParseError::MissingDelimiter);
        }
        let c = self.next_char();
        let u = c as u32;
        if 48 <= u && u <= 57 {
            self.parse_length()
        } else if c == '#' {
            self.parse_color()
        } else {
            Ok(Value::Keyword(self.parse_identifier()))
        }
    }

    /// Reads one declaration: `identifier ':' value ';'`.
    fn parse_declaration(&mut self) -> (r: Result<Declaration, ParseError>)
        requires
            old(self).wf(),
        ensures
            final(self).wf(),
            final(self).input == old(self).input,
            ({
                let t = sp_declaration(old(self).input@, old(self).pos as int);
                match (r, t) {
                    (Ok(d), Ok(tv)) => d@ == tv.0 && final(self).pos as int == tv.1,
                    (Err(e), Err(te)) => e == te,
                    _ => false,
                }
            }),
    {
        let name = self.parse_identifier();
        self.consume_whitespace();
        if self.eof() {
            return Err(ParseError::MissingDelimiter);
        }
        let c = self.consume_char();
        if c != ':' {
            return Err(ParseError::MissingDelimiter);
        }
        self.consume_whitespace();
        let value = match self.parse_value() {
            Ok(v) => v,
            Err(e) => {
                return Err(e);
            },
        };
        self.consume_whitespace();
        if self.eof() {
            return Err(ParseError::MissingDelimiter);
        }
        let c2 = self.consume_char();
        if c2 != ';' {
            return Err(ParseError::MissingDelimiter);
        }
        Ok(Declaration { name: name, value: value })
    }

    /// Reads the simple-selector tokens from here into the accumulator.
    fn parse_simple_selector_more(&mut self, acc: SimpleSelector) -> (r: SimpleSelector)
        requires
            old(self).wf(),
        ensures
            final(self).wf(),
            final(self).input == old(self).input,
            ({
                let t = sp_simple_selector(old(self).input@, old(self).pos as int, acc@);
                r@ == t.0 && final(self).pos as int == t.1
            }),
        decreases old(self).input@.len() - old(self).pos,
    {
        let ghost s0 = self.input@;
        let ghost p0 = self.pos as int;
        let ghost acc0 = acc@;
        if self.eof() {
            return acc;
        }
        let c = self.next_char();
        if c == '#' {
            self.consume_char();
            proof {
                lemma_run_end(CharClass::Identifier, s0, p0 + 1);
            }
            let id = self.parse_identifier();
            let next = SimpleSelector { tag_name: acc.tag_name, id: Some(id), class: acc.class };
            proof {
                assert(next@ == SimpleSelectorV {
                    id: Some(s0.subrange(p0 + 1, run_end(CharClass::Identifier, s0, p0 + 1))),
                    ..acc0
                });
            }
            self.parse_simple_selector_more(next)
        } else if c == '.' {
            self.consume_char();
            proof {
                lemma_run_end(CharClass::Identifier, s0, p0 + 1);
            }
            let id = self.parse_identifier();
            let ghost idc = id;
            let mut next = acc;
            let ghost cls0 = next.class@;
            next.class.push(id);
            proof {
                lemma_map_values_push_string(cls0, idc);
                assert(next@ == SimpleSelectorV { class: acc0.class.push(idc@), ..acc0 });
            }
            self.parse_simple_selector_more(next)
        } else if c == '*' {
            self.consume_char();
            self.parse_simple_selector_more(acc)
        } else if valid_identifier_char(c) {
            proof {
                lemma_run_end(CharClass::Identifier, s0, p0);
                assert(run_end(CharClass::Identifier, s0, p0) == run_end(
                    CharClass::Identifier,
                    s0,
                    p0 + 1,
                ));
                lemma_run_end(CharClass::Identifier, s0, p0 + 1);
            }
            let tag = self.parse_identifier();
            let next = SimpleSelector { tag_name: Some(tag), id: acc.id, class: acc.class };
            proof {
                assert(next@ == SimpleSelectorV {
                    tag_name: Some(s0.subrange(p0, run_end(CharClass::Identifier, s0, p0))),
                    ..acc0
                });
            }
            self.parse_simple_selector_more(next)
        } else {
            acc
        }
    }

    /// Reads one simple selector from here.
    fn parse_simple_selector(&mut self) -> (r: SimpleSelector)
        requires
            old(self).wf(),
        ensures
            final(self).wf(),
            final(self).input == old(self).input,
            ({
                let t = sp_simple_selector(
                    old(self).input@,
                    old(self).pos as int,
                    empty_simple_selector(),
                );
                r@ == t.0 && final(self).pos as int == t.1
            }),
    {
        let acc = SimpleSelector { tag_name: None, id: None, class: Vec::new() };
        proof {
            assert(acc@.class =~= Seq::<Seq<char>>::empty());
            assert(acc@ == empty_simple_selector());
        }
        self.parse_simple_selector_more(acc)
    }

    /// Reads a comma-separated selector list, stopping just before the `{`.
    fn parse_selector_list(&mut self) -> (r: Result<Vec<Selector>, ParseError>)
        requires
            old(self).wf(),
        ensures
            final(self).wf(),
            final(self).input == old(self).input,
            ({
                let t = sp_selector_list(old(self).input@, old(self).pos as int);
                match (r, t) {
                    (Ok(sels), Ok(tv)) => sels@.map_values(|s: Selector| s@) == tv.0 && final(self).pos as int == tv.1,
                    (Err(e), Err(te)) => e == te,
                    _ => false,
                }
            }),
        decreases old(self).input@.len() - old(self).pos,
    {
        let ghost s0 = self.input@;
        let ghost p0 = self.pos as int;
        let sel = self.parse_simple_selector();
        proof {
            lemma_simple_selector_bounds(s0, p0, empty_simple_selector());
            lemma_run_end(
                CharClass::Whitespace,
                s0,
                sp_simple_selector(s0, p0, empty_simple_selector()).1,
            );
        }
        self.consume_whitespace();
        if self.eof() {
            return Err(ParseError::MissingDelimiter);
        }
        let c = self.next_char();
        if c == ',' {
            self.consume_char();
            proof {
                lemma_run_end(CharClass::Whitespace, s0, self.pos as int);
            }
            self.consume_whitespace();
            let rest = match self.parse_selector_list() {
                Ok(v) => v,
                Err(e) => {
                    return Err(e);
                },
            };
            let mut out = rest;
            let ghost restv = out@;
            out.insert(0, Selector::Simple(sel));
            proof {
                lemma_map_values_cons_selector(restv, Selector::Simple(sel));
            }
            Ok(out)
        } else if c == '{' {
            let mut v: Vec<Selector> = Vec::new();
            v.push(Selector::Simple(sel));
            proof {
                assert(v@.map_values(|s: Selector| s@) =~= seq![SelectorV::Simple(sel@)]);
            }
            Ok(v)
        } else {
            Err(ParseError::UnexpectedCharacter)
        }
    }

    /// Reads a rule's selector list and sorts it by descending specificity.
    fn parse_selectors(&mut self) -> (r: Result<Vec<Selector>, ParseError>)
        requires
            old(self).wf(),
        ensures
            final(self).wf(),
            final(self).input == old(self).input,
            ({
                let t = sp_selectors(old(self).input@, old(self).pos as int);
                match (r, t) {
                    (Ok(sels), Ok(tv)) => sels@.map_values(|s: Selector| s@) == tv.0 && final(self).pos as int == tv.1,
                    (Err(e), Err(te)) => e == te,
                    _ => false,
                }
            }),
    {
        match self.parse_selector_list() {
            Ok(sels) => Ok(sort_selectors(sels)),
            Err(e) => Err(e),
        }
    }

    /// Reads the declarations after a `{`, up to and through the closing `}`.
    fn parse_decl_list(&mut self) -> (r: Result<Vec<Declaration>, ParseError>)
        requires
            old(self).wf(),
        ensures
            final(self).wf(),
            final(self).input == old(self).input,
            ({
                let t = sp_decl_list(old(self).input@, old(self).pos as int);
                match (r, t) {
                    (Ok(ds), Ok(tv)) => ds@.map_values(|d: Declaration| d@) == tv.0 && final(self).pos as int == tv.1,
                    (Err(e), Err(te)) => e == te,
                    _ => false,
                }
            }),
        decreases old(self).input@.len() - old(self).pos,
    {
        let ghost s0 = self.input@;
        let ghost p0 = self.pos as int;
        proof {
            lemma_run_end(CharClass::Whitespace, s0, p0);
        }
        self.consume_whitespace();
        if self.eof() {
            return Err(ParseError::MissingDelimiter);
        }
        let c = self.next_char();
        if c == '}' {
            self.consume_char();
            let v: Vec<Declaration> = Vec::new();
            proof {
                assert(v@.map_values(|d: Declaration| d@) =~= Seq::<DeclarationV>::empty());
            }
            return Ok(v);
        }
        proof {
            lemma_declaration_bounds(s0, self.pos as int);
        }
        let d = match self.parse_declaration() {
            Ok(d) => d,
            Err(e) => {
                return Err(e);
            },
        };
        let rest = match self.parse_decl_list() {
            Ok(v) => v,
            Err(e) => {
                return Err(e);
            },
        };
        let mut out = rest;
        let ghost restv = out@;
        out.insert(0, d);
        proof {
            lemma_map_values_cons_declaration(restv, d);
        }
        Ok(out)
    }

    /// Reads a brace-delimited declaration block.
    fn parse_declarations(&mut self) -> (r: Result<Vec<Declaration>, ParseError>)
        requires
            old(self).wf(),
        ensures
            final(self).wf(),
            final(self).input == old(self).input,
            ({
                let t = sp_declarations(old(self).input@, old(self).pos as int);
                match (r, t) {
                    (Ok(ds), Ok(tv)) => ds@.map_values(|d: Declaration| d@) == tv.0 && final(self).pos as int == tv.1,
                    (Err(e), Err(te)) => e == te,
                    _ => false,
                }
            }),
    {
        if self.eof() {
            return Err(ParseError::MissingDelimiter);
        }
        let c = self.consume_char();
        if c != '{' {
            return Err(ParseError::MissingDelimiter);
        }
        self.parse_decl_list()
    }

    /// Reads one rule.
    fn parse_rule(&mut self) -> (r: Result<Rule, ParseError>)
        requires
            old(self).wf(),
        ensures
            final(self).wf(),
            final(self).input == old(self).input,
            ({
                let t = sp_rule(old(self).input@, old(self).pos as int);
                match (r, t) {
                    (Ok(rule), Ok(tv)) => rule@ == tv.0 && final(self).pos as int == tv.1,
                    (Err(e), Err(te)) => e == te,
                    _ => false,
                }
            }),
    {
        let selectors = match self.parse_selectors() {
            Ok(v) => v,
            Err(e) => {
                return Err(e);
            },
        };
        let declarations = match self.parse_declarations() {
            Ok(v) => v,
            Err(e) => {
                return Err(e);
            },
        };
        Ok(Rule { selectors: selectors, declarations: declarations })
    }

    /// Reads rules separated by whitespace until the end of the text.
    fn parse_rules(&mut self) -> (r: Result<Vec<Rule>, ParseError>)
        requires
            old(self).wf(),
        ensures
            final(self).wf(),
            final(self).input == old(self).input,
            ({
                let t = sp_rules(old(self).input@, old(self).pos as int);
                match (r, t) {
                    (Ok(rules), Ok(tv)) => rules@.map_values(|r: Rule| r@) == tv.0 && final(self).pos as int == tv.1,
                    (Err(e), Err(te)) => e == te,
                    _ => false,
                }
            }),
        decreases old(self).input@.len() - old(self).pos,
    {
        let ghost s0 = self.input@;
        let ghost p0 = self.pos as int;
        proof {
            lemma_run_end(CharClass::Whitespace, s0, p0);
        }
        self.consume_whitespace();
        if self.eof() {
            let v: Vec<Rule> = Vec::new();
            proof {
                assert(v@.map_values(|r: Rule| r@) =~= Seq::<RuleV>::empty());
            }
            return Ok(v);
        }
        proof {
            lemma_rule_bounds(s0, self.pos as int);
        }
        let rule = match self.parse_rule() {
            Ok(r) => r,
            Err(e) => {
                return Err(e);
            },
        };
        let rest = match self.parse_rules() {
            Ok(v) => v,
            Err(e) => {
                return Err(e);
            },
        };
        let mut out = rest;
        let ghost restv = out@;
        out.insert(0, rule);
        proof {
            lemma_map_values_cons_rule(restv, rule);
        }
        Ok(out)
    }
}

/// Parses stylesheet text into a stylesheet, or the error that aborted the
/// parse: exactly what the spec-level reader [`sp_parse`] yields on the
/// text's characters.
pub fn parse(source: String) -> (r: Result<Stylesheet, ParseError>)
    ensures
        match (r, sp_parse(source@)) {
            (Ok(sheet), Ok(v)) => sheet@ == v,
            (Err(e), Err(te)) => e == te,
            _ => false,
        },
{
    let text_len = source.as_str().unicode_len();
    let mut parser = Parser { pos: 0, input: source };
    proof {
        assert(parser.input@.len() == text_len as int);
        assert(parser.wf());
    }
    match parser.parse_rules() {
        Ok(rules) => Ok(Stylesheet { rules: rules }),
        Err(e) => Err(e),
    }
}

} // verus!
