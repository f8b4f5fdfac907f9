use vstd::prelude::*;
use crate::cascade::{cascaded, lemma_cascade_order_applies};
use crate::css::{
    specificity_less, specificity_lt, Declaration, Rule, Selector, SimpleSelector, Specificity,
    Stylesheet, Value,
};
use crate::dom::{ElementData, Node, NodeType};
use crate::table::Table;
use crate::text::{has_word, slice_views, str_eq};

verus! {

/// The resolved properties of a node, by property name.
pub type PropertyMap = Table<Value>;

/// A node of the document with the property values that hold for it.
#[derive(Debug)]
pub struct StyledNode<'a> {
    pub node: &'a Node,
    pub specified_values: PropertyMap,
    pub children: Vec<StyledNode<'a>>,
}

/// The model of a styled node: the document node, its values as a mapping,
/// and the models of its children in document order.
pub struct StyledTree {
    pub node: Node,
    pub values: Map<Seq<char>, Value>,
    pub children: Seq<StyledTree>,
}

/// The model of `styled`.
pub open spec fn styled_view(styled: StyledNode) -> StyledTree
    decreases styled,
{
    StyledTree {
        node: *styled.node,
        values: styled.specified_values@,
        children: Seq::new(
            styled.children.len() as nat,
            |i: int|
                if 0 <= i < styled.children.len() {
                    styled_view(styled.children[i])
                } else {
                    arbitrary()
                },
        ),
    }
}

impl<'a> View for StyledNode<'a> {
    type V = StyledTree;

    open spec fn view(&self) -> StyledTree {
        styled_view(*self)
    }
}

/// How a node takes part in layout.
#[derive(Clone, Copy, Debug, PartialEq, Eq, Structural)]
pub enum Display {
    Inline,
    Block,
    /// The node is left out of layout: `display: none`.
    Hidden,
}

/// The value that `values` holds for the property `name`, if any.
pub open spec fn value_in(values: Map<Seq<char>, Value>, name: Seq<char>) -> Option<Value> {
    if values.contains_key(name) {
        Some(values[name])
    } else {
        None
    }
}

/// The value of `name`; where that is absent the value of `fallback_name`;
/// where both are absent `default`.
pub open spec fn lookup_in(
    values: Map<Seq<char>, Value>,
    name: Seq<char>,
    fallback_name: Seq<char>,
    default: Value,
) -> Value {
    if values.contains_key(name) {
        values[name]
    } else if values.contains_key(fallback_name) {
        values[fallback_name]
    } else {
        default
    }
}

/// The display mode that `values` asks for: `Block` where the `display`
/// property is the keyword `block`, `Hidden` where it is the keyword `none`,
/// and `Inline` for every other value and where the property is absent.
pub open spec fn display_in(values: Map<Seq<char>, Value>) -> Display {
    match value_in(values, "display"@) {
        Some(Value::Keyword(word)) => if word@ == "block"@ {
            Display::Block
        } else if word@ == "none"@ {
            Display::Hidden
        } else {
            Display::Inline
        },
        _ => Display::Inline,
    }
}

impl<'a> StyledNode<'a> {
    /// The value of the property `name`, if the node has one.
    pub fn value(&self, name: &str) -> (found: Option<Value>)
        ensures
            found == value_in(self.specified_values@, name@),
    {
        match self.specified_values.get(name) {
            Some(value) => Some(value.clone()),
            None => None,
        }
    }

    /// The value of the property `name`, or of `fallback_name` where the
    /// node has no `name`, or `default` where it has neither.
    pub fn lookup(&self, name: &str, fallback_name: &str, default: &Value) -> (value: Value)
        ensures
            value == lookup_in(self.specified_values@, name@, fallback_name@, *default),
    {
        match self.value(name) {
            Some(value) => value,
            None => match self.value(fallback_name) {
                Some(value) => value,
                None => default.clone(),
            },
        }
    }

    /// The display mode of the node.
    pub fn display(&self) -> (mode: Display)
        ensures
            mode == display_in(self.specified_values@),
    {
        match self.value("display") {
            Some(Value::Keyword(word)) => {
                if str_eq(word.as_str(), "block") {
                    Display::Block
                } else if str_eq(word.as_str(), "none") {
                    Display::Hidden
                } else {
                    Display::Inline
                }
            },
            _ => Display::Inline,
        }
    }
}

/// Whether `selector` matches `elem`: the tag name and the id are those of
/// the element, where the selector names them, and every class of the
/// selector is among the classes of the element.
pub open spec fn simple_selector_matches(elem: ElementData, selector: SimpleSelector) -> bool {
    &&& selector.tag_name matches Some(name) ==> elem.tag_name@ == name@
    &&& selector.id matches Some(id) ==> elem.id_value() == Some(id@)
    &&& forall|i: int|
        0 <= i < selector.class.len() ==> elem.class_names().contains(#[trigger] selector.class[i]@)
}

/// Whether `selector` matches `elem`.
pub open spec fn selector_matches(elem: ElementData, selector: Selector) -> bool {
    match selector {
        Selector::Simple(simple) => simple_selector_matches(elem, simple),
    }
}

/// The place of the first of `selectors`, from place `from` on, that matches
/// `elem`.
pub open spec fn first_match(elem: ElementData, selectors: Seq<Selector>, from: int) -> Option<int>
    decreases selectors.len() - from,
{
    if from < 0 || from >= selectors.len() {
        None
    } else if selector_matches(elem, selectors[from]) {
        Some(from)
    } else {
        first_match(elem, selectors, from + 1)
    }
}

/// The weight with which `rule` holds for `elem`: the weight of the first of
/// its selectors that matches, whether or not a later one weighs more. There
/// is none where no selector of the rule matches.
pub open spec fn rule_weight(elem: ElementData, rule: Rule) -> Option<Specificity> {
    match first_match(elem, rule.selectors@, 0) {
        Some(i) => Some(rule.selectors[i].weight()),
        None => None,
    }
}

/// A rule with the weight with which it holds for an element.
pub type MatchedRule<'a> = (Specificity, &'a Rule);

/// The model of a list of matched rules.
pub open spec fn matched_view(matches: Seq<MatchedRule>) -> Seq<(Specificity, Rule)> {
    Seq::new(matches.len(), |i: int| (matches[i].0, *matches[i].1))
}

/// The rules among `rules` that hold for `elem`, in the order of `rules`,
/// each with its weight.
pub open spec fn matched_rules(elem: ElementData, rules: Seq<Rule>) -> Seq<(Specificity, Rule)>
    decreases rules.len(),
{
    if rules.len() == 0 {
        Seq::empty()
    } else {
        let before = matched_rules(elem, rules.drop_last());
        match rule_weight(elem, rules.last()) {
            Some(weight) => before.push((weight, rules.last())),
            None => before,
        }
    }
}

/// Whether the selector matches the element.
fn matches_simple_selector(elem: &ElementData, selector: &SimpleSelector) -> (matched: bool)
    ensures
        matched == simple_selector_matches(*elem, *selector),
{
    match &selector.tag_name {
        Some(name) => {
            if !str_eq(elem.tag_name.as_str(), name.as_str()) {
                return false;
            }
        },
        None => {},
    }
    match &selector.id {
        Some(id) => {
            match elem.id() {
                Some(elem_id) => {
                    if !str_eq(elem_id.as_str(), id.as_str()) {
                        return false;
                    }
                },
                None => {
                    return false;
                },
            }
        },
        None => {},
    }
    let elem_classes = elem.classes();
    let mut i: usize = 0;
    while i < selector.class.len()
        invariant
            i <= selector.class.len(),
            slice_views(elem_classes@) == elem.class_names(),
            forall|k: int|
                0 <= k < i ==> elem.class_names().contains(#[trigger] selector.class[k]@),
        decreases selector.class.len() - i,
    {
        if !has_word(&elem_classes, selector.class[i].as_str()) {
            return false;
        }
        i += 1;
    }
    true
}

/// Whether the selector matches the element.
fn matches(elem: &ElementData, selector: &Selector) -> (matched: bool)
    ensures
        matched == selector_matches(*elem, *selector),
{
    match selector {
        Selector::Simple(simple_selector) => matches_simple_selector(elem, simple_selector),
    }
}

/// The rule with its weight, where the rule holds for `elem`.
fn match_rule<'a>(elem: &ElementData, rule: &'a Rule) -> (found: Option<MatchedRule<'a>>)
    ensures
        match found {
            Some(matched) => rule_weight(*elem, *rule) == Some(matched.0) && *matched.1 == *rule,
            None => rule_weight(*elem, *rule) is None,
        },
{
    let mut i: usize = 0;
    while i < rule.selectors.len()
        invariant
            i <= rule.selectors.len(),
            first_match(*elem, rule.selectors@, 0) == first_match(*elem, rule.selectors@, i as int),
        decreases rule.selectors.len() - i,
    {
        if matches(elem, &rule.selectors[i]) {
            return Some((rule.selectors[i].specificity(), rule));
        }
        i += 1;
    }
    None
}

/// The rules of the stylesheet that hold for `elem`, in the order of the
/// stylesheet.
fn matching_rules<'a>(elem: &ElementData, stylesheet: &'a Stylesheet) -> (found: Vec<
    MatchedRule<'a>,
>)
    ensures
        matched_view(found@) == matched_rules(*elem, stylesheet.rules@),
{
    let mut found: Vec<MatchedRule<'a>> = Vec::new();
    let mut i: usize = 0;
    assert(stylesheet.rules@.take(0) == Seq::<Rule>::empty());
    while i < stylesheet.rules.len()
        invariant
            i <= stylesheet.rules.len(),
            matched_view(found@) == matched_rules(*elem, stylesheet.rules@.take(i as int)),
        decreases stylesheet.rules.len() - i,
    {
        let ghost before = matched_view(found@);
        assert(stylesheet.rules@.take(i + 1).drop_last() == stylesheet.rules@.take(i as int));
        match match_rule(elem, &stylesheet.rules[i]) {
            Some(matched) => {
                found.push(matched);
                assert(matched_view(found@) == before.push((matched.0, *matched.1)));
            },
            None => {},
        }
        i += 1;
    }
    assert(stylesheet.rules@.take(i as int) == stylesheet.rules@);
    found
}

/// `sorted` with `matched` put in behind every entry that does not weigh
/// more than it.
pub open spec fn placed<T>(sorted: Seq<(Specificity, T)>, matched: (Specificity, T)) -> Seq<
    (Specificity, T),
>
    decreases sorted.len(),
{
    if sorted.len() == 0 || !specificity_lt(matched.0, sorted.last().0) {
        sorted.push(matched)
    } else {
        placed(sorted.drop_last(), matched).push(sorted.last())
    }
}

/// The order in which matched rules are applied: by rising weight, and
/// rules of one weight in the order in which they stand in `matches`.
pub open spec fn cascade_order<T>(matches: Seq<(Specificity, T)>) -> Seq<(Specificity, T)>
    decreases matches.len(),
{
    if matches.len() == 0 {
        Seq::empty()
    } else {
        placed(cascade_order(matches.drop_last()), matches.last())
    }
}

/// `values` after `declarations` have been entered one after the other: a
/// later value for a name replaces an earlier one.
pub open spec fn declared(values: Map<Seq<char>, Value>, declarations: Seq<Declaration>) -> Map<
    Seq<char>,
    Value,
>
    decreases declarations.len(),
{
    if declarations.len() == 0 {
        values
    } else {
        declared(values, declarations.drop_last()).insert(
            declarations.last().name@,
            declarations.last().value,
        )
    }
}

/// `values` after the declarations of each of `matches` have been entered,
/// rule after rule.
pub open spec fn applied(values: Map<Seq<char>, Value>, matches: Seq<(Specificity, Rule)>) -> Map<
    Seq<char>,
    Value,
>
    decreases matches.len(),
{
    if matches.len() == 0 {
        values
    } else {
        declared(applied(values, matches.drop_last()), matches.last().1.declarations@)
    }
}

/// Whether a node takes the property `name` from its parent where no rule
/// gives it one.
pub open spec fn is_inherited(name: Seq<char>) -> bool {
    name == "color"@
}

/// What a node takes from a parent with the values `parent`: the inherited
/// properties that the parent has, with the parent's values, and nothing
/// where there is no parent.
pub open spec fn inherited(parent: Option<Map<Seq<char>, Value>>) -> Map<Seq<char>, Value> {
    match parent {
        Some(values) => values.restrict(Set::new(|name: Seq<char>| is_inherited(name))),
        None => Map::empty(),
    }
}

/// The values of a styled node, if there is one.
pub open spec fn values_of(node: Option<&StyledNode>) -> Option<Map<Seq<char>, Value>> {
    match node {
        Some(node) => Some(node.specified_values@),
        None => None,
    }
}

/// Whether a node takes the property from its parent.
fn should_inherit_rule(rule: &String) -> (inherit: bool)
    ensures
        inherit == is_inherited(rule@),
{
    str_eq(rule.as_str(), "color")
}

/// The values that a node starts from: what it takes from its parent.
fn inherit_rules(parent: Option<&StyledNode>) -> (values: PropertyMap)
    ensures
        values@ == inherited(values_of(parent)),
{
    let mut values = PropertyMap::new();
    match parent {
        Some(node) => {
            let from = &node.specified_values;
            let count = from.len();
            let ghost keys = from.keys();
            let mut i: usize = 0;
            assert(keys.take(0) == Seq::<Seq<char>>::empty());
            while i < count
                invariant
                    i <= count,
                    count == keys.len(),
                    keys == from.keys(),
                    forall|name: Seq<char>|
                        #![trigger from@.contains_key(name)]
                        from@.contains_key(name) <==> keys.contains(name),
                    forall|name: Seq<char>|
                        #![trigger values@.contains_key(name)]
                        values@.contains_key(name) <==> is_inherited(name) && keys.take(
                            i as int,
                        ).contains(name),
                    forall|name: Seq<char>|
                        #![trigger values@.contains_key(name)]
                        values@.contains_key(name) ==> from@.contains_key(name) && values@[name]
                            == from@[name],
                decreases count - i,
            {
                let (key, val) = from.entry_at(i);
                let ghost before = values@;
                let ghost seen = keys.take(i as int);
                let ghost next = keys.take(i + 1);
                if should_inherit_rule(key) {
                    values.insert(key.clone(), val.clone());
                }
                proof {
                    assert(next[i as int] == key@);
                    assert forall|name: Seq<char>| seen.contains(name) implies next.contains(
                        name,
                    ) by {
                        let k = choose|k: int| 0 <= k < seen.len() && seen[k] == name;
                        assert(next[k] == name);
                    }
                    assert forall|name: Seq<char>|
                        next.contains(name) && name != key@ implies seen.contains(name) by {
                        let k = choose|k: int| 0 <= k < next.len() && next[k] == name;
                        assert(seen[k] == name);
                    }
                    assert forall|name: Seq<char>|
                        #![trigger values@.contains_key(name)]
                        values@.contains_key(name) <==> is_inherited(name) && next.contains(
                            name,
                        ) by {
                        if name != key@ {
                            assert(values@.contains_key(name) == before.contains_key(name));
                        }
                    }
                }
                i += 1;
            }
            proof {
                assert(keys.take(count as int) == keys);
                let goal = inherited(values_of(parent));
                assert forall|name: Seq<char>| goal.contains_key(name) implies values@.contains_key(
                    name,
                ) by {
                    assert(from@.contains_key(name));
                }
                assert(values@ =~= goal);
            }
            values
        },
        None => values,
    }
}

/// To put an entry in place, the entries that weigh more than it can be
/// passed over one at a time, from the end.
proof fn lemma_placed_passes<T>(sorted: Seq<(Specificity, T)>, matched: (Specificity, T), j: int)
    requires
        0 < j <= sorted.len(),
        specificity_lt(matched.0, sorted[j - 1].0),
    ensures
        placed(sorted.take(j), matched) + sorted.skip(j) == placed(sorted.take(j - 1), matched)
            + sorted.skip(j - 1),
{
    let front = sorted.take(j);
    assert(front.last() == sorted[j - 1]);
    assert(front.drop_last() == sorted.take(j - 1));
    assert(placed(front, matched) == placed(sorted.take(j - 1), matched).push(sorted[j - 1]));
    assert(placed(sorted.take(j - 1), matched).push(sorted[j - 1]) + sorted.skip(j) =~= placed(
        sorted.take(j - 1),
        matched,
    ) + sorted.skip(j - 1));
}

/// An entry stands right behind the last entry that does not weigh more
/// than it.
proof fn lemma_placed_stops<T>(sorted: Seq<(Specificity, T)>, matched: (Specificity, T), j: int)
    requires
        0 <= j <= sorted.len(),
        j > 0 ==> !specificity_lt(matched.0, sorted[j - 1].0),
    ensures
        placed(sorted.take(j), matched) == sorted.take(j).push(matched),
{
    if j > 0 {
        assert(sorted.take(j).last() == sorted[j - 1]);
    }
}

/// The order of the models of matched rules is the order of the matched
/// rules: a rule stands for its model.
proof fn lemma_cascade_order_of_view(matches: Seq<MatchedRule>)
    ensures
        matched_view(cascade_order(matches)) == cascade_order(matched_view(matches)),
    decreases matches.len(),
{
    if matches.len() > 0 {
        lemma_cascade_order_of_view(matches.drop_last());
        assert(matched_view(matches).drop_last() == matched_view(matches.drop_last()));
        lemma_placed_of_view(cascade_order(matches.drop_last()), matches.last());
    } else {
        assert(matched_view(cascade_order(matches)) == Seq::<(Specificity, Rule)>::empty());
    }
}

/// A matched rule is put in where its model is put in among the models.
proof fn lemma_placed_of_view(sorted: Seq<MatchedRule>, matched: MatchedRule)
    ensures
        matched_view(placed(sorted, matched)) == placed(
            matched_view(sorted),
            (matched.0, *matched.1),
        ),
    decreases sorted.len(),
{
    let entry = (matched.0, *matched.1);
    if sorted.len() == 0 || !specificity_lt(matched.0, sorted.last().0) {
        assert(matched_view(sorted.push(matched)) == matched_view(sorted).push(entry));
    } else {
        lemma_placed_of_view(sorted.drop_last(), matched);
        assert(matched_view(sorted).drop_last() == matched_view(sorted.drop_last()));
        assert(matched_view(placed(sorted.drop_last(), matched).push(sorted.last()))
            == matched_view(placed(sorted.drop_last(), matched)).push(matched_view(sorted).last()));
    }
}

/// Puts the matched rules into the order in which they are applied.
fn sort_by_specificity(rules: &mut Vec<MatchedRule>)
    ensures
        final(rules)@ == cascade_order(old(rules)@),
{
    let ghost given = rules@;
    let mut i: usize = 0;
    assert(given.take(0) == Seq::<MatchedRule>::empty());
    while i < rules.len()
        invariant
            i <= rules.len(),
            rules.len() == given.len(),
            rules@.take(i as int) == cascade_order(given.take(i as int)),
            rules@.skip(i as int) == given.skip(i as int),
        decreases rules.len() - i,
    {
        let matched = rules[i];
        let ghost sorted = rules@.take(i as int);
        let ghost rest = rules@.skip(i + 1);
        proof {
            assert(given.take(i + 1).drop_last() == given.take(i as int));
            assert(given.skip(i as int)[0] == given[i as int]);
            assert(rules@.skip(i as int)[0] == matched);
            assert(rest == rules@.skip(i as int).skip(1));
            assert(given.skip(i + 1) == given.skip(i as int).skip(1));
            assert(sorted.take(i as int) == sorted);
            assert(placed(sorted, matched) == placed(sorted.take(i as int), matched) + sorted.skip(
                i as int,
            ));
        }
        let mut j: usize = i;
        while j > 0 && specificity_less(matched.0, rules[j - 1].0)
            invariant
                j <= i < rules.len(),
                rules.len() == given.len(),
                sorted.len() == i,
                forall|k: int| 0 <= k < j ==> #[trigger] rules@[k] == sorted[k],
                forall|k: int| j < k <= i ==> #[trigger] rules@[k] == sorted[k - 1],
                rules@.skip(i + 1) == rest,
                placed(sorted, matched) == placed(sorted.take(j as int), matched) + sorted.skip(
                    j as int,
                ),
            decreases j,
        {
            proof {
                lemma_placed_passes(sorted, matched, j as int);
            }
            let ghost before = rules@;
            let moved = rules[j - 1];
            rules.set(j, moved);
            assert(rules@.skip(i + 1) == before.skip(i + 1));
            j -= 1;
        }
        let ghost before = rules@;
        rules.set(j, matched);
        proof {
            lemma_placed_stops(sorted, matched, j as int);
            assert(rules@.skip(i + 1) == before.skip(i + 1));
            assert(rules@.take(i + 1) == sorted.take(j as int).push(matched) + sorted.skip(
                j as int,
            ));
        }
        i += 1;
    }
    assert(given.take(i as int) == given);
    assert(rules@.take(i as int) == rules@);
}

/// The values of an element under a stylesheet: what it takes from its
/// parent, and over that, for each property on which a rule has a say, the
/// value that the prevailing rule declares.
pub open spec fn element_values(
    elem: ElementData,
    stylesheet: Stylesheet,
    parent: Option<Map<Seq<char>, Value>>,
) -> Map<Seq<char>, Value> {
    cascaded(elem, stylesheet.rules@, inherited(parent))
}

/// The values of a node under a stylesheet. No rule holds for a text: it has
/// what it takes from its parent.
pub open spec fn node_values(
    node: Node,
    stylesheet: Stylesheet,
    parent: Option<Map<Seq<char>, Value>>,
) -> Map<Seq<char>, Value> {
    match node.node_type {
        NodeType::Element(elem) => element_values(elem, stylesheet, parent),
        NodeType::Text(_) => inherited(parent),
    }
}

/// The styled tree of `node` under a stylesheet, below a parent with the
/// values `parent`: the node with its values and, in the same order, the
/// styled trees of its children below it.
pub open spec fn styled(
    node: Node,
    stylesheet: Stylesheet,
    parent: Option<Map<Seq<char>, Value>>,
) -> StyledTree
    decreases node,
{
    let values = node_values(node, stylesheet, parent);
    StyledTree {
        node,
        values,
        children: Seq::new(
            node.children.len() as nat,
            |i: int|
                if 0 <= i < node.children.len() {
                    styled(node.children[i], stylesheet, Some(values))
                } else {
                    arbitrary()
                },
        ),
    }
}

/// The values of `elem` under the stylesheet, below `parent`.
fn specified_values(parent: Option<&StyledNode>, elem: &ElementData, stylesheet: &Stylesheet) -> (values:
    PropertyMap)
    ensures
        values@ == element_values(*elem, *stylesheet, values_of(parent)),
{
    let mut values = inherit_rules(parent);
    let mut rules = matching_rules(elem, stylesheet);
    proof {
        lemma_cascade_order_of_view(rules@);
    }
    sort_by_specificity(&mut rules);
    let ghost start = values@;
    let ghost order = matched_view(rules@);
    assert(order.take(0) == Seq::<(Specificity, Rule)>::empty());
    let mut i: usize = 0;
    while i < rules.len()
        invariant
            i <= rules.len(),
            order == matched_view(rules@),
            values@ == applied(start, order.take(i as int)),
        decreases rules.len() - i,
    {
        let rule = rules[i].1;
        let ghost before = values@;
        proof {
            assert(order.take(i + 1).drop_last() == order.take(i as int));
            assert(order.take(i + 1).last().1 == *rule);
            assert(rule.declarations@.take(0) == Seq::<Declaration>::empty());
        }
        let mut d: usize = 0;
        while d < rule.declarations.len()
            invariant
                d <= rule.declarations.len(),
                values@ == declared(before, rule.declarations@.take(d as int)),
            decreases rule.declarations.len() - d,
        {
            let declaration = &rule.declarations[d];
            proof {
                let next = rule.declarations@.take(d + 1);
                assert(next.drop_last() == rule.declarations@.take(d as int));
                assert(next.last() == *declaration);
            }
            values.insert(declaration.name.clone(), declaration.value.clone());
            d += 1;
        }
        assert(rule.declarations@.take(d as int) == rule.declarations@);
        i += 1;
    }
    proof {
        assert(order.take(i as int) == order);
        lemma_cascade_order_applies(*elem, stylesheet.rules@, start);
    }
    values
}

/// Resolves the values of every node of the document tree below `root`,
/// which stands below `parent`, if any. The resulting tree has the shape of
/// the document tree.
pub fn style_tree<'a>(
    root: &'a Node,
    stylesheet: &'a Stylesheet,
    parent: Option<&StyledNode<'a>>,
) -> (styled_root: StyledNode<'a>)
    ensures
        styled_root@ == styled(*root, *stylesheet, values_of(parent)),
    decreases root,
{
    let mut node = StyledNode {
        node: root,
        specified_values: match &root.node_type {
            NodeType::Element(elem) => specified_values(parent, elem, stylesheet),
            NodeType::Text(_) => inherit_rules(parent),
        },
        children: Vec::new(),
    };
    let ghost values = node.specified_values@;
    let mut children: Vec<StyledNode<'a>> = Vec::new();
    let mut i: usize = 0;
    while i < root.children.len()
        invariant
            i <= root.children.len(),
            children.len() == i,
            node.specified_values@ == values,
            forall|k: int|
                0 <= k < i ==> (#[trigger] children[k])@ == styled(
                    root.children[k],
                    *stylesheet,
                    Some(values),
                ),
        decreases root.children.len() - i,
    {
        let child = style_tree(&root.children[i], stylesheet, Some(&node));
        children.push(child);
        i += 1;
    }
    node.children = children;
    assert(node@.children =~= styled(*root, *stylesheet, values_of(parent)).children);
    node
}

/// Two runs of `style_tree` on the same document, stylesheet and parent give
/// the same styled tree.
pub proof fn lemma_style_tree_deterministic<'a>(
    root: &'a Node,
    stylesheet: &'a Stylesheet,
    parent: Option<&StyledNode<'a>>,
    first: StyledNode<'a>,
    second: StyledNode<'a>,
)
    requires
        call_ensures(style_tree, (root, stylesheet, parent), first),
        call_ensures(style_tree, (root, stylesheet, parent), second),
    ensures
        first@ == second@,
{
}

} // verus!
