use vstd::prelude::*;
use crate::css::{specificity_lt, Declaration, Rule, Specificity, Stylesheet, Value};
use crate::dom::{ElementData, Node};
use crate::style::{
    applied, cascade_order, declared, display_in, element_values, first_match, inherited,
    is_inherited, matched_rules, node_values, placed, rule_weight, selector_matches, value_in,
    Display,
};

verus! {

/// The declarations of a rule as a mapping: each name that the rule
/// declares, with the last value that the rule declares for it.
pub open spec fn rule_values(rule: Rule) -> Map<Seq<char>, Value> {
    declared(Map::empty(), rule.declarations@)
}

/// Whether `rule` has a say on the property `name` of `elem`: it holds for
/// the element and declares the property.
pub open spec fn contends(elem: ElementData, rule: Rule, name: Seq<char>) -> bool {
    rule_weight(elem, rule) is Some && rule_values(rule).contains_key(name)
}

/// Whether, of two rules that hold for `elem`, the one at place `i` goes
/// before the one at place `j`: it weighs more, or it weighs the same and
/// stands later in the stylesheet.
pub open spec fn outranks(elem: ElementData, rules: Seq<Rule>, i: int, j: int) -> bool {
    let weight_i = rule_weight(elem, rules[i])->0;
    let weight_j = rule_weight(elem, rules[j])->0;
    specificity_lt(weight_j, weight_i) || (weight_j == weight_i && j < i)
}

/// The place of the rule that decides the property `name` of `elem`, if any
/// rule has a say on it. Rule after rule, a rule that has a say takes over
/// unless the one that decided so far weighs more.
pub open spec fn prevailing(elem: ElementData, rules: Seq<Rule>, name: Seq<char>) -> Option<int>
    decreases rules.len(),
{
    if rules.len() == 0 {
        None
    } else {
        let before = prevailing(elem, rules.drop_last(), name);
        if !contends(elem, rules.last(), name) {
            before
        } else if before is Some && specificity_lt(
            rule_weight(elem, rules.last())->0,
            rule_weight(elem, rules[before->0])->0,
        ) {
            before
        } else {
            Some(rules.len() - 1)
        }
    }
}

/// The values of an element by what decides each of them: a property on
/// which some rule has a say has the value that the prevailing rule declares
/// for it; any other property has the value in `start`, if it has one there.
pub open spec fn cascaded(elem: ElementData, rules: Seq<Rule>, start: Map<Seq<char>, Value>) -> Map<
    Seq<char>,
    Value,
> {
    Map::new(
        |name: Seq<char>| start.contains_key(name) || prevailing(elem, rules, name) is Some,
        |name: Seq<char>|
            match prevailing(elem, rules, name) {
                Some(w) => rule_values(rules[w])[name],
                None => start[name],
            },
    )
}

/// The prevailing rule has a say on the property and goes before every other
/// rule that has one. Where no rule prevails, no rule has a say.
pub proof fn lemma_prevailing_outranks(elem: ElementData, rules: Seq<Rule>, name: Seq<char>)
    ensures
        match prevailing(elem, rules, name) {
            Some(w) => {
                &&& 0 <= w < rules.len()
                &&& contends(elem, rules[w], name)
                &&& forall|k: int|
                    0 <= k < rules.len() && k != w && #[trigger] contends(elem, rules[k], name)
                        ==> outranks(elem, rules, w, k)
            },
            None => forall|k: int|
                0 <= k < rules.len() ==> !#[trigger] contends(elem, rules[k], name),
        },
    decreases rules.len(),
{
    if rules.len() > 0 {
        let front = rules.drop_last();
        lemma_prevailing_outranks(elem, front, name);
        assert forall|k: int| 0 <= k < front.len() implies front[k] == #[trigger] rules[k] by {}
        if prevailing(elem, rules, name) is Some {
            let w = prevailing(elem, rules, name)->0;
            assert forall|k: int|
                0 <= k < rules.len() && k != w && #[trigger] contends(
                    elem,
                    rules[k],
                    name,
                ) implies outranks(elem, rules, w, k) by {
                if k < front.len() && w < front.len() {
                    assert(contends(elem, front[k], name));
                    assert(outranks(elem, front, w, k));
                } else if k < front.len() {
                    assert(contends(elem, front[k], name));
                    if prevailing(elem, front, name) is Some {
                        let v = prevailing(elem, front, name)->0;
                        if k != v {
                            assert(outranks(elem, front, v, k));
                        }
                    }
                }
            }
        } else {
            assert forall|k: int| 0 <= k < rules.len() implies !#[trigger] contends(
                elem,
                rules[k],
                name,
            ) by {
                if k < front.len() {
                    assert(!contends(elem, front[k], name));
                }
            }
        }
    }
}

/// A rule that has a say on the property and goes before every other rule
/// that has one is the prevailing rule: there is no second such rule.
pub proof fn lemma_prevailing_is(elem: ElementData, rules: Seq<Rule>, name: Seq<char>, w: int)
    requires
        0 <= w < rules.len(),
        contends(elem, rules[w], name),
        forall|k: int|
            0 <= k < rules.len() && k != w && #[trigger] contends(elem, rules[k], name)
                ==> outranks(elem, rules, w, k),
    ensures
        prevailing(elem, rules, name) == Some(w),
{
    lemma_prevailing_outranks(elem, rules, name);
    let v = prevailing(elem, rules, name)->0;
    if v != w {
        assert(outranks(elem, rules, v, w));
        assert(outranks(elem, rules, w, v));
    }
}

/// To apply the rules that hold for an element in cascade order, by rising
/// weight and rules of one weight in the order of the stylesheet, gives each
/// property the value that the prevailing rule declares for it.
pub proof fn lemma_cascade_order_applies(
    elem: ElementData,
    rules: Seq<Rule>,
    start: Map<Seq<char>, Value>,
)
    ensures
        applied(start, cascade_order(matched_rules(elem, rules))) == cascaded(elem, rules, start),
{
    let order = cascade_order(matched_rules(elem, rules));
    let values = applied(start, order);
    let goal = cascaded(elem, rules, start);
    assert forall|name: Seq<char>| #[trigger]
        values.contains_key(name) == goal.contains_key(name) && (values.contains_key(name)
            ==> values[name] == goal[name]) by {
        lemma_order_agrees(elem, rules, name);
        lemma_applied_value(start, order, name);
        lemma_last_say(order, name);
    }
    assert(values =~= goal);
}

/// An element for which no selector of any rule matches, and which has no
/// parent, has no values, and its display mode is `Inline`.
pub proof fn lemma_unmatched_root_has_no_values(elem: ElementData, stylesheet: Stylesheet)
    requires
        forall|i: int, k: int|
            0 <= i < stylesheet.rules.len() && 0 <= k < stylesheet.rules[i].selectors.len()
                ==> !selector_matches(elem, #[trigger] stylesheet.rules[i].selectors[k]),
    ensures
        element_values(elem, stylesheet, None) == Map::<Seq<char>, Value>::empty(),
        display_in(element_values(elem, stylesheet, None)) == Display::Inline,
{
    let rules = stylesheet.rules@;
    assert forall|name: Seq<char>| prevailing(elem, rules, name) is None by {
        lemma_prevailing_outranks(elem, rules, name);
        if prevailing(elem, rules, name) is Some {
            let w = prevailing(elem, rules, name)->0;
            lemma_first_match(elem, rules[w], 0);
        }
    }
    assert(element_values(elem, stylesheet, None) =~= Map::<Seq<char>, Value>::empty());
}

/// Of two rules with a say on a property, the one of greater weight goes
/// first, wherever the two stand in the stylesheet: the lighter one does not
/// prevail, and where no third rule has a say the element has the value that
/// the heavier one declares.
pub proof fn lemma_higher_specificity_wins(
    elem: ElementData,
    stylesheet: Stylesheet,
    parent: Option<Map<Seq<char>, Value>>,
    name: Seq<char>,
    heavy: int,
    light: int,
)
    requires
        0 <= heavy < stylesheet.rules.len(),
        0 <= light < stylesheet.rules.len(),
        contends(elem, stylesheet.rules[heavy], name),
        contends(elem, stylesheet.rules[light], name),
        specificity_lt(
            rule_weight(elem, stylesheet.rules[light])->0,
            rule_weight(elem, stylesheet.rules[heavy])->0,
        ),
    ensures
        prevailing(elem, stylesheet.rules@, name) is Some,
        prevailing(elem, stylesheet.rules@, name) != Some(light),
        (forall|k: int|
            0 <= k < stylesheet.rules.len() && #[trigger] contends(elem, stylesheet.rules[k], name)
                ==> k == heavy || k == light) ==> value_in(
            element_values(elem, stylesheet, parent),
            name,
        ) == Some(rule_values(stylesheet.rules[heavy])[name]),
{
    let rules = stylesheet.rules@;
    lemma_prevailing_outranks(elem, rules, name);
    if prevailing(elem, rules, name) == Some(light) {
        assert(outranks(elem, rules, light, heavy));
    }
}

/// Of two rules of one weight with a say on a property, the one that stands
/// later in the stylesheet goes first: the earlier one does not prevail, and
/// where no third rule has a say the element has the value that the later
/// one declares.
pub proof fn lemma_later_rule_wins_ties(
    elem: ElementData,
    stylesheet: Stylesheet,
    parent: Option<Map<Seq<char>, Value>>,
    name: Seq<char>,
    earlier: int,
    later: int,
)
    requires
        0 <= earlier < later < stylesheet.rules.len(),
        contends(elem, stylesheet.rules[earlier], name),
        contends(elem, stylesheet.rules[later], name),
        rule_weight(elem, stylesheet.rules[earlier]) == rule_weight(elem, stylesheet.rules[later]),
    ensures
        prevailing(elem, stylesheet.rules@, name) is Some,
        prevailing(elem, stylesheet.rules@, name) != Some(earlier),
        (forall|k: int|
            0 <= k < stylesheet.rules.len() && #[trigger] contends(elem, stylesheet.rules[k], name)
                ==> k == earlier || k == later) ==> value_in(
            element_values(elem, stylesheet, parent),
            name,
        ) == Some(rule_values(stylesheet.rules[later])[name]),
{
    let rules = stylesheet.rules@;
    lemma_prevailing_outranks(elem, rules, name);
    if prevailing(elem, rules, name) == Some(earlier) {
        assert(outranks(elem, rules, earlier, later));
    }
}

/// An element on whose `name` no rule has a say takes the property from its
/// parent where it is inherited, which `color` is: it has the parent's value,
/// or none where the parent has none. A property that is not inherited it
/// does not have at all.
pub proof fn lemma_undeclared_property(
    elem: ElementData,
    stylesheet: Stylesheet,
    parent: Map<Seq<char>, Value>,
    name: Seq<char>,
)
    requires
        forall|k: int|
            0 <= k < stylesheet.rules.len() ==> !#[trigger] contends(
                elem,
                stylesheet.rules[k],
                name,
            ),
    ensures
        is_inherited("color"@),
        is_inherited(name) ==> value_in(element_values(elem, stylesheet, Some(parent)), name)
            == value_in(parent, name),
        !is_inherited(name) ==> value_in(element_values(elem, stylesheet, Some(parent)), name)
            is None,
{
    lemma_prevailing_outranks(elem, stylesheet.rules@, name);
}

/// An element on whose `name` some rule has a say has the value that the
/// prevailing rule declares, whatever its parent has.
pub proof fn lemma_declared_property(
    elem: ElementData,
    stylesheet: Stylesheet,
    parent: Option<Map<Seq<char>, Value>>,
    name: Seq<char>,
    k: int,
)
    requires
        0 <= k < stylesheet.rules.len(),
        contends(elem, stylesheet.rules[k], name),
    ensures
        prevailing(elem, stylesheet.rules@, name) is Some,
        value_in(element_values(elem, stylesheet, parent), name) == Some(
            rule_values(stylesheet.rules[prevailing(elem, stylesheet.rules@, name)->0])[name],
        ),
{
    lemma_prevailing_outranks(elem, stylesheet.rules@, name);
}

/// A text has exactly what it takes from its parent: the parent's value of
/// each inherited property that the parent has, and no other property.
pub proof fn lemma_text_values(
    node: Node,
    stylesheet: Stylesheet,
    parent: Map<Seq<char>, Value>,
    name: Seq<char>,
)
    requires
        node.node_type is Text,
    ensures
        node_values(node, stylesheet, Some(parent)) == inherited(Some(parent)),
        value_in(node_values(node, stylesheet, Some(parent)), name) == if is_inherited(name) {
            value_in(parent, name)
        } else {
            None
        },
{
}

/// From place `from` on, `first_match` finds a selector that matches and
/// has no matching selector before it; it finds none where none matches.
pub proof fn lemma_first_match(elem: ElementData, rule: Rule, from: int)
    requires
        0 <= from,
    ensures
        match first_match(elem, rule.selectors@, from) {
            Some(i) => {
                &&& from <= i < rule.selectors.len()
                &&& selector_matches(elem, rule.selectors[i])
                &&& forall|k: int| from <= k < i ==> !selector_matches(elem, #[trigger] rule.selectors[k])
            },
            None => forall|k: int|
                from <= k < rule.selectors.len() ==> !selector_matches(
                    elem,
                    #[trigger] rule.selectors[k],
                ),
        },
    decreases rule.selectors.len() - from,
{
    if from < rule.selectors.len() && !selector_matches(elem, rule.selectors[from]) {
        lemma_first_match(elem, rule, from + 1);
    }
}

/// To enter declarations into a mapping is to lay their own mapping over it.
pub proof fn lemma_declared_overlays(values: Map<Seq<char>, Value>, declarations: Seq<Declaration>)
    ensures
        declared(values, declarations) == values.union_prefer_right(
            declared(Map::empty(), declarations),
        ),
    decreases declarations.len(),
{
    if declarations.len() > 0 {
        lemma_declared_overlays(values, declarations.drop_last());
    }
    assert(declared(values, declarations) =~= values.union_prefer_right(
        declared(Map::empty(), declarations),
    ));
}

/// The place of the last of `matches` whose rule declares `name`.
pub open spec fn last_say(matches: Seq<(Specificity, Rule)>, name: Seq<char>) -> Option<int>
    decreases matches.len(),
{
    if matches.len() == 0 {
        None
    } else if rule_values(matches.last().1).contains_key(name) {
        Some(matches.len() - 1)
    } else {
        last_say(matches.drop_last(), name)
    }
}

/// Where `last_say` finds a rule, the rule declares the name and no later
/// one does; where it finds none, none declares the name.
proof fn lemma_last_say(matches: Seq<(Specificity, Rule)>, name: Seq<char>)
    ensures
        match last_say(matches, name) {
            Some(k) => {
                &&& 0 <= k < matches.len()
                &&& rule_values(matches[k].1).contains_key(name)
                &&& forall|i: int|
                    k < i < matches.len() ==> !rule_values((#[trigger] matches[i]).1).contains_key(
                        name,
                    )
            },
            None => forall|i: int|
                0 <= i < matches.len() ==> !rule_values((#[trigger] matches[i]).1).contains_key(
                    name,
                ),
        },
    decreases matches.len(),
{
    if matches.len() > 0 {
        lemma_last_say(matches.drop_last(), name);
        if !rule_values(matches.last().1).contains_key(name) {
            assert forall|i: int| 0 <= i < matches.len() - 1 implies (#[trigger] matches[i])
                == matches.drop_last()[i] by {}
        }
    }
}

/// The place that meets what `lemma_last_say` states is the one that
/// `last_say` finds.
proof fn lemma_last_say_is(matches: Seq<(Specificity, Rule)>, name: Seq<char>, k: int)
    requires
        0 <= k < matches.len(),
        rule_values(matches[k].1).contains_key(name),
        forall|i: int|
            k < i < matches.len() ==> !rule_values((#[trigger] matches[i]).1).contains_key(name),
    ensures
        last_say(matches, name) == Some(k),
{
    lemma_last_say(matches, name);
}

/// Where no rule of `matches` declares `name`, `last_say` finds none.
proof fn lemma_last_say_none(matches: Seq<(Specificity, Rule)>, name: Seq<char>)
    requires
        forall|i: int|
            0 <= i < matches.len() ==> !rule_values((#[trigger] matches[i]).1).contains_key(name),
    ensures
        last_say(matches, name) is None,
{
    lemma_last_say(matches, name);
}

/// After the rules of `matches` have been applied, a name has the value that
/// the last rule to declare it gave it, and the value it had before where no
/// rule declares it.
pub proof fn lemma_applied_value(
    values: Map<Seq<char>, Value>,
    matches: Seq<(Specificity, Rule)>,
    name: Seq<char>,
)
    ensures
        applied(values, matches).contains_key(name) <==> values.contains_key(name) || last_say(
            matches,
            name,
        ) is Some,
        applied(values, matches).contains_key(name) ==> applied(values, matches)[name]
            == match last_say(matches, name) {
            Some(k) => rule_values(matches[k].1)[name],
            None => values[name],
        },
    decreases matches.len(),
{
    if matches.len() > 0 {
        let front = matches.drop_last();
        lemma_applied_value(values, front, name);
        lemma_declared_overlays(applied(values, front), matches.last().1.declarations@);
        lemma_last_say(front, name);
        if last_say(front, name) is Some {
            let k = last_say(front, name)->0;
            assert(front[k] == matches[k]);
        }
    }
}

/// The place at which `placed` puts `matched` into `sorted`.
pub open spec fn place_of(sorted: Seq<(Specificity, Rule)>, matched: (Specificity, Rule)) -> int
    decreases sorted.len(),
{
    if sorted.len() == 0 || !specificity_lt(matched.0, sorted.last().0) {
        sorted.len() as int
    } else {
        place_of(sorted.drop_last(), matched)
    }
}

/// `placed` puts the rule in front of the rules that weigh more than it, at
/// the end of `sorted`, and leaves the others where they are.
proof fn lemma_placed_at(sorted: Seq<(Specificity, Rule)>, matched: (Specificity, Rule))
    ensures
        0 <= place_of(sorted, matched) <= sorted.len(),
        placed(sorted, matched) == sorted.take(place_of(sorted, matched)).push(matched)
            + sorted.skip(place_of(sorted, matched)),
        forall|k: int|
            place_of(sorted, matched) <= k < sorted.len() ==> specificity_lt(
                matched.0,
                (#[trigger] sorted[k]).0,
            ),
        place_of(sorted, matched) > 0 ==> !specificity_lt(
            matched.0,
            sorted[place_of(sorted, matched) - 1].0,
        ),
    decreases sorted.len(),
{
    let j = place_of(sorted, matched);
    if sorted.len() == 0 || !specificity_lt(matched.0, sorted.last().0) {
        assert(sorted.take(j) == sorted);
        assert(sorted.skip(j) == Seq::<(Specificity, Rule)>::empty());
        assert(placed(sorted, matched) =~= sorted.take(j).push(matched) + sorted.skip(j));
    } else {
        let front = sorted.drop_last();
        lemma_placed_at(front, matched);
        assert(front.take(j) == sorted.take(j));
        assert(front.skip(j).push(sorted.last()) == sorted.skip(j));
        assert(placed(sorted, matched) =~= sorted.take(j).push(matched) + sorted.skip(j));
        assert forall|k: int| j <= k < sorted.len() implies specificity_lt(
            matched.0,
            (#[trigger] sorted[k]).0,
        ) by {
            if k < front.len() {
                assert(front[k] == sorted[k]);
            }
        }
        if j > 0 {
            assert(front[j - 1] == sorted[j - 1]);
        }
    }
}

/// Whether no entry weighs less than one before it.
pub open spec fn ascending(matches: Seq<(Specificity, Rule)>) -> bool {
    forall|a: int, b: int|
        0 <= a < b < matches.len() ==> !specificity_lt(
            (#[trigger] matches[b]).0,
            (#[trigger] matches[a]).0,
        )
}

/// Whether each entry holds the weight with which its rule holds for `elem`.
pub open spec fn weighed(elem: ElementData, matches: Seq<(Specificity, Rule)>) -> bool {
    forall|k: int|
        0 <= k < matches.len() ==> rule_weight(elem, (#[trigger] matches[k]).1) == Some(
            matches[k].0,
        )
}

/// Whether the last rule of `order` to declare `name` is the rule of `rules`
/// that prevails for it.
pub open spec fn agree(
    elem: ElementData,
    rules: Seq<Rule>,
    order: Seq<(Specificity, Rule)>,
    name: Seq<char>,
) -> bool {
    match prevailing(elem, rules, name) {
        Some(w) => last_say(order, name) is Some && order[last_say(order, name)->0].1 == rules[w],
        None => last_say(order, name) is None,
    }
}

/// In cascade order the matched rules stand by rising weight, and the last
/// of them to declare a property is the rule that prevails for it.
pub proof fn lemma_order_agrees(elem: ElementData, rules: Seq<Rule>, name: Seq<char>)
    ensures
        ascending(cascade_order(matched_rules(elem, rules))),
        weighed(elem, cascade_order(matched_rules(elem, rules))),
        agree(elem, rules, cascade_order(matched_rules(elem, rules)), name),
    decreases rules.len(),
{
    if rules.len() > 0 {
        let front = rules.drop_last();
        let rule = rules.last();
        let last = rules.len() - 1;
        let before = cascade_order(matched_rules(elem, front));
        lemma_order_agrees(elem, front, name);
        lemma_prevailing_outranks(elem, front, name);
        if prevailing(elem, front, name) is Some {
            let w = prevailing(elem, front, name)->0;
            assert(front[w] == rules[w]);
        }
        if rule_weight(elem, rule) is Some {
            let entry = (rule_weight(elem, rule)->0, rule);
            assert(matched_rules(elem, front).push(entry).drop_last() == matched_rules(
                elem,
                front,
            ));
            let j = place_of(before, entry);
            lemma_placed_at(before, entry);
            let order = before.take(j).push(entry) + before.skip(j);
            assert(order == cascade_order(matched_rules(elem, rules)));
            assert forall|p: int| 0 <= p < order.len() implies #[trigger] order[p] == if p < j {
                before[p]
            } else if p == j {
                entry
            } else {
                before[p - 1]
            } by {}
            assert(ascending(order)) by {
                assert forall|a: int, b: int| 0 <= a < b < order.len() implies !specificity_lt(
                    (#[trigger] order[b]).0,
                    (#[trigger] order[a]).0,
                ) by {
                    if b == j {
                        assert(!specificity_lt(entry.0, before[j - 1].0));
                        if a < j - 1 {
                            assert(!specificity_lt(before[j - 1].0, before[a].0));
                        }
                    } else if a == j {
                        assert(specificity_lt(entry.0, before[b - 1].0));
                    } else if a < j && b > j {
                        assert(!specificity_lt(before[b - 1].0, before[a].0));
                    } else if a < j {
                        assert(!specificity_lt(before[b].0, before[a].0));
                    } else {
                        assert(!specificity_lt(before[b - 1].0, before[a - 1].0));
                    }
                }
            }
            assert(weighed(elem, order)) by {
                assert forall|k: int| 0 <= k < order.len() implies rule_weight(
                    elem,
                    (#[trigger] order[k]).1,
                ) == Some(order[k].0) by {
                    if k < j {
                        assert(rule_weight(elem, before[k].1) == Some(before[k].0));
                    } else if k > j {
                        assert(rule_weight(elem, before[k - 1].1) == Some(before[k - 1].0));
                    }
                }
            }
            lemma_last_say(before, name);
            let declares = rule_values(rule).contains_key(name);
            if last_say(before, name) is Some && last_say(before, name)->0 >= j {
                let k = last_say(before, name)->0;
                assert(order[k + 1] == before[k]);
                assert forall|i: int| k + 1 < i < order.len() implies !rule_values(
                    (#[trigger] order[i]).1,
                ).contains_key(name) by {
                    assert(order[i] == before[i - 1]);
                }
                lemma_last_say_is(order, name, k + 1);
                assert(specificity_lt(entry.0, before[k].0));
                assert(rule_weight(elem, before[k].1) == Some(before[k].0));
            } else if declares {
                assert(order[j] == entry);
                assert forall|i: int| j < i < order.len() implies !rule_values(
                    (#[trigger] order[i]).1,
                ).contains_key(name) by {
                    assert(order[i] == before[i - 1]);
                }
                lemma_last_say_is(order, name, j);
                if last_say(before, name) is Some {
                    let k = last_say(before, name)->0;
                    assert(rule_weight(elem, before[k].1) == Some(before[k].0));
                    assert(!specificity_lt(entry.0, before[j - 1].0));
                    if k < j - 1 {
                        assert(!specificity_lt(before[j - 1].0, before[k].0));
                    }
                    assert(!specificity_lt(entry.0, before[k].0));
                }
            } else if last_say(before, name) is Some {
                let k = last_say(before, name)->0;
                assert(order[k] == before[k]);
                assert forall|i: int| k < i < order.len() implies !rule_values(
                    (#[trigger] order[i]).1,
                ).contains_key(name) by {
                    if i < j {
                        assert(order[i] == before[i]);
                    } else if i > j {
                        assert(order[i] == before[i - 1]);
                    }
                }
                lemma_last_say_is(order, name, k);
            } else {
                assert forall|i: int| 0 <= i < order.len() implies !rule_values(
                    (#[trigger] order[i]).1,
                ).contains_key(name) by {
                    if i < j {
                        assert(order[i] == before[i]);
                    } else if i > j {
                        assert(order[i] == before[i - 1]);
                    }
                }
                lemma_last_say_none(order, name);
            }
        }
    }
}

} // verus!
