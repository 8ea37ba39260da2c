//! The Jinja templates by which Home Assistant reads a normalized state.

use vstd::prelude::*;
use vstd::string::*;

use crate::json::{json_quoted, text_value, value_text};
use crate::layout::ValueName;
use crate::numeral::{signed_decimal, signed_decimal_text};
use crate::text::concat3;

verus! {

/// A source tag as a Jinja string: JSON quoting serves for both.
pub fn jinja_key(source: &str) -> (key: String)
    ensures
        key@ == json_quoted(source@),
{
    let value = text_value(source.to_owned());
    value_text(&value)
}

/// The template that shows a value as it is.
pub open spec fn plain_template(source: Seq<char>) -> Seq<char> {
    "{{ value_json["@ + json_quoted(source) + "] }}"@
}

/// The template that shows a boolean as `ON` or `OFF`.
pub open spec fn on_off_template(source: Seq<char>) -> Seq<char> {
    "{{ 'ON' if value_json["@ + json_quoted(source) + "] else 'OFF' }}"@
}

/// Makes the template that shows a value as it is.
pub fn plain_template_text(source: &str) -> (template: String)
    ensures
        template@ == plain_template(source@),
{
    concat3("{{ value_json[", jinja_key(source).as_str(), "] }}")
}

/// Makes the template that shows a boolean as `ON` or `OFF`.
pub fn on_off_template_text(source: &str) -> (template: String)
    ensures
        template@ == on_off_template(source@),
{
    concat3("{{ 'ON' if value_json[", jinja_key(source).as_str(), "] else 'OFF' }}")
}

/// Names as pairs of value and name.
pub open spec fn name_pairs(names: Seq<ValueName>) -> Seq<(i64, Seq<char>)> {
    names.map_values(|entry: ValueName| (entry.value, entry.name@))
}

/// A list in order of value with one more pair, behind those of the same value.
pub open spec fn with_pair(sorted: Seq<(i64, Seq<char>)>, pair: (i64, Seq<char>)) -> Seq<
    (i64, Seq<char>),
>
    decreases sorted.len(),
{
    if sorted.len() == 0 || sorted.last().0 <= pair.0 {
        sorted.push(pair)
    } else {
        with_pair(sorted.drop_last(), pair).push(sorted.last())
    }
}

/// Pairs in order of value; those of the same value keep their order.
pub open spec fn by_value(pairs: Seq<(i64, Seq<char>)>) -> Seq<(i64, Seq<char>)>
    decreases pairs.len(),
{
    if pairs.len() == 0 {
        Seq::empty()
    } else {
        with_pair(by_value(pairs.drop_last()), pairs.last())
    }
}

/// The entries of a Jinja dictionary from values to names.
pub open spec fn dictionary_entries(pairs: Seq<(i64, Seq<char>)>) -> Seq<char>
    decreases pairs.len(),
{
    if pairs.len() == 0 {
        Seq::empty()
    } else {
        let before = dictionary_entries(pairs.drop_last());
        let separator = if pairs.len() == 1 {
            Seq::empty()
        } else {
            ", "@
        };
        before + separator + signed_decimal(pairs.last().0 as int) + ": '"@ + pairs.last().1 + "'"@
    }
}

/// The template that shows the name of a value.
pub open spec fn names_template(names: Seq<ValueName>, source: Seq<char>) -> Seq<char> {
    "{{ {"@ + dictionary_entries(by_value(name_pairs(names))) + "}.get(value_json["@ + json_quoted(
        source,
    ) + "] | int) }}"@
}

/// Where a pair goes: behind all pairs up to its value, before all above it.
proof fn lemma_with_pair(sorted: Seq<(i64, Seq<char>)>, pair: (i64, Seq<char>), place: int)
    requires
        0 <= place <= sorted.len(),
        place > 0 ==> sorted[place - 1].0 <= pair.0,
        forall|i: int| place <= i < sorted.len() ==> (#[trigger] sorted[i]).0 > pair.0,
    ensures
        with_pair(sorted, pair) == sorted.insert(place, pair),
    decreases sorted.len(),
{
    if place == sorted.len() {
        assert(sorted.insert(place, pair) =~= sorted.push(pair));
    } else {
        lemma_with_pair(sorted.drop_last(), pair, place);
        assert(sorted.insert(place, pair) =~= sorted.drop_last().insert(place, pair).push(
            sorted.last(),
        ));
    }
}

spec fn picked(names: Seq<ValueName>, order: Seq<usize>) -> Seq<(i64, Seq<char>)> {
    order.map_values(|i: usize| name_pairs(names)[i as int])
}

/// The order of names by value.
fn value_order(names: &Vec<ValueName>) -> (order: Vec<usize>)
    ensures
        forall|i: int| 0 <= i < order@.len() ==> #[trigger] order@[i] < names@.len(),
        picked(names@, order@) == by_value(name_pairs(names@)),
{
    let mut order: Vec<usize> = Vec::new();
    let mut n: usize = 0;
    assert(picked(names@, order@) =~= by_value(name_pairs(names@).take(0)));
    while n < names.len()
        invariant
            n <= names@.len(),
            order@.len() == n,
            forall|i: int| 0 <= i < order@.len() ==> #[trigger] order@[i] < names@.len(),
            picked(names@, order@) == by_value(name_pairs(names@).take(n as int)),
        decreases names@.len() - n,
    {
        let value = names[n].value;
        let mut place: usize = order.len();
        while place > 0 && names[order[place - 1]].value > value
            invariant
                n < names@.len(),
                value == names@[n as int].value,
                place <= order@.len(),
                forall|i: int| 0 <= i < order@.len() ==> #[trigger] order@[i] < names@.len(),
                forall|i: int|
                    place <= i < order@.len() ==> (#[trigger] picked(names@, order@)[i]).0 > value,
            decreases place,
        {
            assert(picked(names@, order@)[place - 1].0 > value);
            place -= 1;
        }
        proof {
            let pairs = name_pairs(names@);
            let sorted = picked(names@, order@);
            if place > 0 {
                assert(sorted[place - 1].0 <= value);
            }
            lemma_with_pair(sorted, pairs[n as int], place as int);
            assert(pairs.take(n + 1).drop_last() =~= pairs.take(n as int));
            assert(picked(names@, order@.insert(place as int, n)) =~= sorted.insert(
                place as int,
                pairs[n as int],
            ));
        }
        order.insert(place, n);
        n += 1;
    }
    assert(name_pairs(names@).take(n as int) =~= name_pairs(names@));
    order
}

/// Makes the template that shows the name of a value.
pub fn names_template_text(names: &Vec<ValueName>, source: &str) -> (template: String)
    ensures
        template@ == names_template(names@, source@),
{
    let order = value_order(names);
    let ghost pairs = by_value(name_pairs(names@));
    let mut entries = String::new();
    let mut i: usize = 0;
    assert(pairs.take(0) =~= Seq::empty());
    while i < order.len()
        invariant
            i <= order@.len(),
            forall|j: int| 0 <= j < order@.len() ==> #[trigger] order@[j] < names@.len(),
            picked(names@, order@) == pairs,
            entries@ == dictionary_entries(pairs.take(i as int)),
        decreases order@.len() - i,
    {
        let entry = &names[order[i]];
        assert(pairs[i as int] == picked(names@, order@)[i as int]);
        assert(pairs[i as int] == (entry.value, entry.name@));
        assert(pairs.take(i + 1).drop_last() =~= pairs.take(i as int));
        let ghost before = entries@;
        if i > 0 {
            entries.append(", ");
        } else {
            assert(before + Seq::<char>::empty() =~= before);
        }
        entries.append(signed_decimal_text(entry.value).as_str());
        entries.append(": '");
        entries.append(entry.name.as_str());
        entries.append("'");
        i += 1;
    }
    assert(pairs.take(i as int) =~= pairs);
    let mut template = concat3("{{ {", entries.as_str(), "}.get(value_json[");
    template.append(jinja_key(source).as_str());
    template.append("] | int) }}");
    template
}

proof fn lemma_with_pair_sorted(sorted: Seq<(i64, Seq<char>)>, pair: (i64, Seq<char>))
    requires
        forall|i: int, j: int|
            0 <= i < j < sorted.len() ==> (#[trigger] sorted[i]).0 <= (#[trigger] sorted[j]).0,
    ensures
        forall|i: int, j: int|
            0 <= i < j < with_pair(sorted, pair).len() ==> (#[trigger] with_pair(
                sorted,
                pair,
            )[i]).0 <= (#[trigger] with_pair(sorted, pair)[j]).0,
        with_pair(sorted, pair).to_multiset() == sorted.to_multiset().insert(pair),
        with_pair(sorted, pair).len() == sorted.len() + 1,
        forall|i: int|
            0 <= i < with_pair(sorted, pair).len() ==> (#[trigger] with_pair(sorted, pair)[i]).0
                <= pair.0 || sorted.len() > 0 && with_pair(sorted, pair)[i].0 <= sorted.last().0,
    decreases sorted.len(),
{
    broadcast use vstd::seq_lib::group_to_multiset_ensures;

    if !(sorted.len() == 0 || sorted.last().0 <= pair.0) {
        let before = sorted.drop_last();
        lemma_with_pair_sorted(before, pair);
        assert(before.push(sorted.last()) =~= sorted);
        assert(sorted.to_multiset() =~= before.to_multiset().insert(sorted.last()));
        let result = with_pair(before, pair);
        assert(result.push(sorted.last()).to_multiset() =~= result.to_multiset().insert(
            sorted.last(),
        ));
    }
}

/// A names template lists every name once, in order of value.
pub proof fn names_are_listed_by_value(pairs: Seq<(i64, Seq<char>)>)
    ensures
        by_value(pairs).to_multiset() == pairs.to_multiset(),
        forall|i: int, j: int|
            0 <= i < j < by_value(pairs).len() ==> (#[trigger] by_value(pairs)[i]).0 <= (
            #[trigger] by_value(pairs)[j]).0,
    decreases pairs.len(),
{
    broadcast use vstd::seq_lib::group_to_multiset_ensures;

    if pairs.len() > 0 {
        names_are_listed_by_value(pairs.drop_last());
        lemma_with_pair_sorted(by_value(pairs.drop_last()), pairs.last());
        assert(pairs.drop_last().push(pairs.last()) =~= pairs);
    } else {
        assert(pairs =~= Seq::empty());
    }
}

/// A dictionary of one pair maps the value, in decimal, to the name in quotes.
/// A dictionary of more lists the parts one behind the other, with a comma and a
/// space between them.
pub proof fn dictionaries_list_their_pairs(
    left: Seq<(i64, Seq<char>)>,
    right: Seq<(i64, Seq<char>)>,
    pair: (i64, Seq<char>),
)
    requires
        left.len() > 0,
        right.len() > 0,
    ensures
        dictionary_entries(seq![pair]) == signed_decimal(pair.0 as int) + ": '"@ + pair.1 + "'"@,
        dictionary_entries(left + right) == dictionary_entries(left) + ", "@ + dictionary_entries(
            right,
        ),
    decreases right.len(),
{
    reveal_with_fuel(dictionary_entries, 2);
    let one = seq![pair];
    assert(one.drop_last() =~= Seq::empty());
    assert(dictionary_entries(one) =~= signed_decimal(pair.0 as int) + ": '"@ + pair.1 + "'"@);
    let whole = left + right;
    let last = right.last();
    assert(whole.last() == last);
    assert(whole.drop_last() =~= left + right.drop_last());
    let entry = signed_decimal(last.0 as int) + ": '"@ + last.1 + "'"@;
    if right.len() == 1 {
        assert(left + right.drop_last() =~= left);
        assert(right.drop_last() =~= Seq::empty());
        assert(dictionary_entries(right) =~= entry);
        assert(dictionary_entries(whole) =~= dictionary_entries(left) + ", "@ + entry);
    } else {
        dictionaries_list_their_pairs(left, right.drop_last(), pair);
        let before = dictionary_entries(right.drop_last());
        assert(dictionary_entries(right) =~= before + ", "@ + entry);
        assert(dictionary_entries(whole) =~= dictionary_entries(left + right.drop_last()) + ", "@
            + entry);
        assert(dictionary_entries(whole) =~= dictionary_entries(left) + ", "@ + dictionary_entries(
            right,
        ));
    }
}

/// The pairs of one value, in their order.
pub open spec fn pairs_of(pairs: Seq<(i64, Seq<char>)>, value: i64) -> Seq<(i64, Seq<char>)> {
    pairs.filter(|pair: (i64, Seq<char>)| pair.0 == value)
}

proof fn lemma_with_pair_order(sorted: Seq<(i64, Seq<char>)>, pair: (i64, Seq<char>), value: i64)
    requires
        forall|i: int, j: int|
            0 <= i < j < sorted.len() ==> (#[trigger] sorted[i]).0 <= (#[trigger] sorted[j]).0,
    ensures
        pairs_of(with_pair(sorted, pair), value) == (if pair.0 == value {
            pairs_of(sorted, value).push(pair)
        } else {
            pairs_of(sorted, value)
        }),
    decreases sorted.len(),
{
    reveal(Seq::filter);
    if sorted.len() == 0 || sorted.last().0 <= pair.0 {
        assert(sorted.push(pair).drop_last() =~= sorted);
    } else {
        let before = sorted.drop_last();
        lemma_with_pair_order(before, pair, value);
        let result = with_pair(before, pair);
        assert(result.push(sorted.last()).drop_last() =~= result);
        assert(sorted.last().0 != pair.0);
    }
}

/// Names of one value keep their order.
pub proof fn names_of_one_value_keep_their_order(pairs: Seq<(i64, Seq<char>)>, value: i64)
    ensures
        pairs_of(by_value(pairs), value) == pairs_of(pairs, value),
    decreases pairs.len(),
{
    reveal(Seq::filter);
    if pairs.len() > 0 {
        names_of_one_value_keep_their_order(pairs.drop_last(), value);
        names_are_listed_by_value(pairs.drop_last());
        lemma_with_pair_order(by_value(pairs.drop_last()), pairs.last(), value);
    }
}

/// The template of a value shows the value that the source tag names: as it is,
/// or by its name among those that the layout lists.
pub proof fn templates_read_their_source(names: Seq<ValueName>, source: Seq<char>)
    ensures
        plain_template(source) == "{{ value_json["@ + json_quoted(source) + "] }}"@,
        on_off_template(source) == "{{ 'ON' if value_json["@ + json_quoted(source)
            + "] else 'OFF' }}"@,
        exists|pairs: Seq<(i64, Seq<char>)>|
            {
                &&& pairs.to_multiset() == names.map_values(
                    |entry: ValueName| (entry.value, entry.name@),
                ).to_multiset()
                &&& names_template(names, source) == "{{ {"@ + #[trigger] dictionary_entries(pairs)
                    + "}.get(value_json["@ + json_quoted(source) + "] | int) }}"@
            },
{
    let pairs = name_pairs(names);
    assert(pairs =~= names.map_values(|entry: ValueName| (entry.value, entry.name@)));
    names_are_listed_by_value(pairs);
    assert(by_value(pairs).to_multiset() == names.map_values(
        |entry: ValueName| (entry.value, entry.name@),
    ).to_multiset());
    assert(dictionary_entries(by_value(pairs)) == dictionary_entries(by_value(pairs)));
}

} // verus!
