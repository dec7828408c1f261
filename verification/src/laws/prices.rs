//! Laws of prices: which number of a source ends up in which class of a rate.
use crate::binary64::Binary64;
use crate::json::{json_array, json_null, json_number, json_object};
use crate::model_rate_table::{
    canonical, entries_among, entries_in, entry_in, entry_of, member_named, price_in,
    price_of, provider_rate, rate_of, usable_price, LiteLlmEntry, ProviderModel,
};
use crate::rate::{ModelPricing, Rate};
use crate::rounding::lemma_units_monotone;
use crate::text::normalized;
use serde_json::Value;
use vstd::prelude::*;

verus! {

/// A price is usable exactly where its bits are those of a finite number that
/// is not negative, or of the negative zero; it is then taken as it is.
pub proof fn law_usable_prices_by_their_bits(price: Binary64)
    ensures
        usable_price(None) is None,
        usable_price(Some(price)) is Some <==> price.bits < 0x7FF0_0000_0000_0000 || price.bits
            == 0x8000_0000_0000_0000,
        usable_price(Some(price)) matches Some(taken) ==> taken.bits == price.bits,
{
    if price.magnitude() > 0 {
        lemma_units_monotone(0, price.magnitude());
    }
}

/// An entry has a rate exactly where its input and its output price are usable.
/// Each price of the rate is that of its own class, whatever the other fields
/// hold; a cache price that is not usable is the input price.
pub proof fn law_each_price_keeps_its_class(entry: LiteLlmEntry)
    ensures
        rate_of(entry) is Some <==> usable_price(entry.input_cost_per_token) is Some
            && usable_price(entry.output_cost_per_token) is Some,
        rate_of(entry) matches Some(rate) ==> {
            &&& Some(rate.input) == usable_price(entry.input_cost_per_token)
            &&& Some(rate.output) == usable_price(entry.output_cost_per_token)
            &&& forall|price: Binary64|
                usable_price(entry.cache_read_input_token_cost) == Some(price)
                    ==> #[trigger] rate.cache_read.bits == price.bits
            &&& forall|price: Binary64|
                usable_price(entry.cache_creation_input_token_cost) == Some(price)
                    ==> #[trigger] rate.cache_write.bits == price.bits
            &&& usable_price(entry.cache_read_input_token_cost) is None
                ==> rate.cache_read == rate.input
            &&& usable_price(entry.cache_creation_input_token_cost) is None
                ==> rate.cache_write == rate.input
        },
{
}

/// What an entry says of one class of tokens does not change the rate of
/// another.
pub proof fn law_classes_do_not_mix(one: LiteLlmEntry, other: LiteLlmEntry)
    requires
        rate_of(one) is Some,
        rate_of(other) is Some,
    ensures
        one.input_cost_per_token == other.input_cost_per_token ==> rate_of(one)->0.input
            == rate_of(other)->0.input,
        one.output_cost_per_token == other.output_cost_per_token ==> rate_of(one)->0.output
            == rate_of(other)->0.output,
        one.input_cost_per_token == other.input_cost_per_token && one.cache_read_input_token_cost
            == other.cache_read_input_token_cost ==> rate_of(one)->0.cache_read == rate_of(
            other,
        )->0.cache_read,
        one.input_cost_per_token == other.input_cost_per_token
            && one.cache_creation_input_token_cost == other.cache_creation_input_token_cost
            ==> rate_of(one)->0.cache_write == rate_of(other)->0.cache_write,
{
}

/// A field is unreadable exactly where it is neither `null` nor a number; the
/// number is taken as it is.
pub proof fn law_price_fields(null: bool, number: Option<u64>, value: Value)
    ensures
        price_of(null, number) is None <==> !null && number is None,
        null ==> price_of(null, number) == Some(None::<Binary64>),
        !null && number is Some ==> price_of(null, number) is Some && price_of(null, number)->0
            is Some && Some(price_of(null, number)->0->0.bits) == number,
        price_in(value) == price_of(json_null(value), json_number(value)),
{
}

/// Four fields make an entry exactly where all are readable, and each of them
/// stands in its own place.
pub proof fn law_fields_keep_their_places(
    input: Option<Option<Binary64>>,
    output: Option<Option<Binary64>>,
    cache_read: Option<Option<Binary64>>,
    cache_creation: Option<Option<Binary64>>,
)
    ensures
        entry_of(input, output, cache_read, cache_creation) is Some <==> input is Some && output
            is Some && cache_read is Some && cache_creation is Some,
        entry_of(input, output, cache_read, cache_creation) matches Some(entry) ==> {
            &&& input == Some(entry.input_cost_per_token)
            &&& output == Some(entry.output_cost_per_token)
            &&& cache_read == Some(entry.cache_read_input_token_cost)
            &&& cache_creation == Some(entry.cache_creation_input_token_cost)
        },
{
}

/// A member is found exactly where there is one of that name, and it is the
/// first of that name.
pub proof fn law_members_are_found(found: Seq<(Seq<char>, Value)>, name: Seq<char>)
    ensures
        member_named(found, name) is None <==> forall|i: int|
            0 <= i < found.len() ==> (#[trigger] found[i]).0 != name,
        forall|i: int|
            {
                &&& 0 <= i < found.len()
                &&& (#[trigger] found[i]).0 == name
                &&& forall|j: int| 0 <= j < i ==> (#[trigger] found[j]).0 != name
            } ==> member_named(found, name) == Some(found[i].1),
{
    let at = lemma_member_place(found, name);
    assert forall|i: int|
        {
            &&& 0 <= i < found.len()
            &&& (#[trigger] found[i]).0 == name
            &&& forall|j: int| 0 <= j < i ==> (#[trigger] found[j]).0 != name
        } implies member_named(found, name) == Some(found[i].1) by {
        assert(at <= i);
        assert(found[at].0 == name);
    }
}

/// Where the first member of a name stands, or the end.
proof fn lemma_member_place(found: Seq<(Seq<char>, Value)>, name: Seq<char>) -> (at: int)
    ensures
        0 <= at <= found.len(),
        forall|j: int| 0 <= j < at ==> (#[trigger] found[j]).0 != name,
        at < found.len() ==> found[at].0 == name && member_named(found, name) == Some(found[at].1),
        at == found.len() ==> member_named(found, name) is None,
    decreases found.len(),
{
    if found.len() == 0 || found[0].0 == name {
        0
    } else {
        let rest = found.drop_first();
        let at = lemma_member_place(rest, name);
        assert forall|j: int| 0 <= j < at + 1 implies (#[trigger] found[j]).0 != name by {
            if j > 0 {
                assert(rest[j - 1] == found[j]);
            }
        }
        at + 1
    }
}

/// What a price member of an object says: nothing where there is none, and
/// otherwise what its value does.
pub open spec fn said(value: Value, name: Seq<char>) -> Option<Option<Binary64>> {
    match member_named(json_object(value)->0, name) {
        None => Some(None),
        Some(held) => price_in(held),
    }
}

/// An entry that is an object is read by the names of its members, one that is a
/// list of four by their places, and nothing else is an entry.
pub proof fn law_entries_are_objects_or_lists(value: Value)
    ensures
        json_object(value) is Some ==> {
            &&& entry_in(value) is Some <==> said(value, "input_cost_per_token"@) is Some && said(
                value,
                "output_cost_per_token"@,
            ) is Some && said(value, "cache_read_input_token_cost"@) is Some && said(
                value,
                "cache_creation_input_token_cost"@,
            ) is Some
            &&& entry_in(value) matches Some(entry) ==> {
                &&& said(value, "input_cost_per_token"@) == Some(entry.input_cost_per_token)
                &&& said(value, "output_cost_per_token"@) == Some(entry.output_cost_per_token)
                &&& said(value, "cache_read_input_token_cost"@) == Some(
                    entry.cache_read_input_token_cost,
                )
                &&& said(value, "cache_creation_input_token_cost"@) == Some(
                    entry.cache_creation_input_token_cost,
                )
            }
        },
        json_object(value) is None && json_array(value) is None ==> entry_in(value) is None,
        json_object(value) is None && json_array(value) is Some ==> {
            let items = json_array(value)->0;
            &&& entry_in(value) is Some <==> items.len() == 4 && forall|i: int|
                0 <= i < 4 ==> price_in(#[trigger] items[i]) is Some
            &&& entry_in(value) matches Some(entry) ==> {
                &&& price_in(items[0]) == Some(entry.input_cost_per_token)
                &&& price_in(items[1]) == Some(entry.output_cost_per_token)
                &&& price_in(items[2]) == Some(entry.cache_read_input_token_cost)
                &&& price_in(items[3]) == Some(entry.cache_creation_input_token_cost)
            }
        },
{
    if json_object(value) is None && json_array(value) is Some {
        let items = json_array(value)->0;
        if items.len() == 4 && entry_in(value) is Some {
            assert forall|i: int| 0 <= i < 4 implies price_in(#[trigger] items[i]) is Some by {
                assert(i == 0 || i == 1 || i == 2 || i == 3);
            }
        }
    }
}

/// Whether a member of a document is priced under a name.
pub open spec fn priced_member(member: (Seq<char>, Value), name: Seq<char>) -> bool {
    &&& name.len() > 0
    &&& normalized(member.0) == name
    &&& entry_in(member.1) is Some
    &&& rate_of(entry_in(member.1)->0) is Some
}

/// What one more member makes of the rates: it is entered under its name where it
/// is priced, and otherwise changes nothing.
proof fn lemma_one_more_member(
    before: Seq<(Seq<char>, Value)>,
    member: (Seq<char>, Value),
    name: Seq<char>,
)
    ensures
        ({
            let old_rates = canonical(entries_among(before));
            let new_rates = canonical(entries_among(before.push(member)));
            &&& priced_member(member, name) ==> new_rates.contains_key(name) && Some(
                new_rates[name],
            ) == rate_of(entry_in(member.1)->0)
            &&& !priced_member(member, name) ==> new_rates.contains_key(name)
                == old_rates.contains_key(name) && (old_rates.contains_key(name)
                ==> new_rates[name] == old_rates[name])
        }),
{
    let found = before.push(member);
    assert(found.drop_last() =~= before);
    match entry_in(member.1) {
        Some(entry) => {
            let entries = entries_among(before).push((member.0, entry));
            assert(entries.drop_last() =~= entries_among(before));
            assert(entries.last() == (member.0, entry));
            assert(entries_among(found) == entries);
        },
        None => {},
    }
}

/// Where the last priced member of a name stands, or -1.
proof fn lemma_last_member(found: Seq<(Seq<char>, Value)>, name: Seq<char>) -> (at: int)
    ensures
        -1 <= at < found.len(),
        forall|j: int| at < j < found.len() ==> !priced_member(#[trigger] found[j], name),
        canonical(entries_among(found)).contains_key(name) <==> at >= 0,
        at >= 0 ==> priced_member(found[at], name) && Some(
            canonical(entries_among(found))[name],
        ) == rate_of(entry_in(found[at].1)->0),
    decreases found.len(),
{
    if found.len() == 0 {
        assert(entries_among(found) =~= Seq::empty());
        -1
    } else {
        let before = found.drop_last();
        let last = found.len() - 1;
        let earlier = lemma_last_member(before, name);
        lemma_one_more_member(before, found.last(), name);
        assert(before.push(found.last()) =~= found);
        if priced_member(found[last], name) {
            last
        } else {
            assert forall|j: int| earlier < j < found.len() implies !priced_member(
                #[trigger] found[j],
                name,
            ) by {
                if j < last {
                    assert(before[j] == found[j]);
                }
            }
            earlier
        }
    }
}

/// A name stands in the table of a document itself exactly where a member of the
/// document is priced under it, and the last such member gives the rate.
pub proof fn law_last_priced_member_counts(document: Value, name: Seq<char>)
    requires
        json_object(document) is Some,
    ensures
        ({
            let found = json_object(document)->0;
            let own = canonical(entries_in(document));
            &&& own.contains_key(name) <==> exists|i: int|
                0 <= i < found.len() && priced_member(#[trigger] found[i], name)
            &&& forall|i: int|
                {
                    &&& 0 <= i < found.len()
                    &&& priced_member(#[trigger] found[i], name)
                    &&& forall|j: int|
                        i < j < found.len() ==> !priced_member(#[trigger] found[j], name)
                } ==> Some(own[name]) == rate_of(entry_in(found[i].1)->0)
        }),
{
    let found = json_object(document)->0;
    let at = lemma_last_member(found, name);
    if at >= 0 {
        assert(priced_member(found[at], name));
    }
}

/// Each price that the settings hold is, divided by a million, the rate of its
/// own class, whatever the other prices are.
pub proof fn law_settings_by_class(pricing: ModelPricing)
    ensures
        ({
            let rate = Rate::of_settings(pricing);
            &&& rate.input == Binary64::widened(pricing.input).over(1_000_000)
            &&& rate.output == Binary64::widened(pricing.output).over(1_000_000)
            &&& forall|price: u32|
                pricing.cache_read == Some(price) ==> rate.cache_read
                    == #[trigger] Binary64::widened(price).over(1_000_000)
            &&& forall|price: u32|
                pricing.cache_write == Some(price) ==> rate.cache_write
                    == #[trigger] Binary64::widened(price).over(1_000_000)
            &&& pricing.cache_read is None ==> rate.cache_read == rate.input
            &&& pricing.cache_write is None ==> rate.cache_write == rate.input
        }),
{
}

/// One price in the settings gives one rate, in whichever class it stands.
pub proof fn law_settings_classes_are_alike(one: ModelPricing, other: ModelPricing, price: u32)
    requires
        one.cache_write == Some(price),
    ensures
        other.cache_write == Some(price) ==> Rate::of_settings(one).cache_write
            == Rate::of_settings(other).cache_write,
        other.cache_read == Some(price) ==> Rate::of_settings(one).cache_write
            == Rate::of_settings(other).cache_read,
        other.input == price ==> Rate::of_settings(one).cache_write == Rate::of_settings(
            other,
        ).input,
        other.output == price ==> Rate::of_settings(one).cache_write == Rate::of_settings(
            other,
        ).output,
{
}

/// A provider's prices are, divided by a million, the rates of their own
/// classes, and cached tokens cost what input does. A model without a price per
/// token has no rate.
pub proof fn law_providers_by_class(model: ProviderModel)
    ensures
        provider_rate(model) is Some <==> model.cost_info is Some && model.cost_info->0
            is TokenCost,
        provider_rate(model) matches Some(rate) ==> {
            &&& rate.input == model.cost_info->0->input_token_cost_per_1m.over(1_000_000)
            &&& rate.output == model.cost_info->0->output_token_cost_per_1m.over(1_000_000)
            &&& rate.cache_read == rate.input
            &&& rate.cache_write == rate.input
        },
{
}

/// Two rates are equal exactly where each of the four prices of one has the value
/// of its counterpart, and all of them are numbers.
pub proof fn law_equal_rates_agree_in_every_class(one: Rate, other: Rate)
    ensures
        one.equals(other) <==> {
            &&& !one.input.is_nan() && !other.input.is_nan()
            &&& !one.output.is_nan() && !other.output.is_nan()
            &&& !one.cache_read.is_nan() && !other.cache_read.is_nan()
            &&& !one.cache_write.is_nan() && !other.cache_write.is_nan()
            &&& one.input.value() == other.input.value()
            &&& one.output.value() == other.output.value()
            &&& one.cache_read.value() == other.cache_read.value()
            &&& one.cache_write.value() == other.cache_write.value()
        },
        one.equals(other) <==> other.equals(one),
{
}

} // verus!
