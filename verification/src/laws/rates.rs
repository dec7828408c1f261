//! Laws of the rate table: which prices count, and under which names.
use crate::binary64::Binary64;
use crate::json::json_object;
use crate::laws::names::{
    capital_letters, law_part_behind_the_last_mark, law_surrounding_white_space, lemma_ascii_names_together, lemma_capitals,
    lemma_small_parts,
};
use crate::model_rate_table::{
    agreed, ascii_key, canonical, claims, completes, entries_among, entries_in, entry_in,
    found_under, has_ascii_key, is_unpriceable, looked_up, lookup_key, member_named,
    provider_rate, rate_of, resolved, usable_price, with_providers, with_settings, LiteLlmEntry,
    ProviderModel,
};
use crate::rate::{LanguageModelCostInfo, ModelPricing, Rate};
use crate::rate_map::RateMap;
use crate::text::{
    after_last, ascii_normalized, before_first, is_ascii_name, is_white_space, normalized,
    small_letters,
};
use serde_json::Value;
use vstd::prelude::*;

verus! {

/// Whether a price is finite and not negative.
pub open spec fn is_usable(price: Binary64) -> bool {
    usable_price(Some(price)) == Some(price)
}

/// Whether all four prices of a rate are finite and not negative.
pub open spec fn is_usable_rate(rate: Rate) -> bool {
    &&& is_usable(rate.input)
    &&& is_usable(rate.output)
    &&& is_usable(rate.cache_read)
    &&& is_usable(rate.cache_write)
}

/// Whatever a document holds, every rate that comes out of it is made of finite
/// prices that are not negative.
pub proof fn law_rates_are_usable(
    entries: Seq<(Seq<char>, LiteLlmEntry)>,
    table: Map<Seq<char>, Rate>,
    name: Seq<char>,
)
    requires
        completes(canonical(entries), table),
        table.contains_key(name),
    ensures
        is_usable_rate(table[name]),
{
    lemma_canonical_usable(entries);
    if !canonical(entries).contains_key(name) {
        let key = choose|key: Seq<char>|
            claims(canonical(entries), key, name) && table[name] == #[trigger] canonical(
                entries,
            )[key];
        assert(canonical(entries).contains_key(key));
    } else {
        assert(table[name] == canonical(entries)[name]);
    }
}

proof fn lemma_canonical_usable(entries: Seq<(Seq<char>, LiteLlmEntry)>)
    ensures
        forall|name: Seq<char>| #[trigger]
            canonical(entries).contains_key(name) ==> is_usable_rate(canonical(entries)[name]),
    decreases entries.len(),
{
    if entries.len() > 0 {
        let before = entries.drop_last();
        lemma_canonical_usable(before);
        assert forall|name: Seq<char>| #[trigger]
            canonical(entries).contains_key(name) implies is_usable_rate(
            canonical(entries)[name],
        ) by {
            if !canonical(before).contains_key(name) || canonical(entries)[name] != canonical(
                before,
            )[name] {
                assert(rate_of(entries.last().1) == Some(canonical(entries)[name]));
            }
        }
    }
}

/// Whether an entry is priced under a name.
pub open spec fn prices(entry: (Seq<char>, LiteLlmEntry), name: Seq<char>) -> bool {
    name.len() > 0 && normalized(entry.0) == name && rate_of(entry.1) is Some
}

/// A name is in the table itself exactly where some entry of that name has both
/// an input and an output price, and the last such entry decides the rate.
pub proof fn law_last_priced_entry_counts(
    entries: Seq<(Seq<char>, LiteLlmEntry)>,
    name: Seq<char>,
)
    ensures
        canonical(entries).contains_key(name) <==> exists|i: int|
            0 <= i < entries.len() && prices(#[trigger] entries[i], name),
        forall|i: int|
            {
                &&& 0 <= i < entries.len()
                &&& prices(#[trigger] entries[i], name)
                &&& forall|j: int| i < j < entries.len() ==> !prices(#[trigger] entries[j], name)
            } ==> Some(canonical(entries)[name]) == rate_of(entries[i].1),
    decreases entries.len(),
{
    if entries.len() > 0 {
        let before = entries.drop_last();
        let last = entries.len() - 1;
        law_last_priced_entry_counts(before, name);
        if prices(entries[last], name) {
            assert(canonical(entries).contains_key(name));
            assert forall|i: int|
                {
                    &&& 0 <= i < entries.len()
                    &&& prices(#[trigger] entries[i], name)
                    &&& forall|j: int|
                        i < j < entries.len() ==> !prices(#[trigger] entries[j], name)
                } implies Some(canonical(entries)[name]) == rate_of(entries[i].1) by {
                assert(i == last || prices(entries[last], name));
            }
        } else {
            assert(canonical(entries).contains_key(name) == canonical(before).contains_key(name));
            assert(canonical(before).contains_key(name) ==> canonical(entries)[name] == canonical(
                before,
            )[name]);
            if canonical(before).contains_key(name) {
                let i = choose|i: int| 0 <= i < before.len() && prices(#[trigger] before[i], name);
                assert(prices(entries[i], name));
            }
            assert forall|i: int| 0 <= i < entries.len() && prices(#[trigger] entries[i], name) implies {
                &&& i < before.len()
                &&& prices(before[i], name)
                &&& canonical(before).contains_key(name)
            } by {
                assert(before[i] == entries[i]);
            }
            assert forall|i: int|
                {
                    &&& 0 <= i < entries.len()
                    &&& prices(#[trigger] entries[i], name)
                    &&& forall|j: int|
                        i < j < entries.len() ==> !prices(#[trigger] entries[j], name)
                } implies Some(canonical(entries)[name]) == rate_of(entries[i].1) by {
                assert(before[i] == entries[i]);
                assert forall|j: int| i < j < before.len() implies !prices(
                    #[trigger] before[j],
                    name,
                ) by {
                    assert(before[j] == entries[j]);
                }
            }
        }
    }
}

/// A canonical entry is never overwritten by an alias.
pub proof fn law_canonical_entry_stays(
    entries: Seq<(Seq<char>, LiteLlmEntry)>,
    table: Map<Seq<char>, Rate>,
    name: Seq<char>,
)
    requires
        completes(canonical(entries), table),
        canonical(entries).contains_key(name),
    ensures
        table.contains_key(name),
        table[name] == canonical(entries)[name],
{
}

/// A short name that qualified entries claim at different rates is no name at
/// all, whoever looks it up.
pub proof fn law_ambiguous_name_is_unpriced(
    entries: Seq<(Seq<char>, LiteLlmEntry)>,
    table: Map<Seq<char>, Rate>,
    one: Seq<char>,
    other: Seq<char>,
    model_id: Seq<char>,
)
    requires
        completes(canonical(entries), table),
        claims(canonical(entries), one, lookup_key(model_id)),
        claims(canonical(entries), other, lookup_key(model_id)),
        !canonical(entries)[one].equals(canonical(entries)[other]),
    ensures
        looked_up(table, model_id) is None,
{
    assert(!agreed(canonical(entries), lookup_key(model_id)));
}

/// A short name that some qualified entry claims, and all of them at one rate,
/// has that rate.
pub proof fn law_agreed_name_is_priced(
    entries: Seq<(Seq<char>, LiteLlmEntry)>,
    table: Map<Seq<char>, Rate>,
    key: Seq<char>,
    name: Seq<char>,
)
    requires
        completes(canonical(entries), table),
        claims(canonical(entries), key, name),
        agreed(canonical(entries), name),
    ensures
        table.contains_key(name),
        table[name].equals(canonical(entries)[key]),
{
    assert(table.contains_key(name));
    let held = choose|held: Seq<char>|
        claims(canonical(entries), held, name) && table[name] == #[trigger] canonical(
            entries,
        )[held];
    assert(canonical(entries)[held].equals(canonical(entries)[key]));
}

/// Whether two objects have the same four price members.
pub open spec fn same_prices(one: Value, other: Value) -> bool {
    match (json_object(one), json_object(other)) {
        (Some(found), Some(its)) => {
            &&& member_named(found, "input_cost_per_token"@) == member_named(
                its,
                "input_cost_per_token"@,
            )
            &&& member_named(found, "output_cost_per_token"@) == member_named(
                its,
                "output_cost_per_token"@,
            )
            &&& member_named(found, "cache_read_input_token_cost"@) == member_named(
                its,
                "cache_read_input_token_cost"@,
            )
            &&& member_named(found, "cache_creation_input_token_cost"@) == member_named(
                its,
                "cache_creation_input_token_cost"@,
            )
        },
        _ => false,
    }
}

/// Of an entry that is an object, only the four price members count.
pub proof fn law_only_prices_are_read(one: Value, other: Value)
    requires
        same_prices(one, other),
    ensures
        entry_in(one) == entry_in(other),
{
}

/// Whether two documents have the same names, and under each the same value or
/// objects with the same four price members.
pub open spec fn same_price_list(one: Value, other: Value) -> bool {
    match (json_object(one), json_object(other)) {
        (Some(found), Some(its)) => {
            &&& found.len() == its.len()
            &&& forall|i: int|
                0 <= i < found.len() ==> {
                    &&& (#[trigger] found[i]).0 == its[i].0
                    &&& found[i].1 == its[i].1 || same_prices(found[i].1, its[i].1)
                }
        },
        _ => false,
    }
}

proof fn lemma_same_entries(one: Seq<(Seq<char>, Value)>, other: Seq<(Seq<char>, Value)>)
    requires
        one.len() == other.len(),
        forall|i: int|
            0 <= i < one.len() ==> {
                &&& (#[trigger] one[i]).0 == other[i].0
                &&& one[i].1 == other[i].1 || same_prices(one[i].1, other[i].1)
            },
    ensures
        entries_among(one) == entries_among(other),
    decreases one.len(),
{
    if one.len() > 0 {
        let last = one.len() - 1;
        assert forall|i: int| 0 <= i < last implies {
            &&& (#[trigger] one.drop_last()[i]).0 == other.drop_last()[i].0
            &&& one.drop_last()[i].1 == other.drop_last()[i].1 || same_prices(
                one.drop_last()[i].1,
                other.drop_last()[i].1,
            )
        } by {
            assert(one[i].0 == other[i].0);
        }
        lemma_same_entries(one.drop_last(), other.drop_last());
        assert(one[last].0 == other[last].0);
    }
}

/// Of a document, only the names and the four prices under each count: two that
/// agree in those give the same names, at rates that are equal as numbers.
pub proof fn law_only_prices_make_the_table(
    one: Value,
    other: Value,
    table: Map<Seq<char>, Rate>,
    its: Map<Seq<char>, Rate>,
)
    requires
        same_price_list(one, other),
        completes(canonical(entries_in(one)), table),
        completes(canonical(entries_in(other)), its),
    ensures
        forall|name: Seq<char>| #[trigger] table.contains_key(name) <==> its.contains_key(name),
        forall|name: Seq<char>| #[trigger]
            table.contains_key(name) ==> table[name].equals(its[name]),
{
    lemma_same_entries(json_object(one)->0, json_object(other)->0);
    let own = canonical(entries_in(one));
    assert forall|name: Seq<char>| #[trigger] table.contains_key(name) implies table[name].equals(
        its[name],
    ) by {
        assert(its.contains_key(name));
        law_rates_are_usable(entries_in(one), table, name);
        if !own.contains_key(name) {
            let key = choose|key: Seq<char>|
                claims(own, key, name) && table[name] == #[trigger] own[key];
            let held = choose|held: Seq<char>|
                claims(own, held, name) && its[name] == #[trigger] own[held];
            assert(agreed(own, name));
            assert(own[key].equals(own[held]));
        }
    }
}

/// Names with the same normal form share a rate.
pub proof fn law_lookup_by_normal_form(
    table: Map<Seq<char>, Rate>,
    one: Seq<char>,
    other: Seq<char>,
)
    requires
        normalized(before_first(one, '[')) == normalized(before_first(other, '[')),
    ensures
        looked_up(table, one) == looked_up(table, other),
{
}

/// Case does not count: names that differ in the case of ASCII letters alone,
/// and are looked up under ASCII names, share a rate.
pub proof fn law_case_does_not_count(
    table: Map<Seq<char>, Rate>,
    one: Seq<char>,
    other: Seq<char>,
)
    requires
        has_ascii_key(one),
        small_letters(one) == small_letters(other),
    ensures
        has_ascii_key(other),
        found_under(table, ascii_key(one)) == found_under(table, ascii_key(other)),
{
    lemma_small_parts(one, other);
    lemma_ascii_names_together(before_first(one, '['), before_first(other, '['));
    lemma_small_parts(before_first(one, '['), before_first(other, '['));
}

/// Capitals do not count: a name in capitals that is looked up under an ASCII
/// name has the rate that it has.
pub proof fn law_capitals_share_a_rate(table: Map<Seq<char>, Rate>, model_id: Seq<char>)
    requires
        has_ascii_key(model_id),
    ensures
        has_ascii_key(capital_letters(model_id)),
        found_under(table, ascii_key(capital_letters(model_id))) == found_under(
            table,
            ascii_key(model_id),
        ),
{
    lemma_capitals(model_id);
    law_case_does_not_count(table, model_id, capital_letters(model_id));
}

/// White space at the ends of a name does not count.
pub proof fn law_white_space_does_not_count(
    table: Map<Seq<char>, Rate>,
    base: Seq<char>,
    space: char,
)
    requires
        is_white_space(space),
    ensures
        looked_up(table, base.push(space)) == looked_up(table, base),
        looked_up(table, seq![space] + base) == looked_up(table, base),
{
    lemma_before_first_behind(base, space);
    law_surrounding_white_space(Seq::empty(), before_first(base, '['), seq![space]);
    law_surrounding_white_space(seq![space], before_first(base, '['), Seq::empty());
    let kept = before_first(base, '[');
    assert(Seq::<char>::empty() + kept + seq![space] =~= kept.push(space));
    assert(seq![space] + kept + Seq::empty() =~= seq![space] + kept);
    assert((seq![space] + base).drop_first() =~= base);
}

/// What stands before the first bracket, when a character is added that is
/// none.
proof fn lemma_before_first_behind(base: Seq<char>, c: char)
    requires
        c != '[',
    ensures
        before_first(base.push(c), '[') == before_first(base, '[') || before_first(
            base.push(c),
            '[',
        ) == before_first(base, '[').push(c),
    decreases base.len(),
{
    let longer = base.push(c);
    if base.len() == 0 {
        assert(longer.drop_first() =~= Seq::empty());
        assert(before_first(longer.drop_first(), '[') =~= Seq::empty());
        assert(before_first(longer, '[') =~= before_first(base, '[').push(c));
    } else {
        lemma_before_first_behind(base.drop_first(), c);
        assert(longer.drop_first() =~= base.drop_first().push(c));
        let rest = before_first(base.drop_first(), '[');
        assert(seq![base.first()] + rest.push(c) =~= (seq![base.first()] + rest).push(c));
    }
}

/// A bracketed variant suffix does not count in a lookup, whatever stands in it
/// and whatever the name.
pub proof fn law_variants_share_a_rate(
    table: Map<Seq<char>, Rate>,
    base: Seq<char>,
    variant: Seq<char>,
)
    ensures
        looked_up(table, base.push('[') + variant) == looked_up(table, base),
        looked_up(table, base + seq!['['] + variant + seq![']']) == looked_up(table, base),
{
    lemma_before_bracket(base, variant);
    lemma_before_bracket(base, variant.push(']'));
    assert(base + seq!['['] + variant + seq![']'] =~= base.push('[') + variant.push(']'));
}

/// What stands before the first bracket does not change behind one.
proof fn lemma_before_bracket(base: Seq<char>, rest: Seq<char>)
    ensures
        before_first(base.push('[') + rest, '[') == before_first(base, '['),
    decreases base.len(),
{
    let all = base.push('[') + rest;
    if base.len() > 0 {
        lemma_before_bracket(base.drop_first(), rest);
        assert(all.drop_first() =~= base.drop_first().push('[') + rest);
    }
}

/// A name without a bracket stands before the first one as it is.
proof fn lemma_before_none(base: Seq<char>)
    requires
        !base.contains('['),
    ensures
        before_first(base, '[') == base,
    decreases base.len(),
{
    if base.len() == 0 {
        assert(base =~= Seq::empty());
    } else {
        assert(base.contains(base.first()));
        let less = base.drop_first();
        assert forall|c: char| less.contains(c) implies base.contains(c) by {
            let i = choose|i: int| 0 <= i < less.len() && less[i] == c;
            assert(base[i + 1] == c);
        }
        assert(!less.contains('['));
        lemma_before_none(less);
        assert(seq![base.first()] + less =~= base);
    }
}

/// An ambiguous family name stays unpriced, whatever the table claims.
pub proof fn law_family_names_stay_unpriced(table: Map<Seq<char>, Rate>, model_id: Seq<char>)
    requires
        is_unpriceable(after_last(lookup_key(model_id), '/')),
    ensures
        looked_up(table, model_id) is None,
{
}

/// A priced entry is found under its own name, if that is one that can be
/// priced.
pub proof fn law_entry_answers_to_its_name(
    entries: Seq<(Seq<char>, LiteLlmEntry)>,
    table: Map<Seq<char>, Rate>,
    model_id: Seq<char>,
)
    requires
        completes(canonical(entries), table),
        !model_id.contains('['),
        canonical(entries).contains_key(normalized(model_id)),
        normalized(model_id).len() > 0,
        !is_unpriceable(after_last(normalized(model_id), '/')),
    ensures
        looked_up(table, model_id) == Some(canonical(entries)[normalized(model_id)]),
{
    lemma_before_none(model_id);
    assert(table.contains_key(normalized(model_id)));
}

/// The user's own price counts before everything else, and the last one that is
/// set for a name decides.
pub proof fn law_settings_come_first(
    rates: Map<Seq<char>, Rate>,
    pricing: Seq<(String, ModelPricing)>,
    at: int,
)
    requires
        0 <= at < pricing.len(),
        forall|i: int|
            at < i < pricing.len() ==> normalized((#[trigger] pricing[i]).0@) != normalized(
                pricing[at].0@,
            ),
    ensures
        with_settings(rates, pricing).contains_key(normalized(pricing[at].0@)),
        with_settings(rates, pricing)[normalized(pricing[at].0@)] == Rate::of_settings(
            pricing[at].1,
        ),
    decreases pricing.len(),
{
    if at < pricing.len() - 1 {
        let before = pricing.drop_last();
        assert forall|i: int| at < i < before.len() implies normalized((#[trigger] before[i]).0@)
            != normalized(before[at].0@) by {
            assert(before[i] == pricing[i]);
        }
        law_settings_come_first(rates, before, at);
        assert(normalized(pricing[pricing.len() - 1].0@) != normalized(pricing[at].0@));
    }
}

/// Where the user has set no price, the provider's own counts.
pub proof fn law_providers_come_second(
    fetched: Map<Seq<char>, Rate>,
    models: Seq<ProviderModel>,
    pricing: Seq<(String, ModelPricing)>,
    at: int,
)
    requires
        0 <= at < models.len(),
        provider_rate(models[at]) is Some,
        forall|i: int|
            at < i < models.len() && provider_rate(#[trigger] models[i]) is Some ==> normalized(
                models[i].id@,
            ) != normalized(models[at].id@),
        forall|i: int|
            0 <= i < pricing.len() ==> normalized((#[trigger] pricing[i]).0@) != normalized(
                models[at].id@,
            ),
    ensures
        with_settings(with_providers(fetched, models), pricing).contains_key(
            normalized(models[at].id@),
        ),
        Some(
            with_settings(with_providers(fetched, models), pricing)[normalized(models[at].id@)],
        ) == provider_rate(models[at]),
{
    let name = normalized(models[at].id@);
    lemma_settings_elsewhere(with_providers(fetched, models), pricing, name);
    lemma_provider_counts(fetched, models, at);
}

proof fn lemma_provider_counts(fetched: Map<Seq<char>, Rate>, models: Seq<ProviderModel>, at: int)
    requires
        0 <= at < models.len(),
        provider_rate(models[at]) is Some,
        forall|i: int|
            at < i < models.len() && provider_rate(#[trigger] models[i]) is Some ==> normalized(
                models[i].id@,
            ) != normalized(models[at].id@),
    ensures
        with_providers(fetched, models).contains_key(normalized(models[at].id@)),
        Some(with_providers(fetched, models)[normalized(models[at].id@)]) == provider_rate(
            models[at],
        ),
    decreases models.len(),
{
    if at < models.len() - 1 {
        let before = models.drop_last();
        assert forall|i: int|
            at < i < before.len() && provider_rate(#[trigger] before[i]) is Some implies normalized(
            before[i].id@,
        ) != normalized(before[at].id@) by {
            assert(before[i] == models[i]);
        }
        lemma_provider_counts(fetched, before, at);
        assert(models[models.len() - 1] == models.last());
    }
}

proof fn lemma_settings_elsewhere(
    rates: Map<Seq<char>, Rate>,
    pricing: Seq<(String, ModelPricing)>,
    name: Seq<char>,
)
    requires
        forall|i: int|
            0 <= i < pricing.len() ==> normalized((#[trigger] pricing[i]).0@) != name,
    ensures
        with_settings(rates, pricing).contains_key(name) == rates.contains_key(name),
        rates.contains_key(name) ==> with_settings(rates, pricing)[name] == rates[name],
    decreases pricing.len(),
{
    if pricing.len() > 0 {
        let before = pricing.drop_last();
        assert forall|i: int| 0 <= i < before.len() implies normalized((#[trigger] before[i]).0@)
            != name by {
            assert(before[i] == pricing[i]);
        }
        lemma_settings_elsewhere(rates, before, name);
        assert(pricing[pricing.len() - 1] == pricing.last());
    }
}

/// Where neither the user nor a provider has a price, what was fetched counts;
/// and a name that is in none of the three has no rate.
pub proof fn law_fetched_rates_come_last(
    fetched: Map<Seq<char>, Rate>,
    models: Seq<ProviderModel>,
    pricing: Seq<(String, ModelPricing)>,
    name: Seq<char>,
)
    requires
        forall|i: int|
            0 <= i < models.len() && provider_rate(#[trigger] models[i]) is Some ==> normalized(
                models[i].id@,
            ) != name,
        forall|i: int|
            0 <= i < pricing.len() ==> normalized((#[trigger] pricing[i]).0@) != name,
    ensures
        with_settings(with_providers(fetched, models), pricing).contains_key(name)
            == fetched.contains_key(name),
        fetched.contains_key(name) ==> with_settings(with_providers(fetched, models), pricing)[name]
            == fetched[name],
{
    lemma_settings_elsewhere(with_providers(fetched, models), pricing, name);
    lemma_providers_elsewhere(fetched, models, name);
}

proof fn lemma_providers_elsewhere(
    fetched: Map<Seq<char>, Rate>,
    models: Seq<ProviderModel>,
    name: Seq<char>,
)
    requires
        forall|i: int|
            0 <= i < models.len() && provider_rate(#[trigger] models[i]) is Some ==> normalized(
                models[i].id@,
            ) != name,
    ensures
        with_providers(fetched, models).contains_key(name) == fetched.contains_key(name),
        fetched.contains_key(name) ==> with_providers(fetched, models)[name] == fetched[name],
    decreases models.len(),
{
    if models.len() > 0 {
        let before = models.drop_last();
        assert forall|i: int|
            0 <= i < before.len() && provider_rate(#[trigger] before[i]) is Some implies normalized(
            before[i].id@,
        ) != name by {
            assert(before[i] == models[i]);
        }
        lemma_providers_elsewhere(fetched, before, name);
        assert(models[models.len() - 1] == models.last());
    }
}

/// A document that is not an object has no rates.
pub proof fn law_no_object_no_rates(document: Value, table: Map<Seq<char>, Rate>)
    requires
        json_object(document) is None,
        completes(canonical(entries_in(document)), table),
    ensures
        table == Map::<Seq<char>, Rate>::empty(),
{
    let own = canonical(entries_in(document));
    assert forall|name: Seq<char>| !(#[trigger] table.contains_key(name)) by {
        if table.contains_key(name) {
            assert(agreed(own, name));
            let key = choose|key: Seq<char>| claims(own, key, name);
            assert(own.contains_key(key));
        }
    }
    assert(table =~= Map::<Seq<char>, Rate>::empty());
}

/// Cached tokens without a price of their own cost what plain input does, and
/// are never free for want of one. So it is in all three sources.
pub proof fn law_cached_input_falls_back(
    entry: LiteLlmEntry,
    pricing: ModelPricing,
    info: LanguageModelCostInfo,
)
    ensures
        rate_of(entry) matches Some(rate) ==> {
            &&& usable_price(entry.cache_read_input_token_cost) is None ==> rate.cache_read
                == rate.input
            &&& usable_price(entry.cache_creation_input_token_cost) is None ==> rate.cache_write
                == rate.input
        },
        pricing.cache_read is None ==> Rate::of_settings(pricing).cache_read == Rate::of_settings(
            pricing,
        ).input,
        pricing.cache_write is None ==> Rate::of_settings(pricing).cache_write
            == Rate::of_settings(pricing).input,
        Rate::of_provider(info) matches Some(rate) ==> rate.cache_read == rate.input
            && rate.cache_write == rate.input,
{
}

/// The six names of families that are never priced.
pub open spec fn families() -> Set<Seq<char>> {
    Set::empty().insert("opus"@).insert("sonnet"@).insert("haiku"@).insert("fable"@).insert(
        "synthetic"@,
    ).insert("<synthetic>"@)
}

/// A name that is not empty has the rate that the table holds under it, exactly,
/// unless what follows its last slash is the name of a family: then it has none,
/// and so has a name that the table does not hold.
pub proof fn law_names_have_the_rates_of_the_table(table: Map<Seq<char>, Rate>, key: Seq<char>)
    ensures
        key.len() > 0 && !families().contains(after_last(key, '/')) && table.contains_key(key)
            ==> found_under(table, key) == Some(table[key]),
        families().contains(after_last(key, '/')) ==> found_under(table, key) is None,
        key.len() == 0 ==> found_under(table, key) is None,
        !table.contains_key(key) ==> found_under(table, key) is None,
{
}

/// A model is looked up under the normal form of its id up to the first bracket,
/// and under nothing else.
pub proof fn law_ids_are_looked_up_to_the_bracket(
    table: Map<Seq<char>, Rate>,
    base: Seq<char>,
    rest: Seq<char>,
)
    requires
        !base.contains('['),
    ensures
        looked_up(table, base) == found_under(table, normalized(base)),
        looked_up(table, base.push('[') + rest) == found_under(table, normalized(base)),
        ascii_key(base) == ascii_normalized(base),
        ascii_key(base.push('[') + rest) == ascii_normalized(base),
        has_ascii_key(base) <==> is_ascii_name(base),
        has_ascii_key(base.push('[') + rest) <==> is_ascii_name(base),
{
    lemma_before_none(base);
    lemma_before_bracket(base, rest);
}

/// Only what the table holds under the one name decides a lookup.
pub proof fn law_other_names_do_not_matter(
    one: Map<Seq<char>, Rate>,
    other: Map<Seq<char>, Rate>,
    model_id: Seq<char>,
)
    requires
        one.contains_key(lookup_key(model_id)) == other.contains_key(lookup_key(model_id)),
        one.contains_key(lookup_key(model_id)) ==> one[lookup_key(model_id)]
            == other[lookup_key(model_id)],
    ensures
        looked_up(one, model_id) == looked_up(other, model_id),
{
}

/// A short name is in a fetched table beside the entries themselves exactly where
/// some entry's name ends in a slash and that short name, none is called so
/// itself, and all such entries cost the same.
pub proof fn law_short_names_are_those_agreed_on(
    own: Map<Seq<char>, Rate>,
    table: Map<Seq<char>, Rate>,
    front: Seq<char>,
    short: Seq<char>,
)
    requires
        completes(own, table),
        short.len() > 0,
        !short.contains('/'),
        !own.contains_key(short),
        own.contains_key(front.push('/') + short),
    ensures
        table.contains_key(short) <==> forall|one: Seq<char>, other: Seq<char>|
            own.contains_key(one.push('/') + short) && own.contains_key(other.push('/') + short)
                ==> #[trigger] own[one.push('/') + short].equals(
                #[trigger] own[other.push('/') + short],
            ),
        table.contains_key(short) ==> exists|one: Seq<char>|
            own.contains_key(one.push('/') + short) && table[short] == #[trigger] own[one.push('/')
                + short],
{
    lemma_qualified(own, front, short);
    assert(claims(own, front.push('/') + short, short));
    assert forall|key: Seq<char>| claims(own, key, short) implies exists|one: Seq<char>|
        key == #[trigger] (one.push('/') + short) by {
        let one = lemma_front(own, key, short);
        assert(key == one.push('/') + short);
    }
    if table.contains_key(short) {
        assert forall|one: Seq<char>, other: Seq<char>|
            own.contains_key(one.push('/') + short) && own.contains_key(
                other.push('/') + short,
            ) implies #[trigger] own[one.push('/') + short].equals(
            #[trigger] own[other.push('/') + short],
        ) by {
            lemma_qualified(own, one, short);
            lemma_qualified(own, other, short);
        }
        let key = choose|key: Seq<char>|
            claims(own, key, short) && table[short] == #[trigger] own[key];
        let one = lemma_front(own, key, short);
        assert(table[short] == own[one.push('/') + short]);
    } else {
        assert(!agreed(own, short));
        let (a, b) = choose|a: Seq<char>, b: Seq<char>|
            claims(own, a, short) && claims(own, b, short) && !(#[trigger] own[a].equals(
                #[trigger] own[b],
            ));
        let one = lemma_front(own, a, short);
        let other = lemma_front(own, b, short);
        assert(!own[one.push('/') + short].equals(own[other.push('/') + short]));
    }
}

proof fn lemma_qualified(own: Map<Seq<char>, Rate>, front: Seq<char>, short: Seq<char>)
    requires
        own.contains_key(front.push('/') + short),
        short.len() > 0,
        !short.contains('/'),
        !own.contains_key(short),
    ensures
        claims(own, front.push('/') + short, short),
{
    let key = front.push('/') + short;
    law_part_behind_the_last_mark(key, '/');
    let part = after_last(key, '/');
    if part.len() > short.len() {
        let at = part.len() - short.len() - 1;
        assert(part[at] == key[key.len() - part.len() + at]);
        assert(key[front.len() as int] == '/');
        assert(part.contains('/'));
    } else if part.len() < short.len() {
        let at = key.len() - part.len() - 1;
        assert(key[at] == '/');
        assert(short[at - front.len() - 1] == '/');
    }
    assert(key.skip(key.len() - short.len()) =~= short);
}

proof fn lemma_front(own: Map<Seq<char>, Rate>, key: Seq<char>, short: Seq<char>) -> (front: Seq<
    char,
>)
    requires
        claims(own, key, short),
    ensures
        key == front.push('/') + short,
{
    law_part_behind_the_last_mark(key, '/');
    if short.len() == key.len() {
        assert(key.skip(0) =~= key);
    }
    let front = key.take(key.len() - short.len() - 1);
    assert(key =~= front.push('/') + short);
    front
}

/// A fetched table has no other names than those of the entries and the short
/// names of some.
pub proof fn law_no_other_names(
    own: Map<Seq<char>, Rate>,
    table: Map<Seq<char>, Rate>,
    name: Seq<char>,
)
    requires
        completes(own, table),
        !own.contains_key(name),
        name.len() == 0 || name.contains('/') || forall|front: Seq<char>|
            !own.contains_key(#[trigger] (front.push('/') + name)),
    ensures
        !table.contains_key(name),
{
    if table.contains_key(name) {
        let key = choose|key: Seq<char>| claims(own, key, name);
        law_part_behind_the_last_mark(key, '/');
        let front = lemma_front(own, key, name);
        assert(own.contains_key(front.push('/') + name));
    }
}

/// The rate that a name resolves to is that of the last setting for it; without
/// one, of the last provider's price for it; without that too, what was fetched;
/// and where nothing was, it has none.
pub proof fn law_rates_resolve_in_order(
    fetched: Option<&RateMap>,
    models: Seq<ProviderModel>,
    pricing: Seq<(String, ModelPricing)>,
    name: Seq<char>,
    at: int,
)
    ensures
        ({
            let rates = resolved(fetched, models, pricing);
            let set = exists|i: int|
                0 <= i < pricing.len() && normalized((#[trigger] pricing[i]).0@) == name;
            let offered = exists|i: int|
                0 <= i < models.len() && provider_rate(#[trigger] models[i]) is Some && normalized(
                    models[i].id@,
                ) == name;
            &&& 0 <= at < pricing.len() && normalized(pricing[at].0@) == name && (forall|i: int|
                at < i < pricing.len() ==> normalized((#[trigger] pricing[i]).0@) != name)
                ==> rates.contains_key(name) && rates[name] == Rate::of_settings(pricing[at].1)
            &&& !set && 0 <= at < models.len() && provider_rate(models[at]) is Some && normalized(
                models[at].id@,
            ) == name && (forall|i: int|
                at < i < models.len() && provider_rate(#[trigger] models[i]) is Some
                    ==> normalized(models[i].id@) != name) ==> rates.contains_key(name) && Some(
                rates[name],
            ) == provider_rate(models[at])
            &&& !set && !offered && fetched is Some ==> rates.contains_key(name)
                == fetched->0@.contains_key(name) && (rates.contains_key(name) ==> rates[name]
                == fetched->0@[name])
            &&& !set && !offered && fetched is None ==> !rates.contains_key(name)
        }),
{
    let base = crate::model_rate_table::fetched_rates(fetched);
    if 0 <= at < pricing.len() && normalized(pricing[at].0@) == name && (forall|i: int|
        at < i < pricing.len() ==> normalized((#[trigger] pricing[i]).0@) != name) {
        law_settings_come_first(with_providers(base, models), pricing, at);
    }
    if !(exists|i: int|
        0 <= i < pricing.len() && normalized((#[trigger] pricing[i]).0@) == name) {
        if 0 <= at < models.len() && provider_rate(models[at]) is Some && normalized(
            models[at].id@,
        ) == name && (forall|i: int|
            at < i < models.len() && provider_rate(#[trigger] models[i]) is Some ==> normalized(
                models[i].id@,
            ) != name) {
            law_providers_come_second(base, models, pricing, at);
        }
        if !(exists|i: int|
            0 <= i < models.len() && provider_rate(#[trigger] models[i]) is Some && normalized(
                models[i].id@,
            ) == name) {
            law_fetched_rates_come_last(base, models, pricing, name);
        }
    }
}

} // verus!
