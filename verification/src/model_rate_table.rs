//! What each model charges, and where that number comes from.
//!
//! Three sources, in descending authority: the user's own settings, the price a
//! provider reports for its own model, and finally a public rate table, fetched
//! over the network. A model that none of them cover is reported as unpriced
//! rather than as free.
//!
//! The fetched table is treated as hostile input throughout: only four numbers
//! per entry are ever read, and one that is not a price is treated as absent.
use crate::binary64::Binary64;
use crate::json::{
    array_items, json_array, json_null, json_number, json_object, members, number_bits,
    object_members,
};
use crate::laws::rates::{is_usable_rate, law_rates_are_usable, law_settings_come_first};
use crate::rate::{LanguageModelCostInfo, ModelPricing, Rate};
use crate::rate_map::RateMap;
use crate::text::{
    after_last, ascii_normalized, bare_name, before_first, is_ascii_name, normalize_key,
    normalized, strip_variant,
};
use serde_json::Value;
use vstd::hash_map::StringHashMap;
use vstd::prelude::*;
use vstd::string::*;

verus! {

/// One entry of the public table, narrowed to the fields that carry a price.
/// Every other field in the document is ignored.
#[derive(Clone, Copy, Debug)]
pub struct LiteLlmEntry {
    pub input_cost_per_token: Option<Binary64>,
    pub output_cost_per_token: Option<Binary64>,
    pub cache_read_input_token_cost: Option<Binary64>,
    pub cache_creation_input_token_cost: Option<Binary64>,
}

/// The number zero.
pub open spec fn zero() -> Binary64 {
    Binary64 { bits: 0 }
}

/// A price is only usable if it is finite and not negative. Anything else is
/// treated as absent.
pub open spec fn usable_price(cost: Option<Binary64>) -> Option<Binary64> {
    match cost {
        Some(price) => if price.is_finite() && price.at_least(zero()) {
            Some(price)
        } else {
            None
        },
        None => None,
    }
}

/// The rate of an entry that has both an input and an output price. A cache
/// price that is absent is the input price.
pub open spec fn rate_of(entry: LiteLlmEntry) -> Option<Rate> {
    match (usable_price(entry.input_cost_per_token), usable_price(entry.output_cost_per_token)) {
        (Some(input), Some(output)) => Some(
            Rate {
                input,
                output,
                cache_read: match usable_price(entry.cache_read_input_token_cost) {
                    Some(price) => price,
                    None => input,
                },
                cache_write: match usable_price(entry.cache_creation_input_token_cost) {
                    Some(price) => price,
                    None => input,
                },
            },
        ),
        _ => None,
    }
}

/// A price as it is, if it is one.
pub fn usable(cost: Option<Binary64>) -> (price: Option<Binary64>)
    ensures
        price == usable_price(cost),
{
    match cost {
        Some(found) => if found.finite() && found.is_at_least(Binary64 { bits: 0 }) {
            Some(found)
        } else {
            None
        },
        None => None,
    }
}

/// The rate of an entry.
///
/// Entries without *both* an input and an output price have none: a half-priced
/// model under-reports cost, which is worse than reporting the model as
/// unpriced.
pub fn entry_rate(entry: &LiteLlmEntry) -> (rate: Option<Rate>)
    ensures
        rate == rate_of(*entry),
        rate is Some <==> usable_price(entry.input_cost_per_token) is Some && usable_price(
            entry.output_cost_per_token,
        ) is Some,
        rate matches Some(found) ==> {
            &&& Some(found.input) == usable_price(entry.input_cost_per_token)
            &&& Some(found.output) == usable_price(entry.output_cost_per_token)
            &&& usable_price(entry.cache_read_input_token_cost) is Some ==> Some(found.cache_read)
                == usable_price(entry.cache_read_input_token_cost)
            &&& usable_price(entry.cache_creation_input_token_cost) is Some ==> Some(
                found.cache_write,
            ) == usable_price(entry.cache_creation_input_token_cost)
        },
{
    let input: Binary64 = match usable(entry.input_cost_per_token) {
        Some(price) => price,
        None => {
            return None;
        },
    };
    let output: Binary64 = match usable(entry.output_cost_per_token) {
        Some(price) => price,
        None => {
            return None;
        },
    };
    Some(
        Rate {
            input,
            output,
            cache_read: match usable(entry.cache_read_input_token_cost) {
                Some(price) => price,
                None => input,
            },
            cache_write: match usable(entry.cache_creation_input_token_cost) {
                Some(price) => price,
                None => input,
            },
        },
    )
}

/// A price field: `null` stands for none, a number for itself, and nothing else
/// is one.
pub open spec fn price_in(value: Value) -> Option<Option<Binary64>> {
    price_of(json_null(value), json_number(value))
}

/// A price field, by whether it is `null` and which number it is.
pub open spec fn price_of(null: bool, number: Option<u64>) -> Option<Option<Binary64>> {
    if null {
        Some(None)
    } else {
        match number {
            Some(bits) => Some(Some(Binary64 { bits })),
            None => None,
        }
    }
}

/// The value of a member.
pub open spec fn member_named(found: Seq<(Seq<char>, Value)>, name: Seq<char>) -> Option<Value>
    decreases found.len(),
{
    if found.len() == 0 {
        None
    } else if found.first().0 == name {
        Some(found.first().1)
    } else {
        member_named(found.drop_first(), name)
    }
}

/// A price member, which may be absent.
pub open spec fn price_named(found: Seq<(Seq<char>, Value)>, name: Seq<char>) -> Option<
    Option<Binary64>,
> {
    match member_named(found, name) {
        Some(value) => price_in(value),
        None => Some(None),
    }
}

/// Four price fields, each of them readable.
pub open spec fn entry_of(
    input: Option<Option<Binary64>>,
    output: Option<Option<Binary64>>,
    cache_read: Option<Option<Binary64>>,
    cache_creation: Option<Option<Binary64>>,
) -> Option<LiteLlmEntry> {
    match (input, output, cache_read, cache_creation) {
        (Some(input), Some(output), Some(cache_read), Some(cache_creation)) => Some(
            LiteLlmEntry {
                input_cost_per_token: input,
                output_cost_per_token: output,
                cache_read_input_token_cost: cache_read,
                cache_creation_input_token_cost: cache_creation,
            },
        ),
        _ => None,
    }
}

/// An entry is an object with the price fields as members, or the list of all
/// four of them.
pub open spec fn entry_in(value: Value) -> Option<LiteLlmEntry> {
    match json_object(value) {
        Some(found) => entry_of(
            price_named(found, "input_cost_per_token"@),
            price_named(found, "output_cost_per_token"@),
            price_named(found, "cache_read_input_token_cost"@),
            price_named(found, "cache_creation_input_token_cost"@),
        ),
        None => match json_array(value) {
            Some(items) => if items.len() == 4 {
                entry_of(
                    price_in(items[0]),
                    price_in(items[1]),
                    price_in(items[2]),
                    price_in(items[3]),
                )
            } else {
                None
            },
            None => None,
        },
    }
}

/// The entries among the members of a document; what is not an entry is left
/// out.
pub open spec fn entries_among(found: Seq<(Seq<char>, Value)>) -> Seq<(Seq<char>, LiteLlmEntry)>
    decreases found.len(),
{
    if found.len() == 0 {
        Seq::empty()
    } else {
        let before = entries_among(found.drop_last());
        match entry_in(found.last().1) {
            Some(entry) => before.push((found.last().0, entry)),
            None => before,
        }
    }
}

/// The entries of a document. One that is not an object has none.
pub open spec fn entries_in(document: Value) -> Seq<(Seq<char>, LiteLlmEntry)> {
    match json_object(document) {
        Some(found) => entries_among(found),
        None => Seq::empty(),
    }
}

/// A price field, by whether it is `null` and which number it is.
pub fn field_price(null: bool, number: Option<u64>) -> (price: Option<Option<Binary64>>)
    ensures
        price == price_of(null, number),
{
    if null {
        Some(None)
    } else {
        match number {
            Some(bits) => Some(Some(Binary64 { bits })),
            None => None,
        }
    }
}

/// Reads a price field.
fn read_price(value: &Value) -> (price: Option<Option<Binary64>>)
    ensures
        price == price_in(*value),
{
    field_price(value.is_null(), number_bits(value))
}

/// Reads a price member.
fn read_member(found: &Vec<(&String, &Value)>, name: &str) -> (price: Option<Option<Binary64>>)
    ensures
        price == price_named(members(found@), name@),
{
    let wanted: String = name.to_owned();
    let ghost all = members(found@);
    let mut at: usize = 0;
    assert(all.skip(0) =~= all);
    while at < found.len()
        invariant
            all == members(found@),
            at <= found@.len(),
            wanted@ == name@,
            member_named(all, name@) == member_named(all.skip(at as int), name@),
        decreases found.len() - at,
    {
        let (member, value) = found[at];
        assert(all.skip(at as int).first() == (member@, *value));
        if *member == wanted {
            return read_price(value);
        }
        assert(all.skip(at as int).drop_first() =~= all.skip(at as int + 1));
        at = at + 1;
    }
    Some(None)
}

/// Four price fields, each of them readable.
pub fn entry_of_fields(
    input: Option<Option<Binary64>>,
    output: Option<Option<Binary64>>,
    cache_read: Option<Option<Binary64>>,
    cache_creation: Option<Option<Binary64>>,
) -> (entry: Option<LiteLlmEntry>)
    ensures
        entry == entry_of(input, output, cache_read, cache_creation),
{
    match (input, output, cache_read, cache_creation) {
        (Some(input), Some(output), Some(cache_read), Some(cache_creation)) => Some(
            LiteLlmEntry {
                input_cost_per_token: input,
                output_cost_per_token: output,
                cache_read_input_token_cost: cache_read,
                cache_creation_input_token_cost: cache_creation,
            },
        ),
        _ => None,
    }
}

/// Reads one entry.
pub fn read_entry(value: &Value) -> (entry: Option<LiteLlmEntry>)
    ensures
        entry == entry_in(*value),
{
    match object_members(value) {
        Some(found) => entry_of_fields(
            read_member(&found, "input_cost_per_token"),
            read_member(&found, "output_cost_per_token"),
            read_member(&found, "cache_read_input_token_cost"),
            read_member(&found, "cache_creation_input_token_cost"),
        ),
        None => match array_items(value) {
            Some(items) => if items.len() == 4 {
                entry_of_fields(
                    read_price(items[0]),
                    read_price(items[1]),
                    read_price(items[2]),
                    read_price(items[3]),
                )
            } else {
                None
            },
            None => None,
        },
    }
}

/// Names and entries, the names as text.
pub open spec fn named(entries: Seq<(String, LiteLlmEntry)>) -> Seq<(Seq<char>, LiteLlmEntry)> {
    entries.map_values(|entry: (String, LiteLlmEntry)| (entry.0@, entry.1))
}

/// Reads the entries of a document.
pub fn read_entries(document: &Value) -> (entries: Vec<(String, LiteLlmEntry)>)
    ensures
        named(entries@) == entries_in(*document),
{
    let mut entries: Vec<(String, LiteLlmEntry)> = Vec::new();
    assert(named(entries@) =~= Seq::empty());
    match object_members(document) {
        Some(found) => {
            let ghost all = members(found@);
            let mut at: usize = 0;
            assert(all.take(0) =~= Seq::empty());
            while at < found.len()
                invariant
                    all == members(found@),
                    at <= found@.len(),
                    named(entries@) == entries_among(all.take(at as int)),
                decreases found.len() - at,
            {
                let (name, value) = found[at];
                proof {
                    let next = all.take(at as int + 1);
                    assert(next.drop_last() =~= all.take(at as int));
                    assert(next.last() == (name@, *value));
                }
                match read_entry(value) {
                    Some(entry) => {
                        let ghost before = entries@;
                        entries.push((name.clone(), entry));
                        assert(named(entries@) =~= named(before).push((name@, entry)));
                    },
                    None => {},
                }
                at = at + 1;
            }
            assert(all.take(found@.len() as int) =~= all);
        },
        None => {},
    }
    entries
}

/// The rates of the entries themselves, by normalized name. An entry without a
/// name or a rate has none; the later of two entries with one name counts.
pub open spec fn canonical(entries: Seq<(Seq<char>, LiteLlmEntry)>) -> Map<Seq<char>, Rate>
    decreases entries.len(),
{
    if entries.len() == 0 {
        Map::empty()
    } else {
        let before = canonical(entries.drop_last());
        let key = normalized(entries.last().0);
        match rate_of(entries.last().1) {
            Some(rate) => if key.len() > 0 {
                before.insert(key, rate)
            } else {
                before
            },
            None => before,
        }
    }
}

/// Whether `key` is a qualified form of `name`, and no entry is called `name`
/// itself.
pub open spec fn claims(table: Map<Seq<char>, Rate>, key: Seq<char>, name: Seq<char>) -> bool {
    &&& table.contains_key(key)
    &&& after_last(key, '/') == name
    &&& name.len() > 0
    &&& name != key
    &&& !table.contains_key(name)
}

/// Whether `name` is short for some entries, and all of them have one rate.
pub open spec fn agreed(table: Map<Seq<char>, Rate>, name: Seq<char>) -> bool {
    &&& exists|key: Seq<char>| claims(table, key, name)
    &&& forall|one: Seq<char>, other: Seq<char>|
        claims(table, one, name) && claims(table, other, name) ==> #[trigger] table[one].equals(
            #[trigger] table[other],
        )
}

/// `full` is `table` with the short names that are agreed on.
pub open spec fn completes(table: Map<Seq<char>, Rate>, full: Map<Seq<char>, Rate>) -> bool {
    &&& forall|name: Seq<char>| #[trigger]
        full.contains_key(name) <==> table.contains_key(name) || agreed(table, name)
    &&& forall|name: Seq<char>| #[trigger] table.contains_key(name) ==> full[name] == table[name]
    &&& forall|name: Seq<char>| #[trigger]
        full.contains_key(name) && !table.contains_key(name) ==> exists|key: Seq<char>|
            claims(table, key, name) && full[name] == #[trigger] table[key]
}

/// A rate that equals itself: none of its prices is not a number.
pub open spec fn is_priced(rate: Rate) -> bool {
    &&& !rate.input.is_nan()
    &&& !rate.output.is_nan()
    &&& !rate.cache_read.is_nan()
    &&& !rate.cache_write.is_nan()
}

/// Every rate of the table is made of numbers.
proof fn lemma_canonical_priced(entries: Seq<(Seq<char>, LiteLlmEntry)>)
    ensures
        forall|name: Seq<char>| #[trigger]
            canonical(entries).contains_key(name) ==> is_priced(canonical(entries)[name]),
    decreases entries.len(),
{
    if entries.len() > 0 {
        let before = entries.drop_last();
        lemma_canonical_priced(before);
        assert forall|name: Seq<char>| #[trigger]
            canonical(entries).contains_key(name) implies is_priced(canonical(entries)[name]) by {
            if !canonical(before).contains_key(name) || canonical(entries)[name] != canonical(
                before,
            )[name] {
                assert(rate_of(entries.last().1) == Some(canonical(entries)[name]));
            }
        }
    }
}

/// The rates of the entries themselves.
fn canonical_rates(entries: &Vec<(String, LiteLlmEntry)>) -> (table: RateMap)
    ensures
        table.wf(),
        table@ == canonical(named(entries@)),
{
    let mut table: RateMap = RateMap::new();
    let ghost all = named(entries@);
    let mut at: usize = 0;
    assert(all.take(0) =~= Seq::empty());
    while at < entries.len()
        invariant
            all == named(entries@),
            at <= entries@.len(),
            table.wf(),
            table@ == canonical(all.take(at as int)),
        decreases entries.len() - at,
    {
        proof {
            let next = all.take(at as int + 1);
            assert(next.drop_last() =~= all.take(at as int));
            assert(next.last() == (entries@[at as int].0@, entries@[at as int].1));
        }
        match entry_rate(&entries[at].1) {
            Some(rate) => {
                let key: String = normalize_key(entries[at].0.as_str());
                if !key.as_str().is_empty() {
                    table.insert(key, rate);
                }
            },
            None => {},
        }
        at = at + 1;
    }
    assert(all.take(entries@.len() as int) =~= all);
    table
}

/// What the first `count` entries make of the short name `name`: the rate that
/// they agree on, or that they do not.
spec fn is_alias(
    table: Map<Seq<char>, Rate>,
    order: Seq<Seq<char>>,
    count: int,
    name: Seq<char>,
    held: Option<Rate>,
) -> bool {
    match held {
        Some(rate) => {
            &&& exists|i: int|
                0 <= i < count && claims(table, #[trigger] order[i], name) && table[order[i]]
                    == rate
            &&& forall|i: int|
                0 <= i < count && claims(table, #[trigger] order[i], name)
                    ==> rate.equals(table[order[i]])
        },
        None => exists|i: int, j: int|
            {
                &&& 0 <= i < count
                &&& 0 <= j < count
                &&& claims(table, #[trigger] order[i], name)
                &&& claims(table, #[trigger] order[j], name)
                &&& !table[order[i]].equals(table[order[j]])
            },
    }
}

/// What the first `count` entries make of all short names.
spec fn are_aliases(
    table: Map<Seq<char>, Rate>,
    order: Seq<Seq<char>>,
    count: int,
    aliases: Map<Seq<char>, Option<Rate>>,
) -> bool {
    &&& forall|i: int, name: Seq<char>|
        0 <= i < count && claims(table, #[trigger] order[i], name) ==> #[trigger]
            aliases.contains_key(name)
    &&& forall|name: Seq<char>| #[trigger]
        aliases.contains_key(name) ==> is_alias(table, order, count, name, aliases[name])
}

/// The short names of the entries, each with the rate that is agreed on.
fn collect_aliases(table: &RateMap) -> (result: (Vec<String>, StringHashMap<Option<Rate>>))
    requires
        table.wf(),
        forall|name: Seq<char>| #[trigger] table@.contains_key(name) ==> is_priced(table@[name]),
    ensures
        are_aliases(table@, table.order(), table.order().len() as int, result.1@),
        forall|name: Seq<char>| #[trigger]
            result.1@.contains_key(name) ==> exists|i: int|
                0 <= i < result.0@.len() && #[trigger] result.0@[i]@ == name,
        forall|i: int|
            0 <= i < result.0@.len() ==> result.1@.contains_key(#[trigger] result.0@[i]@),
{
    // `None` marks a bare name claimed at conflicting rates: it gets no alias.
    let mut aliases: StringHashMap<Option<Rate>> = StringHashMap::new();
    let mut names: Vec<String> = Vec::new();
    let length: usize = table.len();
    let mut at: usize = 0;
    proof {
        table.lemma_order();
    }
    while at < length
        invariant
            table.wf(),
            length == table.order().len(),
            at <= length,
            forall|i: int|
                0 <= i < table.order().len() ==> table@.contains_key(#[trigger] table.order()[i]),
            forall|name: Seq<char>| #[trigger]
                table@.contains_key(name) ==> is_priced(table@[name]),
            are_aliases(table@, table.order(), at as int, aliases@),
            forall|name: Seq<char>| #[trigger]
                aliases@.contains_key(name) ==> exists|i: int|
                    0 <= i < names@.len() && #[trigger] names@[i]@ == name,
            forall|i: int|
                0 <= i < names@.len() ==> aliases@.contains_key(#[trigger] names@[i]@),
        decreases length - at,
    {
        let (key, rate) = table.at(at);
        let short: &str = bare_name(key.as_str());
        let alias: String = short.to_owned();
        let ghost before = aliases@;
        let ghost known = names@;
        if short.is_empty() || alias == *key || table.contains_key(short) {
            at = at + 1;
            proof {
                lemma_alias_skip(table@, table.order(), at as int, before, key@);
            }
            continue ;
        }
        assert(claims(table@, table.order()[at as int], alias@));
        let held: Option<Option<Rate>> = match aliases.get(short) {
            Some(found) => Some(*found),
            None => None,
        };
        match held {
            None => {
                aliases.insert(alias.clone(), Some(rate));
                names.push(alias);
                proof {
                    assert forall|name: Seq<char>| #[trigger]
                        aliases@.contains_key(name) implies exists|i: int|
                        0 <= i < names@.len() && #[trigger] names@[i]@ == name by {
                        if name == alias@ {
                            assert(names@[known.len() as int]@ == name);
                        } else {
                            let i = choose|i: int|
                                0 <= i < known.len() && #[trigger] known[i]@ == name;
                            assert(names@[i]@ == name);
                        }
                    }
                    assert forall|i: int| 0 <= i < names@.len() implies aliases@.contains_key(
                        #[trigger] names@[i]@,
                    ) by {
                        if i < known.len() {
                            assert(names@[i] == known[i]);
                        }
                    }
                }
            },
            Some(Some(first)) => {
                if first != rate {
                    aliases.insert(alias, None);
                }
            },
            Some(None) => {},
        }
        proof {
            lemma_alias_step(table@, table.order(), at as int, before, alias@, aliases@);
        }
        at = at + 1;
    }
    proof {
        assert forall|name: Seq<char>| #[trigger] aliases@.contains_key(name) implies exists|i: int|
            0 <= i < (names, aliases).0@.len() && #[trigger] (names, aliases).0@[i]@ == name by {
            let i = choose|i: int| 0 <= i < names@.len() && #[trigger] names@[i]@ == name;
            assert((names, aliases).0@[i]@ == name);
        }
    }
    (names, aliases)
}

/// An entry that claims no short name changes nothing.
proof fn lemma_alias_skip(
    table: Map<Seq<char>, Rate>,
    order: Seq<Seq<char>>,
    count: int,
    aliases: Map<Seq<char>, Option<Rate>>,
    last: Seq<char>,
)
    requires
        0 < count <= order.len(),
        are_aliases(table, order, count - 1, aliases),
        last == order[count - 1],
        forall|name: Seq<char>| !claims(table, last, name),
    ensures
        are_aliases(table, order, count, aliases),
{
    assert forall|name: Seq<char>| #[trigger] aliases.contains_key(name) implies is_alias(
        table,
        order,
        count,
        name,
        aliases[name],
    ) by {
        assert(is_alias(table, order, count - 1, name, aliases[name]));
        lemma_alias_kept(table, order, count, name, aliases[name]);
    }
}

/// What holds of a short name still does after an entry that does not claim it.
proof fn lemma_alias_kept(
    table: Map<Seq<char>, Rate>,
    order: Seq<Seq<char>>,
    count: int,
    name: Seq<char>,
    held: Option<Rate>,
)
    requires
        0 < count <= order.len(),
        is_alias(table, order, count - 1, name, held),
        held is None || !claims(table, order[count - 1], name),
    ensures
        is_alias(table, order, count, name, held),
{
    match held {
        Some(rate) => {
            let i = choose|i: int|
                0 <= i < count - 1 && claims(table, #[trigger] order[i], name) && table[order[i]]
                    == rate;
            assert(0 <= i < count && claims(table, order[i], name) && table[order[i]] == rate);
        },
        None => {
            let (i, j) = choose|i: int, j: int|
                {
                    &&& 0 <= i < count - 1
                    &&& 0 <= j < count - 1
                    &&& claims(table, #[trigger] order[i], name)
                    &&& claims(table, #[trigger] order[j], name)
                    &&& !table[order[i]].equals(table[order[j]])
                };
            assert(0 <= i < count && 0 <= j < count && claims(table, order[i], name) && claims(
                table,
                order[j],
                name,
            ) && !table[order[i]].equals(table[order[j]]));
        },
    }
}

/// One more entry, which claims `name`.
proof fn lemma_alias_step(
    table: Map<Seq<char>, Rate>,
    order: Seq<Seq<char>>,
    at: int,
    before: Map<Seq<char>, Option<Rate>>,
    name: Seq<char>,
    after: Map<Seq<char>, Option<Rate>>,
)
    requires
        0 <= at < order.len(),
        are_aliases(table, order, at, before),
        claims(table, order[at], name),
        is_priced(table[order[at]]),
        if before.contains_key(name) {
            match before[name] {
                Some(first) => after == (if first.equals(table[order[at]]) {
                    before
                } else {
                    before.insert(name, None)
                }),
                None => after == before,
            }
        } else {
            after == before.insert(name, Some(table[order[at]]))
        },
    ensures
        are_aliases(table, order, at + 1, after),
{
    let rate = table[order[at]];
    assert forall|other: Seq<char>| #[trigger] after.contains_key(other) implies is_alias(
        table,
        order,
        at + 1,
        other,
        after[other],
    ) by {
        if other != name {
            assert(is_alias(table, order, at, other, before[other]));
            lemma_alias_kept(table, order, at + 1, other, before[other]);
        } else if !before.contains_key(name) {
            assert(claims(table, order[at], name) && table[order[at]] == rate);
            assert forall|i: int|
                0 <= i < at + 1 && claims(table, #[trigger] order[i], name) implies rate.equals(
                table[order[i]],
            ) by {
                if i < at {
                    assert(before.contains_key(name));
                }
            }
        } else {
            assert(is_alias(table, order, at, name, before[name]));
            match before[name] {
                Some(first) => {
                    let i = choose|i: int|
                        0 <= i < at && claims(table, #[trigger] order[i], name) && table[order[i]]
                            == first;
                    assert(claims(table, order[i], name) && table[order[i]] == first);
                    assert(claims(table, order[at], name));
                },
                None => {
                    lemma_alias_kept(table, order, at + 1, name, before[name]);
                },
            }
        }
    }
    assert forall|i: int, other: Seq<char>|
        0 <= i < at + 1 && claims(table, #[trigger] order[i], other) implies #[trigger]
        after.contains_key(other) by {
        if i < at {
            assert(before.contains_key(other));
        }
    }
}

/// What all entries make of a short name is whether they agree.
proof fn lemma_alias_agreed(
    table: Map<Seq<char>, Rate>,
    order: Seq<Seq<char>>,
    name: Seq<char>,
    held: Option<Rate>,
)
    requires
        forall|key: Seq<char>| table.contains_key(key) ==> #[trigger] order.contains(key),
        is_alias(table, order, order.len() as int, name, held),
    ensures
        held is Some <==> agreed(table, name),
        held matches Some(rate) ==> exists|key: Seq<char>|
            claims(table, key, name) && rate == #[trigger] table[key],
{
    match held {
        Some(rate) => {
            let i = choose|i: int|
                0 <= i < order.len() && claims(table, #[trigger] order[i], name)
                    && table[order[i]] == rate;
            assert(claims(table, order[i], name) && rate == table[order[i]]);
            assert forall|one: Seq<char>, other: Seq<char>|
                claims(table, one, name) && claims(table, other, name) implies #[trigger]
            table[one].equals(#[trigger] table[other]) by {
                assert(order.contains(one) && order.contains(other));
                let a = choose|a: int| 0 <= a < order.len() && order[a] == one;
                let b = choose|b: int| 0 <= b < order.len() && order[b] == other;
                assert(rate.equals(table[order[a]]));
                assert(rate.equals(table[order[b]]));
            }
        },
        None => {
            let (i, j) = choose|i: int, j: int|
                {
                    &&& 0 <= i < order.len()
                    &&& 0 <= j < order.len()
                    &&& claims(table, #[trigger] order[i], name)
                    &&& claims(table, #[trigger] order[j], name)
                    &&& !table[order[i]].equals(table[order[j]])
                };
            assert(claims(table, order[i], name) && claims(table, order[j], name));
        },
    }
}

/// The rate table of some entries.
///
/// A bare name is aliased only when no canonical entry claims it and every
/// qualified entry agrees on the rate, so an ambiguous short name never resolves
/// to one arbitrary variant's price.
pub fn rate_table_of(entries: &Vec<(String, LiteLlmEntry)>) -> (table: RateMap)
    ensures
        table.wf(),
        completes(canonical(named(entries@)), table@),
{
    let mut table: RateMap = canonical_rates(entries);
    let ghost own = table@;
    let ghost order = table.order();
    proof {
        lemma_canonical_priced(named(entries@));
        table.lemma_order();
    }
    let (names, aliases) = collect_aliases(&table);
    let mut at: usize = 0;
    proof {
        assert forall|name: Seq<char>| #[trigger] aliases@.contains_key(name) implies {
            &&& aliases@[name] is Some <==> agreed(own, name)
            &&& aliases@[name] matches Some(rate) ==> exists|key: Seq<char>|
                claims(own, key, name) && rate == #[trigger] own[key]
        } by {
            lemma_alias_agreed(own, order, name, aliases@[name]);
        }
        assert forall|name: Seq<char>| agreed(own, name) implies #[trigger] aliases@.contains_key(
            name,
        ) by {
            let key = choose|key: Seq<char>| claims(own, key, name);
            assert(order.contains(key));
            let i = choose|i: int| 0 <= i < order.len() && order[i] == key;
            assert(claims(own, order[i], name));
        }
    }
    while at < names.len()
        invariant
            table.wf(),
            at <= names@.len(),
            forall|i: int|
                0 <= i < names@.len() ==> aliases@.contains_key(#[trigger] names@[i]@),
            forall|name: Seq<char>| #[trigger]
                aliases@.contains_key(name) ==> {
                    &&& aliases@[name] is Some <==> agreed(own, name)
                    &&& aliases@[name] matches Some(rate) ==> exists|key: Seq<char>|
                        claims(own, key, name) && rate == #[trigger] own[key]
                },
            forall|name: Seq<char>| #[trigger]
                own.contains_key(name) ==> table@.contains_key(name) && table@[name] == own[name],
            forall|name: Seq<char>| #[trigger]
                table@.contains_key(name) ==> own.contains_key(name) || (aliases@.contains_key(name)
                    && aliases@[name] == Some(table@[name])),
            forall|i: int|
                0 <= i < at && aliases@[#[trigger] names@[i]@] is Some ==> table@.contains_key(
                    names@[i]@,
                ),
        decreases names.len() - at,
    {
        let held: Option<Rate> = match aliases.get(names[at].as_str()) {
            Some(found) => *found,
            None => None,
        };
        match held {
            Some(rate) => {
                let ghost name = names@[at as int]@;
                proof {
                    let key = choose|key: Seq<char>|
                        claims(own, key, name) && rate == #[trigger] own[key];
                    assert(!own.contains_key(name));
                }
                table.insert(names[at].clone(), rate);
            },
            None => {},
        }
        at = at + 1;
    }
    proof {
        assert forall|name: Seq<char>| #[trigger] table@.contains_key(name) <==> own.contains_key(
            name,
        ) || agreed(own, name) by {
            if agreed(own, name) {
                assert(aliases@.contains_key(name));
                let i = choose|i: int| 0 <= i < names@.len() && #[trigger] names@[i]@ == name;
                assert(aliases@[names@[i]@] is Some);
            }
        }
    }
    table
}

/// Projects a price document into a rate table.
pub fn parse_rate_table(document: &Value) -> (table: RateMap)
    ensures
        table.wf(),
        completes(canonical(entries_in(*document)), table@),
        forall|name: Seq<char>| #[trigger]
            table@.contains_key(name) ==> is_usable_rate(table@[name]),
{
    let table: RateMap = rate_table_of(&read_entries(document));
    proof {
        assert forall|name: Seq<char>| #[trigger]
            table@.contains_key(name) implies is_usable_rate(table@[name]) by {
            law_rates_are_usable(entries_in(*document), table@, name);
        }
    }
    table
}

/// Names that are never priced, whatever the table claims.
///
/// A bare family name is genuinely ambiguous across generations, and pricing it
/// would silently attribute one generation's cost to another.
pub open spec fn is_unpriceable(name: Seq<char>) -> bool {
    ||| name == "opus"@
    ||| name == "sonnet"@
    ||| name == "haiku"@
    ||| name == "fable"@
    ||| name == "synthetic"@
    ||| name == "<synthetic>"@
}

/// The name under which a model is looked up.
pub open spec fn lookup_key(model_id: Seq<char>) -> Seq<char> {
    normalized(before_first(model_id, '['))
}

/// Whether a model is looked up under an ASCII name. A variant suffix and white
/// space at the ends may hold other characters.
pub open spec fn has_ascii_key(model_id: Seq<char>) -> bool {
    is_ascii_name(before_first(model_id, '['))
}

/// The name under which a model with an ASCII name is looked up.
pub open spec fn ascii_key(model_id: Seq<char>) -> Seq<char> {
    ascii_normalized(before_first(model_id, '['))
}

/// The rate under a name, if it is one that can be priced and the table has it.
pub open spec fn found_under(table: Map<Seq<char>, Rate>, key: Seq<char>) -> Option<Rate> {
    if key.len() == 0 || is_unpriceable(after_last(key, '/')) || !table.contains_key(key) {
        None
    } else {
        Some(table[key])
    }
}

/// The rate of a model.
pub open spec fn looked_up(table: Map<Seq<char>, Rate>, model_id: Seq<char>) -> Option<Rate> {
    found_under(table, lookup_key(model_id))
}

/// Whether a bare name is never priced.
pub fn unpriceable(name: &str) -> (result: bool)
    ensures
        result == is_unpriceable(name@),
{
    let name: String = name.to_owned();
    name == "opus".to_owned() || name == "sonnet".to_owned() || name == "haiku".to_owned() || name
        == "fable".to_owned() || name == "synthetic".to_owned() || name
        == "<synthetic>".to_owned()
}

/// The rate of a model.
pub fn lookup(table: &RateMap, model_id: &str) -> (rate: Option<Rate>)
    requires
        table.wf(),
    ensures
        rate == looked_up(table@, model_id@),
        has_ascii_key(model_id@) ==> rate == found_under(table@, ascii_key(model_id@)),
{
    let key: String = normalize_key(strip_variant(model_id));
    if key.as_str().is_empty() || unpriceable(bare_name(key.as_str())) {
        return None;
    }
    table.get(key.as_str())
}

/// Looks a model up the same way regardless of which source supplied the rate: a
/// variant suffix is dropped, and a provider prefix is kept. Only the fetched
/// table has short names beside the prefixed ones.
pub fn rate_for(rates: &RateMap, model_id: &str) -> (rate: Option<Rate>)
    requires
        rates.wf(),
    ensures
        rate == looked_up(rates@, model_id@),
        has_ascii_key(model_id@) ==> rate == found_under(rates@, ascii_key(model_id@)),
{
    lookup(rates, model_id)
}

/// A model that a provider offers.
pub struct ProviderModel {
    pub id: String,
    pub cost_info: Option<LanguageModelCostInfo>,
}

/// The rate that a provider gives its own model.
pub open spec fn provider_rate(model: ProviderModel) -> Option<Rate> {
    match model.cost_info {
        Some(info) => Rate::of_provider(info),
        None => None,
    }
}

/// `rates` after the providers' own prices, the later ones overwriting.
pub open spec fn with_providers(
    rates: Map<Seq<char>, Rate>,
    models: Seq<ProviderModel>,
) -> Map<Seq<char>, Rate>
    decreases models.len(),
{
    if models.len() == 0 {
        rates
    } else {
        let before = with_providers(rates, models.drop_last());
        match provider_rate(models.last()) {
            Some(rate) => before.insert(normalized(models.last().id@), rate),
            None => before,
        }
    }
}

/// `rates` after the user's own prices, the later ones overwriting.
pub open spec fn with_settings(
    rates: Map<Seq<char>, Rate>,
    pricing: Seq<(String, ModelPricing)>,
) -> Map<Seq<char>, Rate>
    decreases pricing.len(),
{
    if pricing.len() == 0 {
        rates
    } else {
        with_settings(rates, pricing.drop_last()).insert(
            normalized(pricing.last().0@),
            Rate::of_settings(pricing.last().1),
        )
    }
}

/// What was fetched, if anything was.
pub open spec fn fetched_rates(fetched: Option<&RateMap>) -> Map<Seq<char>, Rate> {
    match fetched {
        Some(table) => table@,
        None => Map::empty(),
    }
}

/// The rates of every model that can be priced: what was fetched, overwritten by
/// the providers' own prices, and those by the user's.
pub open spec fn resolved(
    fetched: Option<&RateMap>,
    models: Seq<ProviderModel>,
    pricing: Seq<(String, ModelPricing)>,
) -> Map<Seq<char>, Rate> {
    with_settings(with_providers(fetched_rates(fetched), models), pricing)
}

/// Resolves a rate for every model that can be priced right now.
///
/// Precedence is user setting, then the provider's own reported price, then the
/// fetched table. Inserting in reverse of that order lets each later source
/// simply overwrite the earlier one.
pub fn resolve(
    fetched: Option<&RateMap>,
    models: &Vec<ProviderModel>,
    pricing: &Vec<(String, ModelPricing)>,
) -> (rates: RateMap)
    requires
        fetched matches Some(table) ==> table.wf(),
    ensures
        rates.wf(),
        rates@ == resolved(fetched, models@, pricing@),
        forall|at: int|
            {
                &&& 0 <= at < pricing@.len()
                &&& forall|i: int|
                    at < i < pricing@.len() ==> normalized((#[trigger] pricing@[i]).0@)
                        != normalized(pricing@[at].0@)
            } ==> rates@.contains_key(normalized((#[trigger] pricing@[at]).0@))
                && rates@[normalized(pricing@[at].0@)] == Rate::of_settings(pricing@[at].1),
{
    let mut rates: RateMap = match fetched {
        Some(table) => table.duplicate(),
        None => RateMap::new(),
    };
    let mut at: usize = 0;
    assert(models@.take(0) =~= Seq::empty());
    while at < models.len()
        invariant
            at <= models@.len(),
            rates.wf(),
            rates@ == with_providers(fetched_rates(fetched), models@.take(at as int)),
        decreases models.len() - at,
    {
        assert(models@.take(at as int + 1).drop_last() =~= models@.take(at as int));
        let offered: Option<Rate> = match &models[at].cost_info {
            Some(info) => Rate::from_provider(info),
            None => None,
        };
        match offered {
            Some(rate) => {
                rates.insert(normalize_key(models[at].id.as_str()), rate);
            },
            None => {},
        }
        at = at + 1;
    }
    assert(models@.take(models@.len() as int) =~= models@);
    let ghost offered = rates@;
    at = 0;
    assert(pricing@.take(0) =~= Seq::empty());
    while at < pricing.len()
        invariant
            at <= pricing@.len(),
            rates.wf(),
            rates@ == with_settings(offered, pricing@.take(at as int)),
        decreases pricing.len() - at,
    {
        assert(pricing@.take(at as int + 1).drop_last() =~= pricing@.take(at as int));
        rates.insert(
            normalize_key(pricing[at].0.as_str()),
            Rate::from_settings(&pricing[at].1),
        );
        at = at + 1;
    }
    assert(pricing@.take(pricing@.len() as int) =~= pricing@);
    proof {
        assert forall|at: int|
            {
                &&& 0 <= at < pricing@.len()
                &&& forall|i: int|
                    at < i < pricing@.len() ==> normalized((#[trigger] pricing@[i]).0@)
                        != normalized(pricing@[at].0@)
            } implies rates@.contains_key(normalized((#[trigger] pricing@[at]).0@))
            && rates@[normalized(pricing@[at].0@)] == Rate::of_settings(pricing@[at].1) by {
            law_settings_come_first(offered, pricing@, at);
        }
    }
    rates
}

} // verus!
