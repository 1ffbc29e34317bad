//! The allowlist of universes, as it is written on the command line.

use crate::text;
use std::collections::HashSet;
use vstd::prelude::*;
use vstd::string::*;

verus! {

/// An input that is refused, and why.
#[derive(Debug)]
pub struct InvalidInput {
    pub message: String,
}

/// Refuses an input.
pub fn invalid_input(message: String) -> (r: InvalidInput)
    ensures
        r.message == message,
{
    InvalidInput { message }
}

/// What is said of a text that is no universe.
pub open spec fn universe_message(value: Seq<char>) -> Seq<char> {
    "invalid universe '"@ + value + "'"@
}

/// What is said of a range whose end comes before its start.
pub open spec fn range_message(part: Seq<char>) -> Seq<char> {
    "invalid universe range '"@ + part + "'"@
}

/// The universe that a text names; white space around it does not count.
pub open spec fn universe_of(value: Seq<char>) -> Result<u16, Seq<char>> {
    match text::number_of(text::trimmed(value)) {
        Some(universe) => Ok(universe),
        None => Err(universe_message(value)),
    }
}

/// The universes from `start` to `end`, both of them too.
pub open spec fn universe_range(start: u16, end: u16) -> Set<u16> {
    Set::new(|u: u16| start <= u <= end)
}

/// The universes that an item of the list names: none, one, or a range.
pub open spec fn item_universes(item: Seq<char>) -> Result<Set<u16>, Seq<char>> {
    let part = text::trimmed(item);
    let dash = text::position_of(part, '-') as int;
    if part.len() == 0 {
        Ok(Set::empty())
    } else if dash < part.len() {
        match (universe_of(part.take(dash)), universe_of(part.skip(dash + 1))) {
            (Err(message), _) => Err(message),
            (Ok(_), Err(message)) => Err(message),
            (Ok(start), Ok(end)) => if start > end {
                Err(range_message(part))
            } else {
                Ok(universe_range(start, end))
            },
        }
    } else {
        match universe_of(part) {
            Ok(universe) => Ok(Set::empty().insert(universe)),
            Err(message) => Err(message),
        }
    }
}

/// The universes that the items of a list name together, or what is said of the first item
/// that names none.
pub open spec fn listed_universes(items: Seq<Seq<char>>) -> Result<Set<u16>, Seq<char>>
    decreases items.len(),
{
    if items.len() == 0 {
        Ok(Set::empty())
    } else {
        match (listed_universes(items.drop_last()), item_universes(items.last())) {
            (Err(message), _) => Err(message),
            (Ok(_), Err(message)) => Err(message),
            (Ok(before), Ok(more)) => Ok(before.union(more)),
        }
    }
}

/// The universes that a list names; its items stand between commas.
pub open spec fn allowlist_of(input: Seq<char>) -> Result<Set<u16>, Seq<char>> {
    listed_universes(text::pieces(input, ','))
}

/// The universe that a text names.
pub fn parse_universe(value: &str) -> (r: Result<u16, InvalidInput>)
    ensures
        match universe_of(value@) {
            Ok(universe) => r == Ok::<u16, InvalidInput>(universe),
            Err(message) => r matches Err(e) && e.message@ == message,
        },
        match text::number_of(text::trimmed(value@)) {
            Some(universe) => r matches Ok(n) && n == universe,
            None => r matches Err(e) && e.message@ == "invalid universe '"@ + value@ + "'"@,
        },
{
    match text::parse_number(text::trim(value)) {
        Some(universe) => Ok(universe),
        None => {
            let mut message = "invalid universe '".to_owned();
            message.append(value);
            message.append("'");
            Err(invalid_input(message))
        },
    }
}

/// Adds the universes that an item of the list names.
fn insert_item(universes: &mut HashSet<u16>, item: &str) -> (r: Result<(), InvalidInput>)
    ensures
        match item_universes(item@) {
            Ok(more) => r is Ok && final(universes)@ == old(universes)@.union(more),
            Err(message) => r matches Err(e) && e.message@ == message,
        },
{
    broadcast use vstd::std_specs::hash::group_hash_axioms;

    let part = text::trim(item);
    if part.is_empty() {
        assert(universes@ =~= universes@.union(Set::empty()));
        return Ok(());
    }
    let dash: usize = text::position(part, '-');
    let len: usize = part.unicode_len();
    if dash < len {
        let start = match parse_universe(part.substring_char(0, dash)) {
            Ok(universe) => universe,
            Err(e) => return Err(e),
        };
        let end = match parse_universe(part.substring_char(dash + 1, len)) {
            Ok(universe) => universe,
            Err(e) => return Err(e),
        };
        if start > end {
            let mut message = "invalid universe range '".to_owned();
            message.append(part);
            message.append("'");
            return Err(invalid_input(message));
        }
        let ghost before = universes@;
        let mut next: u32 = start as u32;
        while next <= end as u32
            invariant
                start <= next <= end + 1,
                universes@ == before.union(Set::new(|u: u16| start <= u < next)),
            decreases end + 1 - next,
        {
            universes.insert(next as u16);
            assert(universes@ =~= before.union(Set::new(|u: u16| start <= u < next + 1)));
            next = next + 1;
        }
        assert(universes@ =~= before.union(universe_range(start, end)));
    } else {
        let universe = match parse_universe(part) {
            Ok(universe) => universe,
            Err(e) => return Err(e),
        };
        universes.insert(universe);
        assert(universes@ =~= old(universes)@.union(Set::empty().insert(universe)));
    }
    Ok(())
}

/// What refuses the front of a list refuses the list.
proof fn lemma_error_stays(front: Seq<Seq<char>>, tail: Seq<Seq<char>>)
    requires
        listed_universes(front) is Err,
    ensures
        listed_universes(front + tail) == listed_universes(front),
    decreases tail.len(),
{
    if tail.len() == 0 {
        assert(front + tail =~= front);
    } else {
        lemma_error_stays(front, tail.drop_last());
        assert((front + tail).drop_last() =~= front + tail.drop_last());
    }
}

/// The universes that a list names, where there is a list. The first item that names none
/// refuses the list.
pub fn parse_universe_allowlist(input: Option<&str>) -> (r: Result<
    Option<HashSet<u16>>,
    InvalidInput,
>)
    ensures
        match input {
            None => r matches Ok(None),
            Some(list) => match allowlist_of(list@) {
                Ok(universes) => r matches Ok(Some(set)) && set@ == universes,
                Err(message) => r matches Err(e) && e.message@ == message,
            },
        },
{
    broadcast use vstd::std_specs::hash::group_hash_axioms;

    let list = match input {
        None => return Ok(None),
        Some(list) => list,
    };
    let mut universes: HashSet<u16> = HashSet::new();
    let mut rest: &str = list;
    let mut more: bool = true;
    let ghost mut done: Seq<Seq<char>> = Seq::empty();
    let ghost all = text::pieces(list@, ',');
    assert(done + text::pieces(rest@, ',') =~= all);
    while more
        invariant
            more ==> done + text::pieces(rest@, ',') == all,
            !more ==> done == all,
            listed_universes(done) == Ok::<Set<u16>, Seq<char>>(universes@),
            all == text::pieces(list@, ','),
            input == Some(list),
        decreases rest@.len() + (if more { 1int } else { 0int }),
    {
        let comma: usize = text::position(rest, ',');
        let len: usize = rest.unicode_len();
        let item = if comma < len {
            rest.substring_char(0, comma)
        } else {
            rest
        };
        let ghost next = done.push(item@);
        assert(next.drop_last() =~= done);
        let ghost tail = if comma < len {
            text::pieces(rest@.skip(comma as int + 1), ',')
        } else {
            Seq::empty()
        };
        assert(all =~= next + tail);
        proof {
            if listed_universes(next) is Err {
                lemma_error_stays(next, tail);
            }
        }
        match insert_item(&mut universes, item) {
            Ok(()) => {},
            Err(e) => return Err(e),
        }
        proof {
            done = next;
        }
        if comma < len {
            assert(rest@.skip(comma as int + 1) =~= rest@.subrange(comma as int + 1, len as int));
            rest = rest.substring_char(comma + 1, len);
        } else {
            more = false;
        }
    }
    Ok(Some(universes))
}

/// A list that is not refused holds a universe exactly if one of its items names it.
pub proof fn law_list_holds_what_items_name(items: Seq<Seq<char>>, universe: u16)
    requires
        listed_universes(items) is Ok,
    ensures
        listed_universes(items)->Ok_0.contains(universe) <==> exists|i: int|
            0 <= i < items.len() && (#[trigger] item_universes(items[i]))->Ok_0.contains(universe),
        forall|i: int| 0 <= i < items.len() ==> (#[trigger] item_universes(items[i])) is Ok,
    decreases items.len(),
{
    if items.len() > 0 {
        let front = items.drop_last();
        law_list_holds_what_items_name(front, universe);
        let last = items.len() - 1;
        assert forall|i: int| 0 <= i < items.len() implies (#[trigger] item_universes(items[i])) is Ok by {
            if i < last {
                assert(items[i] == front[i]);
            }
        }
        if listed_universes(items)->Ok_0.contains(universe) {
            if listed_universes(front)->Ok_0.contains(universe) {
                let i = choose|i: int|
                    0 <= i < front.len() && (#[trigger] item_universes(front[i]))->Ok_0.contains(universe);
                assert(items[i] == front[i]);
                assert(item_universes(items[i])->Ok_0.contains(universe));
            } else {
                assert(item_universes(items[last])->Ok_0.contains(universe));
            }
        } else {
            assert forall|i: int| 0 <= i < items.len() implies !(#[trigger] item_universes(
                items[i],
            ))->Ok_0.contains(universe) by {
                if i < last {
                    assert(items[i] == front[i]);
                    assert(item_universes(front[i])->Ok_0.contains(universe) ==> listed_universes(
                        front,
                    )->Ok_0.contains(universe));
                }
            }
        }
    }
}

/// A list is refused exactly if one of its items is, and the first such item says why.
pub proof fn law_first_bad_item_refuses(items: Seq<Seq<char>>, bad: int)
    requires
        0 <= bad < items.len(),
        item_universes(items[bad]) is Err,
        forall|i: int| 0 <= i < bad ==> (#[trigger] item_universes(items[i])) is Ok,
    ensures
        listed_universes(items) is Err,
        listed_universes(items)->Err_0 == item_universes(items[bad])->Err_0,
{
    let front = items.take(bad);
    lemma_good_items(front);
    let cut = items.take(bad + 1);
    assert(cut.drop_last() =~= front);
    assert(cut + items.skip(bad + 1) =~= items);
    lemma_error_stays(cut, items.skip(bad + 1));
}

proof fn lemma_good_items(items: Seq<Seq<char>>)
    requires
        forall|i: int| 0 <= i < items.len() ==> (#[trigger] item_universes(items[i])) is Ok,
    ensures
        listed_universes(items) is Ok,
    decreases items.len(),
{
    if items.len() > 0 {
        let front = items.drop_last();
        assert forall|i: int| 0 <= i < front.len() implies (#[trigger] item_universes(front[i])) is Ok by {
            assert(items[i] == front[i]);
        }
        lemma_good_items(front);
        assert(item_universes(items[items.len() - 1]) is Ok);
    }
}

/// A text names a universe exactly if it is a number within white space, and what is said of any
/// other quotes it as it stands.
pub proof fn law_universe_is_the_number(before: Seq<char>, middle: Seq<char>, after: Seq<char>)
    requires
        forall|i: int| 0 <= i < before.len() ==> text::is_space(#[trigger] before[i]),
        forall|i: int| 0 <= i < after.len() ==> text::is_space(#[trigger] after[i]),
        middle.len() > 0 ==> !text::is_space(middle.first()) && !text::is_space(middle.last()),
    ensures
        universe_of(before + middle + after) == (match text::number_of(middle) {
            Some(universe) => Ok::<u16, Seq<char>>(universe),
            None => Err("invalid universe '"@ + (before + middle + after) + "'"@),
        }),
{
    text::law_trimming_leaves_the_middle(before, middle, after);
}

/// An item of nothing but white space names no universe, and is not refused.
pub proof fn law_blank_items_name_nothing(item: Seq<char>, universe: u16)
    requires
        forall|i: int| 0 <= i < item.len() ==> text::is_space(#[trigger] item[i]),
    ensures
        item_universes(item) matches Ok(universes) && !universes.contains(universe),
{
    let none = Seq::<char>::empty();
    assert(item + none + none =~= item);
    text::law_trimming_leaves_the_middle(item, none, none);
}

/// An item without a dash names the universe that it is the number of and no other, or is refused
/// as that number would be.
pub proof fn law_single_item_names_its_universe(
    before: Seq<char>,
    middle: Seq<char>,
    after: Seq<char>,
    universe: u16,
)
    requires
        forall|i: int| 0 <= i < before.len() ==> text::is_space(#[trigger] before[i]),
        forall|i: int| 0 <= i < after.len() ==> text::is_space(#[trigger] after[i]),
        middle.len() > 0,
        !text::is_space(middle.first()) && !text::is_space(middle.last()),
        forall|i: int| 0 <= i < middle.len() ==> #[trigger] middle[i] != '-',
    ensures
        match text::number_of(middle) {
            Some(n) => item_universes(before + middle + after) matches Ok(universes)
                && (universes.contains(universe) <==> universe == n),
            None => item_universes(before + middle + after) == Err::<Set<u16>, Seq<char>>(
                "invalid universe '"@ + middle + "'"@,
            ),
        },
{
    text::law_trimming_leaves_the_middle(before, middle, after);
    text::law_first_place_is_found(middle, '-');
    let none = Seq::<char>::empty();
    assert(none + middle + none =~= middle);
    law_universe_is_the_number(none, middle, none);
}

/// An item with a dash names the universes from the one before its first dash to the one behind it,
/// both of them too and no others. It is refused with what is said of the first of the two that is
/// none, and as a whole where the end comes before the start.
pub proof fn law_range_item_names_what_lies_between(
    before: Seq<char>,
    first: Seq<char>,
    second: Seq<char>,
    after: Seq<char>,
    universe: u16,
)
    requires
        forall|i: int| 0 <= i < before.len() ==> text::is_space(#[trigger] before[i]),
        forall|i: int| 0 <= i < after.len() ==> text::is_space(#[trigger] after[i]),
        first.len() > 0 ==> !text::is_space(first.first()),
        second.len() > 0 ==> !text::is_space(second.last()),
        forall|i: int| 0 <= i < first.len() ==> #[trigger] first[i] != '-',
    ensures
        ({
            let part = first.push('-') + second;
            let item = before + part + after;
            match (universe_of(first), universe_of(second)) {
                (Err(message), _) => item_universes(item) == Err::<Set<u16>, Seq<char>>(message),
                (Ok(_), Err(message)) => item_universes(item) == Err::<Set<u16>, Seq<char>>(message),
                (Ok(start), Ok(end)) => if start <= end {
                    item_universes(item) matches Ok(universes) && (universes.contains(universe) <==> start
                        <= universe && universe <= end)
                } else {
                    item_universes(item) == Err::<Set<u16>, Seq<char>>(
                        "invalid universe range '"@ + part + "'"@,
                    )
                },
            }
        }),
{
    let part = first.push('-') + second;
    let dash = first.len() as int;
    assert(part.first() == (if first.len() > 0 {
        first.first()
    } else {
        '-'
    }));
    assert(part.last() == (if second.len() > 0 {
        second.last()
    } else {
        '-'
    }));
    text::law_trimming_leaves_the_middle(before, part, after);
    text::lemma_position_behind(first, '-', second);
    assert(part.take(dash) =~= first);
    assert(part.skip(dash + 1) =~= second);
}

/// The items of a list are what stands between its commas.
pub proof fn law_items_stand_between_commas(items: Seq<Seq<char>>)
    requires
        items.len() > 0,
        forall|k: int, i: int|
            0 <= k < items.len() && 0 <= i < items[k].len() ==> #[trigger] items[k][i] != ',',
    ensures
        allowlist_of(text::joined(items, ',')) == listed_universes(items),
{
    text::law_pieces_are_the_parts(items, ',');
}

/// A range as it is written; one universe is written alone.
pub open spec fn written(range: (u16, u16)) -> Seq<char> {
    if range.0 == range.1 {
        text::decimal_of(range.0 as nat)
    } else {
        text::decimal_of(range.0 as nat).push('-') + text::decimal_of(range.1 as nat)
    }
}

/// What is written is read as the range, and holds no comma.
proof fn lemma_written_item(range: (u16, u16), universe: u16)
    requires
        range.0 <= range.1,
    ensures
        item_universes(written(range)) matches Ok(universes) && (universes.contains(universe)
            <==> range.0 <= universe && universe <= range.1),
        forall|i: int| 0 <= i < written(range).len() ==> #[trigger] written(range)[i] != ',',
{
    let (a, b) = (text::decimal_of(range.0 as nat), text::decimal_of(range.1 as nat));
    let none = Seq::<char>::empty();
    text::lemma_decimal_is_digits(range.0 as nat);
    text::lemma_decimal_is_digits(range.1 as nat);
    text::law_written_numbers_are_read_back(range.0);
    text::law_written_numbers_are_read_back(range.1);
    assert(48 <= a[0] as int <= 57 && 48 <= a[a.len() - 1] as int <= 57);
    assert(48 <= b[0] as int <= 57 && 48 <= b[b.len() - 1] as int <= 57);
    assert forall|i: int| 0 <= i < a.len() implies #[trigger] a[i] != '-' && a[i] != ',' by {
        assert(48 <= a[i] as int <= 57);
    }
    assert forall|i: int| 0 <= i < b.len() implies #[trigger] b[i] != ',' by {
        assert(48 <= b[i] as int <= 57);
    }
    assert(none + a + none =~= a);
    assert(none + b + none =~= b);
    if range.0 == range.1 {
        law_single_item_names_its_universe(none, a, none, universe);
    } else {
        let part = a.push('-') + b;
        assert(none + part + none =~= part);
        law_universe_is_the_number(none, a, none);
        law_universe_is_the_number(none, b, none);
        law_range_item_names_what_lies_between(none, a, b, none, universe);
        assert forall|i: int| 0 <= i < part.len() implies #[trigger] part[i] != ',' by {
            if i < a.len() {
                assert(part[i] == a[i]);
            } else if i > a.len() {
                assert(part[i] == b[i - a.len() - 1]);
            }
        }
    }
}

/// A list of universes and ranges is read back as it was written: it is not refused, and holds a
/// universe exactly if that lies in one of the ranges.
pub proof fn law_written_list_is_read_back(ranges: Seq<(u16, u16)>, universe: u16)
    requires
        ranges.len() > 0,
        forall|k: int| 0 <= k < ranges.len() ==> (#[trigger] ranges[k]).0 <= ranges[k].1,
    ensures
        allowlist_of(text::joined(ranges.map_values(|range: (u16, u16)| written(range)), ',')) matches Ok(
            universes,
        ) && (universes.contains(universe) <==> exists|k: int|
            0 <= k < ranges.len() && (#[trigger] ranges[k]).0 <= universe && universe <= ranges[k].1),
{
    let items = ranges.map_values(|range: (u16, u16)| written(range));
    assert forall|k: int, i: int| 0 <= k < items.len() && 0 <= i < items[k].len() implies #[trigger] items[k][i]
        != ',' by {
        lemma_written_item(ranges[k], universe);
        assert(items[k] == written(ranges[k]));
    }
    law_items_stand_between_commas(items);
    assert forall|k: int| 0 <= k < items.len() implies (#[trigger] item_universes(items[k])) is Ok
        && (item_universes(items[k])->Ok_0.contains(universe) <==> ranges[k].0 <= universe && universe
        <= ranges[k].1) by {
        lemma_written_item(ranges[k], universe);
        assert(items[k] == written(ranges[k]));
    }
    lemma_good_items(items);
    law_list_holds_what_items_name(items, universe);
    let universes = listed_universes(items)->Ok_0;
    if universes.contains(universe) {
        let k = choose|k: int|
            0 <= k < items.len() && (#[trigger] item_universes(items[k]))->Ok_0.contains(universe);
        assert(ranges[k].0 <= universe && universe <= ranges[k].1);
    }
    if exists|k: int|
        0 <= k < ranges.len() && (#[trigger] ranges[k]).0 <= universe && universe <= ranges[k].1 {
        let k = choose|k: int|
            0 <= k < ranges.len() && (#[trigger] ranges[k]).0 <= universe && universe <= ranges[k].1;
        assert(item_universes(items[k])->Ok_0.contains(universe));
    }
}

/// A list is refused exactly where one of its items is.
pub proof fn law_good_lists_are_not_refused(items: Seq<Seq<char>>)
    ensures
        listed_universes(items) is Ok <==> forall|i: int|
            0 <= i < items.len() ==> (#[trigger] item_universes(items[i])) is Ok,
{
    if listed_universes(items) is Ok {
        law_list_holds_what_items_name(items, 0);
    }
    if forall|i: int| 0 <= i < items.len() ==> (#[trigger] item_universes(items[i])) is Ok {
        lemma_good_items(items);
    }
}

} // verus!
