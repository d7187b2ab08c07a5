//! What the market data gateway passes on, and to whom.
//!
//! A client may ask for some markets only, by a comma-separated list of numbers;
//! without a list it gets all of them. Entries that are no numbers are ignored.
use crate::channels::{
    channel_market, events_channel_text, find_from, first_at, law_channel_names_its_market,
    market_of_channel, pieces,
};
use crate::events::{
    decode_event, event_as_read, event_read, event_reads_back, event_wire, law_event_back,
    valid_event,
};
use crate::messages::front;
use crate::text::{chars_of, parse_u32, parsed_u32};
use crate::types::MarketEvent;
use std::collections::HashSet;
use vstd::prelude::*;
use vstd::slice::slice_subrange;

verus! {

broadcast use vstd::std_specs::hash::group_hash_axioms;

/// The white space of Unicode.
pub open spec fn is_space(c: char) -> bool {
    let n = c as int;
    ||| 0x9 <= n <= 0xD
    ||| n == 0x20
    ||| n == 0x85
    ||| n == 0xA0
    ||| n == 0x1680
    ||| 0x2000 <= n <= 0x200A
    ||| n == 0x2028
    ||| n == 0x2029
    ||| n == 0x202F
    ||| n == 0x205F
    ||| n == 0x3000
}

/// Text without the white space at its end.
pub open spec fn trimmed_end(text: Seq<char>) -> Seq<char>
    decreases text.len(),
{
    if text.len() > 0 && is_space(text.last()) {
        trimmed_end(text.drop_last())
    } else {
        text
    }
}

/// Text without the white space at its start and its end.
pub open spec fn trimmed(text: Seq<char>) -> Seq<char>
    decreases text.len(),
{
    if text.len() > 0 && is_space(text[0]) {
        trimmed(text.drop_first())
    } else {
        trimmed_end(text)
    }
}

/// The numbers noted by some pieces of text.
pub open spec fn numbers_in(list: Seq<Seq<char>>) -> Set<u32>
    decreases list.len(),
{
    if list.len() == 0 {
        Set::empty()
    } else {
        match parsed_u32(trimmed(list[0])) {
            Some(id) => numbers_in(list.drop_first()).insert(id),
            None => numbers_in(list.drop_first()),
        }
    }
}

/// The markets that a client's list names.
pub open spec fn markets_in(list: Seq<char>) -> Set<u32> {
    numbers_in(pieces(list, ','))
}

fn is_white(c: char) -> (r: bool)
    ensures
        r == is_space(c),
{
    let n: u32 = c as u32;
    (0x9 <= n && n <= 0xD) || n == 0x20 || n == 0x85 || n == 0xA0 || n == 0x1680 || (0x2000 <= n
        && n <= 0x200A) || n == 0x2028 || n == 0x2029 || n == 0x202F || n == 0x205F || n == 0x3000
}

/// Strips white space off both ends.
fn trim(text: &[char]) -> (r: &[char])
    ensures
        r@ == trimmed(text@),
{
    let mut start: usize = 0;
    assert(text@.skip(0) =~= text@);
    while start < text.len() && is_white(text[start])
        invariant
            start <= text@.len(),
            trimmed(text@) == trimmed(text@.skip(start as int)),
        decreases text@.len() - start,
    {
        assert(text@.skip(start as int).drop_first() =~= text@.skip(start + 1));
        start += 1;
    }
    let mut end: usize = text.len();
    assert(text@.subrange(start as int, end as int) =~= text@.skip(start as int));
    while start < end && is_white(text[end - 1])
        invariant
            start <= end <= text@.len(),
            trimmed(text@) == trimmed_end(text@.subrange(start as int, end as int)),
        decreases end - start,
    {
        assert(text@.subrange(start as int, end as int).drop_last() =~= text@.subrange(
            start as int,
            end - 1,
        ));
        end -= 1;
    }
    slice_subrange(text, start, end)
}

/// The markets that a client's list names.
pub fn parse_markets(list: &str) -> (r: HashSet<u32>)
    ensures
        r@ == markets_in(list@),
{
    let text = chars_of(list);
    let text = text.as_slice();
    let mut set: HashSet<u32> = HashSet::new();
    let mut start: usize = 0;
    let mut done = false;
    assert(text@.skip(0) =~= text@);
    assert(set@.union(markets_in(text@)) =~= markets_in(text@));
    while !done
        invariant
            start <= text@.len(),
            !done ==> markets_in(text@) == set@.union(markets_in(text@.skip(start as int))),
            done ==> markets_in(text@) == set@,
        decreases (if done { 0int } else { text@.len() - start + 1 }),
    {
        let ghost rest = text@.skip(start as int);
        let ghost before = set@;
        let end = find_from(text, ',', start);
        let piece = slice_subrange(text, start, end);
        proof {
            let at = first_at(rest, ',') as int;
            assert(piece@ =~= rest.take(at));
            if end == text@.len() {
                assert(piece@ =~= rest);
                assert(pieces(rest, ',').drop_first() =~= Seq::<Seq<char>>::empty());
                assert(numbers_in(Seq::<Seq<char>>::empty()) == Set::<u32>::empty());
            } else {
                assert(rest.skip(at + 1) =~= text@.skip(end + 1));
                assert(pieces(rest, ',').drop_first() =~= pieces(text@.skip(end + 1), ','));
            }
            assert(pieces(rest, ',')[0] == piece@);
        }
        match parse_u32(trim(piece)) {
            Some(id) => {
                set.insert(id);
            },
            None => {},
        }
        if end == text.len() {
            done = true;
            assert(markets_in(text@) =~= set@);
        } else {
            start = end + 1;
            assert(markets_in(text@) =~= set@.union(markets_in(text@.skip(start as int))));
        }
    }
    set
}

/// Which markets a client wants to hear of: all where it gave no list.
pub fn client_filter(list: Option<&str>) -> (r: Option<HashSet<u32>>)
    ensures
        match list {
            Some(text) => r matches Some(set) && set@ == markets_in(text@),
            None => r is None,
        },
{
    match list {
        Some(text) => Some(parse_markets(text)),
        None => None,
    }
}

/// Whether a client hears of a market's event.
pub open spec fn wanted(filter: Option<HashSet<u32>>, market: u32) -> bool {
    match filter {
        Some(set) => set@.contains(market),
        None => true,
    }
}

/// Whether an event of a market is passed on to a client with the given filter.
pub fn is_wanted(filter: &Option<HashSet<u32>>, market: u32) -> (r: bool)
    ensures
        r == wanted(*filter, market),
{
    match filter {
        Some(set) => set.contains(&market),
        None => true,
    }
}

/// Whether a client asked for text frames; it gets binary ones otherwise.
pub fn wants_json(format: Option<&str>) -> (r: bool)
    ensures
        r == (format matches Some(name) && name@ == "json"@),
{
    match format {
        Some(name) => {
            let text = chars_of(name);
            proof {
                reveal_strlit("json");
                if name@ == "json"@ {
                    assert(name@.len() == 4);
                }
            }
            let r = text.len() == 4 && text[0] == 'j' && text[1] == 's' && text[2] == 'o' && text[3]
                == 'n';
            assert(r ==> name@ =~= "json"@);
            r
        },
        None => false,
    }
}

/// What the gateway makes of a published message: the market's number and the
/// event. A message is dropped where its channel names no market or its bytes are
/// no event.
pub open spec fn relayed(channel: Seq<char>, payload: Seq<u8>) -> Option<(u32, MarketEvent)> {
    match (channel_market(channel), front(event_read(payload))) {
        (Some(id), Some(event)) => Some((id, event)),
        _ => None,
    }
}

/// Reads a published message.
pub fn relay(channel: &str, payload: &[u8]) -> (r: Option<(u32, MarketEvent)>)
    ensures
        r == relayed(channel@, payload@),
{
    let market = market_of_channel(channel)?;
    let event = decode_event(payload)?;
    Some((market.0, event))
}

/// What a market publishes on its channel is passed on under its number; of a zero the
/// sign is lost.
pub proof fn law_published_is_relayed(id: u32, event: MarketEvent)
    requires
        valid_event(event),
    ensures
        relayed(events_channel_text(id), event_wire(event)) == Some((id, event_as_read(event))),
        event_reads_back(event) ==> relayed(events_channel_text(id), event_wire(event)) == Some(
            (id, event),
        ),
{
    law_channel_names_its_market(id);
    assert(event_wire(event) + Seq::<u8>::empty() =~= event_wire(event));
    law_event_back(event, Seq::empty());
}

} // verus!
