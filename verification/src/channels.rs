//! The names under which the services find one another.
use crate::text::{
    chars_of, digits, is_digit, law_number_back, lemma_digits_shape, number_text,
    parse_u32, parsed_u32,
};
use crate::types::MarketID;
use vstd::prelude::*;
use vstd::slice::slice_subrange;
use vstd::string::StringExecFns;

verus! {

/// The channel on which deposits are published.
pub const DEPOSITS_CHANNEL: &'static str = "deposits";

/// The pattern of the channels on which orders are published.
pub const MARKET_PATTERN: &'static str = "market:*";

/// The pattern of the channels on which events are published.
pub const EVENTS_PATTERN: &'static str = "market-events:*";

/// The list that holds the execution log.
pub const EXECUTION_LOG_KEY: &'static str = "execution_log";

/// The entry that holds the latest checkpoint.
pub const CHECKPOINT_KEY: &'static str = "checkpoint:latest";

/// The channel of a market's orders.
pub open spec fn market_channel_text(id: u32) -> Seq<char> {
    "market:"@ + digits(id as nat)
}

/// The channel of a market's events.
pub open spec fn events_channel_text(id: u32) -> Seq<char> {
    "market-events:"@ + digits(id as nat)
}

/// The channel on which the orders of a market are published.
pub fn market_channel(id: MarketID) -> (r: String)
    ensures
        r@ == market_channel_text(id.0),
{
    let mut name = String::from_str("market:");
    let number = number_text(id.0 as u64);
    name.append(number.as_str());
    name
}

/// The channel on which the events of a market are published.
pub fn events_channel(id: MarketID) -> (r: String)
    ensures
        r@ == events_channel_text(id.0),
{
    let mut name = String::from_str("market-events:");
    let number = number_text(id.0 as u64);
    name.append(number.as_str());
    name
}

/// The position of the first separator in some text, or its length.
pub open spec fn first_at(text: Seq<char>, sep: char) -> nat
    decreases text.len(),
{
    if text.len() == 0 || text[0] == sep {
        0
    } else {
        1 + first_at(text.drop_first(), sep)
    }
}

/// The pieces of some text between its separators.
pub open spec fn pieces(text: Seq<char>, sep: char) -> Seq<Seq<char>>
    decreases text.len(),
{
    let at = first_at(text, sep);
    if at >= text.len() {
        seq![text]
    } else {
        seq![text.take(at as int)] + pieces(text.skip(at as int + 1), sep)
    }
}

/// The market that a channel name belongs to: the number in its second piece.
pub open spec fn channel_market(name: Seq<char>) -> Option<u32> {
    let p = pieces(name, ':');
    if p.len() < 2 {
        None
    } else {
        parsed_u32(p[1])
    }
}

proof fn lemma_first_at(text: Seq<char>, sep: char, at: int)
    requires
        0 <= at <= text.len(),
        forall|i: int| 0 <= i < at ==> #[trigger] text[i] != sep,
        at < text.len() ==> text[at] == sep,
    ensures
        first_at(text, sep) == at,
    decreases at,
{
    if at > 0 {
        assert(text[0] != sep);
        lemma_first_at(text.drop_first(), sep, at - 1);
    }
}

/// The position of the first separator from a given one on.
pub(crate) fn find_from(text: &[char], sep: char, start: usize) -> (r: usize)
    requires
        start <= text@.len(),
    ensures
        start <= r <= text@.len(),
        r == start + first_at(text@.skip(start as int), sep),
{
    let mut i: usize = start;
    while i < text.len() && text[i] != sep
        invariant
            start <= i <= text@.len(),
            forall|j: int| start <= j < i ==> #[trigger] text@[j] != sep,
        decreases text@.len() - i,
    {
        i += 1;
    }
    proof {
        let rest = text@.skip(start as int);
        assert forall|j: int| 0 <= j < i - start implies #[trigger] rest[j] != sep by {
            assert(rest[j] == text@[start + j]);
        }
        lemma_first_at(rest, sep, i - start);
    }
    i
}

/// The market that a channel name belongs to, if it names one.
pub fn market_of_channel(name: &str) -> (r: Option<MarketID>)
    ensures
        r == (match channel_market(name@) {
            Some(id) => Some(MarketID(id)),
            None => None,
        }),
{
    let text = chars_of(name);
    let text = text.as_slice();
    assert(text@.skip(0) =~= text@);
    let colon = find_from(text, ':', 0);
    if colon == text.len() {
        return None;
    }
    let ghost rest = text@.skip(colon + 1);
    let end = find_from(text, ':', colon + 1);
    proof {
        let p = pieces(text@, ':');
        assert(p =~= seq![text@.take(colon as int)] + pieces(rest, ':'));
        assert(p[1] == pieces(rest, ':')[0]);
        assert(pieces(rest, ':')[0] =~= text@.subrange(colon + 1, end as int));
    }
    match parse_u32(slice_subrange(text, colon + 1, end)) {
        Some(id) => Some(MarketID(id)),
        None => None,
    }
}

/// A channel's market comes back out of its name.
proof fn lemma_channel_back(head: Seq<char>, id: u32)
    requires
        forall|i: int| 0 <= i < head.len() ==> #[trigger] head[i] != ':',
    ensures
        channel_market(head.push(':') + digits(id as nat)) == Some(id),
{
    let tail = digits(id as nat);
    let name = head.push(':') + tail;
    let n = head.len() as int;
    lemma_digits_shape(id as nat);
    assert forall|i: int| 0 <= i < n implies #[trigger] name[i] != ':' by {
        assert(name[i] == head[i]);
    }
    lemma_first_at(name, ':', n);
    assert(name.skip(n + 1) =~= tail);
    assert forall|i: int| 0 <= i < tail.len() implies #[trigger] tail[i] != ':' by {
        assert(is_digit(tail[i]));
    }
    lemma_first_at(tail, ':', tail.len() as int);
    let p = pieces(name, ':');
    assert(pieces(tail, ':') =~= seq![tail]);
    assert(p =~= seq![name.take(n), tail]);
    law_number_back(id);
}

/// Subscribers find a market's number in the name of either of its channels.
pub proof fn law_channel_names_its_market(id: u32)
    ensures
        channel_market(market_channel_text(id)) == Some(id),
        channel_market(events_channel_text(id)) == Some(id),
{
    reveal_strlit("market:");
    reveal_strlit("market-events:");
    reveal_strlit("market");
    reveal_strlit("market-events");
    assert("market:"@ =~= "market"@.push(':'));
    assert("market-events:"@ =~= "market-events"@.push(':'));
    lemma_channel_back("market"@, id);
    lemma_channel_back("market-events"@, id);
}

} // verus!
