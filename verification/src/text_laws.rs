//! How lists, numbers and channel names are taken apart.
use crate::channels::{
    channel_market, events_channel_text, first_at, law_channel_names_its_market,
    market_channel_text, pieces,
};
use crate::events::event_read;
use crate::gateway::{is_space, markets_in, numbers_in, relayed, trimmed, trimmed_end, wanted};
use crate::messages::front;
use crate::text::{
    all_digits, digits, digits_value, law_number_back, lemma_digits_shape, lemma_digits_value_back,
    parsed_u32,
};
use crate::types::MarketEvent;
use std::collections::HashSet;
use vstd::prelude::*;

verus! {

/// Pieces of text with a separator between each two.
pub open spec fn with_separators(list: Seq<Seq<char>>, sep: char) -> Seq<char>
    decreases list.len(),
{
    if list.len() == 0 {
        Seq::empty()
    } else if list.len() == 1 {
        list[0]
    } else {
        list[0].push(sep) + with_separators(list.drop_first(), sep)
    }
}

/// Whether a separator is in no piece.
pub open spec fn in_no_piece(list: Seq<Seq<char>>, sep: char) -> bool {
    forall|i: int| 0 <= i < list.len() ==> !(#[trigger] list[i]).contains(sep)
}

proof fn lemma_first_at_is_first(text: Seq<char>, sep: char)
    ensures
        first_at(text, sep) <= text.len(),
        forall|i: int| 0 <= i < first_at(text, sep) ==> #[trigger] text[i] != sep,
        first_at(text, sep) < text.len() ==> text[first_at(text, sep) as int] == sep,
    decreases text.len(),
{
    if text.len() > 0 && text[0] != sep {
        let rest = text.drop_first();
        lemma_first_at_is_first(rest, sep);
        assert forall|i: int| 0 <= i < first_at(text, sep) implies #[trigger] text[i] != sep by {
            if i > 0 {
                assert(text[i] == rest[i - 1]);
            }
        }
    }
}

/// Text is cut at every separator and nowhere else: the pieces hold no separator, and
/// put together again they are the text.
pub proof fn law_pieces(text: Seq<char>, sep: char)
    ensures
        pieces(text, sep).len() > 0,
        in_no_piece(pieces(text, sep), sep),
        with_separators(pieces(text, sep), sep) == text,
    decreases text.len(),
{
    lemma_first_at_is_first(text, sep);
    let at = first_at(text, sep) as int;
    let all = pieces(text, sep);
    if at < text.len() {
        let rest = text.skip(at + 1);
        law_pieces(rest, sep);
        let more = pieces(rest, sep);
        assert(all.drop_first() =~= more);
        assert forall|i: int| 0 <= i < all.len() implies !(#[trigger] all[i]).contains(sep) by {
            if i > 0 {
                assert(all[i] == more[i - 1]);
            } else {
                assert(all[0] == text.take(at));
            }
        }
        assert(all[0].push(sep) + rest =~= text);
    }
}

/// What is stripped off text is white space at its ends, and all of it.
pub proof fn law_trimmed(text: Seq<char>) -> (r: (int, int))
    ensures
        0 <= r.0 <= r.1 <= text.len(),
        trimmed(text) == text.subrange(r.0, r.1),
        forall|i: int| 0 <= i < r.0 ==> is_space(#[trigger] text[i]),
        forall|i: int| r.1 <= i < text.len() ==> is_space(#[trigger] text[i]),
        r.0 < r.1 ==> !is_space(text[r.0]) && !is_space(text[r.1 - 1]),
    decreases text.len(),
{
    if text.len() > 0 && is_space(text[0]) {
        let rest = text.drop_first();
        let (a, b) = law_trimmed(rest);
        assert(rest.subrange(a, b) =~= text.subrange(a + 1, b + 1));
        assert forall|i: int| 0 <= i < a + 1 implies is_space(#[trigger] text[i]) by {
            if i > 0 {
                assert(text[i] == rest[i - 1]);
            }
        }
        assert forall|i: int| b + 1 <= i < text.len() implies is_space(#[trigger] text[i]) by {
            assert(text[i] == rest[i - 1]);
        }
        (a + 1, b + 1)
    } else {
        let b = lemma_trimmed_end(text);
        assert(text.take(b) =~= text.subrange(0, b));
        (0, b)
    }
}

proof fn lemma_trimmed_end(text: Seq<char>) -> (b: int)
    ensures
        0 <= b <= text.len(),
        trimmed_end(text) == text.take(b),
        forall|i: int| b <= i < text.len() ==> is_space(#[trigger] text[i]),
        b > 0 ==> !is_space(text[b - 1]),
    decreases text.len(),
{
    if text.len() > 0 && is_space(text.last()) {
        let rest = text.drop_last();
        let b = lemma_trimmed_end(rest);
        assert(rest.take(b) =~= text.take(b));
        assert forall|i: int| b <= i < text.len() implies is_space(#[trigger] text[i]) by {
            if i < rest.len() {
                assert(text[i] == rest[i]);
            }
        }
        b
    } else {
        assert(text.take(text.len() as int) =~= text);
        text.len() as int
    }
}

/// Only digits note a number, at least one, with no more than a plus sign before them.
pub proof fn law_numbers_are_digits(text: Seq<char>)
    requires
        parsed_u32(text) is Some,
    ensures
        text.len() > 0,
        text[0] == '+' ==> text.len() > 1,
        forall|i: int|
            0 <= i < text.len() ==> ('0' <= #[trigger] text[i] <= '9' || (i == 0 && text[0]
                == '+')),
{
    let body = if text.len() > 0 && text[0] == '+' {
        text.drop_first()
    } else {
        text
    };
    assert(all_digits(body));
    assert forall|i: int| 0 <= i < text.len() implies ('0' <= #[trigger] text[i] <= '9' || (i == 0
        && text[0] == '+')) by {
        if text[0] == '+' {
            if i > 0 {
                assert(body[i - 1] == text[i]);
            }
        } else {
            assert(body[i] == text[i]);
        }
    }
}

/// A number's digits note it, with any number of zeros and with a plus sign before them.
pub proof fn law_number_padded(zeros: nat, n: u32)
    ensures
        ({
            let padded = Seq::new(zeros, |i: int| '0') + digits(n as nat);
            &&& parsed_u32(padded) == Some(n)
            &&& parsed_u32(seq!['+'] + padded) == Some(n)
        }),
{
    let d = digits(n as nat);
    let padded = Seq::new(zeros, |i: int| '0') + d;
    lemma_digits_shape(n as nat);
    lemma_digits_value_back(n as nat);
    lemma_zeros_add_nothing(zeros, d);
    assert forall|i: int| 0 <= i < padded.len() implies crate::text::is_digit(
        #[trigger] padded[i],
    ) by {
        if i >= zeros {
            assert(padded[i] == d[i - zeros]);
        }
    }
    assert(all_digits(padded));
    assert(crate::text::is_digit(padded[0]));
    assert((seq!['+'] + padded).drop_first() =~= padded);
}

proof fn lemma_zeros_add_nothing(zeros: nat, d: Seq<char>)
    ensures
        digits_value(Seq::new(zeros, |i: int| '0') + d) == digits_value(d),
    decreases zeros + d.len(),
{
    let z = Seq::new(zeros, |i: int| '0');
    let all = z + d;
    if d.len() > 0 {
        lemma_zeros_add_nothing(zeros, d.drop_last());
        assert(all.drop_last() =~= z + d.drop_last());
        assert(all.last() == d.last());
    } else if zeros > 0 {
        let fewer = Seq::new((zeros - 1) as nat, |i: int| '0');
        lemma_zeros_add_nothing((zeros - 1) as nat, d);
        assert(all.drop_last() =~= fewer + d);
        assert(all.last() == '0');
    } else {
        assert(all =~= d);
    }
}

/// The numbers in a list are those that one of its entries notes, spaces aside.
pub proof fn law_numbers_in(list: Seq<Seq<char>>, id: u32)
    ensures
        numbers_in(list).contains(id) <==> exists|i: int|
            0 <= i < list.len() && parsed_u32(trimmed(#[trigger] list[i])) == Some(id),
    decreases list.len(),
{
    if list.len() > 0 {
        let rest = list.drop_first();
        law_numbers_in(rest, id);
        if parsed_u32(trimmed(list[0])) != Some(id) {
            if numbers_in(list).contains(id) {
                let i = choose|i: int|
                    0 <= i < rest.len() && parsed_u32(trimmed(#[trigger] rest[i])) == Some(id);
                assert(rest[i] == list[i + 1]);
            }
            if exists|i: int|
                0 <= i < list.len() && parsed_u32(trimmed(#[trigger] list[i])) == Some(id) {
                let i = choose|i: int|
                    0 <= i < list.len() && parsed_u32(trimmed(#[trigger] list[i])) == Some(id);
                assert(rest[i - 1] == list[i]);
            }
        } else {
            assert(parsed_u32(trimmed(list[0])) == Some(id));
        }
    }
}

/// A client without a list hears of every market; one with a list hears of just the
/// markets whose numbers stand between its commas.
pub proof fn law_client_hears(list: Seq<char>, set: HashSet<u32>, market: u32)
    requires
        set@ == markets_in(list),
    ensures
        wanted(None, market),
        wanted(Some(set), market) <==> exists|i: int|
            0 <= i < pieces(list, ',').len() && parsed_u32(
                trimmed(#[trigger] pieces(list, ',')[i]),
            ) == Some(market),
{
    law_numbers_in(pieces(list, ','), market);
}

/// A channel name belongs to the market whose number stands between the first colon and
/// the next, whatever comes before and after.
pub proof fn law_channel_market(head: Seq<char>, id: u32, tail: Seq<char>)
    requires
        !head.contains(':'),
    ensures
        channel_market(head.push(':') + digits(id as nat)) == Some(id),
        channel_market(head.push(':') + digits(id as nat).push(':') + tail) == Some(id),
        channel_market(head) is None,
{
    let d = digits(id as nat);
    lemma_digits_shape(id as nat);
    assert(!d.contains(':')) by {
        if d.contains(':') {
            let i = choose|i: int| 0 <= i < d.len() && d[i] == ':';
            assert(crate::text::is_digit(d[i]));
        }
    }
    law_number_back(id);
    lemma_cut(head, d, ':');
    lemma_uncut(d, ':');
    assert(pieces(head.push(':') + d, ':')[1] == pieces(d, ':')[0]);
    lemma_cut(d, tail, ':');
    assert(head.push(':') + d.push(':') + tail =~= head.push(':') + (d.push(':') + tail));
    lemma_cut(head, d.push(':') + tail, ':');
    assert(pieces(head.push(':') + (d.push(':') + tail), ':')[1] == pieces(
        d.push(':') + tail,
        ':',
    )[0]);
    lemma_uncut(head, ':');
}

/// Text without a separator is one piece.
proof fn lemma_uncut(text: Seq<char>, sep: char)
    requires
        !text.contains(sep),
    ensures
        pieces(text, sep) == seq![text],
{
    lemma_first_at_is_first(text, sep);
    if first_at(text, sep) < text.len() {
        assert(text.contains(text[first_at(text, sep) as int]));
    }
}

/// The first piece ends at the first separator.
proof fn lemma_cut(head: Seq<char>, tail: Seq<char>, sep: char)
    requires
        !head.contains(sep),
    ensures
        pieces(head.push(sep) + tail, sep) == seq![head] + pieces(tail, sep),
{
    let text = head.push(sep) + tail;
    let n = head.len() as int;
    lemma_first_at_is_first(text, sep);
    let at = first_at(text, sep) as int;
    assert(text[n] == sep);
    if at < n {
        assert(head.contains(head[at]));
        assert(text[at] == head[at]);
    }
    if at > n {
        assert(text[n] != sep);
    }
    assert(text.take(n) =~= head);
    assert(text.skip(n + 1) =~= tail);
}

/// The channels of markets: orders and events travel under names that tell what they
/// are and of which market, and no two of them are the same.
pub proof fn law_channels_apart(a: u32, b: u32)
    ensures
        market_channel_text(a).len() > 7 && market_channel_text(a).take(7) == "market:"@,
        events_channel_text(a).len() > 14 && events_channel_text(a).take(14) == "market-events:"@,
        market_channel_text(a) == market_channel_text(b) ==> a == b,
        events_channel_text(a) == events_channel_text(b) ==> a == b,
        market_channel_text(a) != events_channel_text(b),
{
    reveal_strlit("market:");
    reveal_strlit("market-events:");
    lemma_digits_shape(a as nat);
    lemma_digits_shape(b as nat);
    law_channel_names_its_market(a);
    law_channel_names_its_market(b);
    assert(market_channel_text(a).take(7) =~= "market:"@);
    assert(events_channel_text(a).take(14) =~= "market-events:"@);
    assert(market_channel_text(a)[6] == ':');
    assert(events_channel_text(b)[6] == '-');
}

/// The gateway passes a message on if and only if its channel names a market and its
/// bytes begin with an event, and passes on just that market and that event.
pub proof fn law_relayed(channel: Seq<char>, payload: Seq<u8>, id: u32, event: MarketEvent)
    ensures
        relayed(channel, payload) == Some((id, event)) <==> channel_market(channel) == Some(id)
            && front(event_read(payload)) == Some(event),
{
}

/// White space is what separates words, and nothing that is printed.
pub proof fn law_white_space(c: char)
    ensures
        c == ' ' || c == '\t' || c == '\n' || c == '\r' ==> is_space(c),
        '!' <= c <= '~' ==> !is_space(c),
        is_space(c) && c as int <= 0x7F ==> c == ' ' || 0x9 <= c as int <= 0xD,
{
}

} // verus!
