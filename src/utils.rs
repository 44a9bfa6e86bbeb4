use vstd::prelude::*;
use vstd::string::StrSliceExecFns;
use crate::order::{Timed, sort_by_tick, sorted_by_tick, insert_all_timed};
use crate::laws::lemma_decode_bounds;

verus! {

/// Relies on String::push: the character is appended at the end.
pub assume_specification[ String::push ](s: &mut String, ch: char)
    ensures
        final(s)@ == old(s)@.push(ch),
;

/// A character of a stream that fires an event, with the running tick of its stream there.
pub type Event = (u128, char);

impl Timed for (u128, char) {
    open spec fn tick_of(&self) -> int {
        self.0 as int
    }

    fn tick(&self) -> (r: u128) {
        self.0
    }
}

/// Whether `c` moves time forward instead of firing an event.
pub open spec fn is_time_char(c: char) -> bool {
    ('0' <= c && c <= '9') || c == '.'
}

/// The ticks that `c` stands for: twice its value for a digit, one for a period.
pub open spec fn tick_value(c: char) -> nat {
    if '0' <= c && c <= '9' {
        2 * ((c as u32) - ('0' as u32)) as nat
    } else if c == '.' {
        1
    } else {
        0
    }
}

/// The digit character of `n`, for `n` below ten.
pub open spec fn digit_char(n: nat) -> char {
    ((n + ('0' as u32)) as u32) as char
}

/// The token for a gap of `d` ticks: a `9` per full 18 ticks, then one digit for the pairs
/// left over, then a period for an odd tick left over; nothing at all for no gap.
pub open spec fn encode_ticks(d: nat) -> Seq<char> {
    let r = d % 18;
    Seq::new(d / 18, |_i: int| '9') + (if r >= 2 {
        seq![digit_char(r / 2)]
    } else {
        Seq::empty()
    }) + (if r % 2 == 1 {
        seq!['.']
    } else {
        Seq::empty()
    })
}

/// The running tick after reading all of `s`.
pub open spec fn decode_end(s: Seq<char>) -> nat
    decreases s.len(),
{
    if s.len() == 0 {
        0
    } else {
        decode_end(s.drop_last()) + tick_value(s.last())
    }
}

/// The events of `s`, each at the running tick where it stands.
pub open spec fn decode(s: Seq<char>) -> Seq<Event>
    decreases s.len(),
{
    if s.len() == 0 {
        Seq::empty()
    } else if is_time_char(s.last()) {
        decode(s.drop_last())
    } else {
        decode(s.drop_last()).push(
            (decode_end(s.drop_last()) as u128, s.last()),
        )
    }
}

/// The stream for `e`: before each event the gap from the tick of the event before it (from
/// tick 0 for the first), none where that gap is not positive.
pub open spec fn encode_events(e: Seq<Event>) -> Seq<char>
    decreases e.len(),
{
    if e.len() == 0 {
        Seq::empty()
    } else {
        let p = e.drop_last();
        let prev: int = if p.len() == 0 {
            0
        } else {
            p.last().0 as int
        };
        let gap: nat = if e.last().0 > prev {
            (e.last().0 - prev) as nat
        } else {
            0
        };
        encode_events(p) + encode_ticks(gap) + seq![e.last().1]
    }
}

/// The events of all `streams`, stream after stream.
pub open spec fn all_events(streams: Seq<Seq<char>>) -> Seq<Event>
    decreases streams.len(),
{
    if streams.len() == 0 {
        Seq::empty()
    } else {
        all_events(streams.drop_last()) + decode(streams.last())
    }
}

/// One stream with the events of all `streams`, stably sorted by tick.
pub open spec fn merged(streams: Seq<Seq<char>>) -> Seq<char> {
    encode_events(sort_by_tick(all_events(streams)))
}

/// The stream `s` written anew from its own events.
pub open spec fn renormalize(s: Seq<char>) -> Seq<char> {
    encode_events(decode(s))
}

/// The characters of each string.
pub open spec fn views(v: Seq<String>) -> Seq<Seq<char>> {
    v.map_values(|t: String| t@)
}

/// Appends the token for a gap of `d` ticks.
pub(crate) fn push_ticks(out: &mut String, d: u128)
    ensures
        final(out)@ == old(out)@ + encode_ticks(d as nat),
{
    let ghost start = out@;
    let q = d / 18;
    let r = d % 18;
    let mut i: u128 = 0;
    while i < q
        invariant
            i <= q,
            out@ == start + Seq::new(i as nat, |_i: int| '9'),
        decreases q - i,
    {
        out.push('9');
        proof {
            assert(start + Seq::new(i as nat, |_i: int| '9').push('9') =~= start + Seq::new(
                (i + 1) as nat,
                |_i: int| '9',
            ));
        }
        i += 1;
    }
    if r >= 2 {
        let digit = ((r / 2) as u32 + ('0' as u32)) as u8;
        out.push(digit as char);
    }
    if r % 2 == 1 {
        out.push('.');
    }
    proof {
        assert(out@ =~= start + encode_ticks(d as nat));
    }
}

/// The token for a gap of `ticks` ticks.
pub fn tick_to_string(ticks: u32) -> (r: String)
    ensures
        r@ == encode_ticks(ticks as nat),
{
    let mut result = String::new();
    push_ticks(&mut result, ticks as u128);
    proof {
        assert(result@ =~= encode_ticks(ticks as nat));
    }
    result
}

/// The events of the stream `s`, each at the running tick where it stands.
pub fn parse_track(s: &str) -> (r: Vec<Event>)
    ensures
        r@ == decode(s@),
        sorted_by_tick(r@),
{
    let n = s.unicode_len();
    let mut events: Vec<Event> = Vec::new();
    let mut current: u128 = 0;
    let mut i: usize = 0;
    proof {
        lemma_decode_bounds(s@);
    }
    for c in it: s.chars()
        invariant
            n == s@.len(),
            it.seq() == s@,
            i == it.index(),
            i <= n,
            current == decode_end(s@.take(i as int)),
            events@ == decode(s@.take(i as int)),
    {
        proof {
            lemma_decode_bounds(s@.take(i as int));
            assert(s@.take(i as int + 1).drop_last() =~= s@.take(i as int));
        }
        if '0' <= c && c <= '9' {
            current = current + 2 * ((c as u32) - ('0' as u32)) as u128;
        } else if c == '.' {
            current = current + 1;
        } else {
            events.push((current, c));
        }
        i += 1;
    }
    proof {
        assert(s@.take(n as int) =~= s@);
        lemma_decode_bounds(s@);
    }
    events
}

/// The stream for `events`, each gap written before the event that ends it.
fn serialize_events(events: &Vec<Event>) -> (r: String)
    ensures
        r@ == encode_events(events@),
{
    let mut result = String::new();
    let mut last: u128 = 0;
    let n = events.len();
    let mut i: usize = 0;
    while i < n
        invariant
            n == events.len(),
            i <= n,
            result@ == encode_events(events@.take(i as int)),
            last as int == (if i == 0 { 0 } else { events@[i - 1].0 as int }),
        decreases n - i,
    {
        let e = events[i];
        if e.0 > last {
            push_ticks(&mut result, e.0 - last);
        }
        result.push(e.1);
        proof {
            let t = events@.take(i as int + 1);
            assert(t.drop_last() =~= events@.take(i as int));
            assert(encode_ticks(0) =~= Seq::<char>::empty());
        }
        last = e.0;
        i += 1;
    }
    proof {
        assert(events@.take(n as int) =~= events@);
    }
    result
}

/// Merges encoded streams into one: all their events, stably sorted by tick, so that events on
/// one tick keep the order of the streams and their order within each stream.
pub fn merge_string(tracks: &Vec<String>) -> (r: String)
    ensures
        r@ == merged(views(tracks@)),
{
    let mut all: Vec<Event> = Vec::new();
    let n = tracks.len();
    let mut i: usize = 0;
    while i < n
        invariant
            n == tracks.len(),
            i <= n,
            all@ == all_events(views(tracks@).take(i as int)),
        decreases n - i,
    {
        let mut events = parse_track(tracks[i].as_str());
        all.append(&mut events);
        proof {
            let t = views(tracks@).take(i as int + 1);
            assert(t.drop_last() =~= views(tracks@).take(i as int));
        }
        i += 1;
    }
    proof {
        assert(views(tracks@).take(n as int) =~= views(tracks@));
    }
    let mut sorted: Vec<Event> = Vec::new();
    insert_all_timed(&mut sorted, &all);
    proof {
        assert(Seq::<Event>::empty() + all@ =~= all@);
    }
    serialize_events(&sorted)
}

} // verus!
