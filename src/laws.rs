use vstd::prelude::*;
use crate::instruments::valid_track;
use crate::note::Note;
use crate::order::{
    at_tick, lemma_at_tick_concat, lemma_at_tick_items, lemma_sort_keeps_items, lemma_sort_at_tick, lemma_sort_by_tick, lemma_sort_sorted,
    lemma_sorted_unique, sort_by_tick, sorted_by_tick, Timed,
};
use crate::utils::{
    all_events, decode, decode_end, digit_char, encode_events, encode_ticks, is_time_char, merged,
    renormalize, tick_value, Event,
};

verus! {

proof fn lemma_decode_end_bound(s: Seq<char>)
    ensures
        decode_end(s) <= 18 * s.len(),
    decreases s.len(),
{
    if s.len() > 0 {
        lemma_decode_end_bound(s.drop_last());
    }
}

/// One step of decoding, where the running tick fits its type.
proof fn lemma_decode_step(s: Seq<char>)
    requires
        s.len() > 0,
        decode_end(s.drop_last()) <= u128::MAX,
    ensures
        !is_time_char(s.last()) ==> decode(s) == decode(s.drop_last()).push(
            (decode_end(s.drop_last()) as u128, s.last()),
        ),
        is_time_char(s.last()) ==> decode(s) == decode(s.drop_last()),
        decode_end(s) == decode_end(s.drop_last()) + tick_value(s.last()),
{
}

/// For a stream that fits in memory: its running tick stays within 18 per character, no event
/// is later than the end, and the events come in order of tick.
pub proof fn lemma_decode_bounds(s: Seq<char>)
    requires
        s.len() <= usize::MAX,
    ensures
        decode_end(s) <= 18 * s.len(),
        forall|k: int| 0 <= k < decode(s).len() ==> decode(s)[k].0 as int <= decode_end(s) as int,
        sorted_by_tick(decode(s)),
    decreases s.len(),
{
    lemma_decode_end_bound(s);
    if s.len() > 0 {
        lemma_decode_end_bound(s.drop_last());
        assert(s.len() <= 0xffff_ffff_ffff_ffff);
        lemma_decode_step(s);
        lemma_decode_bounds(s.drop_last());
    }
}

proof fn lemma_decode_time_suffix(a: Seq<char>, b: Seq<char>)
    requires
        forall|i: int| 0 <= i < b.len() ==> is_time_char(#[trigger] b[i]),
    ensures
        decode_end(a + b) == decode_end(a) + decode_end(b),
        decode(a + b) == decode(a),
    decreases b.len(),
{
    if b.len() == 0 {
        assert(a + b =~= a);
    } else {
        let b2 = b.drop_last();
        lemma_decode_time_suffix(a, b2);
        assert((a + b).drop_last() =~= a + b2);
        assert((a + b).last() == b.last());
        assert(is_time_char(b[b.len() - 1]));
    }
}

proof fn lemma_nines(n: nat)
    ensures
        decode_end(Seq::new(n, |_i: int| '9')) == 18 * n,
    decreases n,
{
    if n > 0 {
        lemma_nines((n - 1) as nat);
        assert(Seq::new(n, |_i: int| '9').drop_last() =~= Seq::new((n - 1) as nat, |_i: int| '9'));
    }
}

proof fn lemma_encode_ticks(d: nat)
    ensures
        decode_end(encode_ticks(d)) == d,
        forall|i: int| 0 <= i < encode_ticks(d).len() ==> is_time_char(#[trigger] encode_ticks(d)[i]),
{
    let r = d % 18;
    let nines = Seq::new(d / 18, |_i: int| '9');
    let digit: Seq<char> = if r >= 2 {
        seq![digit_char(r / 2)]
    } else {
        Seq::empty()
    };
    let dot: Seq<char> = if r % 2 == 1 {
        seq!['.']
    } else {
        Seq::empty()
    };
    let q = r / 2;
    assert(q <= 8);
    assert(r >= 2 ==> 1 <= q);
    if r >= 2 {
        assert(digit_char(q) == ((q + 48) as u32) as char);
        assert(tick_value(digit_char(q)) == 2 * q) by {
            assert(1 <= q <= 8);
            if q == 1 {
                assert(digit_char(1) == '1');
            } else if q == 2 {
                assert(digit_char(2) == '2');
            } else if q == 3 {
                assert(digit_char(3) == '3');
            } else if q == 4 {
                assert(digit_char(4) == '4');
            } else if q == 5 {
                assert(digit_char(5) == '5');
            } else if q == 6 {
                assert(digit_char(6) == '6');
            } else if q == 7 {
                assert(digit_char(7) == '7');
            } else {
                assert(digit_char(8) == '8');
            }
        }
        assert(seq![digit_char(q)].drop_last() =~= Seq::<char>::empty());
    }
    if r % 2 == 1 {
        assert(seq!['.'].drop_last() =~= Seq::<char>::empty());
    }
    lemma_nines(d / 18);
    lemma_decode_time_suffix(Seq::empty(), nines);
    assert(Seq::<char>::empty() + nines =~= nines);
    lemma_decode_time_suffix(nines, digit);
    lemma_decode_time_suffix(nines + digit, dot);
    assert(encode_ticks(d) == nines + digit + dot);
    assert(d == 18 * (d / 18) + 2 * q + r % 2);
}

/// Decoding the token for a gap of `d` ticks gives `d` ticks and no event.
pub proof fn lemma_tick_round_trip(d: nat)
    ensures
        decode_end(encode_ticks(d)) == d,
        decode(encode_ticks(d)) == Seq::<Event>::empty(),
{
    lemma_encode_ticks(d);
    lemma_decode_time_suffix(Seq::empty(), encode_ticks(d));
    assert(Seq::<char>::empty() + encode_ticks(d) =~= encode_ticks(d));
}

/// Merging a single stream writes its own events anew.
pub proof fn lemma_merge_single(s: Seq<char>)
    requires
        s.len() <= usize::MAX,
    ensures
        merged(seq![s]) == renormalize(s),
{
    let one = seq![s];
    assert(one.drop_last() =~= Seq::<Seq<char>>::empty());
    assert(one.last() == s);
    assert(all_events(one.drop_last()) == Seq::<Event>::empty());
    assert(Seq::<Event>::empty() + decode(s) =~= decode(s));
    assert(all_events(one) == decode(s));
    lemma_decode_bounds(s);
    lemma_sort_sorted(decode(s));
}

proof fn lemma_decode_payloads(s: Seq<char>)
    ensures
        forall|i: int| 0 <= i < decode(s).len() ==> !is_time_char(#[trigger] decode(s)[i].1),
    decreases s.len(),
{
    if s.len() > 0 {
        let p = s.drop_last();
        lemma_decode_payloads(p);
        if !is_time_char(s.last()) {
            let e = (decode_end(p) as u128, s.last());
            assert(decode(s) == decode(p).push(e));
            assert forall|i: int| 0 <= i < decode(s).len() implies !is_time_char(
                #[trigger] decode(s)[i].1,
            ) by {
                if i < decode(p).len() {
                    assert(decode(s)[i] == decode(p)[i]);
                }
            }
        }
    }
}

proof fn lemma_all_events_payloads(streams: Seq<Seq<char>>)
    ensures
        forall|i: int|
            0 <= i < all_events(streams).len() ==> !is_time_char(#[trigger] all_events(streams)[i].1),
    decreases streams.len(),
{
    if streams.len() > 0 {
        let p = streams.drop_last();
        lemma_all_events_payloads(p);
        lemma_decode_payloads(streams.last());
        let a = all_events(p);
        let b = decode(streams.last());
        assert forall|i: int| 0 <= i < all_events(streams).len() implies !is_time_char(
            #[trigger] all_events(streams)[i].1,
        ) by {
            if i < a.len() {
                assert((a + b)[i] == a[i]);
            } else {
                assert((a + b)[i] == b[i - a.len()]);
            }
        }
    }
}

/// Decoding the stream written for events in order by tick gives those events back.
pub proof fn lemma_events_round_trip(e: Seq<Event>)
    requires
        sorted_by_tick(e),
        forall|i: int| 0 <= i < e.len() ==> !is_time_char(#[trigger] e[i].1),
    ensures
        decode(encode_events(e)) == e,
        decode_end(encode_events(e)) == if e.len() == 0 {
            0
        } else {
            e.last().0 as int
        },
    decreases e.len(),
{
    if e.len() > 0 {
        let p = e.drop_last();
        assert(sorted_by_tick(p));
        lemma_events_round_trip(p);
        let prev: int = if p.len() == 0 {
            0
        } else {
            p.last().0 as int
        };
        if p.len() > 0 {
            assert(e[p.len() - 1] == p.last());
        }
        assert(prev <= e.last().0);
        let gap = (e.last().0 - prev) as nat;
        let x = encode_events(p);
        let y = encode_ticks(gap);
        let c = e.last().1;
        assert(!is_time_char(e[e.len() - 1].1));
        lemma_encode_ticks(gap);
        lemma_decode_time_suffix(x, y);
        let s = x + y + seq![c];
        assert(encode_events(e) == s);
        assert(s.drop_last() =~= x + y);
        assert(s.last() == c);
        lemma_decode_step(s);
        assert(p.push(e.last()) =~= e);
    }
}

/// The merged stream holds the events of all streams, in order by tick; the events on one tick
/// keep the order of the streams, and within a stream their own order.
pub proof fn lemma_merge_order(streams: Seq<Seq<char>>, t: int)
    ensures
        decode(merged(streams)) == sort_by_tick(all_events(streams)),
        at_tick(decode(merged(streams)), t) == at_tick(all_events(streams), t),
{
    let all = all_events(streams);
    lemma_all_events_payloads(streams);
    lemma_sort_by_tick(all);
    lemma_sort_keeps_items(all);
    let sorted = sort_by_tick(all);
    assert forall|i: int| 0 <= i < sorted.len() implies !is_time_char(#[trigger] sorted[i].1) by {
        assert(all.contains(sorted[i]));
    }
    lemma_events_round_trip(sorted);
    lemma_sort_at_tick(all, t);
}

/// Two streams with no tick in common merge to the same stream in either order.
pub proof fn lemma_merge_swap(a: Seq<char>, b: Seq<char>)
    requires
        forall|i: int, j: int|
            0 <= i < decode(a).len() && 0 <= j < decode(b).len() ==> (#[trigger] decode(a)[i]).0
                != (#[trigger] decode(b)[j]).0,
    ensures
        merged(seq![a, b]) == merged(seq![b, a]),
{
    let x = decode(a);
    let y = decode(b);
    let ab = seq![a, b];
    let ba = seq![b, a];
    assert(ab.drop_last() =~= seq![a]);
    assert(ba.drop_last() =~= seq![b]);
    assert(seq![a].drop_last() =~= Seq::<Seq<char>>::empty());
    assert(seq![b].drop_last() =~= Seq::<Seq<char>>::empty());
    assert(Seq::<Event>::empty() + x =~= x);
    assert(Seq::<Event>::empty() + y =~= y);
    assert(seq![a].last() == a);
    assert(seq![b].last() == b);
    assert(ab.last() == b);
    assert(ba.last() == a);
    assert(all_events(Seq::<Seq<char>>::empty()) == Seq::<Event>::empty());
    assert(all_events(seq![a]) == x);
    assert(all_events(seq![b]) == y);
    assert(all_events(ab) == x + y);
    assert(all_events(ba) == y + x);
    lemma_sort_by_tick(x + y);
    lemma_sort_by_tick(y + x);
    assert forall|t: int| at_tick(sort_by_tick(x + y), t) == at_tick(sort_by_tick(y + x), t) by {
        lemma_sort_at_tick(x + y, t);
        lemma_sort_at_tick(y + x, t);
        lemma_at_tick_concat(x, y, t);
        lemma_at_tick_concat(y, x, t);
        lemma_at_tick_items(x, t);
        lemma_at_tick_items(y, t);
        if at_tick(x, t).len() > 0 && at_tick(y, t).len() > 0 {
            let i = choose|i: int| 0 <= i < x.len() && #[trigger] x[i].tick_of() == t;
            let j = choose|j: int| 0 <= j < y.len() && #[trigger] y[j].tick_of() == t;
            assert(x[i].0 != y[j].0);
        } else if at_tick(x, t).len() == 0 {
            assert(at_tick(x, t) + at_tick(y, t) =~= at_tick(y, t) + at_tick(x, t));
        } else {
            assert(at_tick(x, t) + at_tick(y, t) =~= at_tick(y, t) + at_tick(x, t));
        }
    }
    lemma_sorted_unique(sort_by_tick(x + y), sort_by_tick(y + x));
}

/// Merging two tracks of notes gives one in order of start, with the notes of both.
pub proof fn lemma_track_merge(a: Seq<Note>, b: Seq<Note>)
    requires
        valid_track(a),
        valid_track(b),
    ensures
        valid_track(sort_by_tick(a + b)),
        sort_by_tick(a + b).len() == a.len() + b.len(),
        sort_by_tick(a + b).to_multiset() == a.to_multiset().add(b.to_multiset()),
{
    broadcast use vstd::seq_lib::group_to_multiset_ensures;

    lemma_sort_by_tick(a + b);
    lemma_sort_keeps_items(a + b);
    let s = sort_by_tick(a + b);
    assert forall|i: int| 0 <= i < s.len() implies #[trigger] s[i].key <= 127 by {
        assert((a + b).contains(s[i]));
        let k = choose|k: int| 0 <= k < (a + b).len() && (a + b)[k] == s[i];
        if k < a.len() {
            assert((a + b)[k] == a[k]);
        } else {
            assert((a + b)[k] == b[k - a.len()]);
        }
    }
    vstd::seq_lib::lemma_multiset_commutative(a, b);
}

} // verus!
