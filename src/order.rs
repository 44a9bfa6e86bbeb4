use vstd::prelude::*;

verus! {

/// An item that happens at a point in time.
pub trait Timed: Sized {
    spec fn tick_of(&self) -> int;

    fn tick(&self) -> (r: u128)
        ensures
            r as int == self.tick_of(),
    ;
}

/// Whether the items of `s` come in non-decreasing order of their ticks.
pub open spec fn sorted_by_tick<T: Timed>(s: Seq<T>) -> bool {
    forall|i: int, j: int| 0 <= i <= j < s.len() ==> s[i].tick_of() <= s[j].tick_of()
}

/// `x` placed into `s` just after the last item whose tick is not later than its own.
pub open spec fn insert_by_tick<T: Timed>(s: Seq<T>, x: T) -> Seq<T>
    decreases s.len(),
{
    if s.len() == 0 || s.last().tick_of() <= x.tick_of() {
        s.push(x)
    } else {
        insert_by_tick(s.drop_last(), x).push(s.last())
    }
}

/// The stable sort of `s` by tick: items with equal ticks keep their relative order.
pub open spec fn sort_by_tick<T: Timed>(s: Seq<T>) -> Seq<T>
    decreases s.len(),
{
    if s.len() == 0 {
        s
    } else {
        insert_by_tick(sort_by_tick(s.drop_last()), s.last())
    }
}

proof fn lemma_insert_shape<T: Timed>(s: Seq<T>, x: T, j: int)
    requires
        0 <= j <= s.len(),
        j == 0 || s[j - 1].tick_of() <= x.tick_of(),
        forall|k: int| j <= k < s.len() ==> s[k].tick_of() > x.tick_of(),
    ensures
        insert_by_tick(s, x) == s.insert(j, x),
    decreases s.len(),
{
    if s.len() == 0 || s.last().tick_of() <= x.tick_of() {
        assert(s.push(x) =~= s.insert(j, x));
    } else {
        lemma_insert_shape(s.drop_last(), x, j);
        assert(s.drop_last().insert(j, x).push(s.last()) =~= s.insert(j, x));
    }
}

proof fn lemma_insert_len_sorted<T: Timed>(s: Seq<T>, x: T)
    ensures
        insert_by_tick(s, x).len() == s.len() + 1,
        sorted_by_tick(s) ==> sorted_by_tick(insert_by_tick(s, x)),
        insert_by_tick(s, x).to_multiset() == s.to_multiset().insert(x),
    decreases s.len(),
{
    broadcast use vstd::seq_lib::group_to_multiset_ensures;

    if s.len() == 0 || s.last().tick_of() <= x.tick_of() {
    } else {
        let p = s.drop_last();
        lemma_insert_len_sorted(p, x);
        let q = insert_by_tick(p, x);
        assert(p.push(s.last()) =~= s);
        if sorted_by_tick(s) {
            assert forall|k: int| 0 <= k < q.len() implies q[k].tick_of() <= s.last().tick_of() by {
                assert(q.to_multiset().count(q[k]) > 0);
                if q[k] == x {
                } else {
                    assert(p.to_multiset().count(q[k]) > 0);
                    let m = choose|m: int| 0 <= m < p.len() && p[m] == q[k];
                    assert(p[m] == s[m]);
                }
            }
        }
    }
}

/// The stable sort by tick keeps every item, and its result is in order.
pub proof fn lemma_sort_by_tick<T: Timed>(s: Seq<T>)
    ensures
        sort_by_tick(s).len() == s.len(),
        sorted_by_tick(sort_by_tick(s)),
        sort_by_tick(s).to_multiset() == s.to_multiset(),
    decreases s.len(),
{
    broadcast use vstd::seq_lib::group_to_multiset_ensures;

    if s.len() > 0 {
        lemma_sort_by_tick(s.drop_last());
        lemma_insert_len_sorted(sort_by_tick(s.drop_last()), s.last());
        assert(s.drop_last().push(s.last()) =~= s);
    }
}

/// Every item of the stable sort by tick is an item of what was sorted.
pub proof fn lemma_sort_keeps_items<T: Timed>(s: Seq<T>)
    ensures
        forall|i: int| 0 <= i < sort_by_tick(s).len() ==> s.contains(#[trigger] sort_by_tick(s)[i]),
{
    broadcast use vstd::seq_lib::group_to_multiset_ensures;

    lemma_sort_by_tick(s);
    assert forall|i: int| 0 <= i < sort_by_tick(s).len() implies s.contains(
        #[trigger] sort_by_tick(s)[i],
    ) by {
        assert(sort_by_tick(s).to_multiset().count(sort_by_tick(s)[i]) > 0);
    }
}

/// The items of `s` whose tick is `t`, in order.
pub open spec fn at_tick<T: Timed>(s: Seq<T>, t: int) -> Seq<T>
    decreases s.len(),
{
    if s.len() == 0 {
        Seq::empty()
    } else if s.last().tick_of() == t {
        at_tick(s.drop_last(), t).push(s.last())
    } else {
        at_tick(s.drop_last(), t)
    }
}

pub proof fn lemma_at_tick_concat<T: Timed>(a: Seq<T>, b: Seq<T>, t: int)
    ensures
        at_tick(a + b, t) == at_tick(a, t) + at_tick(b, t),
    decreases b.len(),
{
    if b.len() == 0 {
        assert(a + b =~= a);
        assert(at_tick(a, t) + at_tick(b, t) =~= at_tick(a, t));
    } else {
        let b2 = b.drop_last();
        lemma_at_tick_concat(a, b2, t);
        assert((a + b).drop_last() =~= a + b2);
        assert((a + b).last() == b.last());
        if b.last().tick_of() == t {
            assert(at_tick(a, t) + at_tick(b2, t).push(b.last()) =~= (at_tick(a, t) + at_tick(
                b2,
                t,
            )).push(b.last()));
        }
    }
}

proof fn lemma_at_tick_insert<T: Timed>(q: Seq<T>, x: T, t: int)
    ensures
        at_tick(insert_by_tick(q, x), t) == if x.tick_of() == t {
            at_tick(q, t).push(x)
        } else {
            at_tick(q, t)
        },
    decreases q.len(),
{
    if q.len() == 0 || q.last().tick_of() <= x.tick_of() {
        assert(q.push(x).drop_last() =~= q);
    } else {
        let q2 = q.drop_last();
        lemma_at_tick_insert(q2, x, t);
        let r = insert_by_tick(q2, x);
        assert(r.push(q.last()).drop_last() =~= r);
    }
}

/// The stable sort by tick keeps, for every tick, the items with that tick in their order.
pub proof fn lemma_sort_at_tick<T: Timed>(s: Seq<T>, t: int)
    ensures
        at_tick(sort_by_tick(s), t) == at_tick(s, t),
    decreases s.len(),
{
    if s.len() > 0 {
        lemma_sort_at_tick(s.drop_last(), t);
        lemma_at_tick_insert(sort_by_tick(s.drop_last()), s.last(), t);
    }
}

pub proof fn lemma_at_tick_items<T: Timed>(s: Seq<T>, t: int)
    ensures
        at_tick(s, t).len() > 0 ==> exists|i: int| 0 <= i < s.len() && #[trigger] s[i].tick_of() == t,
    decreases s.len(),
{
    if s.len() > 0 {
        let p = s.drop_last();
        lemma_at_tick_items(p, t);
        if at_tick(p, t).len() > 0 {
            let i = choose|i: int| 0 <= i < p.len() && #[trigger] p[i].tick_of() == t;
            assert(s[i] == p[i]);
        } else if s.last().tick_of() == t {
            assert(s[s.len() - 1].tick_of() == t);
        }
    }
}

/// Two sequences in order by tick that hold, for every tick, the same items with that tick in
/// the same order, are equal.
pub proof fn lemma_sorted_unique<T: Timed>(p: Seq<T>, q: Seq<T>)
    requires
        sorted_by_tick(p),
        sorted_by_tick(q),
        forall|t: int| at_tick(p, t) == at_tick(q, t),
    ensures
        p == q,
    decreases p.len() + q.len(),
{
    if p.len() == 0 && q.len() == 0 {
        assert(p =~= q);
    } else if p.len() > 0 && q.len() > 0 {
        let tp = p.last().tick_of();
        let tq = q.last().tick_of();
        assert(at_tick(p, tp).len() > 0);
        lemma_at_tick_items(q, tp);
        let i = choose|i: int| 0 <= i < q.len() && #[trigger] q[i].tick_of() == tp;
        assert(q[i].tick_of() <= q[q.len() - 1].tick_of());
        assert(at_tick(q, tq).len() > 0);
        lemma_at_tick_items(p, tq);
        let j = choose|j: int| 0 <= j < p.len() && #[trigger] p[j].tick_of() == tq;
        assert(p[j].tick_of() <= p[p.len() - 1].tick_of());
        assert(tp == tq);
        assert(at_tick(p, tp).last() == p.last());
        assert(at_tick(q, tp).last() == q.last());
        let p2 = p.drop_last();
        let q2 = q.drop_last();
        assert forall|t: int| at_tick(p2, t) == at_tick(q2, t) by {
            if t == tp {
                assert(at_tick(p, t).drop_last() =~= at_tick(p2, t));
                assert(at_tick(q, t).drop_last() =~= at_tick(q2, t));
            }
        }
        lemma_sorted_unique(p2, q2);
        assert(p2.push(p.last()) =~= p);
        assert(q2.push(q.last()) =~= q);
    } else if p.len() > 0 {
        assert(at_tick(p, p.last().tick_of()).len() > 0);
        assert(at_tick(q, p.last().tick_of()).len() == 0);
    } else {
        assert(at_tick(q, q.last().tick_of()).len() > 0);
        assert(at_tick(p, q.last().tick_of()).len() == 0);
    }
}

/// Sorting what is already in order by tick changes nothing.
pub proof fn lemma_sort_sorted<T: Timed>(s: Seq<T>)
    requires
        sorted_by_tick(s),
    ensures
        sort_by_tick(s) == s,
    decreases s.len(),
{
    if s.len() > 0 {
        let p = s.drop_last();
        assert(sorted_by_tick(p));
        lemma_sort_sorted(p);
        assert(p.push(s.last()) =~= s);
    }
}

/// Places `x` into `v` just after the last item whose tick is not later than its own.
pub fn insert_timed<T: Timed>(v: &mut Vec<T>, x: T)
    ensures
        final(v)@ == insert_by_tick(old(v)@, x),
{
    let xt = x.tick();
    let mut j: usize = v.len();
    while j > 0 && v[j - 1].tick() > xt
        invariant
            j <= v.len(),
            forall|k: int| j <= k < v.len() ==> v@[k].tick_of() > x.tick_of(),
            xt as int == x.tick_of(),
        decreases j,
    {
        j -= 1;
    }
    proof {
        lemma_insert_shape(v@, x, j as int);
    }
    v.insert(j, x);
}

/// Inserts each item of `items`, in order, with `insert_timed`: `v` then holds the stable sort
/// of `v` followed by `items`, when `v` was in order.
pub fn insert_all_timed<T: Timed + Copy>(v: &mut Vec<T>, items: &Vec<T>)
    requires
        sorted_by_tick(old(v)@),
    ensures
        final(v)@ == sort_by_tick(old(v)@ + items@),
{
    proof {
        lemma_sort_sorted(v@);
    }
    let ghost start = v@;
    let n = items.len();
    let mut i: usize = 0;
    while i < n
        invariant
            n == items.len(),
            i <= n,
            v@ == sort_by_tick(start + items@.take(i as int)),
        decreases n - i,
    {
        let x = items[i];
        insert_timed(v, x);
        proof {
            let before = start + items@.take(i as int);
            let after = start + items@.take(i as int + 1);
            assert(before.push(x) =~= after);
            assert(after.drop_last() =~= before);
        }
        i += 1;
    }
    proof {
        assert(items@.take(n as int) =~= items@);
    }
}

} // verus!
