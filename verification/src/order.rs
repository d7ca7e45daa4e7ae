//! Things in order of time.

use vstd::prelude::*;
use vstd::seq_lib::{to_multiset_build, to_multiset_contains, to_multiset_insert};

verus! {

/// Something that happened at a moment, in seconds since the epoch.
pub trait Timed {
    spec fn time(&self) -> int;

    fn when(&self) -> (r: i64)
        ensures
            r == self.time(),
    ;
}

/// Where something from `t` belongs among things in order: behind everything no
/// later than it.
pub open spec fn place<T: Timed>(s: Seq<T>, t: int) -> int
    decreases s.len(),
{
    if s.len() == 0 || s.last().time() <= t {
        s.len() as int
    } else {
        place(s.drop_last(), t)
    }
}

/// The sequence in order of time. Things from the same moment keep their order.
pub open spec fn in_order<T: Timed>(s: Seq<T>) -> Seq<T>
    decreases s.len(),
{
    if s.len() == 0 {
        s
    } else {
        let rest = in_order(s.drop_last());
        rest.insert(place(rest, s.last().time()), s.last())
    }
}

/// Nothing comes before something earlier.
pub open spec fn ordered<T: Timed>(s: Seq<T>) -> bool {
    forall|i: int, j: int| 0 <= i < j < s.len() ==> (#[trigger] s[i]).time() <= (#[trigger]
    s[j]).time()
}

pub open spec fn is_from<T: Timed>(t: int) -> spec_fn(T) -> bool {
    |x: T| x.time() == t
}

/// The things from one moment.
pub open spec fn from_moment<T: Timed>(s: Seq<T>, t: int) -> Seq<T> {
    s.filter(is_from(t))
}

pub proof fn lemma_place<T: Timed>(s: Seq<T>, t: int)
    ensures
        0 <= place(s, t) <= s.len(),
        place(s, t) > 0 ==> s[place(s, t) - 1].time() <= t,
        forall|i: int| place(s, t) <= i < s.len() ==> (#[trigger] s[i]).time() > t,
    decreases s.len(),
{
    if s.len() > 0 && s.last().time() > t {
        let rest = s.drop_last();
        lemma_place(rest, t);
        assert forall|i: int| place(s, t) <= i < s.len() implies (#[trigger] s[i]).time() > t by {
            if i < s.len() - 1 {
                assert(s[i] == rest[i]);
            }
        }
    }
}

/// `place` is the only position with these properties.
proof fn lemma_place_unique<T: Timed>(s: Seq<T>, t: int, at: int)
    requires
        0 <= at <= s.len(),
        at > 0 ==> s[at - 1].time() <= t,
        forall|i: int| at <= i < s.len() ==> (#[trigger] s[i]).time() > t,
    ensures
        place(s, t) == at,
    decreases s.len(),
{
    if at < s.len() {
        assert(s[s.len() - 1].time() > t);
        let rest = s.drop_last();
        assert forall|i: int| at <= i < rest.len() implies (#[trigger] rest[i]).time() > t by {
            assert(s[i].time() > t);
        }
        lemma_place_unique(rest, t, at);
    }
}

/// Putting in order loses nothing and adds nothing.
pub proof fn lemma_in_order_len<T: Timed>(s: Seq<T>)
    ensures
        in_order(s).len() == s.len(),
    decreases s.len(),
{
    if s.len() > 0 {
        lemma_in_order_len(s.drop_last());
        let rest = in_order(s.drop_last());
        lemma_place(rest, s.last().time());
    }
}

/// What was put in order is in order.
pub proof fn law_in_order_is_ordered<T: Timed>(s: Seq<T>)
    ensures
        ordered(in_order(s)),
    decreases s.len(),
{
    if s.len() > 0 {
        law_in_order_is_ordered(s.drop_last());
        let rest = in_order(s.drop_last());
        let x = s.last();
        let at = place(rest, x.time());
        lemma_place(rest, x.time());
        let r = rest.insert(at, x);
        assert forall|i: int, j: int| 0 <= i < j < r.len() implies (#[trigger] r[i]).time() <= (
        #[trigger] r[j]).time() by {
            let a = if i < at {
                i
            } else {
                i - 1
            };
            let b = if j < at {
                j
            } else {
                j - 1
            };
            if i == at {
                assert(rest[b].time() > x.time());
            } else if j == at {
                if a < at - 1 {
                    assert(rest[a].time() <= rest[at - 1].time());
                }
            } else {
                assert(rest[a].time() <= rest[b].time());
            }
        }
    }
}

/// What is in order already stays as it is.
pub proof fn law_ordered_stays<T: Timed>(s: Seq<T>)
    requires
        ordered(s),
    ensures
        in_order(s) == s,
    decreases s.len(),
{
    if s.len() > 0 {
        let rest = s.drop_last();
        assert(ordered(rest));
        law_ordered_stays(rest);
        if rest.len() > 0 {
            assert(s[s.len() - 2].time() <= s[s.len() - 1].time());
        }
        assert(rest.insert(rest.len() as int, s.last()) == s);
    }
}

proof fn lemma_filter_insert<T>(s: Seq<T>, at: int, x: T, keep: spec_fn(T) -> bool)
    requires
        0 <= at <= s.len(),
    ensures
        s.insert(at, x).filter(keep) == s.take(at).filter(keep) + (if keep(x) {
            seq![x]
        } else {
            seq![]
        }) + s.skip(at).filter(keep),
{
    let a = s.take(at);
    let b = s.skip(at);
    assert(s.insert(at, x) == a + seq![x] + b);
    Seq::filter_distributes_over_add(a + seq![x], b, keep);
    Seq::filter_distributes_over_add(a, seq![x], keep);
    assert(seq![x].filter(keep) == if keep(x) {
        seq![x]
    } else {
        seq![]
    }) by {
        reveal(Seq::filter);
        assert(seq![x].drop_last() == Seq::<T>::empty());
        assert(Seq::<T>::empty().filter(keep) == Seq::<T>::empty());
    }
}

/// Putting in order moves nothing past something from the same moment: the
/// things from each moment are the same ones in the same order.
pub proof fn law_in_order_is_stable<T: Timed>(s: Seq<T>, t: int)
    ensures
        from_moment(in_order(s), t) == from_moment(s, t),
    decreases s.len(),
{
    if s.len() > 0 {
        let keep = is_from::<T>(t);
        let init = s.drop_last();
        let x = s.last();
        law_in_order_is_stable(init, t);
        let rest = in_order(init);
        let at = place(rest, x.time());
        lemma_place(rest, x.time());
        lemma_filter_insert(rest, at, x, keep);
        Seq::filter_distributes_over_add(rest.take(at), rest.skip(at), keep);
        assert(rest == rest.take(at) + rest.skip(at));
        if keep(x) {
            let tail = rest.skip(at);
            assert(tail.filter(keep) == Seq::<T>::empty()) by {
                if tail.filter(keep).len() > 0 {
                    let y = tail.filter(keep)[0];
                    tail.lemma_filter_contains_rev(keep, y);
                    let i = choose|i: int| 0 <= i < tail.len() && tail[i] == y;
                    assert(rest[at + i].time() > x.time());
                }
            }
        }
        assert(s.filter(keep) == init.filter(keep) + (if keep(x) {
            seq![x]
        } else {
            seq![]
        })) by {
            reveal(Seq::filter);
        }
    }
}

/// Puts the vector in order of time, keeping the order of what is from the same
/// moment.
pub fn sort<T: Timed>(v: &mut Vec<T>)
    ensures
        final(v)@ == in_order(old(v)@),
{
    let ghost given = v@;
    let n = v.len();
    let mut i: usize = 0;
    assert(given.take(0) == Seq::<T>::empty());
    assert(given.skip(0) == given);
    while i < n
        invariant
            i <= n,
            n == given.len(),
            v@.len() == n,
            v@ == in_order(given.take(i as int)) + given.skip(i as int),
        decreases n - i,
    {
        let ghost head = in_order(given.take(i as int));
        proof {
            lemma_in_order_len(given.take(i as int));
        }
        let t: i64 = v[i].when();
        let mut j: usize = i;
        while j > 0 && v[j - 1].when() > t
            invariant
                0 <= j <= i < n,
                v@.len() == n,
                n == given.len(),
                head.len() == i,
                v@ == head + given.skip(i as int),
                forall|k: int| j <= k < i ==> (#[trigger] head[k]).time() > t,
            decreases j,
        {
            assert(v@[j - 1] == head[j - 1]);
            j -= 1;
        }
        proof {
            assert(v@[i as int] == given[i as int]);
            if j > 0 {
                assert(v@[j - 1] == head[j - 1]);
            }
            lemma_place_unique(head, t as int, j as int);
        }
        let x = v.remove(i);
        v.insert(j, x);
        proof {
            let next = given.take(i + 1);
            assert(next.drop_last() == given.take(i as int));
            assert(v@ == in_order(next) + given.skip(i + 1));
        }
        i += 1;
    }
    assert(given.take(n as int) == given);
    assert(v@ == in_order(given));
}

/// Putting in order loses nothing and adds nothing.
pub proof fn law_in_order_keeps_everything<T: Timed>(s: Seq<T>)
    ensures
        in_order(s).to_multiset() == s.to_multiset(),
        in_order(s).len() == s.len(),
        forall|x: T| in_order(s).contains(x) <==> s.contains(x),
    decreases s.len(),
{
    lemma_in_order_len(s);
    if s.len() > 0 {
        let init = s.drop_last();
        let x = s.last();
        law_in_order_keeps_everything(init);
        let rest = in_order(init);
        let at = place(rest, x.time());
        lemma_place(rest, x.time());
        to_multiset_insert(rest, at, x);
        to_multiset_build(init, x);
        assert(s == init.push(x));
        assert(s.to_multiset() == init.to_multiset().insert(x));
    }
    assert forall|x: T| in_order(s).contains(x) <==> s.contains(x) by {
        to_multiset_contains(in_order(s), x);
        to_multiset_contains(s, x);
    }
}

} // verus!
