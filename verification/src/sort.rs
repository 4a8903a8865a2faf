//! Stable sorting by a numeric key.
use vstd::prelude::*;

verus! {

/// Something that is sorted by a number.
pub trait Keyed: Sized {
    /// The number.
    spec fn key(&self) -> u64;

    /// The number.
    fn key_of(&self) -> (k: u64)
        ensures
            k == self.key(),
    ;
}

/// Whether keys never go down.
pub open spec fn sorted<T: Keyed>(s: Seq<T>) -> bool {
    forall|i: int, j: int| 0 <= i <= j < s.len() ==> (#[trigger] s[i]).key() <= (#[trigger] s[j]).key()
}

/// The items with one key, in their order.
pub open spec fn with_key<T: Keyed>(s: Seq<T>, k: u64) -> Seq<T> {
    s.filter(|t: T| t.key() == k)
}

/// Whether `out` holds the items of `s` sorted by key, items with the same key
/// in the order they have in `s`.
pub open spec fn stable_sort_of<T: Keyed>(out: Seq<T>, s: Seq<T>) -> bool {
    &&& sorted(out)
    &&& forall|k: u64| #[trigger] with_key(out, k) == with_key(s, k)
}

proof fn lemma_with_key_add<T: Keyed>(a: Seq<T>, b: Seq<T>, k: u64)
    ensures
        with_key(a + b, k) == with_key(a, k) + with_key(b, k),
{
    Seq::filter_distributes_over_add(a, b, |t: T| t.key() == k);
}

proof fn lemma_with_key_one<T: Keyed>(t: T, k: u64)
    ensures
        with_key(seq![t], k) == (if t.key() == k {
            seq![t]
        } else {
            seq![]
        }),
{
    reveal(Seq::filter);
    reveal_with_fuel(Seq::filter, 2);
    assert(seq![t].drop_last() == Seq::<T>::empty());
}

proof fn lemma_with_key_empty<T: Keyed>(s: Seq<T>, k: u64)
    requires
        forall|i: int| 0 <= i < s.len() ==> (#[trigger] s[i]).key() != k,
    ensures
        with_key(s, k) == Seq::<T>::empty(),
    decreases s.len(),
{
    reveal(Seq::filter);
    if s.len() > 0 {
        lemma_with_key_empty(s.drop_last(), k);
    }
}

/// The items of `a` and `b`, both sorted, merged; at equal keys `a` goes first.
fn merge<T: Keyed>(a: Vec<T>, b: Vec<T>) -> (out: Vec<T>)
    requires
        sorted(a@),
        sorted(b@),
    ensures
        stable_sort_of(out@, a@ + b@),
        out.len() == a.len() + b.len(),
{
    let ghost whole = a@ + b@;
    let mut a = a;
    let mut b = b;
    let mut back: Vec<T> = Vec::new();
    proof {
        assert(back@.reverse() == Seq::<T>::empty());
        assert(a@ + b@ + back@.reverse() == whole);
    }
    while a.len() > 0 || b.len() > 0
        invariant
            sorted(a@),
            sorted(b@),
            sorted(back@.reverse()),
            a.len() + b.len() + back.len() == whole.len(),
            forall|i: int, j: int|
                0 <= i < a.len() && 0 <= j < back.len() ==> (#[trigger] a@[i]).key() <= (
                #[trigger] back@[j]).key(),
            forall|i: int, j: int|
                0 <= i < b.len() && 0 <= j < back.len() ==> (#[trigger] b@[i]).key() <= (
                #[trigger] back@[j]).key(),
            forall|k: u64| #[trigger]
                with_key(whole, k) == with_key(a@ + b@ + back@.reverse(), k),
        decreases a.len() + b.len(),
    {
        let from_a: bool = if a.len() == 0 {
            false
        } else if b.len() == 0 {
            true
        } else {
            a[a.len() - 1].key_of() > b[b.len() - 1].key_of()
        };
        let ghost a0 = a@;
        let ghost b0 = b@;
        let ghost done = back@.reverse();
        if from_a {
            match a.pop() {
                Some(t) => {
                    back.push(t);
                    proof {
                        assert(back@.reverse() == seq![t] + done);
                        assert(a0 == a@ + seq![t]);
                        assert(forall|j: int|
                            0 <= j < b0.len() ==> (#[trigger] b0[j]).key() <= b0[b0.len()
                                - 1].key());
                        assert forall|k: u64| #[trigger]
                            with_key(whole, k) == with_key(a@ + b@ + back@.reverse(), k) by {
                            lemma_with_key_add(a0 + b0, done, k);
                            lemma_with_key_add(a0, b0, k);
                            lemma_with_key_add(a@, seq![t], k);
                            lemma_with_key_add(a@ + b@, seq![t] + done, k);
                            lemma_with_key_add(a@, b@, k);
                            lemma_with_key_add(seq![t], done, k);
                            lemma_with_key_one(t, k);
                            if t.key() == k {
                                lemma_with_key_empty(b0, k);
                            }
                            assert(with_key(a0 + b0 + done, k) == with_key(
                                a@ + b@ + (seq![t] + done),
                                k,
                            ));
                        }
                    }
                },
                None => {},
            }
        } else {
            match b.pop() {
                Some(t) => {
                    back.push(t);
                    proof {
                        assert(back@.reverse() == seq![t] + done);
                        assert(b0 == b@ + seq![t]);
                        assert(a0 + b0 + done == a@ + b@ + back@.reverse());
                    }
                },
                None => {},
            }
        }
    }
    proof {
        assert(a@ + b@ + back@.reverse() == back@.reverse());
    }
    let ghost rest = back@;
    let mut out: Vec<T> = Vec::new();
    while back.len() > 0
        invariant
            out.len() + back.len() == rest.len(),
            back@ == rest.take(back.len() as int),
            out@ == rest.reverse().take(out.len() as int),
        decreases back.len(),
    {
        match back.pop() {
            Some(t) => {
                out.push(t);
            },
            None => {},
        }
    }
    assert(out@ == rest.reverse());
    out
}

/// Sorts by key; items with the same key keep their order.
pub fn stable_sort<T: Keyed>(v: Vec<T>) -> (out: Vec<T>)
    ensures
        stable_sort_of(out@, v@),
        out.len() == v.len(),
    decreases v.len(),
{
    let ghost whole = v@;
    let mut v = v;
    let n: usize = v.len();
    if n <= 1 {
        return v;
    }
    let right = v.split_off(n / 2);
    proof {
        assert(whole == v@ + right@);
    }
    let ghost l = v@;
    let ghost r = right@;
    let a = stable_sort(v);
    let b = stable_sort(right);
    let out = merge(a, b);
    proof {
        assert forall|k: u64| #[trigger] with_key(out@, k) == with_key(whole, k) by {
            lemma_with_key_add(a@, b@, k);
            lemma_with_key_add(l, r, k);
            assert(with_key(a@, k) == with_key(l, k));
            assert(with_key(b@, k) == with_key(r, k));
            assert(with_key(out@, k) == with_key(a@ + b@, k));
        }
    }
    out
}

/// Law: an item occurs after sorting as often as before.
pub proof fn law_sort_keeps_items<T: Keyed>(out: Seq<T>, s: Seq<T>)
    requires
        stable_sort_of(out, s),
    ensures
        out.to_multiset() == s.to_multiset(),
{
    assert forall|t: T| out.to_multiset().count(t) == s.to_multiset().count(t) by {
        lemma_count_with_key(out, t);
        lemma_count_with_key(s, t);
        assert(with_key(out, t.key()) == with_key(s, t.key()));
    }
    assert(out.to_multiset() =~= s.to_multiset());
}

proof fn lemma_count_with_key<T: Keyed>(s: Seq<T>, t: T)
    ensures
        s.to_multiset().count(t) == with_key(s, t.key()).to_multiset().count(t),
    decreases s.len(),
{
    broadcast use vstd::seq_lib::group_to_multiset_ensures;

    reveal(Seq::filter);
    if s.len() > 0 {
        lemma_count_with_key(s.drop_last(), t);
        assert(s == s.drop_last().push(s.last()));
        assert(with_key(s, t.key()) == (if s.last().key() == t.key() {
            with_key(s.drop_last(), t.key()).push(s.last())
        } else {
            with_key(s.drop_last(), t.key())
        }));
    }
}

/// Law: sorting has one result.
pub proof fn law_sort_is_unique<T: Keyed>(a: Seq<T>, b: Seq<T>, s: Seq<T>)
    requires
        stable_sort_of(a, s),
        stable_sort_of(b, s),
    ensures
        a == b,
{
    assert forall|k: u64| #[trigger] with_key(a, k) == with_key(b, k) by {
        assert(with_key(a, k) == with_key(s, k));
        assert(with_key(b, k) == with_key(s, k));
    }
    lemma_sorted_by_groups(a, b);
}

proof fn lemma_sorted_by_groups<T: Keyed>(a: Seq<T>, b: Seq<T>)
    requires
        sorted(a),
        sorted(b),
        forall|k: u64| #[trigger] with_key(a, k) == with_key(b, k),
    ensures
        a == b,
    decreases a.len(),
{
    if a.len() == 0 {
        if b.len() > 0 {
            let k = b.last().key();
            lemma_last_of_group(b);
            lemma_with_key_empty(a, k);
            assert(with_key(a, k) == with_key(b, k));
            assert(false);
        }
        assert(a == b);
    } else {
        let k = a.last().key();
        lemma_last_of_group(a);
        assert(with_key(a, k) == with_key(b, k));
        if b.len() == 0 {
            lemma_with_key_empty(b, k);
            assert(false);
        }
        let m = b.last().key();
        lemma_last_of_group(b);
        assert(with_key(a, m) == with_key(b, m));
        if k < m {
            lemma_with_key_empty(a, m);
            assert(false);
        }
        if m < k {
            lemma_with_key_empty(b, k);
            assert(false);
        }
        assert(a.last() == b.last());
        assert forall|j: u64| #[trigger] with_key(a.drop_last(), j) == with_key(b.drop_last(), j) by {
            assert(with_key(a, j) == with_key(b, j));
            assert(a == a.drop_last() + seq![a.last()]);
            assert(b == b.drop_last() + seq![b.last()]);
            lemma_with_key_add(a.drop_last(), seq![a.last()], j);
            lemma_with_key_add(b.drop_last(), seq![b.last()], j);
            lemma_with_key_one(a.last(), j);
            if j == k {
                assert(with_key(a.drop_last(), j) == with_key(a, j).drop_last());
                assert(with_key(b.drop_last(), j) == with_key(b, j).drop_last());
            } else {
                assert(with_key(a.drop_last(), j) == with_key(a, j));
                assert(with_key(b.drop_last(), j) == with_key(b, j));
            }
        }
        lemma_sorted_by_groups(a.drop_last(), b.drop_last());
        assert(a == a.drop_last().push(a.last()));
        assert(b == b.drop_last().push(b.last()));
    }
}

proof fn lemma_last_of_group<T: Keyed>(s: Seq<T>)
    requires
        s.len() > 0,
    ensures
        with_key(s, s.last().key()).len() > 0,
        with_key(s, s.last().key()).last() == s.last(),
{
    reveal(Seq::filter);
}

} // verus!
