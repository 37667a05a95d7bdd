use std::collections::HashSet;
use std::hash::Hash;
use vstd::prelude::*;
use vstd::pervasive::strictly_cloned;
use vstd::std_specs::hash::obeys_key_model;

verus! {

broadcast use vstd::std_specs::hash::group_hash_axioms;

/// What the adapter emits over a finite stream `s`: one copy of each value, in order,
/// up to (not including) the first value that was already emitted.
pub open spec fn emitted_before_repeat<T>(s: Seq<T>) -> Seq<T>
    decreases s.len(),
{
    if s.len() == 0 {
        s
    } else {
        let p = emitted_before_repeat(s.drop_last());
        if p.len() == s.len() - 1 && !p.contains(s.last()) {
            p.push(s.last())
        } else {
            p
        }
    }
}

/// No value occurs twice in `s`.
pub open spec fn all_distinct<T>(s: Seq<T>) -> bool {
    forall|i: int, j: int| 0 <= i < j < s.len() ==> s[i] != s[j]
}

/// Index `k` holds the first value of `s` that repeats an earlier one.
pub open spec fn first_repeat_at<T>(s: Seq<T>, k: int) -> bool {
    &&& 0 <= k < s.len()
    &&& all_distinct(s.take(k))
    &&& s.take(k).contains(s[k])
}

proof fn lemma_distinct_emitted_whole<T>(s: Seq<T>)
    requires
        all_distinct(s),
    ensures
        emitted_before_repeat(s) == s,
    decreases s.len(),
{
    if s.len() > 0 {
        let d = s.drop_last();
        assert(all_distinct(d));
        lemma_distinct_emitted_whole(d);
        if d.contains(s.last()) {
            let j = choose|j: int| 0 <= j < d.len() && d[j] == s.last();
            assert(s[j] == s[s.len() - 1]);
        }
        assert(d.push(s.last()) == s);
    }
}

proof fn lemma_repeat_stops_emission<T>(s: Seq<T>, k: int)
    requires
        first_repeat_at(s, k),
    ensures
        emitted_before_repeat(s) == s.take(k),
    decreases s.len(),
{
    let d = s.drop_last();
    if s.len() == k + 1 {
        assert(d == s.take(k));
        lemma_distinct_emitted_whole(d);
    } else {
        assert(d.take(k) == s.take(k));
        lemma_repeat_stops_emission(d, k);
    }
}

/// Over a finite stream, the adapter emits exactly the values before the first repeat:
/// the first `k` values when index `k` holds the first repeat, and the whole stream when
/// no value repeats.
pub proof fn lemma_cycle_finder_exact<T>(s: Seq<T>, k: int)
    ensures
        first_repeat_at(s, k) ==> emitted_before_repeat(s) == s.take(k),
        all_distinct(s) ==> emitted_before_repeat(s) == s,
{
    if first_repeat_at(s, k) {
        lemma_repeat_stops_emission(s, k);
    }
    if all_distinct(s) {
        lemma_distinct_emitted_whole(s);
    }
}

/// Values of `T` behave as keys of a hash set should, and a clone equals its original.
pub open spec fn exact_keys<T: Clone>() -> bool {
    &&& obeys_key_model::<T>()
    &&& forall|a: T, b: T| #[trigger] strictly_cloned(a, b) ==> a == b
}

/// Machine integers are exact keys.
pub proof fn lemma_u64_exact_keys()
    ensures
        exact_keys::<u64>(),
{
    assert forall|a: u64, b: u64| #[trigger] strictly_cloned(a, b) implies a == b by {}
}

/// A stream adapter that forwards values until one of them repeats, and then ends for good.
///
/// The wrapped stream is pulled by the caller, who hands each pulled item to `next`.
pub struct CycleFinder<T> {
    seen: HashSet<T>,
    stopped: bool,
}

impl<T: Clone + Eq + Hash> CycleFinder<T> {
    /// The values yielded so far.
    pub closed spec fn seen_values(&self) -> Set<T> {
        self.seen@
    }

    /// Whether the adapter has ended.
    pub closed spec fn has_stopped(&self) -> bool {
        self.stopped
    }

    pub fn new() -> (r: Self)
        ensures
            r.seen_values() == Set::<T>::empty(),
            !r.has_stopped(),
    {
        CycleFinder { seen: HashSet::new(), stopped: false }
    }

    /// Takes the item pulled from the wrapped stream and returns what the adapter yields.
    /// Once stopped it yields nothing; for item types with exact keys it yields exactly
    /// the items not seen before, up to the first repeat.
    pub fn next(&mut self, pulled: Option<T>) -> (r: Option<T>)
        ensures
            old(self).has_stopped() ==> r is None && *final(self) == *old(self),
            !old(self).has_stopped() && pulled is None ==> r is None && final(self).has_stopped(),
            exact_keys::<T>() && !old(self).has_stopped() ==> match pulled {
                None => r is None && final(self).has_stopped() && final(self).seen_values()
                    == old(self).seen_values(),
                Some(e) => if old(self).seen_values().contains(e) {
                    r is None && final(self).has_stopped() && final(self).seen_values()
                        == old(self).seen_values()
                } else {
                    r == Some(e) && !final(self).has_stopped() && final(self).seen_values()
                        == old(self).seen_values().insert(e)
                },
            },
    {
        if self.stopped {
            return None;
        }
        match pulled {
            None => {
                self.stopped = true;
                None
            },
            Some(e) => {
                if self.seen.contains(&e) {
                    self.stopped = true;
                    None
                } else {
                    let kept = e.clone();
                    assert(strictly_cloned(e, kept));
                    self.seen.insert(kept);
                    Some(e)
                }
            },
        }
    }
}

/// Runs the adapter over a finite stream and collects everything it yields.
pub fn find_cycle<T: Clone + Eq + Hash>(stream: Vec<T>) -> (r: Vec<T>)
    requires
        exact_keys::<T>(),
    ensures
        r@ == emitted_before_repeat(stream@),
{
    let mut finder = CycleFinder::new();
    let mut out: Vec<T> = Vec::new();
    let mut i: usize = 0;
    while i < stream.len()
        invariant
            exact_keys::<T>(),
            i <= stream.len(),
            out@ == emitted_before_repeat(stream@.take(i as int)),
            finder.seen_values() == out@.to_set(),
            out.len() <= i,
            finder.has_stopped() <==> out.len() < i,
        decreases stream.len() - i,
    {
        let item = stream[i].clone();
        assert(strictly_cloned(stream@[i as int], item));
        assert(item == stream@[i as int]);
        let ghost before = out@;
        let yielded = finder.next(Some(item));
        assert(stream@.take(i + 1).drop_last() == stream@.take(i as int));
        assert(stream@.take(i + 1).last() == item);
        match yielded {
            Some(e) => {
                out.push(e);
                proof {
                    assert(!before.contains(item));
                    assert(out@.to_set() == before.to_set().insert(item)) by {
                        assert(out@ == before.push(item));
                        before.lemma_push_to_set_commute(item);
                    }
                }
            },
            None => {
                proof {
                    if !(before.len() < i) {
                        assert(before.to_set().contains(item));
                    }
                }
            },
        }
        i = i + 1;
    }
    assert(stream@.take(stream.len() as int) == stream@);
    out
}

/// Method-style access to `find_cycle` on a collected stream.
pub trait CycleFinderExt<T: Clone>: Sized {
    /// The values of the stream, in order.
    spec fn stream(&self) -> Seq<T>;

    fn find_cycle(self) -> (r: Vec<T>)
        requires
            exact_keys::<T>(),
        ensures
            r@ == emitted_before_repeat(self.stream()),
    ;
}

impl<T: Clone + Eq + Hash> CycleFinderExt<T> for Vec<T> {
    open spec fn stream(&self) -> Seq<T> {
        self@
    }

    fn find_cycle(self) -> (r: Vec<T>) {
        find_cycle(self)
    }
}

} // verus!
