//! Past main outputs kept for historic inputs: values keyed by the time of
//! their tick, dropped once they fall out of a bounded window.
use vstd::prelude::*;

verus! {

/// Timestamps strictly increasing.
pub open spec fn increasing<T>(s: Seq<(u64, T)>) -> bool {
    forall|i: int, j: int| 0 <= i < j < s.len() ==> s[i].0 < s[j].0
}

/// The entries of `s` as a map from timestamp to value.
pub open spec fn history_map<T>(s: Seq<(u64, T)>) -> Map<u64, T> {
    Map::new(
        |k: u64| exists|i: int| 0 <= i < s.len() && s[i].0 == k,
        |k: u64| s[choose|i: int| 0 <= i < s.len() && s[i].0 == k].1,
    )
}

/// The oldest timestamp a window of `window` before `now` still holds.
pub open spec fn window_start(now: u64, window: u64) -> u64 {
    if now >= window {
        (now - window) as u64
    } else {
        0
    }
}

proof fn lemma_history_at<T>(s: Seq<(u64, T)>, i: int)
    requires
        increasing(s),
        0 <= i < s.len(),
    ensures
        history_map(s).contains_key(s[i].0),
        history_map(s)[s[i].0] == s[i].1,
{
    let k = s[i].0;
    assert(exists|j: int| 0 <= j < s.len() && s[j].0 == k);
    let j = choose|j: int| 0 <= j < s.len() && s[j].0 == k;
    if j < i {
        assert(s[j].0 < s[i].0);
    } else if i < j {
        assert(s[i].0 < s[j].0);
    }
}

/// Values of past ticks of one output, oldest first.
pub struct History<T> {
    entries: Vec<(u64, T)>,
    window: u64,
}

impl<T> View for History<T> {
    type V = Map<u64, T>;

    closed spec fn view(&self) -> Map<u64, T> {
        history_map(self.entries@)
    }
}

impl<T> History<T> {
    /// How far back values are kept.
    pub closed spec fn window_spec(&self) -> u64 {
        self.window
    }

    pub closed spec fn wf(&self) -> bool {
        increasing(self.entries@)
    }

    /// An empty history keeping values for `window` time units.
    pub fn new(window: u64) -> (r: Self)
        ensures
            r.wf(),
            r.window_spec() == window,
            r@ == Map::<u64, T>::empty(),
    {
        let r = History { entries: Vec::new(), window };
        assert(r@ =~= Map::<u64, T>::empty());
        r
    }

    /// Records the value of the tick at `timestamp`, which must be newer
    /// than every recorded one; returns whether it was recorded.
    pub fn record(&mut self, timestamp: u64, value: T) -> (r: bool)
        requires
            old(self).wf(),
        ensures
            final(self).wf(),
            final(self).window_spec() == old(self).window_spec(),
            r <==> forall|k: u64| #[trigger] old(self)@.contains_key(k) ==> k < timestamp,
            r ==> final(self)@ == old(self)@.insert(timestamp, value),
            !r ==> final(self)@ == old(self)@,
    {
        let length = self.entries.len();
        if length > 0 && self.entries[length - 1].0 >= timestamp {
            proof {
                lemma_history_at(self.entries@, length - 1);
                assert(self@.contains_key(self.entries@[length - 1].0));
            }
            return false;
        }
        let ghost before = self.entries@;
        self.entries.push((timestamp, value));
        proof {
            let s = self.entries@;
            assert forall|k: u64| #[trigger] history_map(before).contains_key(k) implies k < timestamp by {
                let i = choose|i: int| 0 <= i < before.len() && before[i].0 == k;
                if i < length - 1 {
                    assert(before[i].0 < before[length - 1].0);
                }
            }
            assert forall|i: int, j: int| 0 <= i < j < s.len() implies s[i].0 < s[j].0 by {
                if j == length {
                    if i < length - 1 {
                        assert(before[i].0 < before[length - 1].0);
                    }
                }
            }
            let expected = history_map(before).insert(timestamp, value);
            assert forall|k: u64| #[trigger] history_map(s).contains_key(k) <==> expected.contains_key(k) by {
                if history_map(s).contains_key(k) {
                    let i = choose|i: int| 0 <= i < s.len() && s[i].0 == k;
                    if i < length {
                        assert(before[i].0 == k);
                    }
                }
                if history_map(before).contains_key(k) {
                    let i = choose|i: int| 0 <= i < before.len() && before[i].0 == k;
                    assert(s[i].0 == k);
                }
                if k == timestamp {
                    assert(s[length as int].0 == k);
                }
            }
            assert forall|k: u64| #[trigger] history_map(s).contains_key(k) implies history_map(s)[k]
                == expected[k] by {
                let i = choose|i: int| 0 <= i < s.len() && s[i].0 == k;
                lemma_history_at(s, i);
                if i < length {
                    lemma_history_at(before, i);
                }
            }
            assert(history_map(s) =~= expected);
        }
        true
    }

    /// Drops every value older than the window before `now`.
    pub fn prune(&mut self, now: u64)
        requires
            old(self).wf(),
        ensures
            final(self).wf(),
            final(self).window_spec() == old(self).window_spec(),
            final(self)@ == old(self)@.restrict(
                Set::new(|k: u64| k >= window_start(now, old(self).window_spec())),
            ),
    {
        let start = if now >= self.window {
            now - self.window
        } else {
            0
        };
        let ghost before = self.entries@;
        let ghost window = self.window;
        let total = self.entries.len();
        let mut cut: usize = 0;
        while self.entries.len() > 0 && self.entries[0].0 < start
            invariant
                cut <= before.len(),
                total == before.len(),
                self.window == window,
                increasing(before),
                self.entries@ == before.subrange(cut as int, before.len() as int),
                forall|i: int| 0 <= i < cut ==> before[i].0 < start,
            decreases self.entries@.len(),
        {
            self.entries.remove(0);
            cut = cut + 1;
        }
        proof {
            let s = self.entries@;
            assert forall|i: int| cut <= i < before.len() implies before[i].0 >= start by {
                assert(before[cut as int] == s[0]);
                if i > cut {
                    assert(before[cut as int].0 < before[i].0);
                }
            }
            let expected = history_map(before).restrict(Set::new(|k: u64| k >= start));
            assert forall|k: u64| #[trigger] history_map(s).contains_key(k) <==> expected.contains_key(k) by {
                if history_map(s).contains_key(k) {
                    let i = choose|i: int| 0 <= i < s.len() && s[i].0 == k;
                    assert(before[cut + i].0 == k);
                }
                if expected.contains_key(k) {
                    let i = choose|i: int| 0 <= i < before.len() && before[i].0 == k;
                    assert(s[i - cut].0 == k);
                }
            }
            assert forall|k: u64| #[trigger] history_map(s).contains_key(k) implies history_map(s)[k]
                == expected[k] by {
                let i = choose|i: int| 0 <= i < s.len() && s[i].0 == k;
                lemma_history_at(s, i);
                assert(s[i] == before[cut + i]);
                lemma_history_at(before, cut + i);
            }
            assert(history_map(s) =~= expected);
        }
    }

    /// The value of the tick at `timestamp`, if it is still held.
    pub fn get(&self, timestamp: u64) -> (r: Option<&T>)
        requires
            self.wf(),
        ensures
            r is None <==> !self@.contains_key(timestamp),
            r matches Some(v) ==> *v == self@[timestamp],
    {
        let mut i: usize = 0;
        while i < self.entries.len()
            invariant
                self.wf(),
                i <= self.entries@.len(),
                forall|j: int| 0 <= j < i ==> self.entries@[j].0 != timestamp,
            decreases self.entries@.len() - i,
        {
            if self.entries[i].0 == timestamp {
                proof {
                    lemma_history_at(self.entries@, i as int);
                }
                return Some(&self.entries[i].1);
            }
            i = i + 1;
        }
        None
    }

    /// The number of values held.
    pub fn len(&self) -> (r: usize)
        requires
            self.wf(),
        ensures
            r == self@.len(),
    {
        proof {
            lemma_history_len(self.entries@);
        }
        self.entries.len()
    }
}

proof fn lemma_history_len<T>(s: Seq<(u64, T)>)
    requires
        increasing(s),
    ensures
        history_map(s).dom().finite(),
        history_map(s).len() == s.len(),
    decreases s.len(),
{
    if s.len() == 0 {
        assert(history_map(s).dom() =~= Set::<u64>::empty());
    } else {
        let t = s.drop_last();
        lemma_history_len(t);
        let last = s.last().0;
        assert forall|k: u64| #[trigger] history_map(s).dom().contains(k) <==> history_map(t).dom().insert(
            last,
        ).contains(k) by {
            if history_map(s).dom().contains(k) {
                let i = choose|i: int| 0 <= i < s.len() && s[i].0 == k;
                if i < s.len() - 1 {
                    assert(t[i].0 == k);
                }
            }
            if history_map(t).dom().contains(k) {
                let i = choose|i: int| 0 <= i < t.len() && t[i].0 == k;
                assert(s[i].0 == k);
            }
            if k == last {
                assert(s[s.len() - 1].0 == k);
            }
        }
        assert(history_map(s).dom() =~= history_map(t).dom().insert(last));
        assert(!history_map(t).dom().contains(last)) by {
            if history_map(t).dom().contains(last) {
                let i = choose|i: int| 0 <= i < t.len() && t[i].0 == last;
                assert(s[i].0 < s[s.len() - 1].0);
            }
        }
    }
}

} // verus!
