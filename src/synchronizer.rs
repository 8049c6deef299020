//! Temporal join of perception streams: items of several perception cycler
//! instances are merged into snapshots keyed by capture timestamp, and a
//! snapshot is handed to the real-time cycler only once every instance is
//! done with its timestamp.
use vstd::prelude::*;

verus! {

/// A value together with the time at which its input was captured.
pub struct Timestamped<T> {
    pub timestamp: u64,
    pub value: T,
}

/// What one perception instance produced since the last merge.
pub struct Update<T> {
    pub items: Vec<Timestamped<T>>,
    /// The earliest capture timestamp for which the instance may still emit,
    /// or `None` when it has no item under construction.
    pub first_timestamp_of_non_finalized_database: Option<u64>,
}

/// The outputs of all perception instances for one capture timestamp,
/// one slot per instance.
pub struct Databases<T> {
    pub timestamp: u64,
    pub slots: Vec<Option<T>>,
}

/// Entries ordered by strictly increasing timestamp.
pub open spec fn is_sorted<T>(s: Seq<Databases<T>>) -> bool {
    forall|i: int, j: int| 0 <= i < j < s.len() ==> s[i].timestamp < s[j].timestamp
}

/// Entries ordered by timestamp, each with one slot per instance.
pub open spec fn entries_wf<T>(s: Seq<Databases<T>>, n: nat) -> bool {
    &&& is_sorted(s)
    &&& forall|i: int| 0 <= i < s.len() ==> #[trigger] s[i].slots@.len() == n
}

/// The entries of `s` as a map from timestamp to slots.
pub open spec fn entries_map<T>(s: Seq<Databases<T>>) -> Map<u64, Seq<Option<T>>> {
    Map::new(
        |k: u64| exists|i: int| 0 <= i < s.len() && s[i].timestamp == k,
        |k: u64| s[choose|i: int| 0 <= i < s.len() && s[i].timestamp == k].slots@,
    )
}

/// One empty slot per instance.
pub open spec fn empty_slots<T>(n: nat) -> Seq<Option<T>> {
    Seq::new(n, |i: int| None)
}

/// `m` after the item of `instance` has been filed under its timestamp.
pub open spec fn with_item<T>(
    m: Map<u64, Seq<Option<T>>>,
    n: nat,
    instance: int,
    item: Timestamped<T>,
) -> Map<u64, Seq<Option<T>>> {
    let base = if m.contains_key(item.timestamp) {
        m[item.timestamp]
    } else {
        empty_slots(n)
    };
    m.insert(item.timestamp, base.update(instance, Some(item.value)))
}

/// `m` after the items of `instance` have been filed in order.
pub open spec fn with_items<T>(
    m: Map<u64, Seq<Option<T>>>,
    n: nat,
    instance: int,
    items: Seq<Timestamped<T>>,
) -> Map<u64, Seq<Option<T>>>
    decreases items.len(),
{
    if items.len() == 0 {
        m
    } else {
        with_item(with_items(m, n, instance, items.drop_last()), n, instance, items.last())
    }
}

/// `m` after the updates of all instances have been filed, the update at
/// index `i` belonging to instance `i`.
pub open spec fn with_updates<T>(
    m: Map<u64, Seq<Option<T>>>,
    n: nat,
    updates: Seq<Update<T>>,
) -> Map<u64, Seq<Option<T>>>
    decreases updates.len(),
{
    if updates.len() == 0 {
        m
    } else {
        with_items(
            with_updates(m, n, updates.drop_last()),
            n,
            updates.len() - 1,
            updates.last().items@,
        )
    }
}

/// The smaller of two optional bounds; `None` is no bound.
pub open spec fn lower_bound(a: Option<u64>, b: Option<u64>) -> Option<u64> {
    match (a, b) {
        (None, _) => b,
        (_, None) => a,
        (Some(x), Some(y)) => Some(if x <= y { x } else { y }),
    }
}

/// The minimum over all instances of their first non-finalized timestamp;
/// instances without an open item do not contribute.
pub open spec fn global_watermark<T>(updates: Seq<Update<T>>) -> Option<u64>
    decreases updates.len(),
{
    if updates.len() == 0 {
        None
    } else {
        lower_bound(
            global_watermark(updates.drop_last()),
            updates.last().first_timestamp_of_non_finalized_database,
        )
    }
}

/// No instance can still write to the entry at `timestamp`.
pub open spec fn is_finalized(timestamp: u64, watermark: Option<u64>) -> bool {
    match watermark {
        None => true,
        Some(w) => timestamp < w,
    }
}

/// The entries of `m` that are finalized under `watermark`.
pub open spec fn finalized_part<T>(m: Map<u64, Seq<Option<T>>>, watermark: Option<u64>) -> Map<
    u64,
    Seq<Option<T>>,
> {
    m.restrict(Set::new(|k: u64| is_finalized(k, watermark)))
}

/// The entries of `m` that stay pending under `watermark`.
pub open spec fn pending_part<T>(m: Map<u64, Seq<Option<T>>>, watermark: Option<u64>) -> Map<
    u64,
    Seq<Option<T>>,
> {
    m.restrict(Set::new(|k: u64| !is_finalized(k, watermark)))
}

proof fn lemma_entries_map_at<T>(s: Seq<Databases<T>>, i: int)
    requires
        is_sorted(s),
        0 <= i < s.len(),
    ensures
        entries_map(s).contains_key(s[i].timestamp),
        entries_map(s)[s[i].timestamp] == s[i].slots@,
{
    let k = s[i].timestamp;
    assert(exists|j: int| 0 <= j < s.len() && s[j].timestamp == k);
    let j = choose|j: int| 0 <= j < s.len() && s[j].timestamp == k;
    if j < i {
        assert(s[j].timestamp < s[i].timestamp);
    } else if i < j {
        assert(s[i].timestamp < s[j].timestamp);
    }
}


/// One empty slot per instance.
fn new_slots<T>(n: usize) -> (r: Vec<Option<T>>)
    ensures
        r@ == empty_slots::<T>(n as nat),
{
    let mut slots: Vec<Option<T>> = Vec::new();
    let mut i: usize = 0;
    while i < n
        invariant
            i <= n,
            slots@ =~= empty_slots::<T>(i as nat),
        decreases n - i,
    {
        slots.push(None);
        i = i + 1;
    }
    slots
}

/// Files `item` of `instance` into the ordered entries.
fn file_item<T>(pending: &mut Vec<Databases<T>>, n: usize, instance: usize, item: Timestamped<T>)
    requires
        entries_wf(old(pending)@, n as nat),
        instance < n,
    ensures
        entries_wf(final(pending)@, n as nat),
        entries_map(final(pending)@) == with_item(
            entries_map(old(pending)@),
            n as nat,
            instance as int,
            item,
        ),
{
    let ghost old_entries = pending@;
    let ghost old_map = entries_map(old_entries);
    let ghost expected = with_item(old_map, n as nat, instance as int, item);
    let timestamp = item.timestamp;
    let mut j: usize = 0;
    while j < pending.len() && pending[j].timestamp < timestamp
        invariant
            pending@ == old_entries,
            j <= pending@.len(),
            forall|k: int| 0 <= k < j ==> pending@[k].timestamp < timestamp,
        decreases pending@.len() - j,
    {
        j = j + 1;
    }
    if j < pending.len() && pending[j].timestamp == timestamp {
        proof {
            lemma_entries_map_at(old_entries, j as int);
        }
        let mut entry = pending.remove(j);
        entry.slots.set(instance, Some(item.value));
        pending.insert(j, entry);
        proof {
            let s = pending@;
            assert(s =~= old_entries.update(j as int, s[j as int]));
            assert(entries_wf(s, n as nat));
            assert forall|k: u64| #[trigger] expected.contains_key(k) implies entries_map(
                s,
            ).contains_key(k) && entries_map(s)[k] == expected[k] by {
                if k == timestamp {
                    lemma_entries_map_at(s, j as int);
                } else {
                    let i = choose|i: int| 0 <= i < old_entries.len() && old_entries[i].timestamp == k;
                    lemma_entries_map_at(old_entries, i);
                    lemma_entries_map_at(s, i);
                }
            }
            assert forall|k: u64| #[trigger] entries_map(s).contains_key(k) implies expected.contains_key(k) by {
                let i = choose|i: int| 0 <= i < s.len() && s[i].timestamp == k;
                if i != j {
                    lemma_entries_map_at(old_entries, i);
                }
            }
            assert(entries_map(s) =~= expected);
        }
    } else {
        let mut slots = new_slots(n);
        slots.set(instance, Some(item.value));
        pending.insert(j, Databases { timestamp, slots });
        proof {
            let s = pending@;
            assert(s =~= old_entries.insert(j as int, s[j as int]));
            assert forall|a: int, b: int| 0 <= a < b < s.len() implies s[a].timestamp < s[b].timestamp by {
                if b == j {
                } else if a == j {
                    assert(s[b] == old_entries[b - 1]);
                    assert(old_entries[j as int].timestamp >= timestamp);
                    if b - 1 > j {
                        assert(old_entries[j as int].timestamp < old_entries[b - 1].timestamp);
                    }
                } else if a < j && b > j {
                    assert(s[b] == old_entries[b - 1]);
                } else if a > j {
                    assert(s[b] == old_entries[b - 1]);
                    assert(s[a] == old_entries[a - 1]);
                }
            }
            assert(entries_wf(s, n as nat));
            assert(!old_map.contains_key(timestamp)) by {
                if old_map.contains_key(timestamp) {
                    let i = choose|i: int| 0 <= i < old_entries.len() && old_entries[i].timestamp == timestamp;
                    if i >= j {
                        if i > j {
                            assert(old_entries[j as int].timestamp < old_entries[i].timestamp);
                        }
                    }
                }
            }
            assert forall|k: u64| #[trigger] expected.contains_key(k) implies entries_map(
                s,
            ).contains_key(k) && entries_map(s)[k] == expected[k] by {
                if k == timestamp {
                    lemma_entries_map_at(s, j as int);
                    assert(s[j as int].slots@ =~= empty_slots::<T>(n as nat).update(instance as int, Some(item.value)));
                } else {
                    let i = choose|i: int| 0 <= i < old_entries.len() && old_entries[i].timestamp == k;
                    lemma_entries_map_at(old_entries, i);
                    if i < j {
                        lemma_entries_map_at(s, i);
                    } else {
                        assert(s[i + 1] == old_entries[i]);
                        lemma_entries_map_at(s, i + 1);
                    }
                }
            }
            assert forall|k: u64| #[trigger] entries_map(s).contains_key(k) implies expected.contains_key(k) by {
                let i = choose|i: int| 0 <= i < s.len() && s[i].timestamp == k;
                if i < j {
                    lemma_entries_map_at(old_entries, i);
                } else if i > j {
                    assert(s[i] == old_entries[i - 1]);
                    lemma_entries_map_at(old_entries, i - 1);
                }
            }
            assert(entries_map(s) =~= expected);
        }
    }
}


/// Files all items of one instance, in order.
fn file_items<T>(
    pending: &mut Vec<Databases<T>>,
    n: usize,
    instance: usize,
    items: Vec<Timestamped<T>>,
)
    requires
        entries_wf(old(pending)@, n as nat),
        instance < n,
    ensures
        entries_wf(final(pending)@, n as nat),
        entries_map(final(pending)@) == with_items(
            entries_map(old(pending)@),
            n as nat,
            instance as int,
            items@,
        ),
{
    let ghost all = items@;
    let ghost start = entries_map(pending@);
    let total = items.len();
    let mut rest = items;
    let mut filed: usize = 0;
    while rest.len() > 0
        invariant
            rest@ == all.subrange(filed as int, all.len() as int),
            filed <= all.len(),
            total == all.len(),
            entries_wf(pending@, n as nat),
            instance < n,
            entries_map(pending@) == with_items(start, n as nat, instance as int, all.take(filed as int)),
        decreases rest@.len(),
    {
        let item = rest.remove(0);
        file_item(pending, n, instance, item);
        proof {
            assert(all.take(filed + 1).drop_last() =~= all.take(filed as int));
            assert(all.take(filed + 1).last() == item);
        }
        filed = filed + 1;
    }
    assert(all.take(all.len() as int) =~= all);
}

/// The smaller of two optional bounds; `None` is no bound.
fn lower_of(a: Option<u64>, b: Option<u64>) -> (r: Option<u64>)
    ensures
        r == lower_bound(a, b),
{
    match (a, b) {
        (None, _) => b,
        (_, None) => a,
        (Some(x), Some(y)) => Some(if x <= y { x } else { y }),
    }
}

/// The minimum of the first non-finalized timestamps of all updates.
pub fn watermark_of<T>(updates: &Vec<Update<T>>) -> (r: Option<u64>)
    ensures
        r == global_watermark(updates@),
{
    let mut watermark: Option<u64> = None;
    let mut i: usize = 0;
    while i < updates.len()
        invariant
            i <= updates@.len(),
            watermark == global_watermark(updates@.take(i as int)),
        decreases updates@.len() - i,
    {
        proof {
            assert(updates@.take(i + 1).drop_last() =~= updates@.take(i as int));
        }
        watermark = lower_of(watermark, updates[i].first_timestamp_of_non_finalized_database);
        i = i + 1;
    }
    assert(updates@.take(updates@.len() as int) =~= updates@);
    watermark
}

/// Whether no instance can still write to the entry at `timestamp`.
fn finalized_under(timestamp: u64, watermark: Option<u64>) -> (r: bool)
    ensures
        r == is_finalized(timestamp, watermark),
{
    match watermark {
        None => true,
        Some(w) => timestamp < w,
    }
}

/// Pending snapshots of perception outputs, keyed by capture timestamp.
pub struct PerceptionSynchronizer<T> {
    pending: Vec<Databases<T>>,
    instance_count: usize,
}

impl<T> View for PerceptionSynchronizer<T> {
    type V = Map<u64, Seq<Option<T>>>;

    closed spec fn view(&self) -> Map<u64, Seq<Option<T>>> {
        entries_map(self.pending@)
    }
}

impl<T> PerceptionSynchronizer<T> {
    /// The number of perception instances joined.
    pub closed spec fn instances(&self) -> nat {
        self.instance_count as nat
    }

    /// The pending entries are ordered and each has one slot per instance.
    pub closed spec fn wf(&self) -> bool {
        entries_wf(self.pending@, self.instance_count as nat)
    }

    /// A synchronizer for `instance_count` perception instances, with
    /// nothing pending.
    pub fn new(instance_count: usize) -> (r: Self)
        ensures
            r.wf(),
            r.instances() == instance_count,
            r@ == Map::<u64, Seq<Option<T>>>::empty(),
    {
        let r = PerceptionSynchronizer { pending: Vec::new(), instance_count };
        assert(r@ =~= Map::<u64, Seq<Option<T>>>::empty());
        r
    }

    /// The number of perception instances joined.
    pub fn instance_count(&self) -> (r: usize)
        ensures
            r == self.instances(),
    {
        self.instance_count
    }

    /// The number of timestamps still pending.
    pub fn pending_count(&self) -> (r: usize)
        requires
            self.wf(),
        ensures
            r == self@.len(),
    {
        proof {
            lemma_entries_map_len(self.pending@);
        }
        self.pending.len()
    }

    /// The timestamps still pending, in increasing order.
    pub fn pending_timestamps(&self) -> (r: Vec<u64>)
        requires
            self.wf(),
        ensures
            r@.len() == self@.len(),
            forall|i: int, j: int| 0 <= i < j < r@.len() ==> r@[i] < r@[j],
            forall|k: u64| self@.contains_key(k) <==> r@.contains(k),
    {
        let mut r: Vec<u64> = Vec::new();
        let mut i: usize = 0;
        while i < self.pending.len()
            invariant
                i <= self.pending@.len(),
                self.wf(),
                r@.len() == i,
                forall|j: int| 0 <= j < i ==> r@[j] == self.pending@[j].timestamp,
            decreases self.pending@.len() - i,
        {
            r.push(self.pending[i].timestamp);
            i = i + 1;
        }
        proof {
            lemma_entries_map_len(self.pending@);
            assert forall|k: u64| self@.contains_key(k) implies r@.contains(k) by {
                let i = choose|i: int| 0 <= i < self.pending@.len() && self.pending@[i].timestamp == k;
                assert(r@[i] == k);
            }
            assert forall|k: u64| r@.contains(k) implies self@.contains_key(k) by {
                let i = choose|i: int| 0 <= i < r@.len() && r@[i] == k;
                assert(self.pending@[i].timestamp == k);
            }
        }
        r
    }

    /// Files the updates of all instances (the update at index `i` belongs
    /// to instance `i`), then hands out, in increasing timestamp order, every
    /// entry below the global watermark and removes it from the pending map.
    pub fn merge(&mut self, updates: Vec<Update<T>>) -> (delivered: Vec<Databases<T>>)
        requires
            old(self).wf(),
            updates@.len() == old(self).instances(),
        ensures
            final(self).wf(),
            final(self).instances() == old(self).instances(),
            final(self)@ == pending_part(
                with_updates(old(self)@, old(self).instances(), updates@),
                global_watermark(updates@),
            ),
            entries_wf(delivered@, old(self).instances()),
            entries_map(delivered@) == finalized_part(
                with_updates(old(self)@, old(self).instances(), updates@),
                global_watermark(updates@),
            ),
    {
        let ghost all = updates@;
        let ghost start = entries_map(self.pending@);
        let n = self.instance_count;
        let watermark = watermark_of(&updates);
        let mut rest = updates;
        let mut instance: usize = 0;
        while rest.len() > 0
            invariant
                rest@ == all.subrange(instance as int, all.len() as int),
                instance <= all.len(),
                all.len() == n,
                n == self.instance_count,
                self.wf(),
                self@ == with_updates(start, n as nat, all.take(instance as int)),
            decreases rest@.len(),
        {
            let update = rest.remove(0);
            proof {
                assert(all.take(instance + 1).drop_last() =~= all.take(instance as int));
                assert(all.take(instance + 1).last() == update);
            }
            file_items(&mut self.pending, n, instance, update.items);
            instance = instance + 1;
        }
        assert(all.take(all.len() as int) =~= all);
        let ghost merged = self@;
        let ghost merged_entries = self.pending@;
        let mut delivered: Vec<Databases<T>> = Vec::new();
        let total = self.pending.len();
        let mut cut: usize = 0;
        while self.pending.len() > 0 && finalized_under(self.pending[0].timestamp, watermark)
            invariant
                n == self.instance_count,
                cut <= merged_entries.len(),
                total == merged_entries.len(),
                self.pending@ == merged_entries.subrange(cut as int, merged_entries.len() as int),
                delivered@ == merged_entries.take(cut as int),
                entries_wf(merged_entries, n as nat),
                forall|i: int| 0 <= i < cut ==> is_finalized(merged_entries[i].timestamp, watermark),
            decreases self.pending@.len(),
        {
            let entry = self.pending.remove(0);
            delivered.push(entry);
            cut = cut + 1;
        }
        proof {
            let rest_entries = self.pending@;
            assert(rest_entries.len() > 0 ==> !is_finalized(rest_entries[0].timestamp, watermark));
            assert forall|i: int| cut <= i < merged_entries.len() implies !is_finalized(
                #[trigger] merged_entries[i].timestamp,
                watermark,
            ) by {
                assert(merged_entries[cut as int] == rest_entries[0]);
                if i > cut {
                    assert(merged_entries[cut as int].timestamp < merged_entries[i].timestamp);
                }
            }
            lemma_split_entries(merged_entries, cut as int, watermark);
        }
        delivered
    }
}

proof fn lemma_entries_map_len<T>(s: Seq<Databases<T>>)
    requires
        is_sorted(s),
    ensures
        entries_map(s).dom().finite(),
        entries_map(s).len() == s.len(),
    decreases s.len(),
{
    if s.len() == 0 {
        assert(entries_map(s).dom() =~= Set::<u64>::empty());
    } else {
        let t = s.drop_last();
        lemma_entries_map_len(t);
        let last = s.last().timestamp;
        assert forall|k: u64| #[trigger] entries_map(s).dom().contains(k) <==> entries_map(t).dom().insert(last).contains(k) by {
            if entries_map(s).dom().contains(k) {
                let i = choose|i: int| 0 <= i < s.len() && s[i].timestamp == k;
                if i < s.len() - 1 {
                    assert(t[i].timestamp == k);
                }
            }
            if entries_map(t).dom().contains(k) {
                let i = choose|i: int| 0 <= i < t.len() && t[i].timestamp == k;
                assert(s[i].timestamp == k);
            }
            if k == last {
                assert(s[s.len() - 1].timestamp == k);
            }
        }
        assert(entries_map(s).dom() =~= entries_map(t).dom().insert(last));
        assert(!entries_map(t).dom().contains(last)) by {
            if entries_map(t).dom().contains(last) {
                let i = choose|i: int| 0 <= i < t.len() && t[i].timestamp == last;
                assert(s[i].timestamp < s[s.len() - 1].timestamp);
            }
        }
    }
}

proof fn lemma_split_entries<T>(s: Seq<Databases<T>>, cut: int, watermark: Option<u64>)
    requires
        is_sorted(s),
        0 <= cut <= s.len(),
        forall|i: int| 0 <= i < cut ==> is_finalized(s[i].timestamp, watermark),
        forall|i: int| cut <= i < s.len() ==> !is_finalized(#[trigger] s[i].timestamp, watermark),
    ensures
        entries_map(s.take(cut)) == finalized_part(entries_map(s), watermark),
        entries_map(s.subrange(cut, s.len() as int)) == pending_part(entries_map(s), watermark),
{
    let front = s.take(cut);
    let back = s.subrange(cut, s.len() as int);
    assert forall|k: u64| #[trigger] entries_map(front).contains_key(k) implies finalized_part(
        entries_map(s),
        watermark,
    ).contains_key(k) && entries_map(front)[k] == finalized_part(entries_map(s), watermark)[k] by {
        let i = choose|i: int| 0 <= i < front.len() && front[i].timestamp == k;
        lemma_entries_map_at(front, i);
        lemma_entries_map_at(s, i);
    }
    assert forall|k: u64| #[trigger] finalized_part(entries_map(s), watermark).contains_key(k) implies entries_map(front).contains_key(k) by {
        let i = choose|i: int| 0 <= i < s.len() && s[i].timestamp == k;
        assert(front[i].timestamp == k);
    }
    assert(entries_map(front) =~= finalized_part(entries_map(s), watermark));
    assert forall|k: u64| #[trigger] entries_map(back).contains_key(k) implies pending_part(
        entries_map(s),
        watermark,
    ).contains_key(k) && entries_map(back)[k] == pending_part(entries_map(s), watermark)[k] by {
        let i = choose|i: int| 0 <= i < back.len() && back[i].timestamp == k;
        lemma_entries_map_at(back, i);
        assert(s[cut + i] == back[i]);
        lemma_entries_map_at(s, cut + i);
    }
    assert forall|k: u64| #[trigger] pending_part(entries_map(s), watermark).contains_key(k) implies entries_map(back).contains_key(k) by {
        let i = choose|i: int| 0 <= i < s.len() && s[i].timestamp == k;
        assert(back[i - cut].timestamp == k);
    }
    assert(entries_map(back) =~= pending_part(entries_map(s), watermark));
}


proof fn lemma_watermark_at_most<T>(updates: Seq<Update<T>>, instance: int, w: u64)
    requires
        0 <= instance < updates.len(),
        updates[instance].first_timestamp_of_non_finalized_database == Some(w),
    ensures
        global_watermark(updates) matches Some(x) && x <= w,
    decreases updates.len(),
{
    if instance < updates.len() - 1 {
        lemma_watermark_at_most(updates.drop_last(), instance, w);
    }
}

proof fn lemma_with_items_grows<T>(
    m: Map<u64, Seq<Option<T>>>,
    n: nat,
    instance: int,
    items: Seq<Timestamped<T>>,
)
    requires
        m.dom().finite(),
    ensures
        m.dom().subset_of(with_items(m, n, instance, items).dom()),
        with_items(m, n, instance, items).dom().finite(),
    decreases items.len(),
{
    if items.len() > 0 {
        lemma_with_items_grows(m, n, instance, items.drop_last());
    }
}

proof fn lemma_with_updates_grows<T>(m: Map<u64, Seq<Option<T>>>, n: nat, updates: Seq<Update<T>>)
    requires
        m.dom().finite(),
    ensures
        m.dom().subset_of(with_updates(m, n, updates).dom()),
        with_updates(m, n, updates).dom().finite(),
    decreases updates.len(),
{
    if updates.len() > 0 {
        lemma_with_updates_grows(m, n, updates.drop_last());
        lemma_with_items_grows(
            with_updates(m, n, updates.drop_last()),
            n,
            updates.len() - 1,
            updates.last().items@,
        );
    }
}

/// An instance that keeps reporting `w` as its first non-finalized timestamp
/// holds back the join: no entry at or after `w` is handed out by a merge,
/// and while every pending timestamp is at least `w`, no pending timestamp
/// is dropped, so the number of pending entries never decreases.
pub proof fn lemma_stalled_instance_blocks_join<T>(
    pending: Map<u64, Seq<Option<T>>>,
    n: nat,
    updates: Seq<Update<T>>,
    instance: int,
    w: u64,
)
    requires
        pending.dom().finite(),
        0 <= instance < updates.len(),
        updates[instance].first_timestamp_of_non_finalized_database == Some(w),
    ensures
        forall|k: u64| #[trigger]
            finalized_part(with_updates(pending, n, updates), global_watermark(updates)).contains_key(k)
                ==> k < w,
        (forall|k: u64| #[trigger] pending.contains_key(k) ==> k >= w) ==> {
            let after = pending_part(with_updates(pending, n, updates), global_watermark(updates));
            &&& pending.dom().subset_of(after.dom())
            &&& pending.len() <= after.len()
        },
{
    lemma_watermark_at_most(updates, instance, w);
    lemma_with_updates_grows(pending, n, updates);
    let merged = with_updates(pending, n, updates);
    let after = pending_part(merged, global_watermark(updates));
    if forall|k: u64| #[trigger] pending.contains_key(k) ==> k >= w {
        assert(pending.dom().subset_of(after.dom()));
        assert(after.dom().finite()) by {
            assert(after.dom().subset_of(merged.dom()));
            vstd::set_lib::lemma_len_subset(after.dom(), merged.dom());
        }
        vstd::set_lib::lemma_len_subset(pending.dom(), after.dom());
    }
}

} // verus!
