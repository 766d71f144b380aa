//! The keyed table with lazy time-based expiry.
//!
//! Time enters every operation as an explicit `now` argument, a count of
//! seconds on some monotonic scale; deadlines are absolute points on the
//! same scale. An entry whose deadline has been reached is logically
//! absent for every reading operation even while it still sits in the
//! table.

use vstd::prelude::*;

verus! {

/// One keyed value as the contracts speak of it.
pub struct EntryModel {
    pub value: Seq<u8>,
    pub deadline: Option<u64>,
}

/// One keyed value with its optional absolute deadline.
struct Slot {
    key: Vec<u8>,
    value: Vec<u8>,
    deadline: Option<u64>,
}

/// The keyed table: a single shared resource; every operation leaves it
/// consistent, so a serialization discipline around it is all that
/// concurrent connections need.
pub struct Store {
    entries: Vec<Slot>,
}

/// The model of `slot`.
spec fn slot_model(slot: Slot) -> EntryModel {
    EntryModel { value: slot.value@, deadline: slot.deadline }
}

/// The mapping an association list denotes; later slots shadow earlier
/// ones, though a well-formed store never holds a key twice.
spec fn slots_map(s: Seq<Slot>) -> Map<Seq<u8>, EntryModel>
    decreases s.len(),
{
    if s.len() == 0 {
        Map::empty()
    } else {
        slots_map(s.drop_last()).insert(s.last().key@, slot_model(s.last()))
    }
}

/// No key occurs in two slots.
spec fn uniq_keys(s: Seq<Slot>) -> bool {
    forall|i: int, j: int|
        0 <= i < j < s.len() ==> (#[trigger] s[i].key)@ != (#[trigger] s[j].key)@
}

/// Addition that stops at the top of the scale rather than wrapping.
pub open spec fn sat_add(a: u64, b: u64) -> u64 {
    if a + b > u64::MAX {
        u64::MAX
    } else {
        (a + b) as u64
    }
}

/// A key is live when it is present and its deadline, if any, lies in
/// the future.
pub open spec fn live(m: Map<Seq<u8>, EntryModel>, k: Seq<u8>, now: u64) -> bool {
    m.contains_key(k) && match m[k].deadline {
        Option::Some(d) => now < d,
        Option::None => true,
    }
}

/// The table a sequence of slots denotes contains exactly the slots'
/// keys, and, under key uniqueness, maps each to that slot's model.
proof fn lemma_slots_map_props(s: Seq<Slot>)
    ensures
        forall|k: Seq<u8>|
            slots_map(s).contains_key(k) <==> exists|i: int|
                0 <= i < s.len() && (#[trigger] s[i].key)@ == k,
        uniq_keys(s) ==> forall|i: int|
            0 <= i < s.len() ==> slots_map(s)[(#[trigger] s[i].key)@] == slot_model(s[i]),
    decreases s.len(),
{
    if s.len() > 0 {
        lemma_slots_map_props(s.drop_last());
        assert(forall|i: int| 0 <= i < s.len() - 1 ==> s.drop_last()[i] == s[i]);
        assert(s.last() == s[s.len() - 1]);
    }
}

/// Removing a slot removes exactly its key from the denoted table.
proof fn lemma_slots_map_remove(s: Seq<Slot>, i: int)
    requires
        uniq_keys(s),
        0 <= i < s.len(),
    ensures
        slots_map(s.remove(i)) == slots_map(s).remove(s[i].key@),
    decreases s.len(),
{
    lemma_slots_map_props(s);
    lemma_slots_map_props(s.drop_last());
    if i == s.len() - 1 {
        assert(s.remove(i) =~= s.drop_last());
        assert(!slots_map(s.drop_last()).contains_key(s[i].key@));
        assert(slots_map(s.drop_last()) =~= slots_map(s.drop_last()).insert(
            s.last().key@,
            slot_model(s.last()),
        ).remove(s[i].key@));
    } else {
        assert(uniq_keys(s.drop_last()));
        lemma_slots_map_remove(s.drop_last(), i);
        assert(s.remove(i).drop_last() =~= s.drop_last().remove(i));
        assert(s.remove(i).last() == s.last());
        assert(slots_map(s.remove(i)) == slots_map(s.drop_last().remove(i)).insert(
            s.last().key@,
            slot_model(s.last()),
        ));
        assert(s[i].key@ != s.last().key@);
        assert(slots_map(s.drop_last()).remove(s[i].key@).insert(
            s.last().key@,
            slot_model(s.last()),
        ) =~= slots_map(s.drop_last()).insert(s.last().key@, slot_model(s.last())).remove(
            s[i].key@,
        ));
    }
}

impl View for Store {
    type V = Map<Seq<u8>, EntryModel>;

    closed spec fn view(&self) -> Map<Seq<u8>, EntryModel> {
        slots_map(self.entries@)
    }
}

impl Store {
    /// The store's internal consistency: no key held twice.
    pub closed spec fn wf(&self) -> bool {
        uniq_keys(self.entries@)
    }

    /// An empty table.
    pub fn new() -> (r: Store)
        ensures
            r.wf(),
            r@ == Map::<Seq<u8>, EntryModel>::empty(),
    {
        Store { entries: Vec::new() }
    }

    /// The position of `key`'s slot, if the key is physically present.
    #[verifier::loop_isolation(false)]
    fn find_idx(&self, key: &Vec<u8>) -> (r: Option<usize>)
        requires
            self.wf(),
        ensures
            match r {
                Option::Some(i) => i < self.entries@.len() && self.entries@[i as int].key@ == key@
                    && self@.contains_key(key@) && self@[key@] == slot_model(
                    self.entries@[i as int],
                ),
                Option::None => !self@.contains_key(key@),
            },
    {
        proof {
            lemma_slots_map_props(self.entries@);
        }
        let mut i: usize = 0;
        while i < self.entries.len()
            invariant
                i <= self.entries@.len(),
                forall|t: int| 0 <= t < i ==> (#[trigger] self.entries@[t].key)@ != key@,
            decreases self.entries@.len() - i,
        {
            if bytes_eq(&self.entries[i].key, key) {
                return Option::Some(i);
            }
            i = i + 1;
        }
        Option::None
    }

    /// The value under `key` when that key is live at `now`; a miss
    /// otherwise, an expired entry counting as a miss.
    pub fn get(&self, key: &Vec<u8>, now: u64) -> (r: Option<Vec<u8>>)
        requires
            self.wf(),
        ensures
            match r {
                Option::Some(v) => live(self@, key@, now) && v@ == self@[key@].value,
                Option::None => !live(self@, key@, now),
            },
    {
        match self.find_idx(key) {
            Option::None => Option::None,
            Option::Some(i) => {
                let slot = &self.entries[i];
                match slot.deadline {
                    Option::Some(d) => {
                        if now >= d {
                            Option::None
                        } else {
                            Option::Some(dup_key(&slot.value))
                        }
                    },
                    Option::None => Option::Some(dup_key(&slot.value)),
                }
            },
        }
    }

    /// Unconditional upsert without a deadline: any prior deadline on the
    /// key is cleared.
    pub fn set(&mut self, key: Vec<u8>, value: Vec<u8>)
        requires
            old(self).wf(),
        ensures
            final(self).wf(),
            final(self)@ == old(self)@.insert(
                key@,
                EntryModel { value: value@, deadline: Option::None },
            ),
    {
        self.put(key, value, Option::None);
    }

    /// Unconditional upsert with deadline `now + seconds`, stopping at
    /// the top of the scale.
    pub fn set_with_expiry(&mut self, key: Vec<u8>, value: Vec<u8>, seconds: u64, now: u64)
        requires
            old(self).wf(),
        ensures
            final(self).wf(),
            final(self)@ == old(self)@.insert(
                key@,
                EntryModel { value: value@, deadline: Option::Some(sat_add(now, seconds)) },
            ),
    {
        let deadline: u64 = if seconds > u64::MAX - now {
            u64::MAX
        } else {
            now + seconds
        };
        self.put(key, value, Option::Some(deadline));
    }

    /// Replaces whatever sits under `key` with the given slot.
    fn put(&mut self, key: Vec<u8>, value: Vec<u8>, deadline: Option<u64>)
        requires
            old(self).wf(),
        ensures
            final(self).wf(),
            final(self)@ == old(self)@.insert(key@, EntryModel { value: value@, deadline }),
    {
        proof {
            lemma_slots_map_props(self.entries@);
        }
        match self.find_idx(&key) {
            Option::Some(i) => {
                proof {
                    lemma_slots_map_remove(self.entries@, i as int);
                }
                let _ = self.entries.remove(i);
            },
            Option::None => {
                proof {
                    assert(self@.remove(key@) =~= self@);
                }
            },
        }
        proof {
            lemma_slots_map_props(self.entries@);
            assert(!self@.contains_key(key@));
        }
        let ghost mid = self.entries@;
        self.entries.push(Slot { key, value, deadline });
        proof {
            assert(self.entries@.drop_last() =~= mid);
            assert(final(self)@ =~= old(self)@.insert(
                key@,
                EntryModel { value: value@, deadline },
            ));
            lemma_slots_map_props(mid);
            assert(uniq_keys(self.entries@));
        }
    }

    /// Removes `key` if present; idempotent.
    pub fn del(&mut self, key: &Vec<u8>)
        requires
            old(self).wf(),
        ensures
            final(self).wf(),
            final(self)@ == old(self)@.remove(key@),
    {
        match self.find_idx(key) {
            Option::Some(i) => {
                proof {
                    lemma_slots_map_remove(self.entries@, i as int);
                }
                let _ = self.entries.remove(i);
            },
            Option::None => {
                proof {
                    assert(self@.remove(key@) =~= self@);
                }
            },
        }
    }

    /// Gives a live key the deadline `now + seconds` and reports success;
    /// on a missing or expired key, changes nothing and reports failure.
    pub fn expire(&mut self, key: &Vec<u8>, seconds: u64, now: u64) -> (r: bool)
        requires
            old(self).wf(),
        ensures
            final(self).wf(),
            r == live(old(self)@, key@, now),
            r ==> final(self)@ == old(self)@.insert(
                key@,
                EntryModel {
                    value: old(self)@[key@].value,
                    deadline: Option::Some(sat_add(now, seconds)),
                },
            ),
            !r ==> final(self)@ == old(self)@,
    {
        match self.find_idx(key) {
            Option::None => false,
            Option::Some(i) => {
                let slot = &self.entries[i];
                let dead = match slot.deadline {
                    Option::Some(d) => now >= d,
                    Option::None => false,
                };
                if dead {
                    return false;
                }
                proof {
                    lemma_slots_map_remove(self.entries@, i as int);
                }
                let taken = self.entries.remove(i);
                proof {
                    lemma_slots_map_props(self.entries@);
                    assert(!self@.contains_key(taken.key@));
                }
                let deadline: u64 = if seconds > u64::MAX - now {
                    u64::MAX
                } else {
                    now + seconds
                };
                let ghost mid = self.entries@;
                self.entries.push(
                    Slot { key: taken.key, value: taken.value, deadline: Option::Some(deadline) },
                );
                proof {
                    assert(self.entries@.drop_last() =~= mid);
                    lemma_slots_map_props(mid);
                    assert(uniq_keys(self.entries@));
                    assert(final(self)@ =~= old(self)@.insert(
                        key@,
                        EntryModel {
                            value: old(self)@[key@].value,
                            deadline: Option::Some(sat_add(now, seconds)),
                        },
                    ));
                }
                true
            },
        }
    }

    /// Clears the deadline of a live key that has one and reports
    /// success; on a key that is missing, expired, or without a
    /// deadline, changes nothing and reports failure. An expired entry
    /// is a miss here as on every other access.
    pub fn persist(&mut self, key: &Vec<u8>, now: u64) -> (r: bool)
        requires
            old(self).wf(),
        ensures
            final(self).wf(),
            r == (live(old(self)@, key@, now) && old(self)@[key@].deadline is Some),
            r ==> final(self)@ == old(self)@.insert(
                key@,
                EntryModel { value: old(self)@[key@].value, deadline: Option::None },
            ),
            !r ==> final(self)@ == old(self)@,
    {
        match self.find_idx(key) {
            Option::None => false,
            Option::Some(i) => {
                let slot = &self.entries[i];
                let miss = match slot.deadline {
                    Option::Some(d) => now >= d,
                    Option::None => true,
                };
                if miss {
                    return false;
                }
                proof {
                    lemma_slots_map_remove(self.entries@, i as int);
                }
                let taken = self.entries.remove(i);
                proof {
                    lemma_slots_map_props(self.entries@);
                    assert(!self@.contains_key(taken.key@));
                }
                let ghost mid = self.entries@;
                self.entries.push(
                    Slot { key: taken.key, value: taken.value, deadline: Option::None },
                );
                proof {
                    assert(self.entries@.drop_last() =~= mid);
                    lemma_slots_map_props(mid);
                    assert(uniq_keys(self.entries@));
                    assert(final(self)@ =~= old(self)@.insert(
                        key@,
                        EntryModel { value: old(self)@[key@].value, deadline: Option::None },
                    ));
                }
                true
            },
        }
    }

    /// The whole seconds left until `key`'s deadline when it is live and
    /// has one; the no-expiry answer when live without one; the absent
    /// answer when the key is missing or expired.
    pub fn ttl(&self, key: &Vec<u8>, now: u64) -> (r: TtlResult)
        requires
            self.wf(),
        ensures
            match r {
                TtlResult::Remaining(s) => live(self@, key@, now) && now + s <= u64::MAX
                    && self@[key@].deadline == Option::Some((now + s) as u64) && s > 0,
                TtlResult::NoExpiry => live(self@, key@, now) && self@[key@].deadline is None,
                TtlResult::Absent => !live(self@, key@, now),
            },
    {
        match self.find_idx(key) {
            Option::None => TtlResult::Absent,
            Option::Some(i) => {
                let slot = &self.entries[i];
                match slot.deadline {
                    Option::None => TtlResult::NoExpiry,
                    Option::Some(d) => {
                        if now < d {
                            TtlResult::Remaining(d - now)
                        } else {
                            TtlResult::Absent
                        }
                    },
                }
            },
        }
    }

    /// Whether `key` is live at `now`; an expired entry counts as absent.
    pub fn key_exists(&self, key: &Vec<u8>, now: u64) -> (r: bool)
        requires
            self.wf(),
        ensures
            r == live(self@, key@, now),
    {
        match self.find_idx(key) {
            Option::None => false,
            Option::Some(i) => {
                match self.entries[i].deadline {
                    Option::Some(d) => now < d,
                    Option::None => true,
                }
            },
        }
    }

    /// A snapshot of every live key at `now`, each exactly once, in no
    /// promised order.
    #[verifier::loop_isolation(false)]
    pub fn keys(&self, now: u64) -> (r: Vec<Vec<u8>>)
        requires
            self.wf(),
        ensures
            forall|t: int| 0 <= t < r@.len() ==> live(self@, (#[trigger] r@[t])@, now),
            forall|k: Seq<u8>|
                live(self@, k, now) ==> exists|t: int| 0 <= t < r@.len() && (#[trigger] r@[t])@
                    == k,
            forall|t1: int, t2: int|
                0 <= t1 < t2 < r@.len() ==> (#[trigger] r@[t1])@ != (#[trigger] r@[t2])@,
    {
        proof {
            lemma_slots_map_props(self.entries@);
        }
        let mut out: Vec<Vec<u8>> = Vec::new();
        let mut i: usize = 0;
        while i < self.entries.len()
            invariant
                i <= self.entries@.len(),
                forall|t: int| 0 <= t < out@.len() ==> live(self@, (#[trigger] out@[t])@, now),
                forall|u: int|
                    0 <= u < i && live(self@, (#[trigger] self.entries@[u].key)@, now)
                        ==> exists|t: int|
                        0 <= t < out@.len() && (#[trigger] out@[t])@ == self.entries@[u].key@,
                forall|t: int|
                    0 <= t < out@.len() ==> exists|u: int|
                        0 <= u < i && (#[trigger] out@[t])@ == self.entries@[u].key@,
                forall|t1: int, t2: int|
                    0 <= t1 < t2 < out@.len() ==> (#[trigger] out@[t1])@ != (#[trigger] out@[t2])@,
            decreases self.entries@.len() - i,
        {
            let slot = &self.entries[i];
            let keep = match slot.deadline {
                Option::Some(d) => now < d,
                Option::None => true,
            };
            proof {
                assert(self@.contains_key(self.entries@[i as int].key@));
                assert(self@[self.entries@[i as int].key@] == slot_model(
                    self.entries@[i as int],
                ));
            }
            if keep {
                let ghost prev = out@;
                out.push(dup_key(&slot.key));
                proof {
                    assert((out@[prev.len() as int])@ == self.entries@[i as int].key@);
                    assert forall|t1: int, t2: int| 0 <= t1 < t2 < out@.len() implies (
                    out@[t1])@ != (out@[t2])@ by {
                        if t2 == prev.len() {
                            let u = choose|u: int|
                                0 <= u < i && (#[trigger] prev[t1])@ == self.entries@[u].key@;
                            assert(self.entries@[u].key@ != self.entries@[i as int].key@);
                        }
                    }
                    assert forall|u: int|
                        0 <= u < i + 1 && live(
                            self@,
                            (#[trigger] self.entries@[u].key)@,
                            now,
                        ) implies exists|t: int|
                        0 <= t < out@.len() && (#[trigger] out@[t])@ == self.entries@[u].key@ by {
                        if u == i as int {
                            assert((out@[prev.len() as int])@ == self.entries@[u].key@);
                        } else {
                            let t0 = choose|t: int|
                                0 <= t < prev.len() && (#[trigger] prev[t])@
                                    == self.entries@[u].key@;
                            assert((out@[t0])@ == self.entries@[u].key@);
                        }
                    }
                }
            } else {
                proof {
                    assert(!live(self@, (self.entries@[i as int].key)@, now));
                }
            }
            i = i + 1;
        }
        out
    }

    /// Removes every entry.
    pub fn flush(&mut self)
        ensures
            final(self).wf(),
            final(self)@ == Map::<Seq<u8>, EntryModel>::empty(),
    {
        self.entries = Vec::new();
    }
}

/// The three answers a deadline query can give.
#[derive(Debug, PartialEq, Eq, Clone, Copy)]
pub enum TtlResult {
    Remaining(u64),
    NoExpiry,
    Absent,
}

/// A value set with an expiry of `seconds` at `now` stays visible, with
/// a positive remaining time of at most `seconds`, at any instant
/// strictly before its deadline; from the deadline on, the key is
/// absent for every reading operation.
pub proof fn lemma_ttl_monotonic(
    s0: Map<Seq<u8>, EntryModel>,
    k: Seq<u8>,
    v: Seq<u8>,
    seconds: u64,
    now: u64,
    later: u64,
)
    requires
        now + seconds <= u64::MAX,
    ensures
        ({
            let s1 = s0.insert(
                k,
                EntryModel { value: v, deadline: Option::Some(sat_add(now, seconds)) },
            );
            &&& now <= later < now + seconds ==> live(s1, k, later) && 0 < now + seconds - later
                <= seconds
            &&& later >= now + seconds ==> !live(s1, k, later)
        }),
{
}

/// Clearing a key's deadline leaves it visible at every instant, with
/// no expiry left to report.
pub proof fn lemma_persist_clears_deadline(s0: Map<Seq<u8>, EntryModel>, k: Seq<u8>, now: u64)
    requires
        s0.contains_key(k),
    ensures
        ({
            let s1 = s0.insert(k, EntryModel { value: s0[k].value, deadline: Option::None });
            live(s1, k, now) && s1[k].deadline is None && s1[k].value == s0[k].value
        }),
{
}

/// A removed key misses at every later read, whatever the prior state.
pub proof fn lemma_del_then_miss(s0: Map<Seq<u8>, EntryModel>, k: Seq<u8>, now: u64)
    ensures
        !live(s0.remove(k), k, now),
{
}

/// Writing one key never disturbs another: what interleaved connections
/// on disjoint keys observe is what each would observe alone.
pub proof fn lemma_disjoint_keys_independent(
    s0: Map<Seq<u8>, EntryModel>,
    k1: Seq<u8>,
    e: EntryModel,
    k2: Seq<u8>,
    now: u64,
)
    requires
        k1 != k2,
    ensures
        live(s0.insert(k1, e), k2, now) == live(s0, k2, now),
        s0.insert(k1, e).contains_key(k2) ==> s0.insert(k1, e)[k2] == s0[k2],
        live(s0.remove(k1), k2, now) == live(s0, k2, now),
{
}

/// Byte-wise equality of two keys.
fn bytes_eq(a: &Vec<u8>, b: &Vec<u8>) -> (r: bool)
    ensures
        r == (a@ == b@),
{
    if a.len() != b.len() {
        assert(a@ != b@);
        return false;
    }
    let mut i: usize = 0;
    while i < a.len()
        invariant
            i <= a@.len(),
            a@.len() == b@.len(),
            forall|t: int| 0 <= t < i ==> a@[t] == b@[t],
        decreases a@.len() - i,
    {
        if a[i] != b[i] {
            return false;
        }
        i = i + 1;
    }
    proof {
        assert(a@ =~= b@);
    }
    true
}

/// Copies a key or value.
fn dup_key(v: &Vec<u8>) -> (r: Vec<u8>)
    ensures
        r@ == v@,
{
    let mut out: Vec<u8> = Vec::new();
    let mut i: usize = 0;
    while i < v.len()
        invariant
            i <= v@.len(),
            out@ == v@.take(i as int),
        decreases v@.len() - i,
    {
        out.push(v[i]);
        assert(v@.take(i as int).push(v@[i as int]) =~= v@.take(i as int + 1));
        i = i + 1;
    }
    assert(v@.take(v@.len() as int) =~= v@);
    out
}

} // verus!
