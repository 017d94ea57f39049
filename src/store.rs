use vstd::prelude::*;

verus! {

/// One key and what it holds. `generation` tells this write apart from earlier writes of the key.
pub struct StoreEntry {
    pub key: String,
    pub value: String,
    pub expires_at: Option<u64>,
    pub generation: u64,
}

/// What the store holds for a key.
pub struct EntryView {
    pub value: Seq<char>,
    pub expires_at: Option<u64>,
    pub generation: u64,
}

pub struct StoreView {
    pub entries: Map<Seq<char>, EntryView>,
    /// The generation that the next write gets.
    pub next_generation: u64,
}

impl StoreEntry {
    pub open spec fn view(&self) -> EntryView {
        EntryView { value: self.value@, expires_at: self.expires_at, generation: self.generation }
    }
}

/// A deletion to carry out later: after `delay_ms`, `key` goes if it still holds the write of
/// `generation`.
pub struct ExpiryTicket {
    pub key: String,
    pub generation: u64,
    pub delay_ms: u64,
}

/// The keys of a sequence of entries, as a map to what each holds.
pub open spec fn entries_map(s: Seq<StoreEntry>) -> Map<Seq<char>, EntryView> {
    Map::new(
        |k: Seq<char>| exists|i: int| 0 <= i < s.len() && s[i].key@ == k,
        |k: Seq<char>| s[choose|i: int| 0 <= i < s.len() && s[i].key@ == k].view(),
    )
}

pub open spec fn keys_unique(s: Seq<StoreEntry>) -> bool {
    forall|i: int, j: int|
        0 <= i < s.len() && 0 <= j < s.len() && i != j ==> #[trigger] s[i].key@ != #[trigger] s[j].key@
}

/// Whether an entry is still readable at time `now`.
pub open spec fn live(e: EntryView, now: u64) -> bool {
    match e.expires_at {
        None => true,
        Some(t) => now < t,
    }
}

/// What `get` returns.
pub open spec fn spec_get(s: StoreView, k: Seq<char>, now: u64) -> Option<Seq<char>> {
    if s.entries.contains_key(k) && live(s.entries[k], now) {
        Some(s.entries[k].value)
    } else {
        None
    }
}

/// A write: `k` holds `v` with no expiry, under the next generation.
pub open spec fn spec_set(s: StoreView, k: Seq<char>, v: Seq<char>) -> StoreView {
    StoreView {
        entries: s.entries.insert(
            k,
            EntryView { value: v, expires_at: None, generation: s.next_generation },
        ),
        next_generation: s.next_generation.wrapping_add(1),
    }
}

/// The instant `d` after `now`; none when it lies past what a `u64` holds.
pub open spec fn deadline(now: u64, d: u64) -> Option<u64> {
    if now + d <= u64::MAX {
        Some((now + d) as u64)
    } else {
        None
    }
}

/// A write that expires `d` after `now`.
pub open spec fn spec_set_with_expire(s: StoreView, k: Seq<char>, v: Seq<char>, d: u64, now: u64) -> StoreView {
    StoreView {
        entries: s.entries.insert(
            k,
            EntryView { value: v, expires_at: deadline(now, d), generation: s.next_generation },
        ),
        next_generation: s.next_generation.wrapping_add(1),
    }
}

/// A delayed deletion: `k` goes only if it still holds the write of generation `g`.
pub open spec fn spec_expire(s: StoreView, k: Seq<char>, g: u64) -> StoreView {
    if s.entries.contains_key(k) && s.entries[k].generation == g {
        StoreView { entries: s.entries.remove(k), ..s }
    } else {
        s
    }
}

/// The writes of a sequence of pairs, in order.
pub open spec fn spec_set_all(s: StoreView, kvs: Seq<(Seq<char>, Seq<char>)>) -> StoreView
    decreases kvs.len(),
{
    if kvs.len() == 0 {
        s
    } else {
        let last = kvs.last();
        spec_set(spec_set_all(s, kvs.drop_last()), last.0, last.1)
    }
}

/// Arms an expiry on the entry of `k`, if there is one, keeping its value and generation.
pub open spec fn spec_arm(s: StoreView, k: Seq<char>, d: u64, now: u64) -> StoreView {
    if s.entries.contains_key(k) {
        StoreView {
            entries: s.entries.insert(k, EntryView { expires_at: deadline(now, d), ..s.entries[k] }),
            ..s
        }
    } else {
        s
    }
}

/// The expiries of a sequence of key/duration pairs, armed in order.
pub open spec fn spec_arm_all(s: StoreView, kds: Seq<(Seq<char>, u64)>, now: u64) -> StoreView
    decreases kds.len(),
{
    if kds.len() == 0 {
        s
    } else {
        let last = kds.last();
        spec_arm(spec_arm_all(s, kds.drop_last(), now), last.0, last.1, now)
    }
}

/// The deletions that arming a sequence of expiries calls for: key, generation and delay, one
/// for each pair whose key is present.
pub open spec fn spec_arm_tickets(s: StoreView, kds: Seq<(Seq<char>, u64)>, now: u64) -> Seq<
    (Seq<char>, u64, u64),
>
    decreases kds.len(),
{
    if kds.len() == 0 {
        Seq::empty()
    } else {
        let last = kds.last();
        let before = spec_arm_all(s, kds.drop_last(), now);
        let rest = spec_arm_tickets(s, kds.drop_last(), now);
        if before.entries.contains_key(last.0) {
            rest.push((last.0, before.entries[last.0].generation, last.1))
        } else {
            rest
        }
    }
}

impl ExpiryTicket {
    pub open spec fn view(&self) -> (Seq<char>, u64, u64) {
        (self.key@, self.generation, self.delay_ms)
    }
}

pub open spec fn pairs_view(kvs: Seq<(String, String)>) -> Seq<(Seq<char>, Seq<char>)> {
    kvs.map_values(|p: (String, String)| (p.0@, p.1@))
}

pub open spec fn durations_view(kds: Seq<(String, u64)>) -> Seq<(Seq<char>, u64)> {
    kds.map_values(|p: (String, u64)| (p.0@, p.1))
}

/// The last value written to `k` in a sequence of writes.
pub open spec fn last_write(kvs: Seq<(Seq<char>, Seq<char>)>, k: Seq<char>) -> Option<Seq<char>>
    decreases kvs.len(),
{
    if kvs.len() == 0 {
        None
    } else if kvs.last().0 == k {
        Some(kvs.last().1)
    } else {
        last_write(kvs.drop_last(), k)
    }
}

/// Last write wins: after a sequence of writes with no expiry, a key reads as the last value
/// written to it, or as it read before when none was.
pub proof fn lemma_last_write_wins(
    s: StoreView,
    kvs: Seq<(Seq<char>, Seq<char>)>,
    k: Seq<char>,
    now: u64,
)
    ensures
        spec_get(spec_set_all(s, kvs), k, now) == match last_write(kvs, k) {
            Some(v) => Some(v),
            None => spec_get(s, k, now),
        },
    decreases kvs.len(),
{
    if kvs.len() > 0 {
        lemma_last_write_wins(s, kvs.drop_last(), k, now);
    }
}

/// A write with a time to live `d` reads back before `now + d` and not from then on; the
/// deletion that it arms, under the generation it took, removes it.
pub proof fn lemma_expiry(s: StoreView, k: Seq<char>, v: Seq<char>, d: u64, now: u64, t: u64)
    ensures
        t < now + d ==> spec_get(spec_set_with_expire(s, k, v, d, now), k, t) == Some(v),
        t >= now + d ==> spec_get(spec_set_with_expire(s, k, v, d, now), k, t) is None,
        spec_get(
            spec_expire(spec_set_with_expire(s, k, v, d, now), k, s.next_generation),
            k,
            t,
        ) is None,
{
}

/// A deletion armed by a write with a time to live leaves alone a later write of the same key.
pub proof fn lemma_stale_expiry_ignored(
    s: StoreView,
    k: Seq<char>,
    v1: Seq<char>,
    v2: Seq<char>,
    d: u64,
    now: u64,
    t: u64,
)
    ensures
        spec_get(
            spec_expire(
                spec_set(spec_set_with_expire(s, k, v1, d, now), k, v2),
                k,
                s.next_generation,
            ),
            k,
            t,
        ) == Some(v2),
{
    let s1 = spec_set_with_expire(s, k, v1, d, now);
    let s2 = spec_set(s1, k, v2);
    assert(s2.entries[k].generation == s.next_generation.wrapping_add(1));
    assert(s.next_generation.wrapping_add(1) != s.next_generation);
}

/// The keys that can be read at time `now`.
pub open spec fn live_keys(s: StoreView, now: u64) -> Set<Seq<char>> {
    Set::new(|k: Seq<char>| s.entries.contains_key(k) && live(s.entries[k], now))
}

/// The keys of the entries that can be read at time `now`, in the order of the entries.
pub open spec fn live_key_seq(s: Seq<StoreEntry>, now: u64) -> Seq<Seq<char>>
    decreases s.len(),
{
    if s.len() == 0 {
        Seq::empty()
    } else {
        let r = live_key_seq(s.drop_last(), now);
        if live(s.last().view(), now) {
            r.push(s.last().key@)
        } else {
            r
        }
    }
}

proof fn lemma_live_key_seq(s: Seq<StoreEntry>, now: u64)
    ensures
        forall|k: Seq<char>|
            #[trigger] live_key_seq(s, now).contains(k) <==> exists|j: int|
                0 <= j < s.len() && s[j].key@ == k && live(s[j].view(), now),
        keys_unique(s) ==> live_key_seq(s, now).no_duplicates(),
    decreases s.len(),
{
    if s.len() > 0 {
        let t = s.drop_last();
        lemma_live_key_seq(t, now);
        let r = live_key_seq(t, now);
        assert forall|k: Seq<char>| #[trigger] live_key_seq(s, now).contains(k) <==> exists|j: int|
            0 <= j < s.len() && s[j].key@ == k && live(s[j].view(), now) by {
            if live_key_seq(s, now).contains(k) {
                if r.contains(k) {
                    let j = choose|j: int| 0 <= j < t.len() && t[j].key@ == k && live(t[j].view(), now);
                    assert(s[j] == t[j]);
                } else {
                    assert(s[s.len() - 1].key@ == k);
                }
            }
            if exists|j: int| 0 <= j < s.len() && s[j].key@ == k && live(s[j].view(), now) {
                let j = choose|j: int| 0 <= j < s.len() && s[j].key@ == k && live(s[j].view(), now);
                if j < t.len() {
                    assert(t[j] == s[j]);
                    assert(r.contains(k));
                    assert(live_key_seq(s, now).contains(k)) by {
                        let a = choose|a: int| 0 <= a < r.len() && r[a] == k;
                        assert(live_key_seq(s, now)[a] == k);
                    }
                } else {
                    assert(live_key_seq(s, now)[live_key_seq(s, now).len() - 1] == k);
                }
            }
        }
        if keys_unique(s) {
            assert(keys_unique(t)) by {
                assert forall|a: int, b: int|
                    0 <= a < t.len() && 0 <= b < t.len() && a != b implies #[trigger] t[a].key@
                    != #[trigger] t[b].key@ by {
                    assert(t[a] == s[a] && t[b] == s[b]);
                }
            }
            if live(s.last().view(), now) {
                assert(!r.contains(s.last().key@)) by {
                    if r.contains(s.last().key@) {
                        let j = choose|j: int|
                            0 <= j < t.len() && t[j].key@ == s.last().key@ && live(t[j].view(), now);
                        assert(t[j] == s[j]);
                    }
                }
                let q = r.push(s.last().key@);
                assert forall|a: int, b: int| 0 <= a < q.len() && 0 <= b < q.len() && a != b implies q[a] != q[b] by {
                    if a < r.len() && b < r.len() {
                        assert(q[a] == r[a] && q[b] == r[b]);
                    } else if a < r.len() {
                        assert(q[a] == r[a]);
                        assert(r.contains(q[a]));
                    } else {
                        assert(q[b] == r[b]);
                        assert(r.contains(q[b]));
                    }
                }
            }
        }
    }
}

/// The key/value store. Each key stands in at most one entry.
pub struct Store {
    entries: Vec<StoreEntry>,
    next_generation: u64,
}

proof fn lemma_map_at(s: Seq<StoreEntry>, i: int)
    requires
        keys_unique(s),
        0 <= i < s.len(),
    ensures
        entries_map(s).contains_key(s[i].key@),
        entries_map(s)[s[i].key@] == s[i].view(),
{
    let k = s[i].key@;
    assert(exists|j: int| 0 <= j < s.len() && s[j].key@ == k);
    let j = choose|j: int| 0 <= j < s.len() && s[j].key@ == k;
    assert(i == j);
}

proof fn lemma_map_all(s: Seq<StoreEntry>)
    requires
        keys_unique(s),
    ensures
        forall|i: int|
            0 <= i < s.len() ==> #[trigger] entries_map(s).contains_key(s[i].key@) && entries_map(
                s,
            )[s[i].key@] == s[i].view(),
        forall|k: Seq<char>|
            #[trigger] entries_map(s).contains_key(k) ==> exists|i: int|
                0 <= i < s.len() && s[i].key@ == k,
{
    assert forall|i: int| 0 <= i < s.len() implies #[trigger] entries_map(s).contains_key(s[i].key@)
        && entries_map(s)[s[i].key@] == s[i].view() by {
        lemma_map_at(s, i);
    }
}

impl Store {
    pub closed spec fn view(&self) -> StoreView {
        StoreView { entries: entries_map(self.entries@), next_generation: self.next_generation }
    }

    pub closed spec fn wf(&self) -> bool {
        keys_unique(self.entries@)
    }

    pub fn new() -> (r: Store)
        ensures
            r.wf(),
            r@.entries == Map::<Seq<char>, EntryView>::empty(),
    {
        let r = Store { entries: Vec::new(), next_generation: 0 };
        assert(r@.entries =~= Map::<Seq<char>, EntryView>::empty());
        r
    }

    /// The position of the entry of `key`.
    fn find(&self, key: &String) -> (r: Option<usize>)
        requires
            self.wf(),
        ensures
            match r {
                Some(i) => i < self.entries@.len() && self.entries@[i as int].key@ == key@,
                None => !self@.entries.contains_key(key@),
            },
    {
        let mut i: usize = 0;
        while i < self.entries.len()
            invariant
                i <= self.entries@.len(),
                forall|j: int| 0 <= j < i ==> self.entries@[j].key@ != key@,
            decreases self.entries.len() - i,
        {
            if self.entries[i].key == *key {
                return Some(i);
            }
            i = i + 1;
        }
        None
    }

    /// Puts `entry` in the place of the entry of its key, or adds it.
    fn put(&mut self, entry: StoreEntry)
        requires
            old(self).wf(),
        ensures
            final(self).wf(),
            final(self)@.entries == old(self)@.entries.insert(entry.key@, entry.view()),
            final(self).next_generation == old(self).next_generation,
    {
        let ghost s = self.entries@;
        let ghost k = entry.key@;
        let ghost m = entries_map(s);
        match self.find(&entry.key) {
            Some(i) => {
                self.entries.set(i, entry);
                proof {
                    let t = self.entries@;
                    assert(keys_unique(t)) by {
                        assert(forall|j: int| 0 <= j < t.len() ==> #[trigger] t[j].key@ == s[j].key@);
                    }
                    lemma_map_all(s);
                    lemma_map_all(t);
                    assert(entries_map(t) =~= m.insert(k, t[i as int].view())) by {
                        assert forall|key: Seq<char>| #[trigger]
                            entries_map(t).contains_key(key) implies m.insert(
                            k,
                            t[i as int].view(),
                        ).contains_key(key) by {
                            let j = choose|j: int| 0 <= j < t.len() && t[j].key@ == key;
                            if j != i {
                                assert(s[j].key@ == key);
                            }
                        }
                        assert forall|key: Seq<char>| #[trigger]
                            m.insert(k, t[i as int].view()).contains_key(key) implies entries_map(
                            t,
                        ).contains_key(key) && entries_map(t)[key] == m.insert(
                            k,
                            t[i as int].view(),
                        )[key] by {
                            if key != k {
                                let j = choose|j: int| 0 <= j < s.len() && s[j].key@ == key;
                                assert(j != i);
                                assert(t[j] == s[j]);
                            }
                        }
                    }
                }
            },
            None => {
                self.entries.push(entry);
                proof {
                    let t = self.entries@;
                    lemma_map_all(s);
                    assert(forall|j: int| 0 <= j < s.len() ==> #[trigger] t[j] == s[j]);
                    assert(keys_unique(t)) by {
                        assert forall|a: int, b: int|
                            0 <= a < t.len() && 0 <= b < t.len() && a != b implies #[trigger] t[a].key@
                            != #[trigger] t[b].key@ by {
                            if a == s.len() {
                                assert(m.contains_key(t[b].key@));
                            } else if b == s.len() {
                                assert(m.contains_key(t[a].key@));
                            }
                        }
                    }
                    lemma_map_all(t);
                    assert(entries_map(t) =~= m.insert(k, t[s.len() as int].view())) by {
                        assert forall|key: Seq<char>| #[trigger]
                            entries_map(t).contains_key(key) implies m.insert(
                            k,
                            t[s.len() as int].view(),
                        ).contains_key(key) by {
                            let j = choose|j: int| 0 <= j < t.len() && t[j].key@ == key;
                            if j < s.len() {
                                assert(s[j].key@ == key);
                            }
                        }
                        assert forall|key: Seq<char>| #[trigger]
                            m.insert(k, t[s.len() as int].view()).contains_key(key) implies entries_map(
                            t,
                        ).contains_key(key) && entries_map(t)[key] == m.insert(
                            k,
                            t[s.len() as int].view(),
                        )[key] by {
                            if key != k {
                                let j = choose|j: int| 0 <= j < s.len() && s[j].key@ == key;
                                assert(t[j] == s[j]);
                            }
                        }
                    }
                }
            },
        }
    }
}

impl Store {
    /// Writes `val` under `key`, with no expiry; a deletion armed by an earlier write of the key
    /// no longer matches.
    pub fn set(&mut self, key: String, val: String)
        requires
            old(self).wf(),
        ensures
            final(self).wf(),
            final(self)@ == spec_set(old(self)@, key@, val@),
    {
        let generation = self.next_generation;
        self.put(StoreEntry { key, value: val, expires_at: None, generation });
        self.next_generation = generation.wrapping_add(1);
    }

    /// Writes `val` under `key`, to expire `expire_ms` after `now_ms`. The ticket names the
    /// deletion to carry out once that time has passed.
    pub fn set_with_expire(&mut self, key: String, val: String, expire_ms: u64, now_ms: u64) -> (r:
        ExpiryTicket)
        requires
            old(self).wf(),
        ensures
            final(self).wf(),
            final(self)@ == spec_set_with_expire(old(self)@, key@, val@, expire_ms, now_ms),
            r.key@ == key@,
            r.generation == old(self)@.next_generation,
            r.delay_ms == expire_ms,
    {
        let generation = self.next_generation;
        let expires_at = if now_ms <= u64::MAX - expire_ms {
            Some(now_ms + expire_ms)
        } else {
            None
        };
        let ticket = ExpiryTicket { key: key.clone(), generation, delay_ms: expire_ms };
        self.put(StoreEntry { key, value: val, expires_at, generation });
        self.next_generation = generation.wrapping_add(1);
        ticket
    }

    /// The value of `key` at time `now_ms`, unless it is absent or expired.
    pub fn get(&self, key: &String, now_ms: u64) -> (r: Option<String>)
        requires
            self.wf(),
        ensures
            match r {
                Some(v) => spec_get(self@, key@, now_ms) == Some(v@),
                None => spec_get(self@, key@, now_ms) is None,
            },
    {
        match self.find(key) {
            Some(i) => {
                proof {
                    lemma_map_at(self.entries@, i as int);
                }
                let e = &self.entries[i];
                let alive = match e.expires_at {
                    None => true,
                    Some(t) => now_ms < t,
                };
                if alive {
                    Some(e.value.clone())
                } else {
                    None
                }
            },
            None => None,
        }
    }

    /// Carries out a delayed deletion: `key` goes only if it still holds the write of
    /// `generation`. Tells whether it went.
    pub fn expire(&mut self, key: &String, generation: u64) -> (r: bool)
        requires
            old(self).wf(),
        ensures
            final(self).wf(),
            final(self)@ == spec_expire(old(self)@, key@, generation),
            r == (old(self)@.entries.contains_key(key@) && old(self)@.entries[key@].generation
                == generation),
    {
        let ghost s = self.entries@;
        let ghost m = entries_map(s);
        match self.find(key) {
            Some(i) => {
                proof {
                    lemma_map_at(s, i as int);
                }
                if self.entries[i].generation != generation {
                    return false;
                }
                self.entries.remove(i);
                proof {
                    let t = self.entries@;
                    let k = key@;
                    assert(forall|j: int| 0 <= j < i ==> #[trigger] t[j] == s[j]);
                    assert(forall|j: int| i <= j < t.len() ==> #[trigger] t[j] == s[j + 1]);
                    assert(keys_unique(t)) by {
                        assert forall|a: int, b: int|
                            0 <= a < t.len() && 0 <= b < t.len() && a != b implies #[trigger] t[a].key@
                            != #[trigger] t[b].key@ by {
                            let a1 = if a < i {
                                a
                            } else {
                                a + 1
                            };
                            let b1 = if b < i {
                                b
                            } else {
                                b + 1
                            };
                            assert(t[a] == s[a1] && t[b] == s[b1]);
                        }
                    }
                    lemma_map_all(s);
                    lemma_map_all(t);
                    assert(entries_map(t) =~= m.remove(k)) by {
                        assert forall|key2: Seq<char>| #[trigger]
                            entries_map(t).contains_key(key2) implies m.remove(k).contains_key(key2)
                            && entries_map(t)[key2] == m.remove(k)[key2] by {
                            let j = choose|j: int| 0 <= j < t.len() && t[j].key@ == key2;
                            let j1 = if j < i {
                                j
                            } else {
                                j + 1
                            };
                            assert(t[j] == s[j1]);
                            assert(j1 != i);
                        }
                        assert forall|key2: Seq<char>| #[trigger]
                            m.remove(k).contains_key(key2) implies entries_map(t).contains_key(key2) by {
                            let j = choose|j: int| 0 <= j < s.len() && s[j].key@ == key2;
                            assert(j != i);
                            if j < i {
                                assert(t[j] == s[j]);
                            } else {
                                assert(t[j - 1] == s[j]);
                            }
                        }
                    }
                }
                true
            },
            None => false,
        }
    }

    /// The keys that can be read at time `now_ms`; `*` is the one pattern there is.
    pub fn get_matching_keys(&self, pattern: String, now_ms: u64) -> (r: Vec<String>)
        requires
            self.wf(),
            pattern@ == "*"@,
        ensures
            r@.map_values(|k: String| k@).no_duplicates(),
            r@.map_values(|k: String| k@).to_set() == live_keys(self@, now_ms),
    {
        let ghost s = self.entries@;
        let mut out: Vec<String> = Vec::new();
        let mut i: usize = 0;
        assert(s.subrange(0, 0) =~= Seq::<StoreEntry>::empty());
        assert(out@.map_values(|k: String| k@) =~= Seq::<Seq<char>>::empty());
        while i < self.entries.len()
            invariant
                i <= s.len(),
                s == self.entries@,
                out@.map_values(|k: String| k@) == live_key_seq(s.subrange(0, i as int), now_ms),
            decreases s.len() - i,
        {
            let ghost before = out@;
            let e = &self.entries[i];
            let alive = match e.expires_at {
                None => true,
                Some(t) => now_ms < t,
            };
            if alive {
                out.push(e.key.clone());
                assert(out@.map_values(|k: String| k@) =~= before.map_values(|k: String| k@).push(
                    s[i as int].key@,
                ));
            }
            assert(s.subrange(0, i + 1).drop_last() =~= s.subrange(0, i as int));
            i = i + 1;
        }
        assert(s.subrange(0, s.len() as int) =~= s);
        proof {
            lemma_live_key_seq(s, now_ms);
            lemma_map_all(s);
            let ks = out@.map_values(|k: String| k@);
            assert(ks.to_set() =~= live_keys(self@, now_ms)) by {
                assert forall|k: Seq<char>| live_keys(self@, now_ms).contains(k) implies ks.to_set().contains(k) by {
                    let j = choose|j: int| 0 <= j < s.len() && s[j].key@ == k;
                    lemma_map_at(s, j);
                }
                assert forall|k: Seq<char>| ks.to_set().contains(k) implies live_keys(self@, now_ms).contains(k) by {
                    let j = choose|j: int| 0 <= j < s.len() && s[j].key@ == k && live(s[j].view(), now_ms);
                    lemma_map_at(s, j);
                }
            }
        }
        out
    }
}

impl Store {
    /// Writes each pair in order, as `set` does.
    pub fn add_multiple_keys(&mut self, map: Vec<(String, String)>)
        requires
            old(self).wf(),
        ensures
            final(self).wf(),
            final(self)@ == spec_set_all(old(self)@, pairs_view(map@)),
    {
        let ghost kvs = pairs_view(map@);
        let mut i: usize = 0;
        assert(kvs.subrange(0, 0) =~= Seq::<(Seq<char>, Seq<char>)>::empty());
        while i < map.len()
            invariant
                i <= map.len(),
                kvs == pairs_view(map@),
                self.wf(),
                self@ == spec_set_all(old(self)@, kvs.subrange(0, i as int)),
            decreases map.len() - i,
        {
            let (k, v) = &map[i];
            self.set(k.clone(), v.clone());
            assert(kvs.subrange(0, i + 1).drop_last() =~= kvs.subrange(0, i as int));
            i = i + 1;
        }
        assert(kvs.subrange(0, map.len() as int) =~= kvs);
    }

    /// Arms an expiry `expire_ms` after `now_ms` on the entry of `key`, if there is one.
    fn arm_expiry(&mut self, key: &String, expire_ms: u64, now_ms: u64) -> (r: Option<ExpiryTicket>)
        requires
            old(self).wf(),
        ensures
            final(self).wf(),
            final(self)@ == spec_arm(old(self)@, key@, expire_ms, now_ms),
            match r {
                Some(t) => old(self)@.entries.contains_key(key@) && t@ == (
                    key@,
                    old(self)@.entries[key@].generation,
                    expire_ms,
                ),
                None => !old(self)@.entries.contains_key(key@),
            },
    {
        match self.find(key) {
            Some(i) => {
                proof {
                    lemma_map_at(self.entries@, i as int);
                }
                let e = &self.entries[i];
                let expires_at = if now_ms <= u64::MAX - expire_ms {
                    Some(now_ms + expire_ms)
                } else {
                    None
                };
                let generation = e.generation;
                let entry = StoreEntry {
                    key: e.key.clone(),
                    value: e.value.clone(),
                    expires_at,
                    generation,
                };
                self.put(entry);
                proof {
                    assert(self@ =~= spec_arm(old(self)@, key@, expire_ms, now_ms));
                }
                Some(ExpiryTicket { key: key.clone(), generation, delay_ms: expire_ms })
            },
            None => None,
        }
    }

    /// Arms the expiry of each pair in order, on the keys that are present, and returns the
    /// deletions to carry out later.
    pub fn set_multiple_expires(&mut self, map: Vec<(String, u64)>, now_ms: u64) -> (r: Vec<
        ExpiryTicket,
    >)
        requires
            old(self).wf(),
        ensures
            final(self).wf(),
            final(self)@ == spec_arm_all(old(self)@, durations_view(map@), now_ms),
            r@.map_values(|t: ExpiryTicket| t@) == spec_arm_tickets(
                old(self)@,
                durations_view(map@),
                now_ms,
            ),
    {
        let ghost kds = durations_view(map@);
        let mut tickets: Vec<ExpiryTicket> = Vec::new();
        let mut i: usize = 0;
        assert(kds.subrange(0, 0) =~= Seq::<(Seq<char>, u64)>::empty());
        assert(tickets@.map_values(|t: ExpiryTicket| t@) =~= Seq::<(Seq<char>, u64, u64)>::empty());
        while i < map.len()
            invariant
                i <= map.len(),
                kds == durations_view(map@),
                self.wf(),
                self@ == spec_arm_all(old(self)@, kds.subrange(0, i as int), now_ms),
                tickets@.map_values(|t: ExpiryTicket| t@) == spec_arm_tickets(
                    old(self)@,
                    kds.subrange(0, i as int),
                    now_ms,
                ),
            decreases map.len() - i,
        {
            let (k, d) = &map[i];
            let ghost before = tickets@;
            assert(kds.subrange(0, i + 1).drop_last() =~= kds.subrange(0, i as int));
            match self.arm_expiry(k, *d, now_ms) {
                Some(t) => {
                    tickets.push(t);
                    assert(tickets@.map_values(|t: ExpiryTicket| t@) =~= before.map_values(
                        |t: ExpiryTicket| t@,
                    ).push(tickets@[tickets@.len() - 1]@));
                },
                None => {},
            }
            i = i + 1;
        }
        assert(kds.subrange(0, map.len() as int) =~= kds);
        tickets
    }
}

} // verus!
