//! A byte-bounded LRU cache with hit/miss accounting.
use vstd::prelude::*;
use vstd::utf8::encode_utf8;

verus! {

/// A stored object plus the metadata the edge needs to reason about it.
#[derive(Clone, Debug)]
pub struct Entry {
    pub body: Vec<u8>,
    pub etag: String,
    /// Unix seconds when this entry stops being fresh.
    pub expires_at: u64,
}

/// The mathematical value of an [`Entry`].
pub struct EntryView {
    pub body: Seq<u8>,
    pub etag: Seq<char>,
    pub expires_at: u64,
}

impl View for Entry {
    type V = EntryView;

    open spec fn view(&self) -> EntryView {
        EntryView { body: self.body@, etag: self.etag@, expires_at: self.expires_at }
    }
}

/// The bytes an entry is charged for: its body, the UTF-8 bytes of its tag,
/// and the fixed size of the `Entry` record itself.
pub open spec fn entry_bytes(e: EntryView) -> nat {
    e.body.len() + encode_utf8(e.etag).len() + vstd::layout::size_of::<Entry>()
}

impl Entry {
    /// The number of bytes this entry occupies in a cache.
    ///
    /// The body dominates, but the tag and the record are not free: counting
    /// only bodies lets the process use more memory than the configured
    /// capacity.
    pub fn size(&self) -> (r: usize)
        requires
            entry_bytes(self@) <= usize::MAX,
        ensures
            r == entry_bytes(self@),
    {
        self.body.len() + self.etag.as_str().len() + std::mem::size_of::<Entry>()
    }

    /// A field-by-field copy.
    fn duplicate(&self) -> (r: Entry)
        ensures
            r@ == self@,
    {
        let body = self.body.clone();
        proof {
            assert forall|i: int| 0 <= i < body@.len() implies body@[i] == self.body@[i] by {
                assert(cloned::<u8>(self.body[i], body[i]));
            }
            assert(body@ =~= self.body@);
        }
        Entry { body, etag: self.etag.clone(), expires_at: self.expires_at }
    }
}

/// Counters a cache node exports.
#[derive(Debug, Clone, Copy)]
pub struct Stats {
    pub hits: u64,
    pub misses: u64,
    pub evictions: u64,
    pub revalidations: u64,
    pub bytes_stored: usize,
}

impl Default for Stats {
    fn default() -> (s: Stats)
        ensures
            s == (Stats { hits: 0, misses: 0, evictions: 0, revalidations: 0, bytes_stored: 0 }),
    {
        Stats { hits: 0, misses: 0, evictions: 0, revalidations: 0, bytes_stored: 0 }
    }
}

/// The abstract content of a cache: key and entry pairs, least recently used
/// first, most recently used last.
pub type Slots = Seq<(Seq<char>, EntryView)>;

/// The bytes charged for all the entries of `s`.
pub open spec fn total_bytes(s: Slots) -> nat
    decreases s.len(),
{
    if s.len() == 0 {
        0
    } else {
        total_bytes(s.drop_last()) + entry_bytes(s.last().1)
    }
}

/// No key occurs twice.
pub open spec fn keys_unique(s: Slots) -> bool {
    forall|i: int, j: int| 0 <= i < s.len() && 0 <= j < s.len() && i != j ==> s[i].0 != s[j].0
}

pub open spec fn has_key(s: Slots, k: Seq<char>) -> bool {
    exists|i: int| 0 <= i < s.len() && s[i].0 == k
}

/// The position of key `k` in `s`, or -1 where it is absent.
pub open spec fn key_index(s: Slots, k: Seq<char>) -> int {
    if has_key(s, k) {
        choose|i: int| 0 <= i < s.len() && s[i].0 == k
    } else {
        -1
    }
}

/// The entry stored under `k`, if any.
pub open spec fn lookup(s: Slots, k: Seq<char>) -> Option<EntryView> {
    if has_key(s, k) {
        Some(s[key_index(s, k)].1)
    } else {
        None
    }
}

/// `s` with the pair for `k` taken out, where there is one.
pub open spec fn without_key(s: Slots, k: Seq<char>) -> Slots {
    if has_key(s, k) {
        s.remove(key_index(s, k))
    } else {
        s
    }
}

/// `s` with the pair at position `i` moved to the most-recently-used end.
pub open spec fn move_to_back(s: Slots, i: int) -> Slots {
    s.remove(i).push(s[i])
}

/// How many least-recently-used pairs must leave `s` before `need` more
/// bytes fit under `cap`.
pub open spec fn evict_count(s: Slots, need: nat, cap: nat) -> nat
    decreases s.len(),
{
    if s.len() == 0 || total_bytes(s) + need <= cap {
        0
    } else {
        1 + evict_count(s.drop_first(), need, cap)
    }
}

/// The content after storing `e` under `k` in a cache of capacity `cap`:
/// any earlier pair for `k` goes first; an entry larger than the whole cache
/// is refused; otherwise least-recently-used pairs are evicted until it fits,
/// and it becomes the most recently used.
pub open spec fn after_put(s: Slots, cap: nat, k: Seq<char>, e: EntryView) -> Slots {
    let rest = without_key(s, k);
    if entry_bytes(e) > cap {
        rest
    } else {
        rest.skip(evict_count(rest, entry_bytes(e), cap) as int).push((k, e))
    }
}

/// The counters after storing `e` under `k`.
pub open spec fn put_stats(st: Stats, s: Slots, cap: nat, k: Seq<char>, e: EntryView) -> Stats {
    let rest = without_key(s, k);
    if entry_bytes(e) > cap {
        st
    } else {
        Stats {
            hits: st.hits,
            misses: st.misses,
            evictions: (st.evictions + evict_count(rest, entry_bytes(e), cap)) as u64,
            revalidations: st.revalidations,
            bytes_stored: total_bytes(after_put(s, cap, k, e)) as usize,
        }
    }
}

/// The eviction counter has room for the evictions that storing `e` under
/// `k` causes.
pub open spec fn put_counter_room(st: Stats, s: Slots, cap: nat, k: Seq<char>, e: EntryView) -> bool {
    entry_bytes(e) > cap || st.evictions + evict_count(without_key(s, k), entry_bytes(e), cap)
        <= u64::MAX
}

/// A lookup of `k` at time `now` is a hit: the key is present and fresh.
pub open spec fn is_hit(s: Slots, k: Seq<char>, now: u64) -> bool {
    has_key(s, k) && lookup(s, k).unwrap().expires_at > now
}

/// The content after looking up `k` at `now`: a hit becomes the most
/// recently used; a miss, stale or absent, changes nothing.
pub open spec fn after_get(s: Slots, k: Seq<char>, now: u64) -> Slots {
    if is_hit(s, k, now) {
        move_to_back(s, key_index(s, k))
    } else {
        s
    }
}

/// The counters after looking up `k` at `now`: exactly one of hits and
/// misses grows by one.
pub open spec fn get_stats(st: Stats, s: Slots, k: Seq<char>, now: u64) -> Stats {
    if is_hit(s, k, now) {
        Stats { hits: (st.hits + 1) as u64, ..st }
    } else {
        Stats { misses: (st.misses + 1) as u64, ..st }
    }
}

/// The counter that a lookup of `k` at `now` increments has room for it.
pub open spec fn get_counter_room(st: Stats, s: Slots, k: Seq<char>, now: u64) -> bool {
    if is_hit(s, k, now) {
        st.hits < u64::MAX
    } else {
        st.misses < u64::MAX
    }
}

pub open spec fn entry_opt_view(o: Option<Entry>) -> Option<EntryView> {
    match o {
        Some(e) => Some(e@),
        None => None,
    }
}

/// A byte-bounded cache that evicts the least recently used entry first.
pub struct LruCache {
    /// Key and entry pairs, least recently used first.
    slots: Vec<(String, Entry)>,
    capacity_bytes: usize,
    used_bytes: usize,
    pub stats: Stats,
}

impl LruCache {
    /// The stored pairs, least recently used first.
    pub closed spec fn entries(&self) -> Slots {
        self.slots@.map_values(|p: (String, Entry)| (p.0@, p.1@))
    }

    /// The counters, as the public field `stats` holds them.
    pub closed spec fn counters(&self) -> Stats {
        self.stats
    }

    pub closed spec fn capacity(&self) -> nat {
        self.capacity_bytes as nat
    }

    /// The bytes the cache accounts as in use.
    pub closed spec fn used(&self) -> nat {
        self.used_bytes as nat
    }

    /// Keys are unique, the byte count is the sum of the entries' sizes, and
    /// it never exceeds the capacity.
    pub closed spec fn wf(&self) -> bool {
        &&& keys_unique(self.entries())
        &&& self.used_bytes == total_bytes(self.entries())
        &&& self.used_bytes <= self.capacity_bytes
    }

    pub fn new(capacity_bytes: usize) -> (r: Self)
        ensures
            r.wf(),
            r.entries() == Seq::<(Seq<char>, EntryView)>::empty(),
            r.capacity() == capacity_bytes,
            r.counters() == (Stats { hits: 0, misses: 0, evictions: 0, revalidations: 0, bytes_stored: 0 }),
    {
        let r = LruCache {
            slots: Vec::new(),
            capacity_bytes,
            used_bytes: 0,
            stats: Stats::default(),
        };
        assert(r.entries() =~= Seq::<(Seq<char>, EntryView)>::empty());
        r
    }

    /// The position of `key`, if it is stored.
    fn position(&self, key: &String) -> (r: Option<usize>)
        requires
            self.wf(),
        ensures
            match r {
                Some(i) => i < self.entries().len() && i == key_index(self.entries(), key@),
                None => !has_key(self.entries(), key@),
            },
    {
        let n = self.slots.len();
        let mut i: usize = 0;
        while i < n
            invariant
                n == self.slots@.len(),
                self.wf(),
                i <= n,
                forall|j: int| 0 <= j < i ==> self.entries()[j].0 != key@,
            decreases n - i,
        {
            if self.slots[i].0 == *key {
                proof {
                    let s = self.entries();
                    assert(s[i as int] == (self.slots@[i as int].0@, self.slots@[i as int].1@));
                    assert(s[i as int].0 == key@);
                    assert(has_key(s, key@));
                    let c = key_index(s, key@);
                    assert(s[c].0 == key@);
                    assert(c == i as int);
                }
                return Some(i);
            }
            i = i + 1;
        }
        None
    }

    /// Move a key to the most-recently-used position.
    fn touch(&mut self, key: &String)
        requires
            old(self).wf(),
        ensures
            final(self).wf(),
            final(self).capacity_bytes == old(self).capacity_bytes,
            final(self).stats == old(self).stats,
            final(self).entries() == (if has_key(old(self).entries(), key@) {
                move_to_back(old(self).entries(), key_index(old(self).entries(), key@))
            } else {
                old(self).entries()
            }),
    {
        if let Some(pos) = self.position(key) {
            let ghost s = self.entries();
            let slot = self.slots.remove(pos);
            self.slots.push(slot);
            proof {
                assert(self.entries() =~= move_to_back(s, pos as int));
                lemma_move_to_back_keeps(s, pos as int);
            }
        }
    }

    pub fn get(&mut self, key: &str, now: u64) -> (r: Option<Entry>)
        requires
            old(self).wf(),
            get_counter_room(old(self).counters(), old(self).entries(), key@, now),
        ensures
            final(self).wf(),
            final(self).capacity() == old(self).capacity(),
            entry_opt_view(r) == lookup(old(self).entries(), key@),
            final(self).entries() == after_get(old(self).entries(), key@, now),
            final(self).counters() == get_stats(old(self).counters(), old(self).entries(), key@, now),
    {
        let k = key.to_owned();
        match self.position(&k) {
            None => {
                self.stats.misses = self.stats.misses + 1;
                None
            },
            Some(i) => {
                let entry = self.slots[i].1.duplicate();
                if entry.expires_at <= now {
                    // Present but stale. NOT a hit: it cannot be served
                    // without checking with the origin first.
                    self.stats.misses = self.stats.misses + 1;
                    Some(entry)
                } else {
                    self.touch(&k);
                    self.stats.hits = self.stats.hits + 1;
                    Some(entry)
                }
            },
        }
    }

    pub fn put(&mut self, key: String, entry: Entry)
        requires
            old(self).wf(),
            entry_bytes(entry@) <= usize::MAX,
            put_counter_room(old(self).counters(), old(self).entries(), old(self).capacity(), key@, entry@),
        ensures
            final(self).wf(),
            final(self).capacity() == old(self).capacity(),
            final(self).entries() == after_put(
                old(self).entries(),
                old(self).capacity(),
                key@,
                entry@,
            ),
            final(self).counters() == put_stats(
                old(self).counters(),
                old(self).entries(),
                old(self).capacity(),
                key@,
                entry@,
            ),
    {
        let ghost s0 = self.entries();
        let ghost st0 = self.stats;
        if let Some(pos) = self.position(&key) {
            let old_slot = self.slots.remove(pos);
            proof {
                assert(self.entries() =~= s0.remove(pos as int));
                lemma_total_remove(s0, pos as int);
                lemma_remove_keeps_unique(s0, pos as int);
            }
            self.used_bytes = self.used_bytes - old_slot.1.size();
        }
        let ghost rest = self.entries();
        assert(rest == without_key(s0, key@));
        let size = entry.size();
        // An object larger than the whole cache would evict everything and
        // still not fit, so refuse it outright.
        if size > self.capacity_bytes {
            return;
        }
        let ghost mut k: nat = 0;
        while size > self.capacity_bytes - self.used_bytes
            invariant
                size == entry_bytes(entry@),
                size <= self.capacity_bytes,
                self.capacity_bytes == old(self).capacity_bytes,
                self.used_bytes <= self.capacity_bytes,
                k <= rest.len(),
                self.entries() == rest.skip(k as int),
                keys_unique(self.entries()),
                self.used_bytes == total_bytes(self.entries()),
                self.stats == (Stats { evictions: (st0.evictions + k) as u64, ..st0 }),
                size > self.capacity_bytes || st0.evictions + evict_count(
                    rest,
                    size as nat,
                    self.capacity_bytes as nat,
                ) <= u64::MAX,
                evict_count(rest, size as nat, self.capacity_bytes as nat) == k + evict_count(
                    self.entries(),
                    size as nat,
                    self.capacity_bytes as nat,
                ),
            decreases self.slots@.len(),
        {
            let ghost cur = self.entries();
            assert(cur.len() > 0);
            let victim = self.slots.remove(0);
            proof {
                assert(self.entries() =~= cur.drop_first());
                assert(cur.drop_first() =~= rest.skip((k + 1) as int));
                lemma_total_first(cur);
                lemma_remove_keeps_unique(cur, 0);
                assert(cur.remove(0) =~= cur.drop_first());
                k = k + 1;
            }
            self.used_bytes = self.used_bytes - victim.1.size();
            self.stats.evictions = self.stats.evictions + 1;
        }
        let ghost cur = self.entries();
        self.used_bytes = self.used_bytes + size;
        self.stats.bytes_stored = self.used_bytes;
        self.slots.push((key, entry));
        proof {
            assert(self.entries() =~= cur.push((key@, entry@)));
            lemma_total_push(cur, (key@, entry@));
            lemma_push_keeps_unique(cur, rest, k as int, key@, entry@, s0);
        }
    }
}

// ---------------------------------------------------------------------------
// Lemmas about the abstract content.
// ---------------------------------------------------------------------------

proof fn lemma_total_push(s: Slots, x: (Seq<char>, EntryView))
    ensures
        total_bytes(s.push(x)) == total_bytes(s) + entry_bytes(x.1),
{
    assert(s.push(x).drop_last() =~= s);
}

proof fn lemma_total_first(s: Slots)
    requires
        s.len() > 0,
    ensures
        total_bytes(s) == entry_bytes(s[0].1) + total_bytes(s.drop_first()),
    decreases s.len(),
{
    if s.len() == 1 {
        assert(s.drop_last() =~= Seq::<(Seq<char>, EntryView)>::empty());
        assert(s.drop_first() =~= Seq::<(Seq<char>, EntryView)>::empty());
    } else {
        lemma_total_first(s.drop_last());
        assert(s.drop_last().drop_first() =~= s.drop_first().drop_last());
        assert(s.drop_first().last() == s.last());
    }
}

proof fn lemma_total_remove(s: Slots, i: int)
    requires
        0 <= i < s.len(),
    ensures
        total_bytes(s.remove(i)) + entry_bytes(s[i].1) == total_bytes(s),
    decreases s.len(),
{
    if i == s.len() - 1 {
        assert(s.remove(i) =~= s.drop_last());
    } else {
        lemma_total_remove(s.drop_last(), i);
        assert(s.remove(i).drop_last() =~= s.drop_last().remove(i));
        assert(s.remove(i).last() == s.last());
    }
}

proof fn lemma_remove_keeps_unique(s: Slots, i: int)
    requires
        0 <= i < s.len(),
        keys_unique(s),
    ensures
        keys_unique(s.remove(i)),
        forall|j: int| 0 <= j < s.remove(i).len() ==> #[trigger] s.remove(i)[j].0 != s[i].0,
{
}

proof fn lemma_move_to_back_keeps(s: Slots, i: int)
    requires
        0 <= i < s.len(),
        keys_unique(s),
    ensures
        keys_unique(move_to_back(s, i)),
        total_bytes(move_to_back(s, i)) == total_bytes(s),
{
    lemma_remove_keeps_unique(s, i);
    lemma_total_remove(s, i);
    lemma_total_push(s.remove(i), s[i]);
}

proof fn lemma_push_keeps_unique(
    cur: Slots,
    rest: Slots,
    k: int,
    key: Seq<char>,
    e: EntryView,
    s0: Slots,
)
    requires
        0 <= k <= rest.len(),
        cur == rest.skip(k),
        keys_unique(cur),
        rest == without_key(s0, key),
        keys_unique(s0),
    ensures
        keys_unique(cur.push((key, e))),
{
    assert forall|j: int| 0 <= j < cur.len() implies #[trigger] cur[j].0 != key by {
        assert(cur[j] == rest[j + k]);
        if has_key(s0, key) {
            let p = key_index(s0, key);
            assert(s0[p].0 == key);
            let q = if j + k < p { j + k } else { j + k + 1 };
            assert(rest[j + k] == s0[q]);
        } else {
            assert(rest[j + k] == s0[j + k]);
        }
    }
}


proof fn lemma_skip_keeps_unique(s: Slots, n: int)
    requires
        0 <= n <= s.len(),
        keys_unique(s),
    ensures
        keys_unique(s.skip(n)),
{
    assert forall|i: int, j: int|
        0 <= i < s.skip(n).len() && 0 <= j < s.skip(n).len() && i != j implies #[trigger] s.skip(
        n,
    )[i].0 != #[trigger] s.skip(n)[j].0 by {
        assert(s.skip(n)[i] == s[i + n]);
        assert(s.skip(n)[j] == s[j + n]);
    }
}

/// Removing the pair for `k` leaves keys unique, `k` absent, and every other
/// key mapped as before.
proof fn lemma_without_key(s: Slots, k: Seq<char>)
    requires
        keys_unique(s),
    ensures
        keys_unique(without_key(s, k)),
        !has_key(without_key(s, k), k),
        forall|k2: Seq<char>| k2 != k ==> #[trigger] lookup(without_key(s, k), k2) == lookup(s, k2),
{
    if has_key(s, k) {
        let p = key_index(s, k);
        lemma_remove_keeps_unique(s, p);
        let r = s.remove(p);
        assert forall|k2: Seq<char>| k2 != k implies #[trigger] lookup(r, k2) == lookup(s, k2) by {
            if has_key(s, k2) {
                let q = key_index(s, k2);
                assert(q != p);
                let q2 = if q < p { q } else { q - 1 };
                assert(r[q2] == s[q]);
                assert(has_key(r, k2));
                let c = key_index(r, k2);
                assert(r[c].0 == k2);
            } else {
                if has_key(r, k2) {
                    let c = key_index(r, k2);
                    let c2 = if c < p { c } else { c + 1 };
                    assert(r[c] == s[c2]);
                    assert(false);
                }
            }
        }
    }
}

/// Evicting `evict_count` pairs makes room, and never more pairs than exist.
proof fn lemma_evict_fits(s: Slots, need: nat, cap: nat)
    requires
        need <= cap,
    ensures
        evict_count(s, need, cap) <= s.len(),
        total_bytes(s.skip(evict_count(s, need, cap) as int)) + need <= cap,
    decreases s.len(),
{
    if s.len() == 0 || total_bytes(s) + need <= cap {
        assert(s.skip(0) =~= s);
    } else {
        lemma_evict_fits(s.drop_first(), need, cap);
        let m = evict_count(s.drop_first(), need, cap);
        assert(s.skip((1 + m) as int) =~= s.drop_first().skip(m as int));
    }
}

/// A key that was just pushed is found, with the pushed entry.
proof fn lemma_lookup_pushed(t: Slots, k: Seq<char>, e: EntryView)
    requires
        keys_unique(t.push((k, e))),
    ensures
        lookup(t.push((k, e)), k) == Some(e),
        key_index(t.push((k, e)), k) == t.len(),
{
    let u = t.push((k, e));
    assert(u[t.len() as int].0 == k);
    assert(has_key(u, k));
    let c = key_index(u, k);
    assert(u[c].0 == k);
}

proof fn lemma_after_put_wf(s: Slots, cap: nat, k: Seq<char>, e: EntryView)
    requires
        keys_unique(s),
    ensures
        keys_unique(after_put(s, cap, k, e)),
        entry_bytes(e) <= cap ==> total_bytes(after_put(s, cap, k, e)) <= cap,
{
    let rest = without_key(s, k);
    lemma_without_key(s, k);
    if entry_bytes(e) <= cap {
        lemma_evict_fits(rest, entry_bytes(e), cap);
        let n = evict_count(rest, entry_bytes(e), cap) as int;
        lemma_skip_keeps_unique(rest, n);
        lemma_push_keeps_unique(rest.skip(n), rest, n, k, e, s);
        lemma_total_push(rest.skip(n), (k, e));
    }
}

/// Read after write: once `put` has stored an entry that fits in the
/// cache, that entry is what the key looks up, and it is the most recently
/// used pair.
pub proof fn law_put_then_lookup(s: Slots, cap: nat, k: Seq<char>, e: EntryView)
    requires
        keys_unique(s),
        entry_bytes(e) <= cap,
    ensures
        lookup(after_put(s, cap, k, e), k) == Some(e),
        after_put(s, cap, k, e).last() == (k, e),
{
    lemma_after_put_wf(s, cap, k, e);
    let rest = without_key(s, k);
    let n = evict_count(rest, entry_bytes(e), cap) as int;
    lemma_evict_fits(rest, entry_bytes(e), cap);
    lemma_lookup_pushed(rest.skip(n), k, e);
}

/// A later lookup before the entry expires is a hit that returns what was
/// stored.
pub proof fn law_put_then_get_hits(s: Slots, cap: nat, k: Seq<char>, e: EntryView, now: u64)
    requires
        keys_unique(s),
        entry_bytes(e) <= cap,
        now < e.expires_at,
    ensures
        is_hit(after_put(s, cap, k, e), k, now),
        lookup(after_put(s, cap, k, e), k) == Some(e),
{
    law_put_then_lookup(s, cap, k, e);
}

/// An entry larger than the whole cache is refused, and any copy stored
/// under its key before is gone too.
pub proof fn law_oversize_refused(s: Slots, cap: nat, k: Seq<char>, e: EntryView)
    requires
        keys_unique(s),
        entry_bytes(e) > cap,
    ensures
        lookup(after_put(s, cap, k, e), k) is None,
{
    lemma_without_key(s, k);
}

/// Storing never puts the cache over its capacity, and keys stay unique.
pub proof fn law_put_within_capacity(s: Slots, cap: nat, k: Seq<char>, e: EntryView)
    requires
        keys_unique(s),
        total_bytes(s) <= cap,
    ensures
        keys_unique(after_put(s, cap, k, e)),
        total_bytes(after_put(s, cap, k, e)) <= cap,
{
    lemma_after_put_wf(s, cap, k, e);
    if entry_bytes(e) > cap {
        lemma_without_key(s, k);
        if has_key(s, k) {
            lemma_total_remove(s, key_index(s, k));
        }
    }
}

/// A storing evicts least recently used pairs first: if a pair of the
/// cache (other than the key being stored) is evicted, so is every pair used
/// less recently than it.
pub proof fn law_put_evicts_lru_first(
    s: Slots,
    cap: nat,
    k: Seq<char>,
    e: EntryView,
    i: int,
    j: int,
)
    requires
        keys_unique(s),
        0 <= i < j < without_key(s, k).len(),
        !has_key(after_put(s, cap, k, e), without_key(s, k)[j].0),
    ensures
        !has_key(after_put(s, cap, k, e), without_key(s, k)[i].0),
{
    let rest = without_key(s, k);
    lemma_without_key(s, k);
    let out = after_put(s, cap, k, e);
    if entry_bytes(e) > cap {
        assert(out[j].0 == rest[j].0);
    } else {
        let n = evict_count(rest, entry_bytes(e), cap) as int;
        lemma_evict_fits(rest, entry_bytes(e), cap);
        if j >= n {
            assert(out[j - n] == rest[j]);
            assert(false);
        }
        if has_key(out, rest[i].0) {
            let c = key_index(out, rest[i].0);
            assert(out[c].0 == rest[i].0);
            if c == rest.skip(n).len() {
                assert(rest[i].0 == k);
            } else {
                assert(out[c] == rest[c + n]);
            }
        }
    }
}

/// Storing under one key never changes what another key maps to: the other
/// key keeps its entry or, when evicted, has none.
pub proof fn law_put_keeps_other_entries(
    s: Slots,
    cap: nat,
    k: Seq<char>,
    e: EntryView,
    k2: Seq<char>,
)
    requires
        keys_unique(s),
        k2 != k,
    ensures
        lookup(after_put(s, cap, k, e), k2) is None || lookup(after_put(s, cap, k, e), k2)
            == lookup(s, k2),
{
    let rest = without_key(s, k);
    lemma_without_key(s, k);
    lemma_after_put_wf(s, cap, k, e);
    let out = after_put(s, cap, k, e);
    if entry_bytes(e) <= cap && has_key(out, k2) {
        let n = evict_count(rest, entry_bytes(e), cap) as int;
        lemma_evict_fits(rest, entry_bytes(e), cap);
        let c = key_index(out, k2);
        assert(out[c].0 == k2);
        let t = rest.skip(n);
        assert(c < t.len());
        assert(out[c] == t[c]);
        assert(t[c] == rest[c + n]);
        assert(has_key(rest, k2));
        let d = key_index(rest, k2);
        assert(rest[d].0 == k2);
        assert(d == c + n);
    }
}

proof fn lemma_evict_le_len(s: Slots, need: nat, cap: nat)
    ensures
        evict_count(s, need, cap) <= s.len(),
    decreases s.len(),
{
    if s.len() > 0 {
        lemma_evict_le_len(s.drop_first(), need, cap);
    }
}

proof fn lemma_evict_minimal(s: Slots, need: nat, cap: nat, m: int)
    requires
        0 <= m < evict_count(s, need, cap),
    ensures
        total_bytes(s.skip(m)) + need > cap,
    decreases s.len(),
{
    if m == 0 {
        assert(s.skip(0) =~= s);
    } else {
        lemma_evict_le_len(s, need, cap);
        lemma_evict_minimal(s.drop_first(), need, cap, m - 1);
        assert(s.drop_first().skip(m - 1) =~= s.skip(m));
    }
}

/// Taking out the pair for `k` keeps every other pair, in order: the pairs
/// before it stay where they are and the ones after it move up by one.
pub proof fn law_without_key_keeps_order(s: Slots, k: Seq<char>)
    requires
        keys_unique(s),
    ensures
        !has_key(without_key(s, k), k),
        !has_key(s, k) ==> without_key(s, k) == s,
        has_key(s, k) ==> {
            let p = key_index(s, k);
            &&& 0 <= p < s.len()
            &&& s[p].0 == k
            &&& without_key(s, k).len() == s.len() - 1
            &&& forall|i: int|
                0 <= i < s.len() - 1 ==> #[trigger] without_key(s, k)[i] == (if i < p {
                    s[i]
                } else {
                    s[i + 1]
                })
        },
{
    lemma_without_key(s, k);
}

/// Storing evicts only what it must: with the earlier pair for `k` taken
/// out, the fewest least-recently-used pairs leave for the new entry to fit,
/// the eviction counter grows by exactly that many, and nothing leaves when
/// the entry already fits.
pub proof fn law_put_evicts_fewest(st: Stats, s: Slots, cap: nat, k: Seq<char>, e: EntryView)
    requires
        keys_unique(s),
        entry_bytes(e) <= cap,
        put_counter_room(st, s, cap, k, e),
    ensures
        exists|n: int|
            {
                &&& 0 <= n <= without_key(s, k).len()
                &&& after_put(s, cap, k, e) == (#[trigger] without_key(s, k).skip(n)).push((k, e))
                &&& total_bytes(without_key(s, k).skip(n)) + entry_bytes(e) <= cap
                &&& forall|m: int|
                    0 <= m < n ==> total_bytes(#[trigger] without_key(s, k).skip(m)) + entry_bytes(e)
                        > cap
                &&& put_stats(st, s, cap, k, e).evictions == st.evictions + n
            },
        total_bytes(without_key(s, k)) + entry_bytes(e) <= cap ==> after_put(s, cap, k, e)
            == without_key(s, k).push((k, e)) && put_stats(st, s, cap, k, e).evictions
            == st.evictions,
{
    let rest = without_key(s, k);
    let need = entry_bytes(e);
    let n = evict_count(rest, need, cap) as int;
    lemma_evict_fits(rest, need, cap);
    assert forall|m: int| 0 <= m < n implies total_bytes(#[trigger] rest.skip(m)) + need > cap by {
        lemma_evict_minimal(rest, need, cap, m);
    }
    assert(after_put(s, cap, k, e) == rest.skip(n).push((k, e)));
    if total_bytes(rest) + need <= cap {
        assert(rest.skip(0) =~= rest);
        assert(n == 0);
    }
}

/// A hit moves the key's pair to the most-recently-used end and keeps the
/// relative order of every other pair; a miss changes nothing.
pub proof fn law_hit_keeps_others_in_order(s: Slots, k: Seq<char>, now: u64)
    requires
        keys_unique(s),
    ensures
        !is_hit(s, k, now) ==> after_get(s, k, now) == s,
        is_hit(s, k, now) ==> {
            let p = key_index(s, k);
            let t = after_get(s, k, now);
            &&& 0 <= p < s.len()
            &&& s[p].0 == k
            &&& t.len() == s.len()
            &&& t.last() == s[p]
            &&& forall|i: int|
                0 <= i < s.len() - 1 ==> #[trigger] t[i] == (if i < p {
                    s[i]
                } else {
                    s[i + 1]
                })
        },
{
    if is_hit(s, k, now) {
        let p = key_index(s, k);
        assert(s[p].0 == k);
    }
}

/// A lookup never changes what any key maps to; a hit only changes the order.
pub proof fn law_get_keeps_mapping(s: Slots, k: Seq<char>, now: u64, k2: Seq<char>)
    requires
        keys_unique(s),
    ensures
        keys_unique(after_get(s, k, now)),
        lookup(after_get(s, k, now), k2) == lookup(s, k2),
        is_hit(s, k, now) ==> after_get(s, k, now).last().0 == k,
{
    if is_hit(s, k, now) {
        let p = key_index(s, k);
        lemma_move_to_back_keeps(s, p);
        let t = move_to_back(s, p);
        if has_key(s, k2) {
            let q = key_index(s, k2);
            let q2 = if q < p { q } else if q == p { t.len() - 1 } else { q - 1 };
            assert(t[q2] == s[q]);
            assert(has_key(t, k2));
            let c = key_index(t, k2);
            assert(t[c].0 == k2);
        } else {
            if has_key(t, k2) {
                let c = key_index(t, k2);
                let c2 = if c == t.len() - 1 { p } else if c < p { c } else { c + 1 };
                assert(t[c] == s[c2]);
                assert(false);
            }
        }
    }
}

/// Each lookup counts exactly once, as a hit or as a miss; a present but
/// stale entry is a miss. Revalidations and evictions are untouched.
pub proof fn law_get_counts_once(st: Stats, s: Slots, k: Seq<char>, now: u64)
    requires
        get_counter_room(st, s, k, now),
    ensures
        get_stats(st, s, k, now).hits + get_stats(st, s, k, now).misses == st.hits + st.misses
            + 1,
        get_stats(st, s, k, now).revalidations == st.revalidations,
        get_stats(st, s, k, now).evictions == st.evictions,
        (has_key(s, k) && lookup(s, k).unwrap().expires_at <= now) ==> get_stats(
            st,
            s,
            k,
            now,
        ).misses == st.misses + 1,
{
}

/// A well-formed cache holds unique keys and accounts exactly the bytes of
/// its entries, which never exceed its capacity.
pub proof fn law_cache_invariant(c: &LruCache)
    requires
        c.wf(),
    ensures
        keys_unique(c.entries()),
        c.used() == total_bytes(c.entries()),
        c.used() <= c.capacity(),
{
}

} // verus!
