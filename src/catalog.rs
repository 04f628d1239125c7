//! Symbol catalog: a byte-budgeted cache from symbol keys to resolved data,
//! evicting least-recently-used entries, with single-flight bookkeeping so
//! that at most one provider fetch per key is outstanding.
//!
//! The catalog itself never suspends: `lookup` says whether the caller has a
//! value, must wait for a fetch already under way, or must fetch itself;
//! `complete` records the outcome of that fetch.

use vstd::prelude::*;

verus! {

/// Why the sourcemap provider could not resolve a key.
#[derive(PartialEq, Eq, Structural, Clone, Copy, Debug)]
pub enum FetchError {
    NotFound,
    Transient,
    Malformed,
}

/// Mathematical model of one cached entry; `size` is its footprint in bytes.
pub struct EntryModel {
    pub key: Seq<char>,
    pub value: Seq<u8>,
    pub size: nat,
}

/// Mathematical model of the catalog: entries from least to most recently
/// used, the byte budget, and the keys whose fetch is under way.
pub struct CatalogModel {
    pub max_bytes: nat,
    pub entries: Seq<EntryModel>,
    pub in_flight: Set<Seq<char>>,
}

/// What a lookup tells its caller.
pub enum LookupModel {
    Hit(Seq<u8>),
    Pending,
    Fetch,
}

pub open spec fn total_bytes(s: Seq<EntryModel>) -> nat
    decreases s.len(),
{
    if s.len() == 0 {
        0
    } else {
        s[0].size + total_bytes(s.drop_first())
    }
}

pub open spec fn is_cached(s: Seq<EntryModel>, k: Seq<char>) -> bool {
    exists|i: int| 0 <= i < s.len() && s[i].key == k
}

pub open spec fn index_of(s: Seq<EntryModel>, k: Seq<char>) -> int {
    choose|i: int| 0 <= i < s.len() && s[i].key == k
}

pub open spec fn keys_unique(s: Seq<EntryModel>) -> bool {
    forall|i: int, j: int| 0 <= i < s.len() && 0 <= j < s.len() && i != j ==> s[i].key != s[j].key
}

/// The entry at `i` becomes the most recently used.
pub open spec fn touched(s: Seq<EntryModel>, i: int) -> Seq<EntryModel> {
    s.remove(i).push(s[i])
}

/// Drops least-recently-used entries until `size` more bytes fit within
/// `max`, or until nothing is left.
pub open spec fn evicted(s: Seq<EntryModel>, size: nat, max: nat) -> Seq<EntryModel>
    decreases s.len(),
{
    if s.len() > 0 && total_bytes(s) + size > max {
        evicted(s.drop_first(), size, max)
    } else {
        s
    }
}

/// Total bytes stay within the budget, unless a single entry alone exceeds it
/// and every other entry is gone.
pub open spec fn within_budget(s: Seq<EntryModel>, max: nat) -> bool {
    total_bytes(s) <= max || (s.len() == 1 && total_bytes(s) == s[0].size && s[0].size > max)
}

pub open spec fn catalog_wf(m: CatalogModel) -> bool {
    &&& keys_unique(m.entries)
    &&& within_budget(m.entries, m.max_bytes)
    &&& forall|i: int| 0 <= i < m.entries.len() ==> !m.in_flight.contains(#[trigger] m.entries[i].key)
}

pub open spec fn lookup_result(m: CatalogModel, k: Seq<char>) -> LookupModel {
    if is_cached(m.entries, k) {
        LookupModel::Hit(m.entries[index_of(m.entries, k)].value)
    } else if m.in_flight.contains(k) {
        LookupModel::Pending
    } else {
        LookupModel::Fetch
    }
}

/// State after a lookup: a hit refreshes the entry's recency, a miss with no
/// fetch under way marks the key as being fetched.
pub open spec fn after_lookup(m: CatalogModel, k: Seq<char>) -> CatalogModel {
    if is_cached(m.entries, k) {
        CatalogModel { entries: touched(m.entries, index_of(m.entries, k)), ..m }
    } else if m.in_flight.contains(k) {
        m
    } else {
        CatalogModel { in_flight: m.in_flight.insert(k), ..m }
    }
}

/// State after the fetch of `k` settles: the key is no longer in flight, and
/// a fetched value is inserted as most recent after making room for it.
/// A failure leaves the entries as they were.
pub open spec fn after_fetch(m: CatalogModel, k: Seq<char>, fetched: Option<Seq<u8>>) -> CatalogModel {
    match fetched {
        None => CatalogModel { in_flight: m.in_flight.remove(k), ..m },
        Some(v) => CatalogModel {
            in_flight: m.in_flight.remove(k),
            entries: evicted(m.entries, v.len(), m.max_bytes).push(
                EntryModel { key: k, value: v, size: v.len() },
            ),
            ..m
        },
    }
}

pub proof fn lemma_total_push(s: Seq<EntryModel>, e: EntryModel)
    ensures
        total_bytes(s.push(e)) == total_bytes(s) + e.size,
    decreases s.len(),
{
    if s.len() > 0 {
        assert(s.push(e).drop_first() =~= s.drop_first().push(e));
        lemma_total_push(s.drop_first(), e);
    } else {
        assert(s.push(e).drop_first() =~= s);
    }
}

pub proof fn lemma_total_remove(s: Seq<EntryModel>, i: int)
    requires
        0 <= i < s.len(),
    ensures
        total_bytes(s.remove(i)) + s[i].size == total_bytes(s),
    decreases s.len(),
{
    if i == 0 {
        assert(s.remove(0) =~= s.drop_first());
    } else {
        assert(s.remove(i).drop_first() =~= s.drop_first().remove(i - 1));
        lemma_total_remove(s.drop_first(), i - 1);
    }
}

pub proof fn lemma_touched(s: Seq<EntryModel>, i: int)
    requires
        0 <= i < s.len(),
        keys_unique(s),
    ensures
        total_bytes(touched(s, i)) == total_bytes(s),
        touched(s, i).len() == s.len(),
        keys_unique(touched(s, i)),
        forall|k: Seq<char>| is_cached(touched(s, i), k) == is_cached(s, k),
{
    lemma_total_remove(s, i);
    lemma_total_push(s.remove(i), s[i]);
    let t = touched(s, i);
    assert forall|a: int, b: int| 0 <= a < t.len() && 0 <= b < t.len() && a != b implies t[a].key
        != t[b].key by {
        let sa = if a == t.len() - 1 { i } else if a < i { a } else { a + 1 };
        let sb = if b == t.len() - 1 { i } else if b < i { b } else { b + 1 };
        assert(t[a] == s[sa] && t[b] == s[sb]);
    }
    assert forall|k: Seq<char>| is_cached(t, k) == is_cached(s, k) by {
        if is_cached(s, k) {
            let j = choose|j: int| 0 <= j < s.len() && s[j].key == k;
            let tj = if j == i { t.len() - 1 } else if j < i { j } else { j - 1 };
            assert(t[tj] == s[j]);
        }
        if is_cached(t, k) {
            let a = choose|a: int| 0 <= a < t.len() && t[a].key == k;
            let sa = if a == t.len() - 1 { i } else if a < i { a } else { a + 1 };
            assert(t[a] == s[sa]);
        }
    }
}

/// Eviction keeps a suffix of the entries, after which `size` more bytes fit
/// unless nothing is left.
pub proof fn lemma_evicted(s: Seq<EntryModel>, size: nat, max: nat)
    ensures
        evicted(s, size, max).len() <= s.len(),
        evicted(s, size, max) == s.subrange(
            s.len() - evicted(s, size, max).len(),
            s.len() as int,
        ),
        evicted(s, size, max).len() == 0 || total_bytes(evicted(s, size, max)) + size <= max,
    decreases s.len(),
{
    if s.len() > 0 && total_bytes(s) + size > max {
        lemma_evicted(s.drop_first(), size, max);
        let r = evicted(s, size, max);
        assert(r == s.subrange(s.len() - r.len(), s.len() as int));
    } else {
        assert(s == s.subrange(0, s.len() as int));
    }
}

proof fn lemma_inserted(m: CatalogModel, k: Seq<char>, v: Seq<u8>)
    requires
        catalog_wf(m),
        m.in_flight.contains(k),
    ensures
        catalog_wf(after_fetch(m, k, Some(v))),
        forall|j: Seq<char>|
            is_cached(after_fetch(m, k, Some(v)).entries, j) ==> (j == k || is_cached(m.entries, j)),
{
    let s = m.entries;
    let e = EntryModel { key: k, value: v, size: v.len() };
    lemma_evicted(s, v.len(), m.max_bytes);
    let r = evicted(s, v.len(), m.max_bytes);
    let off = s.len() - r.len();
    assert forall|a: int| 0 <= a < r.len() implies r[a] == s[a + off] by {}
    let n = r.push(e);
    lemma_total_push(r, e);
    assert forall|a: int, b: int| 0 <= a < n.len() && 0 <= b < n.len() && a != b implies n[a].key
        != n[b].key by {
        if a < r.len() {
            assert(n[a] == s[a + off]);
            assert(!m.in_flight.contains(s[a + off].key));
        }
        if b < r.len() {
            assert(n[b] == s[b + off]);
            assert(!m.in_flight.contains(s[b + off].key));
        }
    }
    if r.len() == 0 {
        assert(n.drop_first() =~= Seq::<EntryModel>::empty());
    }
    let m2 = after_fetch(m, k, Some(v));
    assert forall|a: int| 0 <= a < m2.entries.len() implies !m2.in_flight.contains(
        #[trigger] m2.entries[a].key,
    ) by {
        if a < r.len() {
            assert(n[a] == s[a + off]);
            assert(!m.in_flight.contains(s[a + off].key));
        }
    }
    assert forall|j: Seq<char>| is_cached(m2.entries, j) implies (j == k || is_cached(s, j)) by {
        let a = choose|a: int| 0 <= a < n.len() && n[a].key == j;
        if a < r.len() {
            assert(n[a] == s[a + off]);
        }
    }
}

/// Every lookup and every settled fetch keeps the catalog well formed; in
/// particular cached bytes stay within the budget, except for a single entry
/// that alone exceeds it, with every other entry evicted.
pub proof fn lemma_budget_invariant(m: CatalogModel, k: Seq<char>, fetched: Option<Seq<u8>>)
    requires
        catalog_wf(m),
    ensures
        catalog_wf(after_lookup(m, k)),
        within_budget(after_lookup(m, k).entries, m.max_bytes),
        m.in_flight.contains(k) ==> catalog_wf(after_fetch(m, k, fetched)),
        m.in_flight.contains(k) ==> within_budget(after_fetch(m, k, fetched).entries, m.max_bytes),
{
    let s = m.entries;
    if is_cached(s, k) {
        let i = index_of(s, k);
        lemma_touched(s, i);
        let t = touched(s, i);
        if s.len() == 1 {
            assert(t =~= s);
        }
        assert forall|a: int| 0 <= a < t.len() implies !m.in_flight.contains(#[trigger] t[a].key) by {
            assert(is_cached(t, t[a].key));
            let j = choose|j: int| 0 <= j < s.len() && s[j].key == t[a].key;
            assert(!m.in_flight.contains(s[j].key));
        }
    }
    if m.in_flight.contains(k) {
        match fetched {
            None => {},
            Some(v) => {
                lemma_inserted(m, k, v);
            },
        }
    }
}

/// While a fetch of `k` is under way, every lookup of `k` is told to wait
/// and changes nothing, and lookups and settled fetches of other keys leave
/// `k` in flight: the provider is asked for `k` once until that fetch
/// settles.
pub proof fn lemma_single_flight(m: CatalogModel, k: Seq<char>, other: Seq<char>, f: Option<Seq<u8>>)
    requires
        catalog_wf(m),
        m.in_flight.contains(k),
        other != k,
    ensures
        lookup_result(m, k) == LookupModel::Pending,
        after_lookup(m, k) == m,
        after_lookup(m, other).in_flight.contains(k),
        catalog_wf(after_lookup(m, other)),
        m.in_flight.contains(other) ==> after_fetch(m, other, f).in_flight.contains(k),
        m.in_flight.contains(other) ==> catalog_wf(after_fetch(m, other, f)),
{
    if is_cached(m.entries, k) {
        let i = choose|i: int| 0 <= i < m.entries.len() && m.entries[i].key == k;
        assert(!m.in_flight.contains(m.entries[i].key));
    }
    lemma_budget_invariant(m, other, f);
}

/// A lookup that finds nothing in the cache and nothing in flight asks its
/// caller to fetch, and marks the key as in flight.
pub proof fn lemma_first_miss_fetches(m: CatalogModel, k: Seq<char>)
    requires
        catalog_wf(m),
        !is_cached(m.entries, k),
        !m.in_flight.contains(k),
    ensures
        lookup_result(m, k) == LookupModel::Fetch,
        after_lookup(m, k).in_flight.contains(k),
        lookup_result(after_lookup(m, k), k) == LookupModel::Pending,
{
}

proof fn lemma_lookup_keeps_value(m: CatalogModel, k: Seq<char>, other: Seq<char>)
    requires
        catalog_wf(m),
        is_cached(m.entries, k),
    ensures
        is_cached(after_lookup(m, other).entries, k),
        lookup_result(after_lookup(m, other), k) == lookup_result(m, k),
{
    let s = m.entries;
    let ik = index_of(s, k);
    if is_cached(s, other) {
        let i = index_of(s, other);
        lemma_touched(s, i);
        let t = touched(s, i);
        let a = index_of(t, k);
        let sa = if a == t.len() - 1 { i } else if a < i { a } else { a + 1 };
        assert(t[a] == s[sa]);
        assert(sa == ik);
    }
}

/// After a fetch of `k` yields `v`, looking `k` up returns `v` without a new
/// fetch, and keeps doing so across lookups of any keys, since lookups never
/// evict.
pub proof fn lemma_cached_after_fetch(m: CatalogModel, k: Seq<char>, v: Seq<u8>, other: Seq<char>)
    requires
        catalog_wf(m),
        m.in_flight.contains(k),
    ensures
        lookup_result(after_fetch(m, k, Some(v)), k) == LookupModel::Hit(v),
        after_lookup(after_fetch(m, k, Some(v)), k) == after_fetch(m, k, Some(v)),
        lookup_result(after_lookup(after_fetch(m, k, Some(v)), other), k) == LookupModel::Hit(v),
{
    let m1 = after_fetch(m, k, Some(v));
    lemma_budget_invariant(m, k, Some(v));
    let n = m1.entries;
    let last = n.len() - 1;
    assert(n[last].key == k);
    assert(is_cached(n, k));
    assert(index_of(n, k) == last);
    assert(touched(n, last) =~= n);
    lemma_lookup_keeps_value(m1, k, other);
}

proof fn lemma_uniform_total(s: Seq<EntryModel>, c: nat)
    requires
        forall|i: int| 0 <= i < s.len() ==> #[trigger] s[i].size == c,
    ensures
        total_bytes(s) == s.len() * c,
    decreases s.len(),
{
    if s.len() > 0 {
        lemma_uniform_total(s.drop_first(), c);
        assert(s.len() * c == c + (s.len() - 1) * c) by (nonlinear_arith);
    }
}

/// With a budget that holds exactly `count` entries of one size, fetching one
/// more key of that size evicts the least recently used entry alone, and a
/// later lookup of the evicted key must fetch it again.
pub proof fn lemma_eviction_order(m: CatalogModel, k: Seq<char>, v: Seq<u8>, count: nat)
    requires
        catalog_wf(m),
        m.in_flight.contains(k),
        m.entries.len() == count,
        count >= 1,
        v.len() > 0,
        forall|i: int| 0 <= i < m.entries.len() ==> #[trigger] m.entries[i].size == v.len(),
        count * v.len() <= m.max_bytes < (count + 1) * v.len(),
    ensures
        after_fetch(m, k, Some(v)).entries == m.entries.drop_first().push(
            EntryModel { key: k, value: v, size: v.len() },
        ),
        lookup_result(after_fetch(m, k, Some(v)), m.entries[0].key) == LookupModel::Fetch,
{
    let s = m.entries;
    let c = v.len();
    lemma_uniform_total(s, c);
    lemma_uniform_total(s.drop_first(), c);
    assert((count + 1) * c == count * c + c) by (nonlinear_arith);
    assert(s.drop_first().len() * c + c == count * c) by (nonlinear_arith)
        requires
            s.drop_first().len() == count - 1,
            count >= 1,
    ;
    assert(evicted(s.drop_first(), c, m.max_bytes) == s.drop_first());
    assert(evicted(s, c, m.max_bytes) == s.drop_first());
    let m1 = after_fetch(m, k, Some(v));
    let gone = s[0].key;
    assert(!m.in_flight.contains(s[0].key));
    if is_cached(m1.entries, gone) {
        let a = choose|a: int| 0 <= a < m1.entries.len() && m1.entries[a].key == gone;
        if a < count - 1 {
            assert(m1.entries[a] == s[a + 1]);
        }
    }
}

/// A fetch outcome with its value viewed as bytes.
pub open spec fn outcome_view(o: Result<Vec<u8>, FetchError>) -> Result<Seq<u8>, FetchError> {
    match o {
        Ok(v) => Ok(v@),
        Err(e) => Err(e),
    }
}

/// The value that a fetch outcome brings into the catalog, if any.
pub open spec fn fetched(o: Result<Vec<u8>, FetchError>) -> Option<Seq<u8>> {
    match o {
        Ok(v) => Some(v@),
        Err(_) => None,
    }
}

/// What a lookup tells its caller: the cached value, that a fetch of the key
/// is already under way (wait for its outcome), or that the caller must fetch
/// the key and hand the outcome to `complete`.
pub enum Lookup {
    Hit(Vec<u8>),
    Pending,
    Fetch,
}

impl View for Lookup {
    type V = LookupModel;

    open spec fn view(&self) -> LookupModel {
        match self {
            Lookup::Hit(v) => LookupModel::Hit(v@),
            Lookup::Pending => LookupModel::Pending,
            Lookup::Fetch => LookupModel::Fetch,
        }
    }
}

struct CacheEntry {
    key: String,
    value: Vec<u8>,
    size: u64,
}

impl CacheEntry {
    closed spec fn model(&self) -> EntryModel {
        EntryModel { key: self.key@, value: self.value@, size: self.size as nat }
    }
}

fn copy_bytes(v: &Vec<u8>) -> (r: Vec<u8>)
    ensures
        r@ == v@,
{
    let mut r: Vec<u8> = Vec::with_capacity(v.len());
    let mut i: usize = 0;
    while i < v.len()
        invariant
            0 <= i <= v@.len(),
            r@ == v@.take(i as int),
        decreases v@.len() - i,
    {
        r.push(v[i]);
        i = i + 1;
        assert(r@ =~= v@.take(i as int));
    }
    assert(r@ =~= v@);
    r
}

/// Bounded cache of resolved symbol data, keyed by symbol or sourcemap
/// identifier.
pub struct Catalog {
    max_bytes: u64,
    entries: Vec<CacheEntry>,
    total: u64,
    in_flight: Vec<String>,
}

impl View for Catalog {
    type V = CatalogModel;

    closed spec fn view(&self) -> CatalogModel {
        CatalogModel {
            max_bytes: self.max_bytes as nat,
            entries: self.entries@.map_values(|e: CacheEntry| e.model()),
            in_flight: self.in_flight@.map_values(|k: String| k@).to_set(),
        }
    }
}

impl Catalog {
    pub closed spec fn wf(&self) -> bool {
        &&& catalog_wf(self@)
        &&& self.total as nat == total_bytes(self@.entries)
        &&& forall|i: int, j: int|
            0 <= i < self.in_flight@.len() && 0 <= j < self.in_flight@.len() && i != j
                ==> self.in_flight@[i]@ != self.in_flight@[j]@
    }

    /// An empty catalog with a budget of `max_bytes`.
    pub fn new(max_bytes: u64) -> (r: Catalog)
        ensures
            r.wf(),
            r@.max_bytes == max_bytes as nat,
            r@.entries == Seq::<EntryModel>::empty(),
            r@.in_flight == Set::<Seq<char>>::empty(),
    {
        let r = Catalog { max_bytes, entries: Vec::new(), total: 0, in_flight: Vec::new() };
        assert(r@.entries =~= Seq::<EntryModel>::empty());
        assert(r@.in_flight =~= Set::<Seq<char>>::empty());
        r
    }

    pub fn max_bytes(&self) -> (r: u64)
        ensures
            r as nat == self@.max_bytes,
    {
        self.max_bytes
    }

    /// Number of cached entries.
    pub fn len(&self) -> (r: usize)
        ensures
            r == self@.entries.len(),
    {
        self.entries.len()
    }

    /// Bytes held by the cached entries.
    pub fn total_bytes(&self) -> (r: u64)
        requires
            self.wf(),
        ensures
            r as nat == total_bytes(self@.entries),
    {
        self.total
    }

    pub fn contains(&self, key: &String) -> (r: bool)
        ensures
            r == is_cached(self@.entries, key@),
    {
        match self.find_entry(key) {
            Some(_) => true,
            None => false,
        }
    }

    /// Whether a fetch of `key` is under way.
    pub fn is_in_flight(&self, key: &String) -> (r: bool)
        ensures
            r == self@.in_flight.contains(key@),
    {
        match self.find_in_flight(key) {
            Some(j) => {
                proof {
                    let ks = self.in_flight@.map_values(|k: String| k@);
                    assert(ks[j as int] == key@);
                }
                true
            },
            None => false,
        }
    }

    fn find_entry(&self, key: &String) -> (r: Option<usize>)
        ensures
            match r {
                Some(i) => i < self@.entries.len() && self@.entries[i as int].key == key@,
                None => !is_cached(self@.entries, key@),
            },
    {
        let mut i: usize = 0;
        while i < self.entries.len()
            invariant
                0 <= i <= self.entries@.len(),
                forall|j: int| 0 <= j < i ==> self@.entries[j].key != key@,
            decreases self.entries@.len() - i,
        {
            assert(self@.entries[i as int] == self.entries@[i as int].model());
            if self.entries[i].key == *key {
                return Some(i);
            }
            i = i + 1;
        }
        None
    }

    fn find_in_flight(&self, key: &String) -> (r: Option<usize>)
        ensures
            match r {
                Some(i) => i < self.in_flight@.len() && self.in_flight@[i as int]@ == key@,
                None => !self@.in_flight.contains(key@),
            },
    {
        let mut i: usize = 0;
        while i < self.in_flight.len()
            invariant
                0 <= i <= self.in_flight@.len(),
                forall|j: int| 0 <= j < i ==> self.in_flight@[j]@ != key@,
            decreases self.in_flight@.len() - i,
        {
            if self.in_flight[i] == *key {
                return Some(i);
            }
            i = i + 1;
        }
        proof {
            if self@.in_flight.contains(key@) {
                let ks = self.in_flight@.map_values(|k: String| k@);
                assert(ks.contains(key@));
                let j = choose|j: int| 0 <= j < ks.len() && ks[j] == key@;
                assert(self.in_flight@[j]@ == key@);
            }
        }
        None
    }

    /// Looks `key` up. A hit makes the entry the most recently used; a miss
    /// with no fetch under way marks the key as being fetched, and the caller
    /// owes `complete` the outcome of its fetch.
    pub fn lookup(&mut self, key: &String) -> (r: Lookup)
        requires
            old(self).wf(),
        ensures
            final(self).wf(),
            final(self)@ == after_lookup(old(self)@, key@),
            r@ == lookup_result(old(self)@, key@),
            within_budget(final(self)@.entries, final(self)@.max_bytes),
    {
        proof {
            lemma_budget_invariant(self@, key@, None);
        }
        match self.find_entry(key) {
            Some(i) => {
                let ghost s = self@.entries;
                proof {
                    assert(s[i as int].key == key@);
                    assert(is_cached(s, key@));
                    let j = index_of(s, key@);
                    assert(s[j].key == key@);
                    assert(j == i);
                    lemma_touched(s, i as int);
                }
                let e = self.entries.remove(i);
                let v = copy_bytes(&e.value);
                self.entries.push(e);
                assert(self@.entries =~= touched(s, i as int));
                assert(self@.in_flight == old(self)@.in_flight);
                assert(self@ == after_lookup(old(self)@, key@));
                Lookup::Hit(v)
            },
            None => match self.find_in_flight(key) {
                Some(j) => {
                    proof {
                        let ks = self.in_flight@.map_values(|k: String| k@);
                        assert(ks[j as int] == key@);
                        assert(ks.contains(key@));
                    }
                    assert(self@ == after_lookup(old(self)@, key@));
                    Lookup::Pending
                },
                None => {
                    let ghost old_ks = self.in_flight@.map_values(|k: String| k@);
                    self.in_flight.push(key.clone());
                    proof {
                        let ks = self.in_flight@.map_values(|k: String| k@);
                        assert(ks =~= old_ks.push(key@));
                        assert forall|x: Seq<char>| ks.contains(x) == (old_ks.contains(x) || x == key@) by {
                            if old_ks.contains(x) {
                                let j = choose|j: int| 0 <= j < old_ks.len() && old_ks[j] == x;
                                assert(ks[j] == x);
                            }
                            if x == key@ {
                                assert(ks[old_ks.len() as int] == x);
                            }
                        }
                        assert(self@.in_flight =~= old(self)@.in_flight.insert(key@));
                        assert forall|a: int, b: int|
                            0 <= a < self.in_flight@.len() && 0 <= b < self.in_flight@.len() && a
                                != b implies self.in_flight@[a]@ != self.in_flight@[b]@ by {
                            if a == old_ks.len() {
                                assert(old_ks[b] == self.in_flight@[b]@);
                            }
                            if b == old_ks.len() {
                                assert(old_ks[a] == self.in_flight@[a]@);
                            }
                        }
                    }
                    assert(self@.entries == old(self)@.entries);
                    assert(self@ == after_lookup(old(self)@, key@));
                    Lookup::Fetch
                },
            },
        }
    }

    fn make_room(&mut self, size: u64)
        requires
            old(self).total as nat == total_bytes(old(self)@.entries),
        ensures
            final(self)@.entries == evicted(old(self)@.entries, size as nat, old(self)@.max_bytes),
            final(self).total as nat == total_bytes(final(self)@.entries),
            final(self).max_bytes == old(self).max_bytes,
            final(self).in_flight == old(self).in_flight,
    {
        while self.entries.len() > 0 && (size > self.max_bytes || self.total > self.max_bytes - size)
            invariant
                self.total as nat == total_bytes(self@.entries),
                evicted(self@.entries, size as nat, self.max_bytes as nat) == evicted(
                    old(self)@.entries,
                    size as nat,
                    old(self).max_bytes as nat,
                ),
                self.max_bytes == old(self).max_bytes,
                self.in_flight == old(self).in_flight,
            decreases self.entries@.len(),
        {
            let ghost before = self@.entries;
            let e = self.entries.remove(0);
            assert(self@.entries =~= before.drop_first());
            self.total = self.total - e.size;
        }
    }

    /// Records the outcome of the fetch of `key` that an earlier `lookup`
    /// asked for, and hands the same outcome back for every caller waiting on
    /// it. A value is cached as the most recent entry, after evicting least
    /// recently used entries until it fits the budget; when it alone exceeds
    /// the budget every other entry is evicted and it is kept anyway. A
    /// failure is not cached.
    pub fn complete(&mut self, key: &String, outcome: Result<Vec<u8>, FetchError>) -> (r: Result<
        Vec<u8>,
        FetchError,
    >)
        requires
            old(self).wf(),
            old(self)@.in_flight.contains(key@),
        ensures
            final(self).wf(),
            final(self)@ == after_fetch(old(self)@, key@, fetched(outcome)),
            outcome_view(r) == outcome_view(outcome),
            within_budget(final(self)@.entries, final(self)@.max_bytes),
    {
        proof {
            lemma_budget_invariant(self@, key@, fetched(outcome));
        }
        let found = self.find_in_flight(key);
        if let Some(j) = found {
            let ghost old_ks = self.in_flight@.map_values(|k: String| k@);
            self.in_flight.remove(j);
            proof {
                let ks = self.in_flight@.map_values(|k: String| k@);
                assert(ks =~= old_ks.remove(j as int));
                assert forall|x: Seq<char>| ks.contains(x) == (old_ks.contains(x) && x != key@) by {
                    if ks.contains(x) {
                        let a = choose|a: int| 0 <= a < ks.len() && ks[a] == x;
                        let oa = if a < j { a } else { a + 1 };
                        assert(old_ks[oa] == x);
                        assert(old_ks[j as int] == key@);
                    }
                    if old_ks.contains(x) && x != key@ {
                        let oa = choose|oa: int| 0 <= oa < old_ks.len() && old_ks[oa] == x;
                        let a = if oa < j { oa } else { oa - 1 };
                        assert(ks[a] == x);
                    }
                }
                assert(self@.in_flight =~= old(self)@.in_flight.remove(key@));
                assert forall|a: int, b: int|
                    0 <= a < self.in_flight@.len() && 0 <= b < self.in_flight@.len() && a
                        != b implies self.in_flight@[a]@ != self.in_flight@[b]@ by {
                    let oa = if a < j { a } else { a + 1 };
                    let ob = if b < j { b } else { b + 1 };
                    assert(self.in_flight@[a] == old(self).in_flight@[oa]);
                    assert(self.in_flight@[b] == old(self).in_flight@[ob]);
                }
            }
        }
        match outcome {
            Err(e) => {
                assert(self@ == after_fetch(old(self)@, key@, fetched(outcome)));
                Err(e)
            },
            Ok(value) => {
                let size = value.len() as u64;
                let ghost mid = self@;
                self.make_room(size);
                let stored = copy_bytes(&value);
                let entry = CacheEntry { key: key.clone(), value: stored, size };
                proof {
                    lemma_evicted(mid.entries, size as nat, mid.max_bytes);
                    lemma_total_push(self@.entries, entry.model());
                }
                let ghost evicted_entries = self@.entries;
                self.entries.push(entry);
                self.total = self.total + size;
                assert(self@.entries =~= evicted_entries.push(entry.model()));
                assert(self@ == after_fetch(old(self)@, key@, fetched(outcome)));
                Ok(value)
            },
        }
    }
}

} // verus!
