//! A small in-memory table: rows kept in an arena, a primary-key index made of
//! sorted leaf pages, and insert, select and range-scan statements.
use vstd::prelude::*;
use vstd::string::StringExecFns;
use crate::text::{decimal_chars, with_decimal};

verus! {

pub const LEAF_CAPACITY: usize = 4;

#[derive(Debug, Clone, PartialEq, Eq)]
pub struct Row {
    pub id: u64,
    pub value: String,
}

#[derive(Debug, Copy, Clone, PartialEq, Eq, Structural)]
pub struct RowRef(pub usize);

#[derive(Debug)]
pub struct RowArena {
    pub rows: Vec<Row>,
}

#[derive(Debug, Clone, PartialEq, Eq)]
pub struct LeafPage {
    pub keys: Vec<u64>,
    pub values: Vec<RowRef>,
}

#[derive(Debug)]
pub struct PrimaryIndex {
    pub leaves: Vec<LeafPage>,
}

pub struct LeafView {
    pub keys: Seq<u64>,
    pub values: Seq<RowRef>,
}

impl View for LeafPage {
    type V = LeafView;

    open spec fn view(&self) -> LeafView {
        LeafView { keys: self.keys@, values: self.values@ }
    }
}

impl View for PrimaryIndex {
    type V = Seq<LeafView>;

    open spec fn view(&self) -> Seq<LeafView> {
        self.leaves@.map_values(|l: LeafPage| l@)
    }
}

/// The (key, row) pairs of one leaf, in order.
pub open spec fn leaf_entries(l: LeafView) -> Seq<(u64, RowRef)> {
    Seq::new(l.keys.len(), |i: int| (l.keys[i], l.values[i]))
}

/// All (key, row) pairs of an index, leaf after leaf.
pub open spec fn index_entries(ls: Seq<LeafView>) -> Seq<(u64, RowRef)>
    decreases ls.len(),
{
    if ls.len() == 0 {
        Seq::empty()
    } else {
        index_entries(ls.drop_last()) + leaf_entries(ls.last())
    }
}

pub open spec fn strictly_sorted(keys: Seq<u64>) -> bool {
    forall|i: int, j: int| 0 <= i < j < keys.len() ==> keys[i] < keys[j]
}

pub open spec fn entries_sorted(s: Seq<(u64, RowRef)>) -> bool {
    forall|i: int, j: int| 0 <= i < j < s.len() ==> s[i].0 < s[j].0
}

pub open spec fn leaf_ok(l: LeafView, cap: nat) -> bool {
    &&& l.keys.len() == l.values.len()
    &&& 0 < l.keys.len() <= cap
    &&& strictly_sorted(l.keys)
}

/// Every leaf holds one to `cap` keys in increasing order, and every key of a
/// leaf is below every key of the leaves after it.
pub open spec fn index_wf_cap(ls: Seq<LeafView>, cap: nat) -> bool {
    &&& forall|i: int| 0 <= i < ls.len() ==> leaf_ok(#[trigger] ls[i], cap)
    &&& forall|i: int, j: int| 0 <= i < j < ls.len() ==> (#[trigger] ls[i]).keys.last() < (#[trigger] ls[j]).keys[0]
}

/// The shape the index keeps between operations.
pub open spec fn index_wf(ls: Seq<LeafView>) -> bool {
    index_wf_cap(ls, LEAF_CAPACITY as nat)
}

pub open spec fn has_key(s: Seq<(u64, RowRef)>, key: u64) -> bool {
    exists|i: int| 0 <= i < s.len() && (#[trigger] s[i]).0 == key
}

/// The row stored under `key`, if any.
/// A position holding `key`, when there is one.
pub open spec fn key_position(s: Seq<(u64, RowRef)>, key: u64) -> int {
    choose|i: int| 0 <= i < s.len() && (#[trigger] s[i]).0 == key
}

/// The row stored under `key`, if any.
pub open spec fn lookup(s: Seq<(u64, RowRef)>, key: u64) -> Option<RowRef> {
    if has_key(s, key) {
        Some(s[key_position(s, key)].1)
    } else {
        None
    }
}

/// Whether an entry's key lies in `start..=end`.
pub open spec fn in_range(start: u64, end: u64) -> spec_fn((u64, RowRef)) -> bool {
    |e: (u64, RowRef)| start <= e.0 <= end
}

/// The rows whose keys lie in `start..=end`, in key order.
pub open spec fn range_rows(s: Seq<(u64, RowRef)>, start: u64, end: u64) -> Seq<RowRef> {
    s.filter(in_range(start, end)).map_values(|e: (u64, RowRef)| e.1)
}

/// `s` with `(key, row)` added at its place in key order.
pub open spec fn is_sorted_insert(s: Seq<(u64, RowRef)>, key: u64, row: RowRef, t: Seq<(u64, RowRef)>) -> bool {
    &&& entries_sorted(t)
    &&& exists|q: int| 0 <= q <= s.len() && t == s.take(q) + seq![(key, row)] + s.skip(q)
}

// ---------------------------------------------------------------------------
// Lemmas about the entries of an index
// ---------------------------------------------------------------------------

proof fn lemma_index_entries_add(a: Seq<LeafView>, b: Seq<LeafView>)
    ensures
        index_entries(a + b) == index_entries(a) + index_entries(b),
    decreases b.len(),
{
    if b.len() == 0 {
        assert(a + b =~= a);
        assert(index_entries(a) + index_entries(b) =~= index_entries(a));
    } else {
        assert((a + b).drop_last() =~= a + b.drop_last());
        lemma_index_entries_add(a, b.drop_last());
        assert(index_entries(a + b) =~= index_entries(a) + index_entries(b));
    }
}

proof fn lemma_index_entries_single(l: LeafView)
    ensures
        index_entries(seq![l]) == leaf_entries(l),
{
    assert(seq![l].drop_last() =~= Seq::<LeafView>::empty());
    assert(index_entries(Seq::<LeafView>::empty()) == Seq::<(u64, RowRef)>::empty());
    assert(seq![l].last() == l);
    assert(index_entries(seq![l]) =~= leaf_entries(l));
}

/// The entries split around leaf `i`.
proof fn lemma_index_entries_split(ls: Seq<LeafView>, i: int)
    requires
        0 <= i < ls.len(),
    ensures
        index_entries(ls) == index_entries(ls.take(i)) + leaf_entries(ls[i]) + index_entries(ls.skip(i + 1)),
{
    assert(ls =~= ls.take(i) + seq![ls[i]] + ls.skip(i + 1));
    lemma_index_entries_add(ls.take(i) + seq![ls[i]], ls.skip(i + 1));
    lemma_index_entries_add(ls.take(i), seq![ls[i]]);
    lemma_index_entries_single(ls[i]);
}

/// If every key of every leaf lies in `lo..=hi`, so does every key of the entries.
proof fn lemma_entries_within(ls: Seq<LeafView>, lo: int, hi: int)
    requires
        forall|i: int, j: int| 0 <= i < ls.len() && 0 <= j < ls[i].keys.len() ==> lo <= (#[trigger] ls[i].keys[j]) <= hi,
    ensures
        forall|k: int| 0 <= k < index_entries(ls).len() ==> lo <= (#[trigger] index_entries(ls)[k]).0 <= hi,
    decreases ls.len(),
{
    if ls.len() > 0 {
        let init = ls.drop_last();
        assert forall|i: int, j: int| 0 <= i < init.len() && 0 <= j < init[i].keys.len() implies lo <= (#[trigger] init[i].keys[j]) <= hi by {
            assert(init[i] == ls[i]);
        }
        lemma_entries_within(init, lo, hi);
        let e = index_entries(ls);
        let n = index_entries(init).len();
        assert forall|k: int| 0 <= k < e.len() implies lo <= (#[trigger] e[k]).0 <= hi by {
            if k < n {
                assert(e[k] == index_entries(init)[k]);
            } else {
                assert(e[k] == leaf_entries(ls.last())[k - n]);
                assert(ls[ls.len() - 1] == ls.last());
                assert(ls[ls.len() - 1].keys[k - n] == e[k].0);
            }
        }
    }
}

/// A well-formed index lists its entries in strictly increasing key order.
proof fn lemma_wf_sorted(ls: Seq<LeafView>, cap: nat)
    requires
        index_wf_cap(ls, cap),
    ensures
        entries_sorted(index_entries(ls)),
    decreases ls.len(),
{
    if ls.len() > 0 {
        let init = ls.drop_last();
        let last = ls.last();
        assert(ls[ls.len() - 1] == last);
        assert forall|i: int| 0 <= i < init.len() implies leaf_ok(#[trigger] init[i], cap) by {
            assert(init[i] == ls[i]);
        }
        assert forall|i: int, j: int| 0 <= i < j < init.len() implies (#[trigger] init[i]).keys.last() < (#[trigger] init[j]).keys[0] by {
            assert(init[i] == ls[i] && init[j] == ls[j]);
        }
        lemma_wf_sorted(init, cap);
        assert(leaf_ok(last, cap));
        let first = last.keys[0];
        assert forall|i: int, j: int| 0 <= i < init.len() && 0 <= j < init[i].keys.len() implies 0 <= (#[trigger] init[i].keys[j]) <= first - 1 by {
            assert(init[i] == ls[i]);
            assert(leaf_ok(ls[i], cap));
            assert(ls[i].keys[j] <= ls[i].keys.last());
            assert(ls[i].keys.last() < ls[ls.len() - 1].keys[0]);
        }
        lemma_entries_within(init, 0, first - 1);
        let a = index_entries(init);
        let b = leaf_entries(last);
        assert(index_entries(ls) == a + b);
        assert forall|x: int, y: int| 0 <= x < y < (a + b).len() implies (#[trigger] (a + b)[x]).0 < (#[trigger] (a + b)[y]).0 by {
            if y < a.len() {
            } else if x >= a.len() {
                assert(b[x - a.len()].0 == last.keys[x - a.len()]);
                assert(b[y - a.len()].0 == last.keys[y - a.len()]);
            } else {
                assert(a[x].0 <= first - 1);
                assert(b[y - a.len()].0 == last.keys[y - a.len()]);
                assert(last.keys[0] <= last.keys[y - a.len()]);
            }
        }
    }
}


// ---------------------------------------------------------------------------
// Row arena
// ---------------------------------------------------------------------------

pub struct RowView {
    pub id: u64,
    pub value: Seq<char>,
}

impl View for Row {
    type V = RowView;

    open spec fn view(&self) -> RowView {
        RowView { id: self.id, value: self.value@ }
    }
}

impl View for RowArena {
    type V = Seq<RowView>;

    open spec fn view(&self) -> Seq<RowView> {
        self.rows@.map_values(|r: Row| r@)
    }
}

impl RowArena {
    pub fn new() -> (a: RowArena)
        ensures
            a@.len() == 0,
    {
        RowArena { rows: Vec::new() }
    }

    pub fn insert(&mut self, row: Row) -> (r: RowRef)
        ensures
            r.0 == old(self)@.len(),
            final(self)@ == old(self)@.push(row@),
    {
        let reference = RowRef(self.rows.len());
        let ghost old_rows = self.rows@;
        self.rows.push(row);
        assert(self.rows@.map_values(|r: Row| r@) =~= old_rows.map_values(|r: Row| r@).push(row@));
        reference
    }

    pub fn get(&self, reference: RowRef) -> (r: Option<&Row>)
        ensures
            reference.0 < self@.len() ==> r is Some && r.unwrap()@ == self@[reference.0 as int],
            reference.0 >= self@.len() ==> r is None,
    {
        if reference.0 < self.rows.len() {
            Some(&self.rows[reference.0])
        } else {
            None
        }
    }
}

// ---------------------------------------------------------------------------
// Primary index: lookups
// ---------------------------------------------------------------------------

/// Whether `key` may go into leaf `l`: the leaf is empty or its last key is not below `key`.
pub open spec fn leaf_accepts(l: LeafView, key: u64) -> bool {
    l.keys.len() == 0 || key <= l.keys.last()
}

/// The leaf that `find_leaf_index` picks: the first that accepts `key`, or the last leaf.
pub open spec fn is_leaf_for(ls: Seq<LeafView>, key: u64, r: int) -> bool {
    if ls.len() == 0 {
        r == 0
    } else {
        &&& 0 <= r < ls.len()
        &&& forall|j: int| 0 <= j < r ==> !leaf_accepts(#[trigger] ls[j], key)
        &&& leaf_accepts(ls[r], key) || r == ls.len() - 1
    }
}

/// Where `key` is, or where it would go, in strictly increasing `keys`.
fn search_keys(keys: &Vec<u64>, key: u64) -> (r: Result<usize, usize>)
    requires
        strictly_sorted(keys@),
    ensures
        match r {
            Ok(i) => i < keys@.len() && keys@[i as int] == key,
            Err(p) => p <= keys@.len() && (forall|j: int| 0 <= j < p ==> keys@[j] < key) && (forall|j: int|
                p <= j < keys@.len() ==> keys@[j] > key),
        },
{
    let mut lo: usize = 0;
    let mut hi: usize = keys.len();
    while lo < hi
        invariant
            lo <= hi <= keys@.len(),
            strictly_sorted(keys@),
            forall|j: int| 0 <= j < lo ==> keys@[j] < key,
            forall|j: int| hi <= j < keys@.len() ==> keys@[j] > key,
        decreases hi - lo,
    {
        let mid = lo + (hi - lo) / 2;
        let k = keys[mid];
        if k == key {
            return Ok(mid);
        } else if k < key {
            lo = mid + 1;
        } else {
            hi = mid;
        }
    }
    Err(lo)
}

impl PrimaryIndex {
    pub fn new() -> (p: PrimaryIndex)
        ensures
            p@.len() == 0,
    {
        PrimaryIndex { leaves: Vec::new() }
    }

    pub fn find_leaf_index(&self, key: u64) -> (r: usize)
        ensures
            is_leaf_for(self@, key, r as int),
    {
        let mut i: usize = 0;
        while i < self.leaves.len()
            invariant
                i <= self.leaves@.len(),
                forall|j: int| 0 <= j < i ==> !leaf_accepts(#[trigger] self@[j], key),
            decreases self.leaves.len() - i,
        {
            let leaf = &self.leaves[i];
            assert(self@[i as int] == leaf@);
            if leaf.keys.len() == 0 || key <= leaf.keys[leaf.keys.len() - 1] {
                return i;
            }
            i = i + 1;
        }
        if self.leaves.len() == 0 {
            0
        } else {
            self.leaves.len() - 1
        }
    }

    pub fn get(&self, key: u64) -> (r: Option<RowRef>)
        requires
            index_wf(self@),
        ensures
            r == lookup(index_entries(self@), key),
    {
        let ghost ls = self@;
        let i = self.find_leaf_index(key);
        if i >= self.leaves.len() {
            assert(ls.len() == 0);
            assert(index_entries(ls) =~= Seq::<(u64, RowRef)>::empty());
            return None;
        }
        let leaf = &self.leaves[i];
        assert(ls[i as int] == leaf@);
        let found = search_keys(&leaf.keys, key);
        proof {
            lemma_locate(ls, key, i as int);
        }
        match found {
            Ok(p) => {
                proof {
                    lemma_lookup_at(index_entries(ls), index_entries(ls.take(i as int)).len() + p, key);
                }
                Some(leaf.values[p])
            },
            Err(_) => None,
        }
    }

    pub fn range(&self, start: u64, end: u64) -> (r: Vec<RowRef>)
        requires
            index_wf(self@),
        ensures
            r@ == (if start > end { Seq::empty() } else { range_rows(index_entries(self@), start, end) }),
    {
        if start > end {
            return Vec::new();
        }
        let mut out: Vec<RowRef> = Vec::new();
        let mut i: usize = 0;
        while i < self.leaves.len()
            invariant
                i <= self.leaves@.len(),
                index_wf(self@),
                out@ == range_rows(index_entries(self@.take(i as int)), start, end),
            decreases self.leaves.len() - i,
        {
            let leaf = &self.leaves[i];
            let ghost before = index_entries(self@.take(i as int));
            proof {
                assert(self@.take(i + 1).drop_last() =~= self@.take(i as int));
                assert(self@.take(i + 1).last() == leaf@);
                assert(self@[i as int] == leaf@);
                assert(leaf_ok(self@[i as int], LEAF_CAPACITY as nat));
                assert(before + leaf_entries(leaf@).take(0) =~= before);
            }
            let mut j: usize = 0;
            while j < leaf.keys.len()
                invariant
                    j <= leaf.keys@.len(),
                    leaf.keys@.len() == leaf.values@.len(),
                    out@ == range_rows(before + leaf_entries(leaf@).take(j as int), start, end),
                decreases leaf.keys.len() - j,
            {
                let key = leaf.keys[j];
                let ghost s1 = before + leaf_entries(leaf@).take(j as int);
                let ghost s2 = before + leaf_entries(leaf@).take(j + 1);
                proof {
                    assert(s2 =~= s1.push((key, leaf.values@[j as int])));
                    lemma_range_rows_push(s1, (key, leaf.values@[j as int]), start, end);
                }
                if key >= start && key <= end {
                    out.push(leaf.values[j]);
                }
                j = j + 1;
            }
            proof {
                assert(leaf_entries(leaf@).take(j as int) =~= leaf_entries(leaf@));
            }
            i = i + 1;
        }
        assert(self@.take(i as int) =~= self@);
        out
    }
}

proof fn lemma_range_rows_push(s: Seq<(u64, RowRef)>, e: (u64, RowRef), start: u64, end: u64)
    ensures
        range_rows(s.push(e), start, end) == range_rows(s, start, end) + if start <= e.0 <= end {
            seq![e.1]
        } else {
            Seq::empty()
        },
{
    let pred = in_range(start, end);
    reveal(Seq::filter);
    assert(s.push(e).drop_last() =~= s);
    let f = s.filter(pred);
    if pred(e) {
        assert(s.push(e).filter(pred) == f.push(e));
        assert(f.push(e).map_values(|x: (u64, RowRef)| x.1) =~= f.map_values(|x: (u64, RowRef)| x.1) + seq![e.1]);
    } else {
        assert(s.push(e).filter(pred) == f);
        assert(f.map_values(|x: (u64, RowRef)| x.1) + Seq::<RowRef>::empty() =~= f.map_values(|x: (u64, RowRef)| x.1));
    }
}

/// In a list sorted by key, the entry at `q` is the one `lookup` finds.
proof fn lemma_lookup_at(s: Seq<(u64, RowRef)>, q: int, key: u64)
    requires
        entries_sorted(s),
        0 <= q < s.len(),
        s[q].0 == key,
    ensures
        lookup(s, key) == Some(s[q].1),
{
    assert(has_key(s, key));
    let c = choose|i: int| 0 <= i < s.len() && (#[trigger] s[i]).0 == key;
    if c < q {
        assert(s[c].0 < s[q].0);
    } else if c > q {
        assert(s[q].0 < s[c].0);
    }
}

/// The leaf that `find_leaf_index` picks is the only one that can hold `key`:
/// every key before it is smaller, every key after it larger.
proof fn lemma_locate(ls: Seq<LeafView>, key: u64, i: int)
    requires
        index_wf(ls),
        is_leaf_for(ls, key, i),
        0 <= i < ls.len(),
    ensures
        index_entries(ls) == index_entries(ls.take(i)) + leaf_entries(ls[i]) + index_entries(ls.skip(i + 1)),
        forall|k: int| 0 <= k < index_entries(ls.take(i)).len() ==> (#[trigger] index_entries(ls.take(i))[k]).0 < key,
        forall|k: int| 0 <= k < index_entries(ls.skip(i + 1)).len() ==> (#[trigger] index_entries(ls.skip(i + 1))[k]).0 > key,
        leaf_entries(ls[i]).len() == ls[i].keys.len(),
        forall|k: int| 0 <= k < ls[i].keys.len() ==> #[trigger] leaf_entries(ls[i])[k] == (ls[i].keys[k], ls[i].values[k]),
        entries_sorted(index_entries(ls)),
        has_key(index_entries(ls), key) <==> ls[i].keys.contains(key),
        !has_key(index_entries(ls), key) ==> lookup(index_entries(ls), key) is None,
{
    lemma_index_entries_split(ls, i);
    lemma_wf_sorted(ls, LEAF_CAPACITY as nat);
    let before = ls.take(i);
    let after = ls.skip(i + 1);
    assert forall|a: int, b: int| 0 <= a < before.len() && 0 <= b < before[a].keys.len() implies 0 <= (#[trigger] before[a].keys[b]) <= key - 1 by {
        assert(before[a] == ls[a]);
        assert(leaf_ok(ls[a], LEAF_CAPACITY as nat));
        assert(!leaf_accepts(ls[a], key));
        assert(ls[a].keys[b] <= ls[a].keys.last());
    }
    lemma_entries_within(before, 0, key - 1);
    if after.len() > 0 {
        assert(leaf_accepts(ls[i], key));
        assert(leaf_ok(ls[i], LEAF_CAPACITY as nat));
        assert forall|a: int, b: int| 0 <= a < after.len() && 0 <= b < after[a].keys.len() implies key + 1 <= (#[trigger] after[a].keys[b]) <= u64::MAX by {
            assert(after[a] == ls[i + 1 + a]);
            assert(leaf_ok(ls[i + 1 + a], LEAF_CAPACITY as nat));
            assert(ls[i].keys.last() < ls[i + 1 + a].keys[0]);
            assert(ls[i + 1 + a].keys[0] <= ls[i + 1 + a].keys[b]);
        }
        lemma_entries_within(after, key + 1, u64::MAX as int);
    } else {
        assert(index_entries(after) =~= Seq::<(u64, RowRef)>::empty());
    }
    let e = index_entries(ls);
    let na = index_entries(before).len();
    let l = leaf_entries(ls[i]);
    if has_key(e, key) {
        let c = choose|c: int| 0 <= c < e.len() && (#[trigger] e[c]).0 == key;
        if c < na {
            assert(e[c] == index_entries(before)[c]);
        } else if c >= na + l.len() {
            assert(e[c] == index_entries(after)[c - na - l.len()]);
        } else {
            assert(e[c] == l[c - na]);
            assert(ls[i].keys[c - na] == key);
        }
    }
    if ls[i].keys.contains(key) {
        let c = choose|c: int| 0 <= c < ls[i].keys.len() && ls[i].keys[c] == key;
        assert(e[na + c] == l[c]);
    }
}


// ---------------------------------------------------------------------------
// Primary index: insertion and leaf splits
// ---------------------------------------------------------------------------

/// Why a statement fails.
#[derive(Debug, Clone, Copy, PartialEq, Eq)]
pub enum QueryError {
    DuplicateKey { key: u64 },
    InvalidQuery,
}

/// Leaf `l` with `(key, row)` put at position `p`.
pub open spec fn leaf_with(l: LeafView, p: int, key: u64, row: RowRef) -> LeafView {
    LeafView { keys: l.keys.insert(p, key), values: l.values.insert(p, row) }
}

/// The leaves after leaf `i` is cut in two at half its length.
pub open spec fn split_at_leaf(ls: Seq<LeafView>, i: int) -> Seq<LeafView> {
    let l = ls[i];
    let m = l.keys.len() / 2;
    ls.take(i) + seq![
        LeafView { keys: l.keys.take(m as int), values: l.values.take(m as int) },
        LeafView { keys: l.keys.skip(m as int), values: l.values.skip(m as int) },
    ] + ls.skip(i + 1)
}

#[verifier::spinoff_prover]
proof fn lemma_insert_into_leaf(ls: Seq<LeafView>, key: u64, row: RowRef, i: int, p: int)
    requires
        index_wf(ls),
        is_leaf_for(ls, key, i),
        0 <= i < ls.len(),
        0 <= p <= ls[i].keys.len(),
        forall|j: int| 0 <= j < p ==> ls[i].keys[j] < key,
        forall|j: int| p <= j < ls[i].keys.len() ==> ls[i].keys[j] > key,
    ensures
        !has_key(index_entries(ls), key),
        index_wf_cap(ls.update(i, leaf_with(ls[i], p, key, row)), (LEAF_CAPACITY + 1) as nat),
        forall|j: int| 0 <= j < ls.len() && j != i ==> (#[trigger] ls.update(i, leaf_with(ls[i], p, key, row))[j]).keys.len() <= LEAF_CAPACITY,
        is_sorted_insert(index_entries(ls), key, row, index_entries(ls.update(i, leaf_with(ls[i], p, key, row)))),
{
    lemma_locate(ls, key, i);
    let l = ls[i];
    let nl = leaf_with(l, p, key, row);
    let ls2 = ls.update(i, nl);
    assert(leaf_ok(l, LEAF_CAPACITY as nat));
    assert(!l.keys.contains(key));
    // the new leaf is sorted
    assert forall|a: int, b: int| 0 <= a < b < nl.keys.len() implies nl.keys[a] < nl.keys[b] by {
        if b < p {
        } else if b == p {
        } else if a < p {
        } else if a == p {
            assert(nl.keys[b] == l.keys[b - 1]);
        } else {
            assert(nl.keys[a] == l.keys[a - 1] && nl.keys[b] == l.keys[b - 1]);
        }
    }
    assert(leaf_ok(nl, (LEAF_CAPACITY + 1) as nat));
    assert forall|j: int| 0 <= j < ls2.len() implies leaf_ok(#[trigger] ls2[j], (LEAF_CAPACITY + 1) as nat) by {
        if j != i {
            assert(leaf_ok(ls[j], LEAF_CAPACITY as nat));
        }
    }
    // the first and last keys of the new leaf
    assert(nl.keys[0] == if p == 0 { key } else { l.keys[0] });
    assert(nl.keys.last() == if p == l.keys.len() { key } else { l.keys.last() });
    assert forall|a: int, b: int| 0 <= a < b < ls2.len() implies (#[trigger] ls2[a]).keys.last() < (#[trigger] ls2[b]).keys[0] by {
        if a == i {
            assert(ls[i].keys.last() < ls[b].keys[0]);
            if p == l.keys.len() {
                // key went last: it is below the leaves after, since the chosen leaf accepted it
                assert(leaf_accepts(ls[i], key) || i == ls.len() - 1);
                if !leaf_accepts(ls[i], key) {
                    assert(false);
                }
                assert(key <= l.keys.last());
                assert(false);
            }
        } else if b == i {
            assert(ls[a].keys.last() < ls[i].keys[0]);
            assert(!leaf_accepts(ls[a], key));
        } else {
            assert(ls2[a] == ls[a] && ls2[b] == ls[b]);
        }
    }
    // the entries
    lemma_index_entries_split(ls2, i);
    assert(ls2.take(i) =~= ls.take(i));
    assert(ls2.skip(i + 1) =~= ls.skip(i + 1));
    let before = index_entries(ls.take(i));
    let after = index_entries(ls.skip(i + 1));
    let le = leaf_entries(l);
    let q = before.len() + p;
    let e = index_entries(ls);
    assert(leaf_entries(nl) =~= le.take(p) + seq![(key, row)] + le.skip(p));
    assert(e.take(q) =~= before + le.take(p));
    assert(e.skip(q) =~= le.skip(p) + after);
    assert(index_entries(ls2) =~= e.take(q) + seq![(key, row)] + e.skip(q));
    lemma_wf_sorted(ls2, (LEAF_CAPACITY + 1) as nat);
}

proof fn lemma_split(ls: Seq<LeafView>, i: int)
    requires
        index_wf_cap(ls, (LEAF_CAPACITY + 1) as nat),
        0 <= i < ls.len(),
        ls[i].keys.len() > LEAF_CAPACITY,
        forall|j: int| 0 <= j < ls.len() && j != i ==> (#[trigger] ls[j]).keys.len() <= LEAF_CAPACITY,
    ensures
        index_wf(split_at_leaf(ls, i)),
        index_entries(split_at_leaf(ls, i)) == index_entries(ls),
{
    let l = ls[i];
    assert(leaf_ok(l, (LEAF_CAPACITY + 1) as nat));
    let m = l.keys.len() / 2;
    let left = LeafView { keys: l.keys.take(m as int), values: l.values.take(m as int) };
    let right = LeafView { keys: l.keys.skip(m as int), values: l.values.skip(m as int) };
    let s2 = split_at_leaf(ls, i);
    assert(s2.len() == ls.len() + 1);
    assert(s2[i] == left && s2[i + 1] == right);
    assert forall|j: int| 0 <= j < s2.len() implies leaf_ok(#[trigger] s2[j], LEAF_CAPACITY as nat) by {
        if j < i {
            assert(s2[j] == ls[j]);
            assert(leaf_ok(ls[j], (LEAF_CAPACITY + 1) as nat));
        } else if j > i + 1 {
            assert(s2[j] == ls[j - 1]);
            assert(leaf_ok(ls[j - 1], (LEAF_CAPACITY + 1) as nat));
        }
    }
    assert forall|a: int, b: int| 0 <= a < b < s2.len() implies (#[trigger] s2[a]).keys.last() < (#[trigger] s2[b]).keys[0] by {
        let oa = if a <= i { a } else { a - 1 };
        let ob = if b <= i { b } else { b - 1 };
        assert(s2[a].keys.last() <= ls[oa].keys.last()) by {
            if a == i {
                assert(left.keys.last() == l.keys[m - 1]);
            } else if a == i + 1 {
                assert(right.keys.last() == l.keys.last());
            } else if a < i {
                assert(s2[a] == ls[a]);
            } else {
                assert(s2[a] == ls[a - 1]);
            }
        }
        assert(s2[b].keys[0] >= ls[ob].keys[0]) by {
            if b == i {
                assert(left.keys[0] == l.keys[0]);
            } else if b == i + 1 {
                assert(right.keys[0] == l.keys[m as int]);
            } else if b < i {
                assert(s2[b] == ls[b]);
            } else {
                assert(s2[b] == ls[b - 1]);
            }
        }
        if oa < ob {
        } else {
            assert(a == i && b == i + 1);
            assert(l.keys[m - 1] < l.keys[m as int]);
        }
    }
    // the entries
    lemma_index_entries_add(ls.take(i) + seq![left, right], ls.skip(i + 1));
    lemma_index_entries_add(ls.take(i), seq![left, right]);
    lemma_index_entries_add(seq![left], seq![right]);
    assert(seq![left] + seq![right] =~= seq![left, right]);
    lemma_index_entries_single(left);
    lemma_index_entries_single(right);
    assert(leaf_entries(left) + leaf_entries(right) =~= leaf_entries(l));
    lemma_index_entries_split(ls, i);
}

impl PrimaryIndex {
    pub fn split_leaf(&mut self, leaf_index: usize)
        requires
            leaf_index < old(self)@.len(),
            old(self)@[leaf_index as int].keys.len() == old(self)@[leaf_index as int].values.len(),
        ensures
            final(self)@ == split_at_leaf(old(self)@, leaf_index as int),
    {
        let ghost old_leaves = self.leaves@;
        let n = self.leaves.len();
        assert(leaf_index < n);
        let leaf = &mut self.leaves[leaf_index];
        let split_at = leaf.keys.len() / 2;
        let sibling = LeafPage { keys: leaf.keys.split_off(split_at), values: leaf.values.split_off(split_at) };
        self.leaves.insert(leaf_index + 1, sibling);
        proof {
            let ls = old_leaves.map_values(|l: LeafPage| l@);
            assert(self@ =~= split_at_leaf(ls, leaf_index as int));
        }
    }

    pub fn insert(&mut self, key: u64, row: RowRef) -> (r: Result<(), QueryError>)
        requires
            index_wf(old(self)@),
        ensures
            index_wf(final(self)@),
            has_key(index_entries(old(self)@), key) ==> r == Err::<(), QueryError>(QueryError::DuplicateKey { key })
                && final(self)@ == old(self)@,
            !has_key(index_entries(old(self)@), key) ==> r is Ok && is_sorted_insert(
                index_entries(old(self)@),
                key,
                row,
                index_entries(final(self)@),
            ),
    {
        let ghost old_ls = self@;
        let was_empty = self.leaves.len() == 0;
        if was_empty {
            self.leaves.push(LeafPage { keys: Vec::new(), values: Vec::new() });
        }
        let leaf_index = self.find_leaf_index(key);
        let found = search_keys(&self.leaves[leaf_index].keys, key);
        let position = match found {
            Ok(_) => {
                proof {
                    lemma_locate(old_ls, key, leaf_index as int);
                }
                return Err(QueryError::DuplicateKey { key });
            },
            Err(p) => p,
        };
        proof {
            if !was_empty {
                lemma_locate(old_ls, key, leaf_index as int);
                lemma_insert_into_leaf(old_ls, key, row, leaf_index as int, position as int);
            } else {
                assert(index_entries(old_ls) =~= Seq::<(u64, RowRef)>::empty());
            }
        }
        let ghost mid_ls = self@;
        let leaf = &mut self.leaves[leaf_index];
        leaf.keys.insert(position, key);
        leaf.values.insert(position, row);
        proof {
            assert(self@ =~= mid_ls.update(leaf_index as int, leaf_with(mid_ls[leaf_index as int], position as int, key, row)));
            if was_empty {
                let nl = self@[0];
                assert(self@.len() == 1);
                assert(nl.keys =~= seq![key]);
                assert(leaf_ok(nl, LEAF_CAPACITY as nat));
                lemma_index_entries_single(nl);
                assert(self@ =~= seq![nl]);
                assert(index_entries(self@) =~= index_entries(old_ls).take(0) + seq![(key, row)] + index_entries(old_ls).skip(0));
            }
        }
        if self.leaves[leaf_index].keys.len() > LEAF_CAPACITY {
            proof {
                lemma_split(self@, leaf_index as int);
            }
            self.split_leaf(leaf_index);
        } else {
            proof {
                if !was_empty {
                    let ls2 = self@;
                    assert forall|j: int| 0 <= j < ls2.len() implies leaf_ok(#[trigger] ls2[j], LEAF_CAPACITY as nat) by {
                        assert(leaf_ok(ls2[j], (LEAF_CAPACITY + 1) as nat));
                    }
                }
            }
        }
        Ok(())
    }
}


// ---------------------------------------------------------------------------
// Table and statements
// ---------------------------------------------------------------------------

#[derive(Debug, PartialEq, Eq)]
pub enum Statement {
    Insert { id: u64, value: String },
    Select { id: u64 },
    Scan { start: u64, end: u64 },
}

#[derive(Debug)]
pub struct Table {
    pub arena: RowArena,
    pub index: PrimaryIndex,
}

/// The table keeps its index well formed, and every indexed row exists and
/// carries the key it is indexed under.
pub open spec fn table_wf(rows: Seq<RowView>, ls: Seq<LeafView>) -> bool {
    &&& index_wf(ls)
    &&& forall|k: int| 0 <= k < index_entries(ls).len() ==> {
        let e = #[trigger] index_entries(ls)[k];
        &&& e.1.0 < rows.len()
        &&& rows[e.1.0 as int].id == e.0
    }
}

/// The rows that a list of row references points to.
pub open spec fn rows_at(rows: Seq<RowView>, refs: Seq<RowRef>) -> Seq<RowView> {
    refs.map_values(|r: RowRef| rows[r.0 as int])
}

/// What a select returns: the row under `id`, if there is one.
pub open spec fn select_rows(rows: Seq<RowView>, ls: Seq<LeafView>, id: u64) -> Seq<RowView> {
    match lookup(index_entries(ls), id) {
        Some(r) => seq![rows[r.0 as int]],
        None => Seq::empty(),
    }
}

/// What a scan returns: the rows whose ids lie in `start..=end`, in id order.
pub open spec fn scan_rows(rows: Seq<RowView>, ls: Seq<LeafView>, start: u64, end: u64) -> Seq<RowView> {
    if start > end {
        Seq::empty()
    } else {
        rows_at(rows, range_rows(index_entries(ls), start, end))
    }
}

fn copy_row(row: &Row) -> (r: Row)
    ensures
        r@ == row@,
{
    Row { id: row.id, value: row.value.clone() }
}

/// Whether some entry refers to row `r`.
pub open spec fn refers_to(s: Seq<(u64, RowRef)>, r: RowRef) -> bool {
    exists|j: int| 0 <= j < s.len() && s[j].1 == r
}

proof fn lemma_range_rows_members(s: Seq<(u64, RowRef)>, start: u64, end: u64)
    ensures
        forall|k: int| 0 <= k < range_rows(s, start, end).len() ==> refers_to(s, #[trigger] range_rows(s, start, end)[k]),
{
    let pred = in_range(start, end);
    let f = s.filter(pred);
    assert forall|k: int| 0 <= k < range_rows(s, start, end).len() implies refers_to(s, #[trigger] range_rows(s, start, end)[k]) by {
        assert(range_rows(s, start, end)[k] == f[k].1);
        assert(f.contains(f[k]));
        s.lemma_filter_contains_rev(pred, f[k]);
        let j = choose|j: int| 0 <= j < s.len() && s[j] == f[k];
        assert(s[j].1 == range_rows(s, start, end)[k]);
    }
}

proof fn lemma_lookup_some(s: Seq<(u64, RowRef)>, key: u64)
    ensures
        lookup(s, key) matches Some(r) ==> exists|k: int| 0 <= k < s.len() && (#[trigger] s[k]).0 == key && s[k].1 == r,
{
    if has_key(s, key) {
        let c = key_position(s, key);
        assert(0 <= c < s.len() && s[c].0 == key);
    }
}

/// A select reads back an insert: once a row is inserted under a new id, a
/// select of that id gives the row, and a select of any other id gives what
/// it gave before.
pub proof fn law_select_reads_insert(
    rows: Seq<RowView>,
    ls: Seq<LeafView>,
    ls2: Seq<LeafView>,
    id: u64,
    value: Seq<char>,
    other: u64,
)
    requires
        table_wf(rows, ls),
        rows.len() <= usize::MAX,
        !has_key(index_entries(ls), id),
        is_sorted_insert(index_entries(ls), id, RowRef(rows.len() as usize), index_entries(ls2)),
        other != id,
    ensures
        select_rows(rows.push(RowView { id, value }), ls2, id) == seq![RowView { id, value }],
        select_rows(rows.push(RowView { id, value }), ls2, other) == select_rows(rows, ls, other),
{
    let s = index_entries(ls);
    let t = index_entries(ls2);
    let r = RowRef(rows.len() as usize);
    let rows2 = rows.push(RowView { id, value });
    let q = choose|q: int| 0 <= q <= s.len() && t == s.take(q) + seq![(id, r)] + s.skip(q);
    assert(t[q] == (id, r));
    lemma_lookup_at(t, q, id);
    lemma_wf_sorted(ls, LEAF_CAPACITY as nat);
    if has_key(s, other) {
        let j = key_position(s, other);
        lemma_lookup_at(s, j, other);
        let k = if j < q { j } else { j + 1 };
        assert(t[k] == s[j]);
        lemma_lookup_at(t, k, other);
        assert(s[j] == index_entries(ls)[j]);
        assert(s[j].1.0 < rows.len());
    } else {
        if has_key(t, other) {
            let k = choose|k: int| 0 <= k < t.len() && (#[trigger] t[k]).0 == other;
            if k < q {
                assert(t[k] == s[k]);
            } else if k > q {
                assert(t[k] == s[k - 1]);
            }
            assert(false);
        }
    }
}

/// The entries in range, taken in order from sorted entries, are sorted and in range.
proof fn lemma_filter_in_range_sorted(s: Seq<(u64, RowRef)>, start: u64, end: u64)
    requires
        entries_sorted(s),
    ensures
        entries_sorted(s.filter(in_range(start, end))),
        forall|k: int| 0 <= k < s.filter(in_range(start, end)).len() ==> start <= (#[trigger] s.filter(in_range(start, end))[k]).0 <= end,
        forall|k: int| 0 <= k < s.filter(in_range(start, end)).len() ==> s.contains(#[trigger] s.filter(in_range(start, end))[k]),
    decreases s.len(),
{
    let pred = in_range(start, end);
    if s.len() > 0 {
        let init = s.drop_last();
        let e = s.last();
        assert(s =~= init.push(e));
        assert(entries_sorted(init)) by {
            assert forall|i: int, j: int| 0 <= i < j < init.len() implies init[i].0 < init[j].0 by {
                assert(init[i] == s[i] && init[j] == s[j]);
            }
        }
        lemma_filter_in_range_sorted(init, start, end);
        reveal(Seq::filter);
        let f0 = init.filter(pred);
        let f = s.filter(pred);
        assert(f == if pred(e) { f0.push(e) } else { f0 });
        assert forall|k: int| 0 <= k < f0.len() implies (#[trigger] f0[k]).0 < e.0 && s.contains(f0[k]) by {
            assert(init.contains(f0[k]));
            let j = choose|j: int| 0 <= j < init.len() && init[j] == f0[k];
            assert(s[j] == init[j]);
            assert(s[s.len() - 1] == e);
        }
        assert(s[s.len() - 1] == e);
    } else {
        reveal(Seq::filter);
        assert(s.filter(pred) =~= Seq::<(u64, RowRef)>::empty());
    }
}

/// A scan gives the rows whose ids lie in the range, in increasing id order.
pub proof fn law_scan_is_ordered(rows: Seq<RowView>, ls: Seq<LeafView>, start: u64, end: u64)
    requires
        table_wf(rows, ls),
    ensures
        forall|i: int, j: int| 0 <= i < j < scan_rows(rows, ls, start, end).len() ==> scan_rows(rows, ls, start, end)[i].id
            < scan_rows(rows, ls, start, end)[j].id,
        forall|i: int| 0 <= i < scan_rows(rows, ls, start, end).len() ==> start <= (#[trigger] scan_rows(rows, ls, start, end)[i]).id <= end,
{
    if start <= end {
        let s = index_entries(ls);
        lemma_wf_sorted(ls, LEAF_CAPACITY as nat);
        lemma_filter_in_range_sorted(s, start, end);
        let f = s.filter(in_range(start, end));
        let out = scan_rows(rows, ls, start, end);
        assert forall|i: int| 0 <= i < out.len() implies (#[trigger] out[i]).id == f[i].0 by {
            assert(s.contains(f[i]));
            let k = choose|k: int| 0 <= k < s.len() && s[k] == f[i];
            assert(index_entries(ls)[k] == s[k]);
            assert(range_rows(s, start, end)[i] == f[i].1);
        }
        assert forall|i: int, j: int| 0 <= i < j < out.len() implies out[i].id < out[j].id by {
            assert(out[i].id == f[i].0);
            assert(out[j].id == f[j].0);
        }
    }
}

/// What the table holds, as one map: each indexed id to its row's value.
pub open spec fn table_map(rows: Seq<RowView>, ls: Seq<LeafView>) -> Map<u64, Seq<char>> {
    Map::new(
        |k: u64| has_key(index_entries(ls), k),
        |k: u64| rows[lookup(index_entries(ls), k)->Some_0.0 as int].value,
    )
}

/// A select gives the row of the id in the table's map, or nothing when the
/// map has no such id.
pub proof fn law_select_is_map_lookup(rows: Seq<RowView>, ls: Seq<LeafView>, id: u64)
    requires
        table_wf(rows, ls),
    ensures
        select_rows(rows, ls, id) == (if table_map(rows, ls).contains_key(id) {
            seq![RowView { id, value: table_map(rows, ls)[id] }]
        } else {
            Seq::<RowView>::empty()
        }),
{
    let s = index_entries(ls);
    lemma_lookup_some(s, id);
    if has_key(s, id) {
        let k = choose|k: int| 0 <= k < s.len() && (#[trigger] s[k]).0 == id && s[k].1 == lookup(s, id)->Some_0;
        assert(rows[s[k].1.0 as int].id == id);
        assert(select_rows(rows, ls, id) =~= seq![RowView { id, value: table_map(rows, ls)[id] }]);
    }
}

/// Inserting a row under a new id adds that id and value to the table's map
/// and leaves every other id as it was.
pub proof fn law_insert_extends_map(
    rows: Seq<RowView>,
    ls: Seq<LeafView>,
    ls2: Seq<LeafView>,
    id: u64,
    value: Seq<char>,
)
    requires
        table_wf(rows, ls),
        rows.len() <= usize::MAX,
        !has_key(index_entries(ls), id),
        is_sorted_insert(index_entries(ls), id, RowRef(rows.len() as usize), index_entries(ls2)),
    ensures
        table_map(rows.push(RowView { id, value }), ls2) == table_map(rows, ls).insert(id, value),
{
    let rows2 = rows.push(RowView { id, value });
    let m1 = table_map(rows, ls);
    let m2 = table_map(rows2, ls2);
    let s = index_entries(ls);
    let t = index_entries(ls2);
    assert forall|k: u64| #[trigger] m2.contains_key(k) == m1.insert(id, value).contains_key(k) && (m2.contains_key(k)
        ==> m2[k] == m1.insert(id, value)[k]) by {
        if k == id {
            law_select_reads_insert(rows, ls, ls2, id, value, if id == 0 { 1 } else { 0 });
            assert(select_rows(rows2, ls2, id).len() == 1);
            assert(has_key(t, id));
        } else {
            law_select_reads_insert(rows, ls, ls2, id, value, k);
            if has_key(s, k) {
                assert(select_rows(rows, ls, k).len() == 1);
                assert(has_key(t, k));
                assert(select_rows(rows2, ls2, k)[0] == select_rows(rows, ls, k)[0]);
            } else if has_key(t, k) {
                assert(select_rows(rows2, ls2, k).len() == 1);
            }
        }
    }
    assert(m2 =~= m1.insert(id, value));
}

/// A scan gives exactly the entries of the table's map whose ids lie in the
/// range: each row is one of them, with its value, and each of them is a row.
pub proof fn law_scan_is_map_range(rows: Seq<RowView>, ls: Seq<LeafView>, start: u64, end: u64, k: u64)
    requires
        table_wf(rows, ls),
    ensures
        forall|i: int| 0 <= i < scan_rows(rows, ls, start, end).len() ==> {
            let r = #[trigger] scan_rows(rows, ls, start, end)[i];
            table_map(rows, ls).contains_key(r.id) && r.value == table_map(rows, ls)[r.id]
        },
        table_map(rows, ls).contains_key(k) && start <= k <= end ==> exists|i: int|
            0 <= i < scan_rows(rows, ls, start, end).len() && (#[trigger] scan_rows(rows, ls, start, end)[i]).id == k,
{
    let s = index_entries(ls);
    lemma_wf_sorted(ls, LEAF_CAPACITY as nat);
    let out = scan_rows(rows, ls, start, end);
    if start <= end {
        let pred = in_range(start, end);
        let f = s.filter(pred);
        lemma_filter_in_range_sorted(s, start, end);
        assert forall|i: int| 0 <= i < out.len() implies {
            let r = #[trigger] out[i];
            table_map(rows, ls).contains_key(r.id) && r.value == table_map(rows, ls)[r.id]
        } by {
            assert(s.contains(f[i]));
            let j = choose|j: int| 0 <= j < s.len() && s[j] == f[i];
            assert(index_entries(ls)[j] == s[j]);
            assert(range_rows(s, start, end)[i] == f[i].1);
            lemma_lookup_at(s, j, s[j].0);
        }
        if table_map(rows, ls).contains_key(k) && start <= k <= end {
            let j = choose|j: int| 0 <= j < s.len() && (#[trigger] s[j]).0 == k;
            s.lemma_filter_contains(pred, j);
            let i = choose|i: int| 0 <= i < f.len() && f[i] == s[j];
            assert(index_entries(ls)[j] == s[j]);
            assert(range_rows(s, start, end)[i] == f[i].1);
            assert(out[i].id == k);
        }
    } else {
        assert(!(start <= k <= end));
    }
}

impl Table {
    pub fn new() -> (t: Table)
        ensures
            t.arena@.len() == 0,
            t.index@.len() == 0,
            table_wf(t.arena@, t.index@),
    {
        let t = Table { arena: RowArena::new(), index: PrimaryIndex::new() };
        assert(index_entries(t.index@) =~= Seq::<(u64, RowRef)>::empty());
        t
    }

    pub fn execute(&mut self, statement: Statement) -> (r: Result<Vec<Row>, QueryError>)
        requires
            table_wf(old(self).arena@, old(self).index@),
        ensures
            table_wf(final(self).arena@, final(self).index@),
            match statement {
                Statement::Insert { id, value } => if has_key(index_entries(old(self).index@), id) {
                    &&& r == Err::<Vec<Row>, QueryError>(QueryError::DuplicateKey { key: id })
                    &&& final(self).arena@ == old(self).arena@
                    &&& final(self).index@ == old(self).index@
                } else {
                    &&& r is Ok
                    &&& r.unwrap()@.map_values(|x: Row| x@) == seq![RowView { id, value: value@ }]
                    &&& final(self).arena@ == old(self).arena@.push(RowView { id, value: value@ })
                    &&& is_sorted_insert(
                        index_entries(old(self).index@),
                        id,
                        RowRef(old(self).arena@.len() as usize),
                        index_entries(final(self).index@),
                    )
                },
                Statement::Select { id } => {
                    &&& r is Ok
                    &&& r.unwrap()@.map_values(|x: Row| x@) == select_rows(old(self).arena@, old(self).index@, id)
                    &&& final(self).arena@ == old(self).arena@
                    &&& final(self).index@ == old(self).index@
                },
                Statement::Scan { start, end } => {
                    &&& r is Ok
                    &&& r.unwrap()@.map_values(|x: Row| x@) == scan_rows(old(self).arena@, old(self).index@, start, end)
                    &&& final(self).arena@ == old(self).arena@
                    &&& final(self).index@ == old(self).index@
                },
            },
    {
        match statement {
            Statement::Insert { id, value } => {
                let ghost old_rows = self.arena@;
                let ghost old_vec = self.arena.rows@;
                let ghost old_ls = self.index@;
                let ghost row_view = RowView { id, value: value@ };
                let row_ref = self.arena.insert(Row { id, value });
                match self.index.insert(id, row_ref) {
                    Err(error) => {
                        let ghost rows_before_pop = self.arena.rows@;
                        self.arena.rows.pop();
                        assert(rows_before_pop.map_values(|r: Row| r@) == old_rows.push(row_view));
                        assert(rows_before_pop.len() > 0);
                        assert(self.arena.rows@ == rows_before_pop.drop_last());
                        assert(self.arena@ =~= rows_before_pop.map_values(|r: Row| r@).drop_last());
                        assert(self.arena@ =~= old_rows);
                        return Err(error);
                    },
                    Ok(()) => {},
                }
                proof {
                    let e0 = index_entries(old_ls);
                    let e1 = index_entries(self.index@);
                    let q = choose|q: int| 0 <= q <= e0.len() && e1 == e0.take(q) + seq![(id, row_ref)] + e0.skip(q);
                    assert forall|k: int| 0 <= k < e1.len() implies {
                        let e = #[trigger] e1[k];
                        &&& e.1.0 < self.arena@.len()
                        &&& self.arena@[e.1.0 as int].id == e.0
                    } by {
                        if k < q {
                            assert(e1[k] == e0[k]);
                        } else if k > q {
                            assert(e1[k] == e0[k - 1]);
                        }
                    }
                }
                let inserted = match self.arena.get(row_ref) {
                    Some(row) => copy_row(row),
                    None => {
                        assert(false);
                        return Err(QueryError::InvalidQuery);
                    },
                };
                let result = vec![inserted];
                assert(result@.map_values(|x: Row| x@) =~= seq![row_view]);
                Ok(result)
            },
            Statement::Select { id } => {
                let mut result: Vec<Row> = Vec::new();
                match self.index.get(id) {
                    Some(row_ref) => {
                        proof {
                            lemma_lookup_some(index_entries(self.index@), id);
                        }
                        match self.arena.get(row_ref) {
                            Some(row) => result.push(copy_row(row)),
                            None => {},
                        }
                    },
                    None => {},
                }
                assert(result@.map_values(|x: Row| x@) =~= select_rows(self.arena@, self.index@, id));
                Ok(result)
            },
            Statement::Scan { start, end } => {
                let refs = self.index.range(start, end);
                let ghost rows = self.arena@;
                proof {
                    if start <= end {
                        lemma_range_rows_members(index_entries(self.index@), start, end);
                    }
                }
                let mut result: Vec<Row> = Vec::new();
                let mut i: usize = 0;
                while i < refs.len()
                    invariant
                        i <= refs@.len(),
                        rows == self.arena@,
                        table_wf(self.arena@, self.index@),
                        refs@ == (if start > end { Seq::empty() } else { range_rows(index_entries(self.index@), start, end) }),
                        forall|k: int| 0 <= k < refs@.len() ==> refers_to(index_entries(self.index@), #[trigger] refs@[k]),
                        result@.map_values(|x: Row| x@) == rows_at(rows, refs@.take(i as int)),
                    decreases refs.len() - i,
                {
                    let row_ref = refs[i];
                    proof {
                        assert(refers_to(index_entries(self.index@), refs@[i as int]));
                        let j = choose|j: int| 0 <= j < index_entries(self.index@).len() && index_entries(self.index@)[j].1 == refs@[i as int];
                        assert(index_entries(self.index@)[j].1.0 < rows.len());
                    }
                    let ghost before = result@;
                    match self.arena.get(row_ref) {
                        Some(row) => result.push(copy_row(row)),
                        None => {},
                    }
                    assert(refs@.take(i + 1) =~= refs@.take(i as int).push(row_ref));
                    assert(rows_at(rows, refs@.take(i as int).push(row_ref)) =~= rows_at(rows, refs@.take(i as int)).push(rows[row_ref.0 as int]));
                    assert(result@ =~= before.push(result@.last()));
                    assert(result@.map_values(|x: Row| x@) =~= rows_at(rows, refs@.take(i + 1)));
                    i = i + 1;
                }
                assert(refs@.take(i as int) =~= refs@);
                Ok(result)
            },
        }
    }
}


/// The text an error is reported with.
pub open spec fn query_error_message(e: QueryError) -> Seq<char> {
    match e {
        QueryError::DuplicateKey { key } => "duplicate primary key: "@ + decimal_chars(key as nat),
        QueryError::InvalidQuery => "invalid query"@,
    }
}

impl QueryError {
    pub fn message(&self) -> (s: String)
        ensures
            s@ == query_error_message(*self),
    {
        match self {
            QueryError::DuplicateKey { key } => with_decimal("duplicate primary key: ", *key),
            QueryError::InvalidQuery => String::from_str("invalid query"),
        }
    }
}

} // verus!
