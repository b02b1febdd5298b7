//! The ordered key-value store that every command reads and writes.
//!
//! Keys and values are text.  Keys are kept in ascending order (by code
//! point, which is the byte order of their UTF-8 encoding), so a prefix scan
//! returns its keys sorted.  Every change is also recorded in a list of
//! pending changes, which the server drains to write them through to disk.

use vstd::prelude::*;
use crate::text::{chars_eq, chars_lt, chars_of, has_prefix, lemma_seq_lt_asym, lemma_seq_lt_irrefl, lemma_seq_lt_total, lemma_seq_lt_trans, owned, seq_lt, starts_with};

verus! {

/// Error types for database operations.
#[derive(Debug, Clone)]
pub enum DbError {
    /// The storage engine failed; the text says why.
    RocksDb(String),
    /// Stored bytes were not UTF-8; the text says where.
    Utf8(String),
}

/// Result type for database operations.
pub type DbResult<T> = Result<T, DbError>;

/// The contents of the store: each key with its value.
pub type StoreMap = Map<Seq<char>, Seq<char>>;

/// One change to the store: a key and its new value, or `None` for a removal.
pub type ChangeView = (Seq<char>, Option<Seq<char>>);

/// The view of an optional text.
pub open spec fn opt_view(o: Option<String>) -> Option<Seq<char>> {
    match o {
        Some(s) => Some(s@),
        None => None,
    }
}

/// The view of one recorded change.
pub open spec fn change_view(c: (String, Option<String>)) -> ChangeView {
    (c.0@, opt_view(c.1))
}

/// `m` after one change.
pub open spec fn apply_change(m: StoreMap, c: ChangeView) -> StoreMap {
    match c.1 {
        Some(v) => m.insert(c.0, v),
        None => m.remove(c.0),
    }
}

/// `m` after the changes `cs`, in order.
pub open spec fn apply_changes(m: StoreMap, cs: Seq<ChangeView>) -> StoreMap
    decreases cs.len(),
{
    if cs.len() == 0 {
        m
    } else {
        apply_change(apply_changes(m, cs.drop_last()), cs.last())
    }
}

/// Whether `s` is in strictly ascending order.
pub open spec fn strictly_sorted(s: Seq<Seq<char>>) -> bool {
    forall|i: int, j: int| 0 <= i < j < s.len() ==> seq_lt(#[trigger] s[i], #[trigger] s[j])
}

/// The keys of `m` that start with `p`.
pub open spec fn keys_with(m: StoreMap, p: Seq<char>) -> Set<Seq<char>> {
    m.dom().filter(|k: Seq<char>| has_prefix(k, p))
}

/// The members of `s` in ascending order.
pub open spec fn sorted_seq(s: Set<Seq<char>>) -> Seq<Seq<char>> {
    choose|q: Seq<Seq<char>>| q.to_set() == s && strictly_sorted(q) && q.no_duplicates()
}

/// The value stored under `k`, if any.
pub open spec fn lookup(m: StoreMap, k: Seq<char>) -> Option<Seq<char>> {
    if m.contains_key(k) {
        Some(m[k])
    } else {
        None
    }
}

struct Entry {
    key: String,
    chars: Vec<char>,
    value: String,
}

spec fn keys_agree(es: Seq<Entry>) -> bool {
    forall|i: int| 0 <= i < es.len() ==> (#[trigger] es[i]).key@ == es[i].chars@
}

spec fn keys_ascend(es: Seq<Entry>) -> bool {
    forall|i: int, j: int|
        0 <= i < j < es.len() ==> seq_lt(#[trigger] es[i].chars@, #[trigger] es[j].chars@)
}

spec fn entries_hold(es: Seq<Entry>, m: StoreMap) -> bool {
    forall|i: int|
        0 <= i < es.len() ==> m.contains_key((#[trigger] es[i]).chars@) && m[es[i].chars@]
            == es[i].value@
}

spec fn contents_listed(es: Seq<Entry>, m: StoreMap) -> bool {
    forall|k: Seq<char>|
        #[trigger] m.contains_key(k) ==> exists|i: int| 0 <= i < es.len() && es[i].chars@ == k
}

/// The keys of `es` that start with `p`, in the order of `es`.
spec fn prefixed(es: Seq<Entry>, p: Seq<char>) -> Seq<Seq<char>>
    decreases es.len(),
{
    if es.len() == 0 {
        Seq::empty()
    } else {
        let rest = prefixed(es.drop_last(), p);
        if has_prefix(es.last().chars@, p) {
            rest.push(es.last().chars@)
        } else {
            rest
        }
    }
}

proof fn lemma_prefixed(es: Seq<Entry>, p: Seq<char>)
    requires
        keys_ascend(es),
    ensures
        strictly_sorted(prefixed(es, p)),
        forall|k: Seq<char>|
            #[trigger] prefixed(es, p).contains(k) <==> has_prefix(k, p) && exists|i: int|
                0 <= i < es.len() && es[i].chars@ == k,
    decreases es.len(),
{
    if es.len() > 0 {
        let init = es.drop_last();
        assert(keys_ascend(init)) by {
            assert forall|i: int, j: int| 0 <= i < j < init.len() implies seq_lt(
                #[trigger] init[i].chars@,
                #[trigger] init[j].chars@,
            ) by {
                assert(init[i] == es[i] && init[j] == es[j]);
            }
        }
        lemma_prefixed(init, p);
        let rest = prefixed(init, p);
        let last = es.last().chars@;
        assert forall|a: int| 0 <= a < rest.len() implies seq_lt(#[trigger] rest[a], last) by {
            assert(rest.contains(rest[a]));
            let i = choose|i: int| 0 <= i < init.len() && init[i].chars@ == rest[a];
            assert(es[i] == init[i]);
        }
        assert forall|k: Seq<char>|
            #[trigger] prefixed(es, p).contains(k) <==> has_prefix(k, p) && exists|i: int|
                0 <= i < es.len() && es[i].chars@ == k by {
            if prefixed(es, p).contains(k) {
                if !rest.contains(k) {
                    assert(es[es.len() - 1].chars@ == k);
                } else {
                    let i = choose|i: int| 0 <= i < init.len() && init[i].chars@ == k;
                    assert(es[i] == init[i]);
                }
            }
            if has_prefix(k, p) && exists|i: int| 0 <= i < es.len() && es[i].chars@ == k {
                let i = choose|i: int| 0 <= i < es.len() && es[i].chars@ == k;
                if i < es.len() - 1 {
                    assert(init[i] == es[i]);
                    assert(rest.contains(k));
                    let a = choose|a: int| 0 <= a < rest.len() && rest[a] == k;
                    if has_prefix(last, p) {
                        assert(rest.push(last)[a] == k);
                    }
                    assert(prefixed(es, p)[a] == k);
                } else {
                    assert(prefixed(es, p)[prefixed(es, p).len() - 1] == k);
                }
            }
        }
    }
}

/// The store.
pub struct RocksDB {
    entries: Vec<Entry>,
    contents: Ghost<StoreMap>,
    changes: Vec<(String, Option<String>)>,
    persisted: Ghost<StoreMap>,
}

impl View for RocksDB {
    type V = StoreMap;

    closed spec fn view(&self) -> StoreMap {
        self.contents@
    }
}

impl RocksDB {
    /// The changes recorded since they were last drained.
    pub closed spec fn pending(&self) -> Seq<ChangeView> {
        self.changes@.map_values(|c: (String, Option<String>)| change_view(c))
    }

    /// The contents as they were when the changes were last drained.
    pub closed spec fn persisted(&self) -> StoreMap {
        self.persisted@
    }

    /// The store's invariant: keys ascend, the entries hold exactly the
    /// contents, and the pending changes lead from the persisted contents to
    /// the current ones.
    pub closed spec fn wf(&self) -> bool {
        &&& keys_agree(self.entries@)
        &&& keys_ascend(self.entries@)
        &&& entries_hold(self.entries@, self.contents@)
        &&& contents_listed(self.entries@, self.contents@)
        &&& apply_changes(self.persisted@, self.pending()) == self.contents@
    }

    /// Opens an empty store.
    pub fn new() -> (r: DbResult<Self>)
        ensures
            r matches Ok(db) && db.wf() && db@ == StoreMap::empty() && db.pending().len() == 0
                && db.persisted() == StoreMap::empty(),
    {
        let db = RocksDB {
            entries: Vec::new(),
            contents: Ghost(Map::empty()),
            changes: Vec::new(),
            persisted: Ghost(Map::empty()),
        };
        assert(db.pending() =~= Seq::<ChangeView>::empty());
        Ok(db)
    }

    /// A well-formed store holds finitely many keys, and those that start
    /// with any `p` have a listing in ascending order, each once: the one
    /// `sorted_seq` names, which `keys_with_prefix` returns.
    pub proof fn lemma_listing(&self, p: Seq<char>)
        requires
            self.wf(),
        ensures
            self@.dom().finite(),
            sorted_seq(keys_with(self@, p)).to_set() == keys_with(self@, p),
            strictly_sorted(sorted_seq(keys_with(self@, p))),
            sorted_seq(keys_with(self@, p)).no_duplicates(),
    {
        let es = self.entries@;
        let ks = es.map_values(|e: Entry| e.chars@);
        assert(self@.dom() =~= ks.to_set()) by {
            assert forall|k: Seq<char>| self@.dom().contains(k) implies ks.to_set().contains(k) by {
                let i = choose|i: int| 0 <= i < es.len() && es[i].chars@ == k;
                assert(ks[i] == k);
            }
            assert forall|k: Seq<char>| ks.to_set().contains(k) implies self@.dom().contains(k) by {
                let i = choose|i: int| 0 <= i < ks.len() && ks[i] == k;
                assert(es[i].chars@ == k);
            }
        }
        vstd::seq_lib::seq_to_set_is_finite(ks);
        lemma_prefixed(es, p);
        let q = prefixed(es, p);
        let target = keys_with(self@, p);
        assert(q.to_set() =~= target) by {
            assert forall|k: Seq<char>| q.to_set().contains(k) <==> target.contains(k) by {
                if q.to_set().contains(k) {
                    assert(q.contains(k));
                }
                if target.contains(k) {
                    let w = choose|w: int| 0 <= w < es.len() && es[w].chars@ == k;
                    assert(q.contains(k));
                }
            }
        }
        lemma_sorted_no_dup(q);
        lemma_sorted_unique(q, sorted_seq(target), target);
    }

    /// The position of `k` among the keys: the number of keys below it, and
    /// whether the key there is `k` itself.
    fn locate(&self, k: &Vec<char>) -> (r: (usize, bool))
        requires
            self.wf(),
        ensures
            r.0 <= self.entries@.len(),
            forall|j: int| 0 <= j < r.0 ==> seq_lt(#[trigger] self.entries@[j].chars@, k@),
            r.0 < self.entries@.len() ==> !seq_lt(self.entries@[r.0 as int].chars@, k@),
            r.1 == (r.0 < self.entries@.len() && self.entries@[r.0 as int].chars@ == k@),
            r.1 == self@.contains_key(k@),
    {
        let n = self.entries.len();
        let mut i: usize = 0;
        while i < n && chars_lt(&self.entries[i].chars, k)
            invariant
                n == self.entries@.len(),
                i <= n,
                forall|j: int| 0 <= j < i ==> seq_lt(#[trigger] self.entries@[j].chars@, k@),
            decreases n - i,
        {
            i = i + 1;
        }
        let found = i < n && chars_eq(&self.entries[i].chars, k);
        proof {
            if self@.contains_key(k@) {
                let w = choose|w: int| 0 <= w < self.entries@.len() && self.entries@[w].chars@ == k@;
                if w < i {
                    assert(seq_lt(self.entries@[w].chars@, k@));
                    lemma_seq_lt_irrefl(k@);
                } else if w > i {
                    assert(seq_lt(self.entries@[i as int].chars@, self.entries@[w].chars@));
                }
            }
        }
        (i, found)
    }

    proof fn lemma_unique(&self, i: int, k: Seq<char>)
        requires
            self.wf(),
            0 <= i < self.entries@.len(),
            self.entries@[i].chars@ == k,
        ensures
            forall|j: int| 0 <= j < self.entries@.len() && self.entries@[j].chars@ == k ==> j == i,
    {
        assert forall|j: int| 0 <= j < self.entries@.len() && self.entries@[j].chars@ == k implies j == i by {
            if j < i {
                assert(seq_lt(self.entries@[j].chars@, self.entries@[i].chars@));
                lemma_seq_lt_irrefl(k);
            } else if j > i {
                assert(seq_lt(self.entries@[i].chars@, self.entries@[j].chars@));
                lemma_seq_lt_irrefl(k);
            }
        }
    }

    /// Retrieves the value stored under `key`, or `None` when there is none.
    pub fn get(&self, key: &str) -> (r: DbResult<Option<String>>)
        requires
            self.wf(),
        ensures
            r matches Ok(o) && opt_view(o) == lookup(self@, key@),
    {
        let k = chars_of(key);
        let (i, found) = self.locate(&k);
        if found {
            Ok(Some(self.entries[i].value.clone()))
        } else {
            Ok(None)
        }
    }

    proof fn lemma_pending_push(old_changes: Seq<(String, Option<String>)>, c: (String, Option<String>))
        ensures
            old_changes.push(c).map_values(|c: (String, Option<String>)| change_view(c))
                == old_changes.map_values(|c: (String, Option<String>)| change_view(c)).push(
                change_view(c),
            ),
    {
        assert(old_changes.push(c).map_values(|c: (String, Option<String>)| change_view(c))
            =~= old_changes.map_values(|c: (String, Option<String>)| change_view(c)).push(
            change_view(c),
        ));
    }

    /// Stores `value` under `key`.
    pub fn put(&mut self, key: &str, value: &str) -> (r: DbResult<()>)
        requires
            old(self).wf(),
        ensures
            r is Ok,
            final(self).wf(),
            final(self)@ == old(self)@.insert(key@, value@),
            final(self).persisted() == old(self).persisted(),
            final(self).pending() == old(self).pending().push((key@, Some(value@))),
    {
        let k = chars_of(key);
        let (i, found) = self.locate(&k);
        let ghost old_self = *self;
        let ghost new_map = self.contents@.insert(key@, value@);
        if found {
            let e = Entry { key: owned(key), chars: k, value: owned(value) };
            self.entries.set(i, e);
            proof {
                old_self.lemma_unique(i as int, key@);
            }
        } else {
            let e = Entry { key: owned(key), chars: k, value: owned(value) };
            self.entries.insert(i, e);
            proof {
                assert forall|c: int| i <= c < old_self.entries@.len() implies seq_lt(
                    key@,
                    #[trigger] old_self.entries@[c].chars@,
                ) by {
                    lemma_seq_lt_total(old_self.entries@[i as int].chars@, key@);
                    if c > i {
                        assert(seq_lt(old_self.entries@[i as int].chars@, old_self.entries@[c].chars@));
                        lemma_seq_lt_trans(key@, old_self.entries@[i as int].chars@, old_self.entries@[c].chars@);
                    }
                }
                assert forall|a: int, b: int|
                    0 <= a < b < self.entries@.len() implies seq_lt(
                    #[trigger] self.entries@[a].chars@,
                    #[trigger] self.entries@[b].chars@,
                ) by {
                    if b == i {
                        assert(self.entries@[a].chars@ == old_self.entries@[a].chars@);
                    } else if a == i {
                        assert(self.entries@[b].chars@ == old_self.entries@[b - 1].chars@);
                    } else if b < i {
                        assert(self.entries@[a].chars@ == old_self.entries@[a].chars@);
                        assert(self.entries@[b].chars@ == old_self.entries@[b].chars@);
                    } else if a < i {
                        assert(self.entries@[a].chars@ == old_self.entries@[a].chars@);
                        assert(self.entries@[b].chars@ == old_self.entries@[b - 1].chars@);
                        assert(seq_lt(old_self.entries@[a].chars@, key@));
                        assert(seq_lt(key@, old_self.entries@[b - 1].chars@));
                        lemma_seq_lt_trans(old_self.entries@[a].chars@, key@, old_self.entries@[b - 1].chars@);
                    } else {
                        assert(self.entries@[a].chars@ == old_self.entries@[a - 1].chars@);
                        assert(self.entries@[b].chars@ == old_self.entries@[b - 1].chars@);
                    }
                }
            }
        }
        self.contents = Ghost(new_map);
        let c = (owned(key), Some(owned(value)));
        proof {
            Self::lemma_pending_push(self.changes@, c);
        }
        self.changes.push(c);
        proof {
            let pend = self.pending();
            assert(pend.drop_last() == old_self.pending());
            assert forall|a: int| 0 <= a < self.entries@.len() implies self.contents@.contains_key(
                #[trigger] self.entries@[a].chars@,
            ) && self.contents@[self.entries@[a].chars@] == self.entries@[a].value@ by {
                if !found && a > i {
                    assert(self.entries@[a].chars@ == old_self.entries@[a - 1].chars@);
                    assert(old_self.entries@[a - 1].chars@ != key@) by {
                        assert(seq_lt(key@, old_self.entries@[a - 1].chars@));
                        lemma_seq_lt_irrefl(key@);
                    }
                } else if !found && a < i {
                    lemma_seq_lt_irrefl(key@);
                } else if found && a != i {
                    assert(self.entries@[a].chars@ == old_self.entries@[a].chars@);
                }
            }
            assert forall|kk: Seq<char>| #[trigger] self.contents@.contains_key(kk) implies exists|a: int|
                0 <= a < self.entries@.len() && self.entries@[a].chars@ == kk by {
                if kk == key@ {
                    assert(self.entries@[i as int].chars@ == kk);
                } else {
                    let w = choose|w: int| 0 <= w < old_self.entries@.len() && old_self.entries@[w].chars@ == kk;
                    if found || w < i {
                        assert(self.entries@[w].chars@ == kk);
                    } else {
                        assert(self.entries@[w + 1].chars@ == kk);
                    }
                }
            }
        }
        Ok(())
    }

    /// Deletes `key` from the store (a missing key is no error).
    pub fn delete(&mut self, key: &str) -> (r: DbResult<()>)
        requires
            old(self).wf(),
        ensures
            r is Ok,
            final(self).wf(),
            final(self)@ == old(self)@.remove(key@),
            final(self).persisted() == old(self).persisted(),
            final(self).pending() == old(self).pending().push((key@, None)),
    {
        let k = chars_of(key);
        let (i, found) = self.locate(&k);
        let ghost old_self = *self;
        if found {
            self.entries.remove(i);
            proof {
                old_self.lemma_unique(i as int, key@);
                assert forall|a: int, b: int|
                    0 <= a < b < self.entries@.len() implies seq_lt(
                    #[trigger] self.entries@[a].chars@,
                    #[trigger] self.entries@[b].chars@,
                ) by {
                    let a0 = if a < i { a } else { a + 1 };
                    let b0 = if b < i { b } else { b + 1 };
                    assert(self.entries@[a].chars@ == old_self.entries@[a0].chars@);
                    assert(self.entries@[b].chars@ == old_self.entries@[b0].chars@);
                }
            }
        }
        self.contents = Ghost(self.contents@.remove(key@));
        let c = (owned(key), None);
        proof {
            Self::lemma_pending_push(self.changes@, c);
        }
        self.changes.push(c);
        proof {
            let pend = self.pending();
            assert(pend.drop_last() == old_self.pending());
            assert forall|a: int| 0 <= a < self.entries@.len() implies self.contents@.contains_key(
                #[trigger] self.entries@[a].chars@,
            ) && self.contents@[self.entries@[a].chars@] == self.entries@[a].value@ by {
                let a0 = if found && a >= i { a + 1 } else { a };
                assert(self.entries@[a].chars@ == old_self.entries@[a0].chars@);
                if found {
                    assert(a0 != i);
                }
            }
            assert forall|kk: Seq<char>| #[trigger] self.contents@.contains_key(kk) implies exists|a: int|
                0 <= a < self.entries@.len() && self.entries@[a].chars@ == kk by {
                let w = choose|w: int| 0 <= w < old_self.entries@.len() && old_self.entries@[w].chars@ == kk;
                if found {
                    if w < i {
                        assert(self.entries@[w].chars@ == kk);
                    } else {
                        assert(w != i);
                        assert(self.entries@[w - 1].chars@ == kk);
                    }
                } else {
                    assert(self.entries@[w].chars@ == kk);
                }
            }
        }
        Ok(())
    }

    /// Returns all keys that start with `prefix`, in ascending order.
    pub fn keys_with_prefix(&self, prefix: &str) -> (r: DbResult<Vec<String>>)
        requires
            self.wf(),
        ensures
            r matches Ok(v) && v@.map_values(|s: String| s@) == sorted_seq(keys_with(self@, prefix@)),
            r matches Ok(v) && v@.map_values(|s: String| s@).to_set() == keys_with(self@, prefix@),
            r matches Ok(v) && strictly_sorted(v@.map_values(|s: String| s@)),
            r matches Ok(v) && v@.map_values(|s: String| s@).no_duplicates(),
    {
        let p = chars_of(prefix);
        let mut out: Vec<String> = Vec::new();
        let ghost mut idx: Seq<int> = Seq::empty();
        let n = self.entries.len();
        let mut i: usize = 0;
        while i < n
            invariant
                self.wf(),
                n == self.entries@.len(),
                p@ == prefix@,
                i <= n,
                out@.len() == idx.len(),
                forall|a: int| 0 <= a < idx.len() ==> 0 <= #[trigger] idx[a] < i,
                forall|a: int, b: int| 0 <= a < b < idx.len() ==> #[trigger] idx[a] < #[trigger] idx[b],
                forall|a: int|
                    0 <= a < idx.len() ==> (#[trigger] out@[a])@ == self.entries@[idx[a]].chars@,
                forall|a: int|
                    0 <= a < idx.len() ==> has_prefix(self.entries@[#[trigger] idx[a]].chars@, p@),
                forall|j: int|
                    0 <= j < i && has_prefix(#[trigger] self.entries@[j].chars@, p@) ==> exists|a: int|
                        0 <= a < idx.len() && idx[a] == j,
            decreases n - i,
        {
            let ghost old_idx = idx;
            if starts_with(&self.entries[i].chars, &p) {
                out.push(self.entries[i].key.clone());
                proof {
                    idx = idx.push(i as int);
                }
            }
            proof {
                assert forall|j: int|
                    0 <= j < i + 1 && has_prefix(#[trigger] self.entries@[j].chars@, p@) implies exists|a: int|
                    0 <= a < idx.len() && idx[a] == j by {
                    if j == i {
                        assert(idx[idx.len() - 1] == j);
                    } else {
                        let a = choose|a: int| 0 <= a < old_idx.len() && old_idx[a] == j;
                        assert(idx[a] == j);
                    }
                }
            }
            i = i + 1;
        }
        proof {
            let q = out@.map_values(|s: String| s@);
            let target = keys_with(self@, prefix@);
            assert(strictly_sorted(q)) by {
                assert forall|a: int, b: int| 0 <= a < b < q.len() implies seq_lt(
                    #[trigger] q[a],
                    #[trigger] q[b],
                ) by {
                    assert(q[a] == self.entries@[idx[a]].chars@);
                    assert(q[b] == self.entries@[idx[b]].chars@);
                }
            }
            assert(q.to_set() =~= target) by {
                assert forall|k: Seq<char>| q.to_set().contains(k) <==> target.contains(k) by {
                    if q.to_set().contains(k) {
                        let a = choose|a: int| 0 <= a < q.len() && q[a] == k;
                        assert(q[a] == self.entries@[idx[a]].chars@);
                    }
                    if target.contains(k) {
                        let w = choose|w: int| 0 <= w < self.entries@.len() && self.entries@[w].chars@ == k;
                        let a = choose|a: int| 0 <= a < idx.len() && idx[a] == w;
                        assert(q[a] == k);
                    }
                }
            }
            lemma_sorted_no_dup(q);
            lemma_sorted_unique(q, sorted_seq(target), target);
            self.lemma_listing(prefix@);
        }
        Ok(out)
    }

    /// Hands out the changes recorded since the last call, oldest first, and
    /// forgets them: applied in order to the contents of that time, they give
    /// the current contents.
    pub fn take_changes(&mut self) -> (r: Vec<(String, Option<String>)>)
        requires
            old(self).wf(),
        ensures
            final(self).wf(),
            final(self)@ == old(self)@,
            apply_changes(old(self).persisted(), r@.map_values(|c: (String, Option<String>)| change_view(c)))
                == old(self)@,
            final(self).persisted() == old(self)@,
            final(self).pending().len() == 0,
    {
        let mut out: Vec<(String, Option<String>)> = Vec::new();
        std::mem::swap(&mut out, &mut self.changes);
        self.persisted = Ghost(self.contents@);
        assert(self.pending() =~= Seq::<ChangeView>::empty());
        out
    }
}

/// A strictly ascending sequence holds nothing twice.
pub proof fn lemma_sorted_no_dup(q: Seq<Seq<char>>)
    requires
        strictly_sorted(q),
    ensures
        q.no_duplicates(),
{
    assert forall|a: int, b: int| 0 <= a < q.len() && 0 <= b < q.len() && a != b implies q[a]
        != q[b] by {
        if a < b {
            assert(seq_lt(q[a], q[b]));
        } else {
            assert(seq_lt(q[b], q[a]));
        }
        lemma_seq_lt_irrefl(q[a]);
    }
}

/// Two strictly ascending sequences with the same members are equal.
pub proof fn lemma_sorted_unique(q: Seq<Seq<char>>, r: Seq<Seq<char>>, s: Set<Seq<char>>)
    requires
        strictly_sorted(q),
        q.to_set() == s,
    ensures
        r == sorted_seq(s) ==> r == q,
        sorted_seq(s) == q,
{
    lemma_sorted_no_dup(q);
    assert(exists|x: Seq<Seq<char>>| x.to_set() == s && strictly_sorted(x) && x.no_duplicates()) by {
        assert(q.to_set() == s && strictly_sorted(q) && q.no_duplicates());
    }
    let c = sorted_seq(s);
    assert(c.to_set() == s && strictly_sorted(c) && c.no_duplicates());
    lemma_sorted_eq(q, c);
}

proof fn lemma_sorted_eq(q: Seq<Seq<char>>, c: Seq<Seq<char>>)
    requires
        strictly_sorted(q),
        strictly_sorted(c),
        q.to_set() == c.to_set(),
    ensures
        q == c,
    decreases q.len(),
{
    if q.len() == 0 {
        if c.len() > 0 {
            assert(c.to_set().contains(c[0]));
        }
    } else if c.len() == 0 {
        assert(q.to_set().contains(q[0]));
    } else {
        // the first elements are both the least member
        assert(c.to_set().contains(q[0]));
        assert(q.to_set().contains(c[0]));
        let i = choose|i: int| 0 <= i < c.len() && c[i] == q[0];
        let j = choose|j: int| 0 <= j < q.len() && q[j] == c[0];
        if i > 0 {
            assert(seq_lt(c[0], c[i]));
            if j > 0 {
                assert(seq_lt(q[0], q[j]));
                lemma_seq_lt_asym(c[0], q[0]);
            } else {
                lemma_seq_lt_irrefl(q[0]);
            }
        }
        assert(q[0] == c[0]);
        let q1 = q.drop_first();
        let c1 = c.drop_first();
        assert(q1.to_set() =~= c1.to_set()) by {
            assert forall|k: Seq<char>| q1.to_set().contains(k) implies c1.to_set().contains(k) by {
                let a = choose|a: int| 0 <= a < q1.len() && q1[a] == k;
                assert(q.to_set().contains(k));
                let b = choose|b: int| 0 <= b < c.len() && c[b] == k;
                assert(seq_lt(q[0], q[a + 1]));
                if b == 0 {
                    lemma_seq_lt_irrefl(k);
                }
                assert(c1[b - 1] == k);
            }
            assert forall|k: Seq<char>| c1.to_set().contains(k) implies q1.to_set().contains(k) by {
                let a = choose|a: int| 0 <= a < c1.len() && c1[a] == k;
                assert(c.to_set().contains(k));
                let b = choose|b: int| 0 <= b < q.len() && q[b] == k;
                assert(seq_lt(c[0], c[a + 1]));
                if b == 0 {
                    lemma_seq_lt_irrefl(k);
                }
                assert(q1[b - 1] == k);
            }
        }
        lemma_sorted_eq(q1, c1);
        assert(q =~= seq![q[0]] + q1);
        assert(c =~= seq![c[0]] + c1);
    }
}

} // verus!
