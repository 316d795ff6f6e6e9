//! The in-memory index: a map from key to the locator of its live record.
//!
//! Held as an association vector with pairwise-distinct keys. Iteration order
//! is immaterial to the store's semantics; the compactor walks the entries by
//! position and rewrites locators in place.

use vstd::prelude::*;
use vstd::pervasive::VecAdditionalExecFns;

verus! {

/// Locator of one record on disk: which segment, the byte offset of the
/// record's start, and its byte length.
#[derive(Debug, Clone, Copy, PartialEq, Eq, Structural)]
pub struct CommandPosition {
    pub gen: u64,
    pub log_start_pos: u64,
    pub size: u64,
}

/// Map from key to the locator of its live record.
pub struct Index {
    entries: Vec<(String, CommandPosition)>,
}

/// Sum of the record lengths of a row sequence: the live bytes the rows pin.
pub open spec fn rows_bytes(rows: Seq<(String, CommandPosition)>) -> int
    decreases rows.len(),
{
    if rows.len() == 0 {
        0
    } else {
        rows_bytes(rows.drop_last()) + rows.last().1.size
    }
}

pub proof fn lemma_rows_bytes_update(rows: Seq<(String, CommandPosition)>, i: int, e: (
    String,
    CommandPosition,
))
    requires
        0 <= i < rows.len(),
    ensures
        rows_bytes(rows.update(i, e)) == rows_bytes(rows) - rows[i].1.size + e.1.size,
    decreases rows.len(),
{
    let upd = rows.update(i, e);
    if i == rows.len() - 1 {
        assert(upd.drop_last() =~= rows.drop_last());
        assert(upd.last() == e);
    } else {
        assert(upd.drop_last() =~= rows.drop_last().update(i, e));
        assert(upd.last() == rows.last());
        lemma_rows_bytes_update(rows.drop_last(), i, e);
        assert(rows.drop_last()[i] == rows[i]);
    }
}

pub proof fn lemma_rows_bytes_remove(rows: Seq<(String, CommandPosition)>, i: int)
    requires
        0 <= i < rows.len(),
    ensures
        rows_bytes(rows.remove(i)) == rows_bytes(rows) - rows[i].1.size,
    decreases rows.len(),
{
    let rem = rows.remove(i);
    if i == rows.len() - 1 {
        assert(rem =~= rows.drop_last());
    } else {
        assert(rem.drop_last() =~= rows.drop_last().remove(i));
        assert(rem.last() == rows.last());
        lemma_rows_bytes_remove(rows.drop_last(), i);
        assert(rows.drop_last()[i] == rows[i]);
    }
}

pub proof fn lemma_rows_bytes_nonneg(rows: Seq<(String, CommandPosition)>)
    ensures
        rows_bytes(rows) >= 0,
    decreases rows.len(),
{
    if rows.len() > 0 {
        lemma_rows_bytes_nonneg(rows.drop_last());
    }
}

/// No single live record is larger than all live bytes together.
pub proof fn lemma_rows_bytes_row(rows: Seq<(String, CommandPosition)>, i: int)
    requires
        0 <= i < rows.len(),
    ensures
        rows[i].1.size <= rows_bytes(rows),
    decreases rows.len(),
{
    if i == rows.len() - 1 {
        lemma_rows_bytes_nonneg(rows.drop_last());
    } else {
        lemma_rows_bytes_row(rows.drop_last(), i);
        assert(rows.drop_last()[i] == rows[i]);
    }
}

/// Rows with pointwise-equal record lengths pin the same number of bytes.
pub proof fn lemma_rows_bytes_pointwise(
    rows1: Seq<(String, CommandPosition)>,
    rows2: Seq<(String, CommandPosition)>,
)
    requires
        rows1.len() == rows2.len(),
        forall|j: int| 0 <= j < rows1.len() ==> (#[trigger] rows1[j]).1.size == rows2[j].1.size,
    ensures
        rows_bytes(rows1) == rows_bytes(rows2),
    decreases rows1.len(),
{
    if rows1.len() > 0 {
        lemma_rows_bytes_pointwise(rows1.drop_last(), rows2.drop_last());
        assert(rows1.last() == rows1[rows1.len() - 1]);
        assert(rows2.last() == rows2[rows2.len() - 1]);
    }
}

impl Index {
    /// The rows as they lie in memory.
    pub closed spec fn rows(self) -> Seq<(String, CommandPosition)> {
        self.entries@
    }

    /// No key occurs twice.
    pub open spec fn keys_distinct(self) -> bool {
        forall|i: int, j: int|
            0 <= i < j < self.rows().len() ==> (#[trigger] self.rows()[i]).0@ != (
            #[trigger] self.rows()[j]).0@
    }

    pub open spec fn contains_spec(self, k: Seq<char>) -> bool {
        exists|i: int| 0 <= i < self.rows().len() && (#[trigger] self.rows()[i]).0@ == k
    }

    /// The row holding `k`; meaningful only when the key is present.
    pub open spec fn row_of(self, k: Seq<char>) -> int {
        choose|i: int| 0 <= i < self.rows().len() && (#[trigger] self.rows()[i]).0@ == k
    }

    pub open spec fn spec_get(self, k: Seq<char>) -> Option<CommandPosition> {
        if self.contains_spec(k) {
            Some(self.rows()[self.row_of(k)].1)
        } else {
            None
        }
    }

    /// Live bytes: the sum of all located records' lengths.
    pub open spec fn live_bytes(self) -> int {
        rows_bytes(self.rows())
    }

    /// With distinct keys, a row holding `k` is the row `row_of` picks.
    pub proof fn lemma_row_unique(self, i: int)
        requires
            self.keys_distinct(),
            0 <= i < self.rows().len(),
        ensures
            self.contains_spec(self.rows()[i].0@),
            self.row_of(self.rows()[i].0@) == i,
            self.spec_get(self.rows()[i].0@) == Some(self.rows()[i].1),
    {
        let k = self.rows()[i].0@;
        assert(self.contains_spec(k));
        let j = self.row_of(k);
        if j != i {
            if j < i {
                assert(self.rows()[j].0@ != self.rows()[i].0@);
            } else {
                assert(self.rows()[i].0@ != self.rows()[j].0@);
            }
        }
    }

    pub fn new() -> (r: Index)
        ensures
            r.rows() =~= Seq::<(String, CommandPosition)>::empty(),
            r.keys_distinct(),
            r.live_bytes() == 0,
    {
        Index { entries: Vec::new() }
    }

    pub fn len(&self) -> (n: usize)
        ensures
            n == self.rows().len(),
    {
        self.entries.len()
    }

    /// The locator of row `i`.
    pub fn pos_at(&self, i: usize) -> (p: CommandPosition)
        requires
            i < self.rows().len(),
        ensures
            p == self.rows()[i as int].1,
    {
        self.entries[i].1
    }

    /// Rewrites the locator of row `i` in place; the key stays.
    pub fn set_pos_at(&mut self, i: usize, p: CommandPosition)
        requires
            i < old(self).rows().len(),
            old(self).keys_distinct(),
        ensures
            final(self).rows().len() == old(self).rows().len(),
            forall|j: int|
                0 <= j < final(self).rows().len() ==> (#[trigger] final(self).rows()[j]).0@
                    == old(self).rows()[j].0@,
            forall|j: int|
                0 <= j < final(self).rows().len() && j != i ==> (#[trigger] final(self).rows()[j])
                    == old(self).rows()[j],
            final(self).rows()[i as int].1 == p,
            final(self).keys_distinct(),
            final(self).live_bytes() == old(self).live_bytes() - old(self).rows()[i as int].1.size
                + p.size,
    {
        let key = self.entries[i].0.clone();
        let ghost old_rows = self.rows();
        self.entries.set(i, (key, p));
        proof {
            assert(self.rows() == old_rows.update(i as int, (self.rows()[i as int].0, p)));
            assert(self.rows()[i as int].0@ == old_rows[i as int].0@);
            lemma_rows_bytes_update(old_rows, i as int, self.rows()[i as int]);
        }
    }

    pub fn get(&self, key: &String) -> (r: Option<CommandPosition>)
        requires
            self.keys_distinct(),
        ensures
            r == self.spec_get(key@),
    {
        let n = self.entries.len();
        let mut i: usize = 0;
        while i < n
            invariant
                n == self.rows().len(),
                0 <= i <= n,
                self.keys_distinct(),
                forall|j: int| 0 <= j < i ==> (#[trigger] self.rows()[j]).0@ != key@,
            decreases n - i,
        {
            if self.entries[i].0 == *key {
                proof {
                    self.lemma_row_unique(i as int);
                }
                return Some(self.entries[i].1);
            }
            i += 1;
        }
        assert(!self.contains_spec(key@));
        None
    }

    /// Maps `key` to `p`, returning the prior locator if one existed.
    pub fn insert(&mut self, key: String, p: CommandPosition) -> (prior: Option<CommandPosition>)
        requires
            old(self).keys_distinct(),
        ensures
            final(self).keys_distinct(),
            prior == old(self).spec_get(key@),
            final(self).spec_get(key@) == Some(p),
            forall|k2: Seq<char>|
                k2 != key@ ==> #[trigger] final(self).spec_get(k2) == old(self).spec_get(k2),
            forall|k2: Seq<char>|
                #[trigger] final(self).contains_spec(k2) <==> (old(self).contains_spec(k2) || k2
                    == key@),
            final(self).live_bytes() == old(self).live_bytes() + p.size - (match old(
                self,
            ).spec_get(key@) {
                Some(q) => q.size as int,
                None => 0,
            }),
    {
        let ghost pre = *self;
        let n = self.entries.len();
        let mut i: usize = 0;
        while i < n
            invariant
                *self == pre,
                pre == *old(self),
                n == self.rows().len(),
                0 <= i <= n,
                self.keys_distinct(),
                forall|j: int| 0 <= j < i ==> (#[trigger] self.rows()[j]).0@ != key@,
            decreases n - i,
        {
            if self.entries[i].0 == *(&key) {
                proof {
                    self.lemma_row_unique(i as int);
                }
                let prior = self.entries[i].1;
                let ghost ki = key@;
                self.entries.set(i, (key, p));
                proof {
                    let rows = self.rows();
                    let old_rows = pre.rows();
                    assert(rows == old_rows.update(i as int, (rows[i as int].0, p)));
                    assert(rows[i as int].0@ == ki);
                    assert(forall|j: int|
                        0 <= j < rows.len() ==> (#[trigger] rows[j]).0@ == old_rows[j].0@);
                    lemma_rows_bytes_update(old_rows, i as int, rows[i as int]);
                    self.lemma_row_unique(i as int);
                    assert forall|k2: Seq<char>| k2 != ki implies #[trigger] self.spec_get(k2)
                        == pre.spec_get(k2) by {
                        Self::lemma_same_keys_same_get(pre, *self, k2, i as int);
                    }
                    assert forall|k2: Seq<char>| #[trigger] self.contains_spec(k2) implies (
                    pre.contains_spec(k2) || k2 == ki) by {
                        let w = choose|w: int|
                            0 <= w < rows.len() && (#[trigger] rows[w]).0@ == k2;
                        assert(old_rows[w].0@ == k2);
                    }
                    assert forall|k2: Seq<char>| (pre.contains_spec(k2) || k2 == ki) implies
                        #[trigger] self.contains_spec(k2) by {
                        if pre.contains_spec(k2) {
                            let w = choose|w: int|
                                0 <= w < old_rows.len() && (#[trigger] old_rows[w]).0@ == k2;
                            assert(rows[w].0@ == k2);
                        }
                    }
                }
                return Some(prior);
            }
            i += 1;
        }
        proof {
            assert(!pre.contains_spec(key@));
        }
        let ghost ki = key@;
        self.entries.push((key, p));
        proof {
            let rows = self.rows();
            let old_rows = pre.rows();
            assert(rows == old_rows.push(rows.last()));
            assert(rows.last().0@ == ki && rows.last().1 == p);
            assert(rows.drop_last() =~= old_rows);
            assert forall|a: int, b: int| 0 <= a < b < rows.len() implies (
            #[trigger] rows[a]).0@ != (#[trigger] rows[b]).0@ by {
                if b < rows.len() - 1 {
                    assert(old_rows[a].0@ != old_rows[b].0@);
                } else {
                    assert(rows[a] == old_rows[a]);
                    assert(!pre.contains_spec(ki));
                }
            }
            self.lemma_row_unique(rows.len() - 1);
            assert forall|k2: Seq<char>| k2 != ki implies #[trigger] self.spec_get(k2)
                == pre.spec_get(k2) by {
                Self::lemma_push_same_get(pre, *self, k2);
            }
            assert forall|k2: Seq<char>| #[trigger] self.contains_spec(k2) implies (
            pre.contains_spec(k2) || k2 == ki) by {
                let w = choose|w: int| 0 <= w < rows.len() && (#[trigger] rows[w]).0@ == k2;
                if w < rows.len() - 1 {
                    assert(old_rows[w].0@ == k2);
                }
            }
            assert forall|k2: Seq<char>| (pre.contains_spec(k2) || k2 == ki) implies
                #[trigger] self.contains_spec(k2) by {
                if pre.contains_spec(k2) {
                    let w = choose|w: int|
                        0 <= w < old_rows.len() && (#[trigger] old_rows[w]).0@ == k2;
                    assert(rows[w].0@ == k2);
                }
            }
        }
        None
    }

    /// Drops `key`, returning the locator it had.
    pub fn remove(&mut self, key: &String) -> (prior: Option<CommandPosition>)
        requires
            old(self).keys_distinct(),
        ensures
            final(self).keys_distinct(),
            prior == old(self).spec_get(key@),
            final(self).spec_get(key@) == None::<CommandPosition>,
            forall|k2: Seq<char>|
                k2 != key@ ==> #[trigger] final(self).spec_get(k2) == old(self).spec_get(k2),
            forall|k2: Seq<char>|
                #[trigger] final(self).contains_spec(k2) <==> (old(self).contains_spec(k2) && k2
                    != key@),
            final(self).live_bytes() == old(self).live_bytes() - (match old(self).spec_get(key@) {
                Some(q) => q.size as int,
                None => 0,
            }),
    {
        let ghost pre = *self;
        let n = self.entries.len();
        let mut i: usize = 0;
        while i < n
            invariant
                *self == pre,
                pre == *old(self),
                n == self.rows().len(),
                0 <= i <= n,
                self.keys_distinct(),
                forall|j: int| 0 <= j < i ==> (#[trigger] self.rows()[j]).0@ != key@,
            decreases n - i,
        {
            if self.entries[i].0 == *key {
                proof {
                    self.lemma_row_unique(i as int);
                }
                let entry = self.entries.remove(i);
                proof {
                    let rows = self.rows();
                    let old_rows = pre.rows();
                    let ki = key@;
                    assert(rows == old_rows.remove(i as int));
                    lemma_rows_bytes_remove(old_rows, i as int);
                    assert(forall|j: int|
                        0 <= j < i ==> #[trigger] rows[j] == old_rows[j]);
                    assert(forall|j: int|
                        i <= j < rows.len() ==> #[trigger] rows[j] == old_rows[j + 1]);
                    assert forall|a: int, b: int| 0 <= a < b < rows.len() implies (
                    #[trigger] rows[a]).0@ != (#[trigger] rows[b]).0@ by {
                        let a0 = if a < i { a } else { a + 1 };
                        let b0 = if b < i { b } else { b + 1 };
                        assert(rows[a] == old_rows[a0]);
                        assert(rows[b] == old_rows[b0]);
                        assert(old_rows[a0].0@ != old_rows[b0].0@);
                    }
                    assert forall|k2: Seq<char>| #[trigger] self.contains_spec(k2) implies (
                    pre.contains_spec(k2) && k2 != ki) by {
                        let w = choose|w: int| 0 <= w < rows.len() && (#[trigger] rows[w]).0@ == k2;
                        let w0 = if w < i { w } else { w + 1 };
                        assert(old_rows[w0].0@ == k2);
                        if k2 == ki {
                            pre.lemma_row_unique(w0);
                            pre.lemma_row_unique(i as int);
                            assert(false);
                        }
                    }
                    assert forall|k2: Seq<char>| (pre.contains_spec(k2) && k2 != ki) implies
                        #[trigger] self.contains_spec(k2) by {
                        let w = choose|w: int|
                            0 <= w < old_rows.len() && (#[trigger] old_rows[w]).0@ == k2;
                        if w < i {
                            assert(rows[w].0@ == k2);
                        } else {
                            assert(w != i);
                            assert(rows[w - 1].0@ == k2);
                        }
                    }
                    assert forall|k2: Seq<char>| k2 != ki implies #[trigger] self.spec_get(k2)
                        == pre.spec_get(k2) by {
                        if self.contains_spec(k2) {
                            let w = self.row_of(k2);
                            let w0 = if w < i { w } else { w + 1 };
                            assert(rows[w] == old_rows[w0]);
                            pre.lemma_row_unique(w0);
                        }
                    }
                }
                return Some(entry.1);
            }
            i += 1;
        }
        assert(!pre.contains_spec(key@));
        None
    }

    /// `spec_get` of an untouched key is unchanged by a locator rewrite at
    /// row `i`.
    proof fn lemma_same_keys_same_get(pre: Index, post: Index, k2: Seq<char>, i: int)
        requires
            pre.keys_distinct(),
            post.keys_distinct(),
            pre.rows().len() == post.rows().len(),
            0 <= i < pre.rows().len(),
            forall|j: int|
                0 <= j < pre.rows().len() ==> (#[trigger] post.rows()[j]).0@ == pre.rows()[j].0@,
            forall|j: int|
                0 <= j < pre.rows().len() && j != i ==> (#[trigger] post.rows()[j]).1
                    == pre.rows()[j].1,
            pre.rows()[i].0@ != k2,
        ensures
            post.spec_get(k2) == pre.spec_get(k2),
    {
        if pre.contains_spec(k2) {
            let w = pre.row_of(k2);
            assert(post.rows()[w].0@ == k2);
            post.lemma_row_unique(w);
            assert(w != i);
        } else {
            if post.contains_spec(k2) {
                let w = post.row_of(k2);
                assert(pre.rows()[w].0@ == k2);
            }
        }
    }

    /// `spec_get` of any other key is unchanged by pushing a fresh row.
    proof fn lemma_push_same_get(pre: Index, post: Index, k2: Seq<char>)
        requires
            pre.keys_distinct(),
            post.keys_distinct(),
            post.rows().len() == pre.rows().len() + 1,
            forall|j: int| 0 <= j < pre.rows().len() ==> #[trigger] post.rows()[j] == pre.rows()[j],
            post.rows().last().0@ != k2,
        ensures
            post.spec_get(k2) == pre.spec_get(k2),
    {
        if pre.contains_spec(k2) {
            let w = pre.row_of(k2);
            assert(post.rows()[w].0@ == k2);
            post.lemma_row_unique(w);
        } else {
            if post.contains_spec(k2) {
                let w = post.row_of(k2);
                assert(w < pre.rows().len());
                assert(pre.rows()[w].0@ == k2);
            }
        }
    }
}

} // verus!
