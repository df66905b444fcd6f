//! The persistent ordered key-to-container store: entries kept strictly
//! sorted by key, merged with drained buckets, spilling oversize containers
//! to part files.

use vstd::prelude::*;
use vstd::multiset::Multiset;
use vstd::seq_lib::lemma_multiset_commutative;
use vstd::string::StringExecFns;
use crate::combiner::Bucket;
use crate::errors::EngineError;
use crate::json_line::single_line;
use crate::map_container::{encoded_key_of, flat_parts, MapContainer, PartLines, PartWrite};
use crate::ordering::{lex_lt, position, sorted_entries};

verus! {

/// Every value consumable from a list of keyed containers, as a multiset.
pub open spec fn all_consumable(es: Seq<(String, MapContainer)>) -> Multiset<Seq<char>>
    decreases es.len(),
{
    if es.len() == 0 {
        Multiset::empty()
    } else {
        all_consumable(es.drop_last()).add(es.last().1.consumable().to_multiset())
    }
}

/// Inserting an entry adds exactly its consumable values.
proof fn lemma_all_insert(es: Seq<(String, MapContainer)>, j: int, e: (String, MapContainer))
    requires
        0 <= j <= es.len(),
    ensures
        all_consumable(es.insert(j, e)) == all_consumable(es).add(e.1.consumable().to_multiset()),
    decreases es.len(),
{
    broadcast use vstd::multiset::group_multiset_axioms;

    if j == es.len() {
        assert(es.insert(j, e) =~= es.push(e));
        assert(es.push(e).drop_last() =~= es);
    } else {
        let es2 = es.insert(j, e);
        assert(es2.last() == es.last());
        assert(es2.drop_last() =~= es.drop_last().insert(j, e));
        lemma_all_insert(es.drop_last(), j, e);
        assert(all_consumable(es2) =~= all_consumable(es).add(e.1.consumable().to_multiset()));
    }
}

/// Removing an entry takes away exactly its consumable values.
proof fn lemma_all_remove(es: Seq<(String, MapContainer)>, i: int)
    requires
        0 <= i < es.len(),
    ensures
        all_consumable(es) == all_consumable(es.remove(i)).add(
            es[i].1.consumable().to_multiset(),
        ),
    decreases es.len(),
{
    broadcast use vstd::multiset::group_multiset_axioms;

    if i == es.len() - 1 {
        assert(es.remove(i) =~= es.drop_last());
    } else {
        assert(es.remove(i).last() == es.last());
        assert(es.remove(i).drop_last() =~= es.drop_last().remove(i));
        lemma_all_remove(es.drop_last(), i);
        assert(all_consumable(es) =~= all_consumable(es.remove(i)).add(
            es[i].1.consumable().to_multiset(),
        ));
    }
}

/// The container stored for a key among entries, if any.
pub open spec fn stored_for(es: Seq<(String, MapContainer)>, k: Seq<char>) -> Option<MapContainer>
    decreases es.len(),
{
    if es.len() == 0 {
        None
    } else if es.last().0@ == k {
        Some(es.last().1)
    } else {
        stored_for(es.drop_last(), k)
    }
}

/// The buffered byte count stored for a key, zero when absent.
pub open spec fn stored_buffered(es: Seq<(String, MapContainer)>, k: Seq<char>) -> int {
    match stored_for(es, k) {
        Some(m) => m.buffered_size as int,
        None => 0,
    }
}

/// How many of the drained keys are new to the store.
pub open spec fn count_new(
    bv: Seq<(String, MapContainer)>,
    iv: Seq<(String, MapContainer)>,
) -> int
    decreases bv.len(),
{
    if bv.len() == 0 {
        0
    } else {
        (if stored_for(iv, bv.first().0@) is None {
            1int
        } else {
            0int
        }) + count_new(bv.drop_first(), iv)
    }
}

/// What a merge owes for one drained key: the container now stored makes
/// consumable the stored flush history, then the previously stored values,
/// then the drained in-memory values; it was flushed exactly when the
/// combined buffered size reached flush_size, and otherwise holds the
/// combined values under the stored part metadata.
pub open spec fn merged_for(
    mem: MapContainer,
    before: Option<MapContainer>,
    m: MapContainer,
    flush_size: int,
) -> bool {
    let stored_values = match before {
        Some(s) => s.values.deep_view(),
        None => Seq::<Seq<char>>::empty(),
    };
    let stored_batches = match before {
        Some(s) => s.batches@,
        None => Seq::<PartLines>::empty(),
    };
    let combined_buffered = mem.buffered_size + stored_buffered_of(before);
    &&& m.consumable() == flat_parts(stored_batches) + stored_values + mem.values.deep_view()
    &&& combined_buffered >= flush_size ==> m.values@.len() == 0 && m.buffered_size == 0
    &&& combined_buffered < flush_size ==> {
        &&& m.values.deep_view() == stored_values + mem.values.deep_view()
        &&& m.buffered_size == combined_buffered
        &&& m.batches@ == stored_batches
        &&& match before {
            Some(s) => m.total_parts == s.total_parts && m.last_part_sequence
                == s.last_part_sequence && m.last_part_size == s.last_part_size
                && m.lines_per_part@ == s.lines_per_part@,
            None => m.total_parts == 0,
        }
    }
}

/// The buffered byte count of an optional stored container.
pub open spec fn stored_buffered_of(before: Option<MapContainer>) -> int {
    match before {
        Some(s) => s.buffered_size as int,
        None => 0,
    }
}

/// A key present among distinct entries is stored at its entry.
proof fn lemma_stored_for_at(es: Seq<(String, MapContainer)>, i: int, k: Seq<char>)
    requires
        0 <= i < es.len(),
        es[i].0@ == k,
        forall|a: int, b: int| 0 <= a < b < es.len() ==> es[a].0@ != es[b].0@,
    ensures
        stored_for(es, k) == Some(es[i].1),
    decreases es.len(),
{
    if i < es.len() - 1 {
        assert(es.drop_last()[i] == es[i]);
        lemma_stored_for_at(es.drop_last(), i, k);
    }
}

/// A key absent from every entry stores nothing.
proof fn lemma_stored_for_absent(es: Seq<(String, MapContainer)>, k: Seq<char>)
    requires
        forall|m: int| 0 <= m < es.len() ==> es[m].0@ != k,
    ensures
        stored_for(es, k) is None,
    decreases es.len(),
{
    if es.len() > 0 {
        lemma_stored_for_absent(es.drop_last(), k);
    }
}

/// Replacing one entry under its own key changes only that key's lookup.
proof fn lemma_stored_for_update(
    es: Seq<(String, MapContainer)>,
    i: int,
    e: (String, MapContainer),
    k: Seq<char>,
)
    requires
        0 <= i < es.len(),
        es[i].0@ == e.0@,
        forall|a: int, b: int| 0 <= a < b < es.len() ==> es[a].0@ != es[b].0@,
    ensures
        stored_for(es.update(i, e), k) == (if k == e.0@ {
            Some(e.1)
        } else {
            stored_for(es, k)
        }),
    decreases es.len(),
{
    let es2 = es.update(i, e);
    if i == es.len() - 1 {
        if es2.last().0@ != k {
            assert(es2.drop_last() =~= es.drop_last());
        }
    } else {
        assert(es2.last() == es.last());
        if es.last().0@ != k {
            assert(es2.drop_last() =~= es.drop_last().update(i, e));
            lemma_stored_for_update(es.drop_last(), i, e, k);
        } else {
            assert(k != e.0@);
        }
    }
}

/// Inserting an entry leaves every other key's lookup unchanged.
proof fn lemma_stored_for_insert(
    es: Seq<(String, MapContainer)>,
    j: int,
    e: (String, MapContainer),
    k: Seq<char>,
)
    requires
        0 <= j <= es.len(),
        k != e.0@,
    ensures
        stored_for(es.insert(j, e), k) == stored_for(es, k),
    decreases es.len(),
{
    let es2 = es.insert(j, e);
    if j == es.len() {
        assert(es2 =~= es.push(e));
        assert(es2.drop_last() =~= es);
    } else {
        assert(es2.last() == es.last());
        if es.last().0@ != k {
            assert(es2.drop_last() =~= es.drop_last().insert(j, e));
            lemma_stored_for_insert(es.drop_last(), j, e, k);
        }
    }
}

/// The ordered key-to-container store, rooted in the working directory.
pub struct Index {
    pub entries: Vec<(String, MapContainer)>,
    pub root_dir: String,
    pub total_keys: usize,
}

impl Index {
    /// Entries strictly sorted by key, each holding a well-formed container
    /// for that key that has held at least one value.
    pub open spec fn wf(self) -> bool {
        &&& sorted_entries(self.entries@)
        &&& self.total_keys == self.entries@.len()
        &&& forall|i: int|
            0 <= i < self.entries@.len() ==> {
                &&& (#[trigger] self.entries@[i]).1.wf()
                &&& self.entries@[i].1.encoded_key@ == encoded_key_of(self.entries@[i].0@)
                &&& self.entries@[i].1.values@.len() > 0 || self.entries@[i].1.total_parts > 0
            }
    }

    /// Opens an empty index rooted at the working directory.
    pub fn new(path: &str) -> (r: Index)
        ensures
            r.wf(),
            r.entries@.len() == 0,
            r.root_dir@ == path@,
            r.total_keys == 0,
    {
        Index { entries: Vec::new(), root_dir: String::from_str(path), total_keys: 0 }
    }

    /// The container stored for a key, if any.
    pub fn get(&self, key: &str) -> (r: Result<Option<&MapContainer>, EngineError>)
        requires
            self.wf(),
        ensures
            r matches Ok(opt) && (opt is Some <==> exists|i: int|
                0 <= i < self.entries@.len() && (#[trigger] self.entries@[i]).0@ == key@),
            r->Ok_0 matches Some(c) ==> exists|i: int|
                0 <= i < self.entries@.len() && (#[trigger] self.entries@[i]).0@ == key@ && *c
                    == self.entries@[i].1,
    {
        let owned = String::from_str(key);
        match position(&self.entries, &owned) {
            Ok(i) => Ok(Some(&self.entries[i].1)),
            Err(_) => Ok(None),
        }
    }

    /// The number of keys the index holds.
    pub fn total_keys(&self) -> (r: usize)
        ensures
            r == self.total_keys,
    {
        self.total_keys
    }

    /// The working directory root.
    pub fn root(&self) -> (r: String)
        ensures
            r@ == self.root_dir@,
    {
        self.root_dir.clone()
    }

    /// Creates an iterator over index entries in ascending key order.
    pub fn iter<'r>(&'r self) -> (r: IndexIterator<'r>)
        ensures
            r.index == self,
            r.pos == 0,
    {
        IndexIterator { index: self, pos: 0 }
    }

    /// Drains the bucket into the store: every drained container's values
    /// are appended after any stored container's for its key, flushed to a
    /// part file when the combined buffered size reaches flush_size, and
    /// stored back under its key; every other key is untouched, the store
    /// grows by exactly the new keys, and in all it keeps exactly the
    /// values it had plus the bucket's. The part-file lines to append are
    /// handed back. Fails, leaving store and bucket both untouched, exactly
    /// when some drained key's combined byte count would exceed the
    /// machine's integer range.
    #[verifier::rlimit(100)]
    pub fn merge(&mut self, bucket: &mut Bucket, flush_size: usize, max_part_size: usize) -> (r:
        Result<Vec<PartWrite>, EngineError>)
        requires
            old(self).wf(),
            old(bucket).wf(),
        ensures
            final(self).wf(),
            final(bucket).wf(),
            final(self).root_dir == old(self).root_dir,
            r is Ok ==> final(bucket).entries@.len() == 0,
            r is Ok <==> forall|p: int|
                0 <= p < old(bucket).entries@.len() ==> (#[trigger] old(
                    bucket,
                ).entries@[p]).1.buffered_size + stored_buffered(
                    old(self).entries@,
                    old(bucket).entries@[p].0@,
                ) <= usize::MAX,
            r is Ok ==> forall|p: int|
                0 <= p < old(bucket).entries@.len() ==> (stored_for(
                    final(self).entries@,
                    (#[trigger] old(bucket).entries@[p]).0@,
                ) matches Some(m) && merged_for(
                    old(bucket).entries@[p].1,
                    stored_for(old(self).entries@, old(bucket).entries@[p].0@),
                    m,
                    flush_size as int,
                )),
            r is Ok ==> forall|k: Seq<char>|
                (forall|p: int|
                    0 <= p < old(bucket).entries@.len() ==> (#[trigger] old(
                        bucket,
                    ).entries@[p]).0@ != k) ==> #[trigger] stored_for(final(self).entries@, k)
                    == stored_for(old(self).entries@, k),
            r is Ok ==> final(self).entries@.len() == old(self).entries@.len() + count_new(
                old(bucket).entries@,
                old(self).entries@,
            ),
            r is Ok ==> all_consumable(final(self).entries@) == all_consumable(
                old(self).entries@,
            ).add(all_consumable(old(bucket).entries@)),
            r matches Ok(ws) ==> forall|wi: int|
                0 <= wi < ws@.len() ==> single_line(#[trigger] ws@[wi].line@),
            r matches Err(e) ==> e == EngineError::SizeOverflow,
            r is Err ==> final(self).entries@ == old(self).entries@ && final(self).total_keys
                == old(self).total_keys && final(bucket).entries@ == old(bucket).entries@,
    {
        let root = self.root_dir.clone();
        let mut writes: Vec<PartWrite> = Vec::new();
        let ghost bv0 = old(bucket).entries@;
        let ghost iv0 = old(self).entries@;
        proof {
            broadcast use vstd::multiset::group_multiset_axioms;

            assert(bv0.subrange(0, bv0.len() as int) =~= bv0);
            assert(bv0.skip(bv0.len() as int) =~= Seq::<(String, MapContainer)>::empty());
        }
        // First make sure every drained key can be merged, so that failure
        // leaves the store and the bucket untouched.
        let n = bucket.entries.len();
        let mut v: usize = 0;
        while v < n
            invariant
                v <= n,
                n == bucket.entries@.len(),
                self == old(self),
                bucket == old(bucket),
                old(self).wf(),
                old(bucket).wf(),
                bv0 == old(bucket).entries@,
                iv0 == old(self).entries@,
                forall|p: int|
                    0 <= p < v ==> (#[trigger] bv0[p]).1.buffered_size + stored_buffered(
                        iv0,
                        bv0[p].0@,
                    ) <= usize::MAX,
            decreases n - v,
        {
            let mem_buffered: usize = bucket.entries[v].1.buffered_size;
            match position(&self.entries, &bucket.entries[v].0) {
                Ok(i) => {
                    proof {
                        crate::result_table::lemma_sorted_distinct(iv0);
                        lemma_stored_for_at(iv0, i as int, bv0[v as int].0@);
                    }
                    let prior_buffered: usize = self.entries[i].1.buffered_size;
                    if mem_buffered > usize::MAX - prior_buffered {
                        proof {
                            assert(bv0[v as int].1.buffered_size + stored_buffered(
                                iv0,
                                bv0[v as int].0@,
                            ) > usize::MAX);
                        }
                        return Err(EngineError::SizeOverflow);
                    }
                },
                Err(_) => {
                    proof {
                        lemma_stored_for_absent(iv0, bv0[v as int].0@);
                    }
                },
            }
            v = v + 1;
        }
        while bucket.entries.len() > 0
            invariant
                bv0 == old(bucket).entries@,
                iv0 == old(self).entries@,
                self.wf(),
                bucket.wf(),
                self.root_dir@ == root@,
                self.root_dir == old(self).root_dir,
                bucket.entries@ == bv0.subrange(0, bucket.entries@.len() as int),
                bucket.entries@.len() <= bv0.len(),
                forall|a: int, b: int| 0 <= a < b < bv0.len() ==> bv0[a].0@ != bv0[b].0@,
                all_consumable(self.entries@).add(all_consumable(bucket.entries@))
                    == all_consumable(iv0).add(all_consumable(bv0)),
                forall|wi: int| 0 <= wi < writes@.len() ==> single_line(#[trigger] writes@[wi].line@),
                forall|p: int|
                    bucket.entries@.len() <= p < bv0.len() ==> (stored_for(
                        self.entries@,
                        (#[trigger] bv0[p]).0@,
                    ) matches Some(m) && merged_for(
                        bv0[p].1,
                        stored_for(iv0, bv0[p].0@),
                        m,
                        flush_size as int,
                    )),
                forall|p: int|
                    0 <= p < bv0.len() ==> (#[trigger] bv0[p]).1.buffered_size + stored_buffered(
                        iv0,
                        bv0[p].0@,
                    ) <= usize::MAX,
                forall|k: Seq<char>|
                    (forall|p: int|
                        bucket.entries@.len() <= p < bv0.len() ==> (#[trigger] bv0[p]).0@ != k)
                        ==> #[trigger] stored_for(self.entries@, k) == stored_for(iv0, k),
                self.entries@.len() == iv0.len() + count_new(
                    bv0.skip(bucket.entries@.len() as int),
                    iv0,
                ),
            decreases bucket.entries@.len(),
        {
            let ghost m0: int = bucket.entries@.len() as int;
            let ghost bv_pre = bucket.entries@;
            let ghost iv_pre = self.entries@;
            let (key, mem_c) = match bucket.entries.pop() {
                Some(kc) => kc,
                None => {
                    proof {
                        assert(false);
                    }
                    return Err(EngineError::SizeOverflow);
                },
            };
            let ghost kk = key@;
            proof {
                broadcast use vstd::multiset::group_multiset_axioms;

                assert(bucket.entries@ =~= bv_pre.drop_last());
                assert(bucket.entries@ =~= bv0.subrange(0, bucket.entries@.len() as int));
                assert(bv_pre.last() == (key, mem_c));
                assert((key, mem_c) == bv0[m0 - 1]);
                // An in-memory container holds everything in its values.
                assert(mem_c.batches@.len() == 0);
                assert(flat_parts(mem_c.batches@) =~= Seq::<Seq<char>>::empty());
                assert(mem_c.consumable() =~= mem_c.values.deep_view());
                // The key is still untouched, so its stored state is the
                // original one.
                assert forall|p: int| m0 <= p < bv0.len() implies (#[trigger] bv0[p]).0@ != kk by {
                    assert(bv0[m0 - 1].0@ == kk);
                }
                assert(stored_for(iv_pre, kk) == stored_for(iv0, kk));
                assert(bv0.skip(m0 - 1).first() == bv0[m0 - 1]);
                assert(bv0.skip(m0 - 1).drop_first() =~= bv0.skip(m0));
            }
            match position(&self.entries, &key) {
                Ok(i) => {
                    proof {
                        crate::result_table::lemma_sorted_distinct(iv_pre);
                        lemma_stored_for_at(iv_pre, i as int, kk);
                    }
                    // The key already exists in the store: append the
                    // drained values after the stored data.
                    let (kstr, mut stored) = self.entries.remove(i);
                    proof {
                        lemma_all_remove(iv_pre, i as int);
                    }
                    let MapContainer {
                        values: mem_values,
                        buffered_size: _m1,
                        encoded_key: _m2,
                        last_part_size: _m3,
                        last_part_sequence: _m4,
                        lines_per_part: _m5,
                        total_parts: _m6,
                        batches: _m7,
                    } = mem_c;
                    let added = stored.add_values(mem_values);
                    proof {
                        assert(added is Ok);
                        assert(stored.values.deep_view() =~= iv_pre[i as int].1.values.deep_view()
                            + mem_c.values.deep_view());
                        assert(stored.consumable() =~= flat_parts(iv_pre[i as int].1.batches@)
                            + iv_pre[i as int].1.values.deep_view() + mem_c.values.deep_view());
                    }
                    if stored.buffered_size >= flush_size {
                        let w = stored.flush_to_file_part(root.as_str(), max_part_size);
                        writes.push(w);
                    }
                    proof {
                        broadcast use vstd::multiset::group_multiset_axioms;

                        assert(merged_for(
                            bv0[m0 - 1].1,
                            stored_for(iv0, kk),
                            stored,
                            flush_size as int,
                        ));
                        lemma_multiset_commutative(
                            iv_pre[i as int].1.consumable(),
                            mem_c.values.deep_view(),
                        );
                        assert(stored.consumable().to_multiset() =~= iv_pre[
                            i as int
                        ].1.consumable().to_multiset().add(mem_c.consumable().to_multiset()));
                    }
                    let ghost iv_mid = self.entries@;
                    self.entries.insert(i, (kstr, stored));
                    proof {
                        lemma_all_insert(iv_mid, i as int, (kstr, stored));
                        assert(self.entries@ =~= iv_pre.update(i as int, (kstr, stored)));
                        assert forall|a: int, b: int|
                            0 <= a < b < self.entries@.len() implies lex_lt(
                            self.entries@[a].0@,
                            self.entries@[b].0@,
                        ) by {
                            assert(self.entries@[a].0@ == iv_pre[a].0@);
                            assert(self.entries@[b].0@ == iv_pre[b].0@);
                        }
                        assert(all_consumable(self.entries@).add(
                            all_consumable(bucket.entries@),
                        ) =~= all_consumable(iv0).add(all_consumable(bv0)));
                        // Lookups: this key now stores the merged container,
                        // everything else is as before.
                        crate::result_table::lemma_sorted_distinct(iv_pre);
                        assert forall|k2: Seq<char>| true implies #[trigger] stored_for(
                            self.entries@,
                            k2,
                        ) == (if k2 == kk {
                            Some(stored)
                        } else {
                            stored_for(iv_pre, k2)
                        }) by {
                            lemma_stored_for_update(iv_pre, i as int, (kstr, stored), k2);
                        }
                        assert(stored_for(self.entries@, kk) == Some(stored));
                        assert(count_new(bv0.skip(m0 - 1), iv0) == count_new(bv0.skip(m0), iv0));
                    }
                },
                Err(j) => {
                    proof {
                        lemma_stored_for_absent(iv_pre, kk);
                        assert(stored_for(iv0, kk) is None);
                        assert(mem_c.buffered_size + stored_buffered(iv0, kk) <= usize::MAX);
                    }
                    // A new key: flush if oversize, then insert in order.
                    let mut mem_c = mem_c;
                    let ghost mem_orig = mem_c;
                    if mem_c.buffered_size >= flush_size {
                        let w = mem_c.flush_to_file_part(root.as_str(), max_part_size);
                        writes.push(w);
                    }
                    proof {
                        assert(mem_c.consumable() =~= flat_parts(Seq::<PartLines>::empty())
                            + mem_orig.values.deep_view() + Seq::<Seq<char>>::empty());
                        if mem_orig.buffered_size < flush_size {
                            assert(mem_c.batches@ =~= Seq::<PartLines>::empty());
                        }
                        assert(merged_for(mem_orig, Option::None, mem_c, flush_size as int));
                    }
                    let ghost iv_mid = self.entries@;
                    self.entries.insert(j, (key, mem_c));
                    self.total_keys = self.entries.len();
                    proof {
                        lemma_all_insert(iv_mid, j as int, (
                            self.entries@[j as int].0,
                            self.entries@[j as int].1,
                        ));
                        assert(self.entries@[j as int] == (
                            self.entries@[j as int].0,
                            self.entries@[j as int].1,
                        ));
                        assert forall|a: int, b: int|
                            0 <= a < b < self.entries@.len() implies lex_lt(
                            self.entries@[a].0@,
                            self.entries@[b].0@,
                        ) by {
                            if b < j as int {
                            } else if a < j as int && b == j as int {
                                assert(lex_lt(iv_pre[a].0@, kk));
                            } else if a < j as int && b > j as int {
                                assert(self.entries@[b] == iv_pre[b - 1]);
                            } else if a == j as int {
                                assert(lex_lt(kk, iv_pre[b - 1].0@));
                            } else {
                                assert(self.entries@[a] == iv_pre[a - 1]);
                                assert(self.entries@[b] == iv_pre[b - 1]);
                            }
                        }
                        assert(all_consumable(self.entries@).add(
                            all_consumable(bucket.entries@),
                        ) =~= all_consumable(iv0).add(all_consumable(bv0)));
                        // Lookups: this key is newly stored, everything else
                        // is as before.
                        crate::result_table::lemma_sorted_distinct(self.entries@);
                        lemma_stored_for_at(self.entries@, j as int, kk);
                        assert forall|k2: Seq<char>| k2 != kk implies #[trigger] stored_for(
                            self.entries@,
                            k2,
                        ) == stored_for(iv_pre, k2) by {
                            lemma_stored_for_insert(iv_pre, j as int, (
                                self.entries@[j as int].0,
                                self.entries@[j as int].1,
                            ), k2);
                        }
                        assert(count_new(bv0.skip(m0 - 1), iv0) == 1 + count_new(
                            bv0.skip(m0),
                            iv0,
                        ));
                    }
                },
            }
            proof {
                assert forall|p: int|
                    bucket.entries@.len() <= p < bv0.len() implies (stored_for(
                    self.entries@,
                    (#[trigger] bv0[p]).0@,
                ) matches Some(m) && merged_for(
                    bv0[p].1,
                    stored_for(iv0, bv0[p].0@),
                    m,
                    flush_size as int,
                )) by {
                    if p != m0 - 1 {
                        assert(bv0[p].0@ != kk);
                        assert(stored_for(self.entries@, bv0[p].0@) == stored_for(
                            iv_pre,
                            bv0[p].0@,
                        ));
                    }
                }
            }
        }
        proof {
            assert(all_consumable(bucket.entries@) =~= Multiset::<Seq<char>>::empty());
            broadcast use vstd::multiset::group_multiset_axioms;

            assert(all_consumable(self.entries@) =~= all_consumable(iv0).add(
                all_consumable(bv0),
            ));
            assert(bv0.skip(0) =~= bv0);
        }
        Ok(writes)
    }
}

/// Walks index entries in ascending key order.
pub struct IndexIterator<'r> {
    pub index: &'r Index,
    pub pos: usize,
}

impl<'r> IndexIterator<'r> {
    /// The next entry in ascending key order, or nothing at the end.
    pub fn next(&mut self) -> (r: Option<&'r (String, MapContainer)>)
        requires
            old(self).pos <= old(self).index.entries@.len(),
        ensures
            final(self).index == old(self).index,
            old(self).pos < old(self).index.entries@.len() ==> {
                &&& r matches Some(e) && *e == old(self).index.entries@[old(self).pos as int]
                &&& final(self).pos == old(self).pos + 1
            },
            old(self).pos >= old(self).index.entries@.len() ==> r is None && final(self).pos
                == old(self).pos,
    {
        if self.pos < self.index.entries.len() {
            let e = &self.index.entries[self.pos];
            self.pos = self.pos + 1;
            Some(e)
        } else {
            None
        }
    }
}

} // verus!
