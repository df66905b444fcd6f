//! Combines raw map results into P in-memory buckets keyed by a
//! deterministic hash of the key, merging duplicate keys.

use vstd::prelude::*;
use vstd::string::StrSliceExecFns;
use crate::errors::EngineError;
use crate::js::MapResult;
use crate::map_container::{byte_len, bytes_len, encoded_key_of, sum_bytes, MapContainer};

verus! {

/// The FNV-1a offset basis.
pub open spec fn fnv_offset() -> u64 {
    0xcbf29ce484222325u64
}

/// The FNV-1a prime.
pub open spec fn fnv_prime() -> u64 {
    0x100000001b3u64
}

/// The FNV-1a hash of a text over its scalar values, with wrapping
/// multiplication. Deterministic within and across runs.
pub open spec fn hash_chars(s: Seq<char>) -> u64
    decreases s.len(),
{
    if s.len() == 0 {
        fnv_offset()
    } else {
        vstd::wrapping::u64_specs::wrapping_mul(
            hash_chars(s.drop_last()) ^ (s.last() as u64),
            fnv_prime(),
        )
    }
}

/// The bucket a key belongs to among `partitions` buckets.
pub open spec fn bucket_index_spec(key: Seq<char>, partitions: int) -> int {
    (hash_chars(key) as usize) as int % partitions
}

/// Computes the hash of a key.
pub fn calculate_hash(key: &str) -> (r: u64)
    ensures
        r == hash_chars(key@),
{
    let n: usize = key.unicode_len();
    let mut h: u64 = 0xcbf29ce484222325u64;
    let mut i: usize = 0;
    while i < n
        invariant
            i <= n,
            n == key@.len(),
            h == hash_chars(key@.subrange(0, i as int)),
        decreases n - i,
    {
        let c: char = key.get_char(i);
        h = (h ^ (c as u32 as u64)).wrapping_mul(0x100000001b3u64);
        proof {
            assert(key@.subrange(0, i + 1).drop_last() =~= key@.subrange(0, i as int));
            assert(key@.subrange(0, i + 1).last() == key@[i as int]);
        }
        i = i + 1;
    }
    proof {
        assert(key@.subrange(0, key@.len() as int) =~= key@);
    }
    h
}

/// One bucket entry as specifications see it: the key and the values its
/// container holds.
pub type EntryView = (Seq<char>, Seq<Seq<char>>);

/// One of the P partitions: an in-memory map from key to container.
pub struct Bucket {
    pub entries: Vec<(String, MapContainer)>,
}

/// The entries of a bucket: each key with its buffered values.
pub open spec fn bucket_view(b: Bucket) -> Seq<EntryView> {
    Seq::new(b.entries@.len(), |i: int| (b.entries@[i].0@, b.entries@[i].1.values.deep_view()))
}

/// The views of a bucket list.
pub open spec fn buckets_view(bl: Seq<Bucket>) -> Seq<Seq<EntryView>> {
    Seq::new(bl.len(), |b: int| bucket_view(bl[b]))
}

/// The position of a key among entries, if present.
pub open spec fn find_entry(es: Seq<EntryView>, key: Seq<char>) -> Option<int>
    decreases es.len(),
{
    if es.len() == 0 {
        None
    } else if es.last().0 == key {
        Some(es.len() - 1)
    } else {
        find_entry(es.drop_last(), key)
    }
}

/// One result folded into one bucket: the value is appended to its key's
/// entry, or opens a new entry; fails only when the entry's byte count
/// would exceed the machine's integer range.
pub open spec fn bucket_add(es: Seq<EntryView>, key: Seq<char>, value: Seq<char>) -> Option<
    Seq<EntryView>,
> {
    match find_entry(es, key) {
        Option::None => Option::Some(es.push((key, seq![value]))),
        Option::Some(i) => {
            if sum_bytes(es[i].1) + bytes_len(value) <= usize::MAX {
                Option::Some(es.update(i, (key, es[i].1.push(value))))
            } else {
                Option::None
            }
        },
    }
}

/// One result folded into the bucket its key hashes to.
pub open spec fn combine_step(
    bv: Seq<Seq<EntryView>>,
    key: Seq<char>,
    value: Seq<char>,
    partitions: int,
) -> Option<Seq<Seq<EntryView>>> {
    let b = bucket_index_spec(key, partitions);
    match bucket_add(bv[b], key, value) {
        Option::None => Option::None,
        Option::Some(es) => Option::Some(bv.update(b, es)),
    }
}

/// All results folded into the buckets, in order.
pub open spec fn combine_fold(
    bv: Seq<Seq<EntryView>>,
    rs: Seq<(Seq<char>, Seq<char>)>,
    partitions: int,
) -> Option<Seq<Seq<EntryView>>>
    decreases rs.len(),
{
    if rs.len() == 0 {
        Option::Some(bv)
    } else {
        match combine_step(bv, rs.first().0, rs.first().1, partitions) {
            Option::None => Option::None,
            Option::Some(bv2) => combine_fold(bv2, rs.drop_first(), partitions),
        }
    }
}

/// The raw results as key and value texts.
pub open spec fn results_view(rs: Seq<MapResult>) -> Seq<(Seq<char>, Seq<char>)> {
    Seq::new(rs.len(), |i: int| (rs[i].key@, rs[i].value@))
}

impl Bucket {
    /// A bucket is well-formed when its keys are distinct and every
    /// container is a fresh in-memory accumulator for its key.
    pub open spec fn wf(self) -> bool {
        &&& forall|i: int, j: int|
            0 <= i < j < self.entries@.len() ==> self.entries@[i].0@ != self.entries@[j].0@
        &&& forall|i: int|
            0 <= i < self.entries@.len() ==> {
                &&& (#[trigger] self.entries@[i]).1.wf()
                &&& self.entries@[i].1.total_parts == 0
                &&& self.entries@[i].1.values@.len() > 0
                &&& self.entries@[i].1.encoded_key@ == encoded_key_of(self.entries@[i].0@)
            }
    }

    /// Creates an empty bucket.
    pub fn new() -> (r: Bucket)
        ensures
            r.wf(),
            bucket_view(r) == Seq::<EntryView>::empty(),
    {
        let r = Bucket { entries: Vec::new() };
        proof {
            assert(bucket_view(r) =~= Seq::<EntryView>::empty());
        }
        r
    }

    /// Folds one raw result into the bucket.
    fn add_result(&mut self, key: String, value: String) -> (r: Result<(), EngineError>)
        requires
            old(self).wf(),
        ensures
            final(self).wf(),
            r is Ok <==> bucket_add(bucket_view(*old(self)), key@, value@) is Some,
            r is Ok ==> bucket_view(*final(self)) == bucket_add(
                bucket_view(*old(self)),
                key@,
                value@,
            )->Some_0,
            r matches Err(e) ==> e == EngineError::SizeOverflow && final(self).entries@ == old(self).entries@,
            forall|i: int|
                0 <= i < final(self).entries@.len() ==> (#[trigger] final(self).entries@[i]).0@ == key@ || (exists|j: int|
                    0 <= j < old(self).entries@.len() && old(self).entries@[j].0@ == final(self).entries@[i].0@),
    {
        let ghost es0 = bucket_view(*old(self));
        let ghost kk = key@;
        let ghost vv = value@;
        let mut idx: usize = 0;
        let n = self.entries.len();
        while idx < n
            invariant
                idx <= n,
                n == self.entries@.len(),
                self == old(self),
                old(self).wf(),
                es0 == bucket_view(*old(self)),
                kk == key@,
                vv == value@,
                forall|m: int| 0 <= m < idx ==> self.entries@[m].0@ != key@,
            decreases n - idx,
        {
            if self.entries[idx].0 == key {
                // Existing key: append the value to its container.
                proof {
                    lemma_find_entry_present(es0, kk, idx as int);
                }
                proof {
                    assert(old(self).entries@[idx as int].1.wf());
                    assert(es0[idx as int].1 == old(self).entries@[idx as int].1.values
                        .deep_view());
                }
                let (k2, mut c) = self.entries.remove(idx);
                proof {
                    assert(self.entries@ =~= old(self).entries@.remove(idx as int));
                }
                let vb: usize = byte_len(value.as_str());
                proof {
                    assert(vb == bytes_len(vv));
                    assert(c == old(self).entries@[idx as int].1);
                    assert(c.buffered_size == sum_bytes(es0[idx as int].1));
                }
                if c.buffered_size > usize::MAX - vb {
                    self.entries.insert(idx, (k2, c));
                    proof {
                        assert(self.entries@ =~= old(self).entries@);
                        assert(sum_bytes(es0[idx as int].1) + bytes_len(vv) > usize::MAX);
                    }
                    return Err(EngineError::SizeOverflow);
                }
                c.add_value(value);
                self.entries.insert(idx, (k2, c));
                proof {
                    assert(self.entries@ =~= old(self).entries@.update(
                        idx as int,
                        (old(self).entries@[idx as int].0, c),
                    ));
                    assert(bucket_view(*self) =~= es0.update(
                        idx as int,
                        (kk, es0[idx as int].1.push(vv)),
                    ));
                    assert(sum_bytes(es0[idx as int].1) + bytes_len(vv) <= usize::MAX);
                    assert forall|i: int| 0 <= i < self.entries@.len() implies (#[trigger] self
                        .entries@[i]).0@ == kk || (exists|j: int|
                        0 <= j < old(self).entries@.len() && old(self).entries@[j].0@ == self
                            .entries@[i].0@) by {
                        if i != idx as int {
                            assert(old(self).entries@[i].0@ == self.entries@[i].0@);
                        }
                    }
                }
                return Ok(());
            }
            idx = idx + 1;
        }
        proof {
            lemma_find_entry_absent(es0, kk);
        }
        // New key: open a container holding this one value.
        let vb: usize = byte_len(value.as_str());
        let mut c = MapContainer::new(key.as_str());
        c.add_value(value);
        self.entries.push((key, c));
        proof {
            assert(c.values.deep_view() =~= seq![vv]);
            assert(bucket_view(*self) =~= es0.push((kk, seq![vv])));
            assert forall|i: int| 0 <= i < self.entries@.len() implies (#[trigger] self
                .entries@[i]).0@ == kk || (exists|j: int|
                0 <= j < old(self).entries@.len() && old(self).entries@[j].0@ == self
                    .entries@[i].0@) by {
                if i < old(self).entries@.len() {
                    assert(old(self).entries@[i].0@ == self.entries@[i].0@);
                }
            }
        }
        Ok(())
    }
}

/// A key present among distinct entries is found at its position.
proof fn lemma_find_entry_present(es: Seq<EntryView>, key: Seq<char>, i: int)
    requires
        0 <= i < es.len(),
        es[i].0 == key,
        forall|a: int, b: int| 0 <= a < b < es.len() ==> es[a].0 != es[b].0,
    ensures
        find_entry(es, key) == Some(i),
    decreases es.len(),
{
    if i == es.len() - 1 {
    } else {
        assert(es.last().0 != key);
        assert(es.drop_last()[i] == es[i]);
        lemma_find_entry_present(es.drop_last(), key, i);
    }
}

/// A key absent from every entry is not found.
proof fn lemma_find_entry_absent(es: Seq<EntryView>, key: Seq<char>)
    requires
        forall|m: int| 0 <= m < es.len() ==> es[m].0 != key,
    ensures
        find_entry(es, key) is None,
    decreases es.len(),
{
    if es.len() > 0 {
        lemma_find_entry_absent(es.drop_last(), key);
    }
}

/// The values held for a key among bucket entries, empty when absent.
pub open spec fn entry_values(es: Seq<EntryView>, k: Seq<char>) -> Seq<Seq<char>> {
    match find_entry(es, k) {
        Option::Some(i) => es[i].1,
        Option::None => Seq::empty(),
    }
}

/// A found entry position names an entry bearing that key.
proof fn lemma_find_entry_sound(es: Seq<EntryView>, key: Seq<char>)
    requires
        find_entry(es, key) is Some,
    ensures
        0 <= find_entry(es, key)->Some_0 < es.len(),
        es[find_entry(es, key)->Some_0].0 == key,
    decreases es.len(),
{
    if es.len() > 0 && es.last().0 != key {
        lemma_find_entry_sound(es.drop_last(), key);
        assert(es.drop_last()[find_entry(es, key)->Some_0] == es[find_entry(es, key)->Some_0]);
    }
}

/// Law: folding one raw result into a bucket appends its value to exactly
/// its key's entry; every other key keeps exactly the values it had.
pub proof fn lemma_bucket_add_conserves(
    es: Seq<EntryView>,
    key: Seq<char>,
    value: Seq<char>,
    k2: Seq<char>,
)
    requires
        forall|a: int, b: int| 0 <= a < b < es.len() ==> es[a].0 != es[b].0,
        bucket_add(es, key, value) is Some,
    ensures
        entry_values(bucket_add(es, key, value)->Some_0, key) == entry_values(es, key).push(
            value,
        ),
        k2 != key ==> entry_values(bucket_add(es, key, value)->Some_0, k2) == entry_values(
            es,
            k2,
        ),
{
    let res = bucket_add(es, key, value)->Some_0;
    match find_entry(es, key) {
        Option::None => {
            assert(res == es.push((key, seq![value])));
            assert(res.last().0 == key);
            assert(entry_values(res, key) =~= Seq::<Seq<char>>::empty().push(value));
            if k2 != key {
                assert(res.drop_last() =~= es);
                if find_entry(es, k2) is Some {
                    lemma_find_entry_sound(es, k2);
                    assert(res[find_entry(es, k2)->Some_0] == es[find_entry(es, k2)->Some_0]);
                }
            }
        },
        Option::Some(i) => {
            lemma_find_entry_sound(es, key);
            assert(res == es.update(i, (key, es[i].1.push(value))));
            assert(res.len() == es.len());
            assert forall|a: int, b: int| 0 <= a < b < res.len() implies res[a].0 != res[b].0 by {
                if a != i {
                    assert(res[a] == es[a]);
                }
                if b != i {
                    assert(res[b] == es[b]);
                }
            }
            lemma_find_entry_present(res, key, i);
            if k2 != key {
                match find_entry(es, k2) {
                    Option::Some(j) => {
                        lemma_find_entry_sound(es, k2);
                        assert(j != i);
                        assert(res[j] == es[j]);
                        lemma_find_entry_present(res, k2, j);
                    },
                    Option::None => {
                        assert forall|m: int| 0 <= m < res.len() implies res[m].0 != k2 by {
                            if m != i {
                                assert(res[m] == es[m]);
                            }
                            if find_entry(es, k2) is None && 0 <= m < es.len() {
                                lemma_find_entry_no_match(es, k2, m);
                            }
                        }
                        lemma_find_entry_absent(res, k2);
                    },
                }
            }
        },
    }
}

/// An unfound key matches no entry.
proof fn lemma_find_entry_no_match(es: Seq<EntryView>, key: Seq<char>, m: int)
    requires
        find_entry(es, key) is None,
        0 <= m < es.len(),
    ensures
        es[m].0 != key,
    decreases es.len(),
{
    if m < es.len() - 1 {
        assert(es.drop_last()[m] == es[m]);
        lemma_find_entry_no_match(es.drop_last(), key, m);
    }
}

/// A well-formed bucket list: P buckets, each well-formed, each key in the
/// bucket it hashes to.
pub open spec fn wf_bucket_list(bl: Seq<Bucket>, partitions: int) -> bool {
    &&& bl.len() == partitions
    &&& partitions > 0
    &&& forall|b: int| 0 <= b < bl.len() ==> (#[trigger] bl[b]).wf()
    &&& forall|b: int, i: int|
        0 <= b < bl.len() && 0 <= i < bl[b].entries@.len() ==> bucket_index_spec(
            (#[trigger] bl[b].entries@[i]).0@,
            partitions,
        ) == b
}

/// Combines the raw map results based on their key: each value joins its
/// key's container in the bucket the key hashes to, in result order. Fails,
/// with the earlier results already combined, exactly when some key's
/// buffered byte count would exceed the machine's integer range.
pub fn combine_map_results(
    bucket_list: &mut Vec<Bucket>,
    raw_results: Vec<MapResult>,
    partitions: usize,
) -> (r: Result<(), EngineError>)
    requires
        wf_bucket_list(old(bucket_list)@, partitions as int),
    ensures
        wf_bucket_list(final(bucket_list)@, partitions as int),
        r is Ok <==> combine_fold(
            buckets_view(old(bucket_list)@),
            results_view(raw_results@),
            partitions as int,
        ) is Some,
        r is Ok ==> buckets_view(final(bucket_list)@) == combine_fold(
            buckets_view(old(bucket_list)@),
            results_view(raw_results@),
            partitions as int,
        )->Some_0,
        r matches Err(e) ==> e == EngineError::SizeOverflow,
{
    let n = raw_results.len();
    proof {
        assert(results_view(raw_results@).subrange(0, n as int) =~= results_view(raw_results@));
    }
    let mut j: usize = 0;
    while j < n
        invariant
            j <= n,
            n == raw_results@.len(),
            partitions > 0,
            wf_bucket_list(bucket_list@, partitions as int),
            combine_fold(
                buckets_view(old(bucket_list)@),
                results_view(raw_results@),
                partitions as int,
            ) == combine_fold(
                buckets_view(bucket_list@),
                results_view(raw_results@).subrange(j as int, n as int),
                partitions as int,
            ),
        decreases n - j,
    {
        let key = raw_results[j].key.clone();
        let value = raw_results[j].value.clone();
        let h = calculate_hash(key.as_str());
        let b: usize = (h as usize) % partitions;
        let ghost bl0 = bucket_list@;
        let ghost bv0 = buckets_view(bucket_list@);
        let ghost kk = key@;
        let ghost vv = value@;
        let ghost rest = results_view(raw_results@).subrange(j as int, n as int);
        proof {
            assert(rest.first() == (raw_results@[j as int].key@, raw_results@[j as int].value@));
            assert(rest.drop_first() =~= results_view(raw_results@).subrange(j + 1, n as int));
            assert(bucket_index_spec(kk, partitions as int) == b as int);
        }
        let mut bucket = bucket_list.remove(b);
        let added = bucket.add_result(key, value);
        let is_ok = added.is_ok();
        bucket_list.insert(b, bucket);
        proof {
            assert(bucket_list@ =~= bl0.update(b as int, bucket_list@[b as int]));
        }
        if !is_ok {
            proof {
                assert(bucket_add(bv0[b as int], kk, vv) is None);
                assert(combine_step(bv0, rest.first().0, rest.first().1, partitions as int)
                    is None);
                assert(buckets_view(bucket_list@) =~= bv0);
                assert forall|bb: int, i: int|
                    0 <= bb < bucket_list@.len() && 0 <= i
                        < bucket_list@[bb].entries@.len() implies bucket_index_spec(
                    (#[trigger] bucket_list@[bb].entries@[i]).0@,
                    partitions as int,
                ) == bb by {
                    assert(bucket_list@[bb].entries@ == bl0[bb].entries@);
                }
            }
            return Err(EngineError::SizeOverflow);
        }
        proof {
            assert(buckets_view(bucket_list@) =~= bv0.update(
                b as int,
                bucket_view(bucket_list@[b as int]),
            ));
            assert(buckets_view(bucket_list@) == combine_step(
                bv0,
                rest.first().0,
                rest.first().1,
                partitions as int,
            )->Some_0);
            assert forall|bb: int, i: int|
                0 <= bb < bucket_list@.len() && 0 <= i
                    < bucket_list@[bb].entries@.len() implies bucket_index_spec(
                (#[trigger] bucket_list@[bb].entries@[i]).0@,
                partitions as int,
            ) == bb by {
                if bb == b as int {
                    let e = bucket_list@[bb].entries@[i];
                    if e.0@ == kk {
                    } else {
                        let jj = choose|jj: int|
                            0 <= jj < bl0[bb].entries@.len() && bl0[bb].entries@[jj].0@ == e.0@;
                        assert(bucket_index_spec(bl0[bb].entries@[jj].0@, partitions as int)
                            == bb);
                    }
                } else {
                    assert(bucket_list@[bb].entries@ == bl0[bb].entries@);
                }
            }
        }
        j = j + 1;
    }
    proof {
        assert(results_view(raw_results@).subrange(n as int, n as int) =~= Seq::<
            (Seq<char>, Seq<char>),
        >::empty());
    }
    Ok(())
}

} // verus!
