//! Hierarchical reduction bookkeeping: the reduction stream the consumer
//! emits, and the tracker that counts outstanding lines per part and
//! outstanding parts per key while collecting intermediate results.

use vstd::prelude::*;
use crate::errors::EngineError;
use crate::json_line::{from_json, parse_returns_serialized};

verus! {

/// One message of the reduction stream.
pub enum Reduction {
    KeyInit(String, usize),
    FilePartInit(String),
    FileLineInit(String, usize, usize),
    FileLine(String, usize, ReduceValue),
}

/// The payload of one reduction line: values already in memory, or one
/// serialized part-file line.
pub enum ReduceValue {
    FromIndex(Vec<String>),
    FromFile(String),
}

/// Decodes the payload of a reduction line into the value batch that user
/// reduce code runs on. A serialized line that some batch produced decodes
/// to exactly that batch.
pub fn decode_reduce_value(value: ReduceValue) -> (r: Result<Vec<String>, EngineError>)
    ensures
        value matches ReduceValue::FromIndex(vs) ==> r matches Ok(out) && out == vs,
        value matches ReduceValue::FromFile(line) ==> parse_returns_serialized(line@, r),
{
    match value {
        ReduceValue::FromIndex(vs) => Ok(vs),
        ReduceValue::FromFile(line) => from_json(line.as_str()),
    }
}

/// The position of a key in an association list, if present.
pub open spec fn assoc_pos<X>(es: Seq<(String, X)>, key: Seq<char>) -> Option<int>
    decreases es.len(),
{
    if es.len() == 0 {
        None
    } else if es.last().0@ == key {
        Some(es.len() - 1)
    } else {
        assoc_pos(es.drop_last(), key)
    }
}

/// The position of a part number in an association list, if present.
pub open spec fn part_pos<X>(es: Seq<(usize, X)>, part: usize) -> Option<int>
    decreases es.len(),
{
    if es.len() == 0 {
        None
    } else if es.last().0 == part {
        Some(es.len() - 1)
    } else {
        part_pos(es.drop_last(), part)
    }
}

/// A key present among distinct entries is found at its position.
pub proof fn lemma_assoc_pos_present<X>(es: Seq<(String, X)>, key: Seq<char>, i: int)
    requires
        0 <= i < es.len(),
        es[i].0@ == key,
        forall|a: int, b: int| 0 <= a < b < es.len() ==> es[a].0@ != es[b].0@,
    ensures
        assoc_pos(es, key) == Some(i),
    decreases es.len(),
{
    if i < es.len() - 1 {
        assert(es.drop_last()[i] == es[i]);
        lemma_assoc_pos_present(es.drop_last(), key, i);
    }
}

/// A key absent from every entry is not found.
pub proof fn lemma_assoc_pos_absent<X>(es: Seq<(String, X)>, key: Seq<char>)
    requires
        forall|m: int| 0 <= m < es.len() ==> es[m].0@ != key,
    ensures
        assoc_pos(es, key) is None,
    decreases es.len(),
{
    if es.len() > 0 {
        lemma_assoc_pos_absent(es.drop_last(), key);
    }
}

/// A part present among distinct entries is found at its position.
pub proof fn lemma_part_pos_present<X>(es: Seq<(usize, X)>, part: usize, i: int)
    requires
        0 <= i < es.len(),
        es[i].0 == part,
        forall|a: int, b: int| 0 <= a < b < es.len() ==> es[a].0 != es[b].0,
    ensures
        part_pos(es, part) == Some(i),
    decreases es.len(),
{
    if i < es.len() - 1 {
        assert(es.drop_last()[i] == es[i]);
        lemma_part_pos_present(es.drop_last(), part, i);
    }
}

/// A found part position names an entry bearing that part number.
pub proof fn lemma_part_pos_sound<X>(es: Seq<(usize, X)>, part: usize)
    requires
        part_pos(es, part) is Some,
    ensures
        0 <= part_pos(es, part)->Some_0 < es.len(),
        es[part_pos(es, part)->Some_0].0 == part,
    decreases es.len(),
{
    if es.len() > 0 && es.last().0 != part {
        lemma_part_pos_sound(es.drop_last(), part);
        assert(es.drop_last()[part_pos(es, part)->Some_0] == es[part_pos(es, part)->Some_0]);
    }
}

/// A found key position names an entry bearing that key.
pub proof fn lemma_assoc_pos_sound<X>(es: Seq<(String, X)>, key: Seq<char>)
    requires
        assoc_pos(es, key) is Some,
    ensures
        0 <= assoc_pos(es, key)->Some_0 < es.len(),
        es[assoc_pos(es, key)->Some_0].0@ == key,
    decreases es.len(),
{
    if es.len() > 0 && es.last().0@ != key {
        lemma_assoc_pos_sound(es.drop_last(), key);
        assert(es.drop_last()[assoc_pos(es, key)->Some_0] == es[assoc_pos(es, key)->Some_0]);
    }
}

/// The state stored for a key in an association list, if any.
pub open spec fn assoc_val<X>(es: Seq<(String, X)>, k: Seq<char>) -> Option<X>
    decreases es.len(),
{
    if es.len() == 0 {
        None
    } else if es.last().0@ == k {
        Some(es.last().1)
    } else {
        assoc_val(es.drop_last(), k)
    }
}

/// A key present among distinct entries has its entry's state.
pub proof fn lemma_assoc_val_at<X>(es: Seq<(String, X)>, i: int)
    requires
        0 <= i < es.len(),
        forall|a: int, b: int| 0 <= a < b < es.len() ==> es[a].0@ != es[b].0@,
    ensures
        assoc_val(es, es[i].0@) == Some(es[i].1),
    decreases es.len(),
{
    if i < es.len() - 1 {
        assert(es.drop_last()[i] == es[i]);
        lemma_assoc_val_at(es.drop_last(), i);
    }
}

/// Replacing one entry under its own key changes only that key's state.
pub proof fn lemma_assoc_val_update<X>(es: Seq<(String, X)>, i: int, e: (String, X), k: Seq<char>)
    requires
        0 <= i < es.len(),
        es[i].0@ == e.0@,
        forall|a: int, b: int| 0 <= a < b < es.len() ==> es[a].0@ != es[b].0@,
    ensures
        assoc_val(es.update(i, e), k) == (if k == e.0@ {
            Some(e.1)
        } else {
            assoc_val(es, k)
        }),
    decreases es.len(),
{
    let es2 = es.update(i, e);
    if i == es.len() - 1 {
        if es2.last().0@ != k {
            assert(es2.drop_last() =~= es.drop_last());
        }
    } else {
        assert(es2.last() == es.last());
        if es.last().0@ != k {
            assert(es2.drop_last() =~= es.drop_last().update(i, e));
            lemma_assoc_val_update(es.drop_last(), i, e, k);
        } else {
            assert(k != e.0@);
        }
    }
}

/// Appending an entry leaves every other key's state unchanged.
pub proof fn lemma_assoc_val_push<X>(es: Seq<(String, X)>, e: (String, X), k: Seq<char>)
    requires
        k != e.0@,
    ensures
        assoc_val(es.push(e), k) == assoc_val(es, k),
{
    assert(es.push(e).drop_last() =~= es);
}

/// Removing an entry leaves every other key's state unchanged.
pub proof fn lemma_assoc_val_remove<X>(es: Seq<(String, X)>, i: int, k: Seq<char>)
    requires
        0 <= i < es.len(),
        es[i].0@ != k,
    ensures
        assoc_val(es.remove(i), k) == assoc_val(es, k),
    decreases es.len(),
{
    let es2 = es.remove(i);
    if i == es.len() - 1 {
        assert(es2 =~= es.drop_last());
    } else {
        assert(es2.last() == es.last());
        if es.last().0@ != k {
            assert(es2.drop_last() =~= es.drop_last().remove(i));
            lemma_assoc_val_remove(es.drop_last(), i, k);
        }
    }
}

/// Distinctness of keys carries over to a list with the same keys.
proof fn lemma_distinct_transfer<X>(a: Seq<(String, X)>, b: Seq<(String, X)>)
    requires
        a.len() == b.len(),
        forall|m: int| 0 <= m < a.len() ==> a[m].0@ == b[m].0@,
        forall|x: int, y: int| 0 <= x < y < a.len() ==> a[x].0@ != a[y].0@,
    ensures
        forall|x: int, y: int| 0 <= x < y < b.len() ==> b[x].0@ != b[y].0@,
{
}

/// Distinctness of part numbers carries over to a list with the same parts.
proof fn lemma_distinct_transfer_parts<X>(a: Seq<(usize, X)>, b: Seq<(usize, X)>)
    requires
        a.len() == b.len(),
        forall|m: int| 0 <= m < a.len() ==> a[m].0 == b[m].0,
        forall|x: int, y: int| 0 <= x < y < a.len() ==> a[x].0 != a[y].0,
    ensures
        forall|x: int, y: int| 0 <= x < y < b.len() ==> b[x].0 != b[y].0,
{
}

/// The line results of a part map joined in entry order.
pub open spec fn joined_line_results(es: Seq<(usize, (usize, Vec<String>))>) -> Seq<String>
    decreases es.len(),
{
    if es.len() == 0 {
        Seq::empty()
    } else {
        joined_line_results(es.drop_last()) + es.last().1.1@
    }
}

/// The bookkeeping of hierarchical reduction: per key the outstanding part
/// count with collected part results, and per key and part the outstanding
/// line count with collected line results.
pub struct Tracker {
    pub keys: Vec<(String, (usize, Vec<String>))>,
    pub parts: Vec<(String, Vec<(usize, (usize, Vec<String>))>)>,
}

impl Tracker {
    /// Keys are unique in both maps, and part numbers unique per key.
    pub open spec fn wf(self) -> bool {
        &&& forall|a: int, b: int|
            0 <= a < b < self.keys@.len() ==> self.keys@[a].0@ != self.keys@[b].0@
        &&& forall|a: int, b: int|
            0 <= a < b < self.parts@.len() ==> self.parts@[a].0@ != self.parts@[b].0@
        &&& forall|p: int, a: int, b: int|
            0 <= p < self.parts@.len() && 0 <= a < b < self.parts@[p].1@.len() ==> (
            #[trigger] self.parts@[p].1@[a]).0 != (#[trigger] self.parts@[p].1@[b]).0
    }

    /// Creates an empty tracker.
    pub fn new() -> (r: Tracker)
        ensures
            r.wf(),
            r.keys@.len() == 0,
            r.parts@.len() == 0,
    {
        Tracker { keys: Vec::new(), parts: Vec::new() }
    }

    /// Finds the slot of a key in the key map.
    fn key_slot(&self, key: &String) -> (r: Option<usize>)
        requires
            self.wf(),
        ensures
            r matches Some(i) ==> i < self.keys@.len() && self.keys@[i as int].0@ == key@
                && assoc_pos(self.keys@, key@) == Some(i as int),
            r is None ==> assoc_pos(self.keys@, key@) is None && forall|m: int|
                0 <= m < self.keys@.len() ==> (#[trigger] self.keys@[m]).0@ != key@,
    {
        let n = self.keys.len();
        let mut idx: usize = 0;
        while idx < n
            invariant
                idx <= n,
                n == self.keys@.len(),
                self.wf(),
                forall|m: int| 0 <= m < idx ==> self.keys@[m].0@ != key@,
            decreases n - idx,
        {
            if self.keys[idx].0 == *key {
                proof {
                    lemma_assoc_pos_present(self.keys@, key@, idx as int);
                }
                return Some(idx);
            }
            idx = idx + 1;
        }
        proof {
            lemma_assoc_pos_absent(self.keys@, key@);
        }
        None
    }

    /// Finds the slot of a key in the part map.
    fn part_slot(&self, key: &String) -> (r: Option<usize>)
        requires
            self.wf(),
        ensures
            r matches Some(i) ==> i < self.parts@.len() && self.parts@[i as int].0@ == key@
                && assoc_pos(self.parts@, key@) == Some(i as int),
            r is None ==> assoc_pos(self.parts@, key@) is None && forall|m: int|
                0 <= m < self.parts@.len() ==> (#[trigger] self.parts@[m]).0@ != key@,
    {
        let n = self.parts.len();
        let mut idx: usize = 0;
        while idx < n
            invariant
                idx <= n,
                n == self.parts@.len(),
                self.wf(),
                forall|m: int| 0 <= m < idx ==> self.parts@[m].0@ != key@,
            decreases n - idx,
        {
            if self.parts[idx].0 == *key {
                proof {
                    lemma_assoc_pos_present(self.parts@, key@, idx as int);
                }
                return Some(idx);
            }
            idx = idx + 1;
        }
        proof {
            lemma_assoc_pos_absent(self.parts@, key@);
        }
        None
    }

    /// Initializes a new key in the tracker with its total parts.
    pub fn new_key(&mut self, key: String, total_parts: usize)
        requires
            old(self).wf(),
        ensures
            final(self).wf(),
            final(self).parts == old(self).parts,
            assoc_pos(final(self).keys@, key@) matches Some(i) && final(self).keys@[i].1.0
                == total_parts && final(self).keys@[i].1.1@.len() == 0,
            forall|k: Seq<char>|
                k != key@ ==> #[trigger] assoc_val(final(self).keys@, k) == assoc_val(
                    old(self).keys@,
                    k,
                ),
    {
        let slot = self.key_slot(&key);
        let ghost ks0 = self.keys@;
        match slot {
            Some(i) => {
                let kept = self.keys.remove(i);
                self.keys.insert(i, (kept.0, (total_parts, Vec::new())));
                proof {
                    assert(self.keys@.len() == ks0.len());
                    assert forall|m: int| 0 <= m < ks0.len() implies (#[trigger] self.keys@[m]).0@
                        == ks0[m].0@ by {
                        if m != i as int {
                            assert(self.keys@[m] == ks0[m]);
                        }
                    }
                    lemma_distinct_transfer(ks0, self.keys@);
                    lemma_assoc_pos_present(self.keys@, key@, i as int);
                    assert(self.keys@ =~= ks0.update(i as int, self.keys@[i as int]));
                    assert forall|k: Seq<char>| k != key@ implies #[trigger] assoc_val(
                        self.keys@,
                        k,
                    ) == assoc_val(ks0, k) by {
                        lemma_assoc_val_update(ks0, i as int, self.keys@[i as int], k);
                    }
                }
            },
            None => {
                self.keys.push((key, (total_parts, Vec::new())));
                proof {
                    lemma_assoc_pos_present(
                        self.keys@,
                        self.keys@.last().0@,
                        ks0.len() as int,
                    );
                    assert(self.keys@ =~= ks0.push(self.keys@.last()));
                    assert forall|k: Seq<char>| k != key@ implies #[trigger] assoc_val(
                        self.keys@,
                        k,
                    ) == assoc_val(ks0, k) by {
                        lemma_assoc_val_push(ks0, self.keys@.last(), k);
                    }
                }
            },
        }
    }

    /// Initializes a new part map in the tracker.
    pub fn new_part(&mut self, key: String)
        requires
            old(self).wf(),
        ensures
            final(self).wf(),
            final(self).keys == old(self).keys,
            assoc_pos(final(self).parts@, key@) matches Some(i) && final(self).parts@[i].1@.len() == 0,
    {
        let slot = self.part_slot(&key);
        let ghost ps0 = self.parts@;
        match slot {
            Some(i) => {
                let kept = self.parts.remove(i);
                self.parts.insert(i, (kept.0, Vec::new()));
                proof {
                    assert(self.parts@.len() == ps0.len());
                    assert forall|m: int| 0 <= m < ps0.len() implies (#[trigger] self.parts@[m]).0@
                        == ps0[m].0@ by {
                        if m != i as int {
                            assert(self.parts@[m] == ps0[m]);
                        }
                    }
                    lemma_distinct_transfer(ps0, self.parts@);
                    lemma_assoc_pos_present(self.parts@, key@, i as int);
                }
            },
            None => {
                self.parts.push((key, Vec::new()));
                proof {
                    lemma_assoc_pos_present(
                        self.parts@,
                        self.parts@.last().0@,
                        ps0.len() as int,
                    );
                }
            },
        }
    }

    /// Initializes a new line slot for a part of a key with its total
    /// lines.
    pub fn new_line(&mut self, key: &String, current_part: usize, total_lines: usize)
        requires
            old(self).wf(),
            assoc_pos(old(self).parts@, key@) is Some,
        ensures
            final(self).wf(),
            final(self).keys == old(self).keys,
            assoc_pos(final(self).parts@, key@) matches Some(i) && (part_pos(
                final(self).parts@[i].1@,
                current_part,
            ) matches Some(pi) && final(self).parts@[i].1@[pi].1.0 == total_lines && final(self).parts@[i].1@[pi].1.1@.len() == 0),
    {
        let i = match self.part_slot(key) {
            Some(i) => i,
            None => {
                proof {
                    assert(false);
                }
                return ;
            },
        };
        let ghost ps0 = self.parts@;
        let (kstr, mut inner) = self.parts.remove(i);
        let ghost in0 = inner@;
        let n = inner.len();
        let mut pidx: usize = 0;
        let mut found: bool = false;
        while pidx < n
            invariant
                pidx <= n,
                n == in0.len(),
                !found ==> inner@ == in0,
                !found ==> forall|m: int| 0 <= m < pidx ==> in0[m].0 != current_part,
                found ==> inner@.len() == in0.len() && (forall|m: int|
                    0 <= m < in0.len() ==> (#[trigger] inner@[m]).0 == in0[m].0) && (part_pos(
                    inner@,
                    current_part,
                ) matches Some(pi) && inner@[pi].1.0 == total_lines && inner@[pi].1.1@.len()
                    == 0),
                forall|a: int, b: int|
                    0 <= a < b < in0.len() ==> (#[trigger] in0[a]).0 != (#[trigger] in0[b]).0,
            decreases n - pidx,
        {
            if !found && inner[pidx].0 == current_part {
                let ghost inpre = inner@;
                let kept = inner.remove(pidx);
                inner.insert(pidx, (kept.0, (total_lines, Vec::new())));
                found = true;
                proof {
                    assert(inner@.len() == in0.len());
                    assert forall|m: int| 0 <= m < in0.len() implies (#[trigger] inner@[m]).0
                        == in0[m].0 by {
                        if m != pidx as int {
                            assert(inner@[m] == in0[m]);
                        }
                    }
                    lemma_distinct_transfer_parts(in0, inner@);
                    lemma_part_pos_present(inner@, current_part, pidx as int);
                }
            }
            pidx = pidx + 1;
        }
        if !found {
            inner.push((current_part, (total_lines, Vec::new())));
            proof {
                assert(inner@.drop_last() =~= in0);
                assert forall|a: int, b: int|
                    0 <= a < b < inner@.len() implies (#[trigger] inner@[a]).0 != (
                #[trigger] inner@[b]).0 by {
                    if b < inner@.len() - 1 {
                        assert(in0[a].0 != in0[b].0);
                    } else {
                        assert(in0[a].0 != current_part);
                    }
                }
                lemma_part_pos_present(inner@, current_part, in0.len() as int);
            }
        }
        self.parts.insert(i, (kstr, inner));
        proof {
            assert(self.parts@.len() == ps0.len());
            assert forall|m: int| 0 <= m < ps0.len() implies (#[trigger] self.parts@[m]).0@
                == ps0[m].0@ by {
                if m != i as int {
                    assert(self.parts@[m] == ps0[m]);
                }
            }
            lemma_distinct_transfer(ps0, self.parts@);
            lemma_assoc_pos_present(self.parts@, key@, i as int);
            assert(self.parts@ =~= ps0.update(i as int, self.parts@[i as int]));
            assert forall|k: Seq<char>| k != key@ implies #[trigger] assoc_val(self.parts@, k)
                == assoc_val(ps0, k) by {
                lemma_assoc_val_update(ps0, i as int, self.parts@[i as int], k);
            }
        }
    }

    /// Saves the line result for a line; returns true when the whole part
    /// is reduced.
    pub fn save_line_result(&mut self, key: &String, part: usize, result: String) -> (r: bool)
        requires
            old(self).wf(),
            assoc_pos(old(self).parts@, key@) matches Some(i) && part_pos(
                old(self).parts@[i].1@,
                part,
            ) is Some,
        ensures
            final(self).wf(),
            final(self).keys == old(self).keys,
            assoc_pos(final(self).parts@, key@) matches Some(i) && (part_pos(
                final(self).parts@[i].1@,
                part,
            ) matches Some(pi) && {
                let slot0 = old(self).parts@[i].1@[pi].1;
                let slot1 = final(self).parts@[i].1@[pi].1;
                &&& slot1.1@ == slot0.1@.push(result)
                &&& slot1.0 == (if slot0.0 > 0 {
                    (slot0.0 - 1) as usize
                } else {
                    0usize
                })
                &&& r == (slot1.0 == 0)
            }),
            forall|k: Seq<char>|
                k != key@ ==> #[trigger] assoc_val(final(self).parts@, k) == assoc_val(
                    old(self).parts@,
                    k,
                ),
    {
        let i = match self.part_slot(key) {
            Some(i) => i,
            None => {
                proof {
                    assert(false);
                }
                return false;
            },
        };
        let ghost ps0 = self.parts@;
        let (kstr, mut inner) = self.parts.remove(i);
        let ghost in0 = inner@;
        let n = inner.len();
        let mut pidx: usize = 0;
        let mut done: bool = false;
        let mut found: bool = false;
        let mut result_opt: Option<String> = Some(result);
        while pidx < n
            invariant
                pidx <= n,
                n == in0.len(),
                in0 == old(self).parts@[assoc_pos(old(self).parts@, key@)->Some_0].1@,
                !found ==> inner@ == in0 && (result_opt matches Some(res) && res == result),
                !found ==> forall|m: int| 0 <= m < pidx ==> in0[m].0 != part,
                found ==> inner@.len() == in0.len() && (forall|m: int|
                    0 <= m < in0.len() ==> (#[trigger] inner@[m]).0 == in0[m].0) && (part_pos(
                    inner@,
                    part,
                ) matches Some(pi) && {
                    let slot0 = in0[pi].1;
                    let slot1 = inner@[pi].1;
                    &&& slot1.1@ == slot0.1@.push(result)
                    &&& slot1.0 == (if slot0.0 > 0 {
                        (slot0.0 - 1) as usize
                    } else {
                        0usize
                    })
                    &&& done == (slot1.0 == 0)
                }),
                forall|a: int, b: int|
                    0 <= a < b < in0.len() ==> (#[trigger] in0[a]).0 != (#[trigger] in0[b]).0,
            decreases n - pidx,
        {
            if !found && inner[pidx].0 == part {
                let kept = inner.remove(pidx);
                let (rem0, mut results) = kept.1;
                let res = match result_opt {
                    Some(res) => res,
                    None => {
                        proof {
                            assert(false);
                        }
                        return false;
                    },
                };
                result_opt = None;
                results.push(res);
                let rem1: usize = if rem0 > 0 {
                    rem0 - 1
                } else {
                    0
                };
                done = rem1 == 0;
                inner.insert(pidx, (kept.0, (rem1, results)));
                found = true;
                proof {
                    assert(inner@.len() == in0.len());
                    assert forall|m: int| 0 <= m < in0.len() implies (#[trigger] inner@[m]).0
                        == in0[m].0 by {
                        if m != pidx as int {
                            assert(inner@[m] == in0[m]);
                        }
                    }
                    lemma_distinct_transfer_parts(in0, inner@);
                    lemma_part_pos_present(inner@, part, pidx as int);
                }
            }
            pidx = pidx + 1;
        }
        proof {
            if !found {
                assert(part_pos(in0, part) is Some);
                lemma_part_pos_sound(in0, part);
                assert(false);
            }
        }
        self.parts.insert(i, (kstr, inner));
        proof {
            assert(self.parts@.len() == ps0.len());
            assert forall|m: int| 0 <= m < ps0.len() implies (#[trigger] self.parts@[m]).0@
                == ps0[m].0@ by {
                if m != i as int {
                    assert(self.parts@[m] == ps0[m]);
                }
            }
            lemma_distinct_transfer(ps0, self.parts@);
            lemma_assoc_pos_present(self.parts@, key@, i as int);
            assert(self.parts@ =~= ps0.update(i as int, self.parts@[i as int]));
            assert forall|k: Seq<char>| k != key@ implies #[trigger] assoc_val(self.parts@, k)
                == assoc_val(ps0, k) by {
                lemma_assoc_val_update(ps0, i as int, self.parts@[i as int], k);
            }
        }
        done
    }

    /// Merges the line results collected so far for a key into a single
    /// list, draining them from the tracker.
    pub fn merge_line_results(&mut self, key: &String) -> (r: Vec<String>)
        requires
            old(self).wf(),
            assoc_pos(old(self).parts@, key@) is Some,
        ensures
            final(self).wf(),
            final(self).keys == old(self).keys,
            r@ == joined_line_results(
                old(self).parts@[assoc_pos(old(self).parts@, key@)->Some_0].1@,
            ),
            assoc_pos(final(self).parts@, key@) matches Some(i) && ({
                let oin = old(self).parts@[assoc_pos(old(self).parts@, key@)->Some_0].1@;
                let nin = final(self).parts@[i].1@;
                &&& nin.len() == oin.len()
                &&& forall|q: int|
                    0 <= q < oin.len() ==> (#[trigger] nin[q]).0 == oin[q].0 && nin[q].1.0
                        == oin[q].1.0 && nin[q].1.1@.len() == 0
            }),
            forall|k: Seq<char>|
                k != key@ ==> #[trigger] assoc_val(final(self).parts@, k) == assoc_val(
                    old(self).parts@,
                    k,
                ),
    {
        let i = match self.part_slot(key) {
            Some(i) => i,
            None => {
                proof {
                    assert(false);
                }
                return Vec::new();
            },
        };
        let ghost ps0 = self.parts@;
        let (kstr, mut inner) = self.parts.remove(i);
        let ghost in0 = inner@;
        let mut all_values: Vec<String> = Vec::new();
        let mut drained: Vec<(usize, (usize, Vec<String>))> = Vec::new();
        let n = inner.len();
        let mut pidx: usize = 0;
        proof {
            assert(in0.subrange(0, 0) =~= Seq::<(usize, (usize, Vec<String>))>::empty());
        }
        while pidx < n
            invariant
                pidx <= n,
                n == in0.len(),
                inner@ == in0,
                drained@.len() == pidx,
                forall|m: int|
                    0 <= m < pidx ==> (#[trigger] drained@[m]).0 == in0[m].0 && drained@[m].1.0
                        == in0[m].1.0 && drained@[m].1.1@.len() == 0,
                all_values@ == joined_line_results(in0.subrange(0, pidx as int)),
            decreases n - pidx,
        {
            let (pnum, slot) = &inner[pidx];
            let mut taken = slot.1.clone();
            all_values.append(&mut taken);
            drained.push((*pnum, (slot.0, Vec::new())));
            proof {
                assert(in0.subrange(0, pidx + 1).drop_last() =~= in0.subrange(0, pidx as int));
                assert(in0.subrange(0, pidx + 1).last() == in0[pidx as int]);
                assert(all_values@ =~= joined_line_results(in0.subrange(0, pidx + 1)));
            }
            pidx = pidx + 1;
        }
        proof {
            assert(in0.subrange(0, in0.len() as int) =~= in0);
        }
        self.parts.insert(i, (kstr, drained));
        proof {
            assert(self.parts@.len() == ps0.len());
            assert forall|m: int| 0 <= m < ps0.len() implies (#[trigger] self.parts@[m]).0@
                == ps0[m].0@ by {
                if m != i as int {
                    assert(self.parts@[m] == ps0[m]);
                }
            }
            lemma_distinct_transfer(ps0, self.parts@);
            lemma_assoc_pos_present(self.parts@, key@, i as int);
            assert(self.parts@ =~= ps0.update(i as int, self.parts@[i as int]));
            assert forall|k: Seq<char>| k != key@ implies #[trigger] assoc_val(self.parts@, k)
                == assoc_val(ps0, k) by {
                lemma_assoc_val_update(ps0, i as int, self.parts@[i as int], k);
            }
        }
        all_values
    }

    /// Saves a part result; returns true when all parts for the key are
    /// reduced.
    pub fn save_part_result(&mut self, key: &String, result: String) -> (r: bool)
        requires
            old(self).wf(),
            assoc_pos(old(self).keys@, key@) is Some,
        ensures
            final(self).wf(),
            final(self).parts == old(self).parts,
            assoc_pos(final(self).keys@, key@) matches Some(i) && {
                let slot0 = old(self).keys@[i].1;
                let slot1 = final(self).keys@[i].1;
                &&& slot1.1@ == slot0.1@.push(result)
                &&& slot1.0 == (if slot0.0 > 0 {
                    (slot0.0 - 1) as usize
                } else {
                    0usize
                })
                &&& r == (slot1.0 == 0)
            },
            forall|k: Seq<char>|
                k != key@ ==> #[trigger] assoc_val(final(self).keys@, k) == assoc_val(
                    old(self).keys@,
                    k,
                ),
    {
        let i = match self.key_slot(key) {
            Some(i) => i,
            None => {
                proof {
                    assert(false);
                }
                return false;
            },
        };
        let ghost ks0 = self.keys@;
        let kept = self.keys.remove(i);
        let (rem0, mut results) = kept.1;
        results.push(result);
        let rem1: usize = if rem0 > 0 {
            rem0 - 1
        } else {
            0
        };
        let done = rem1 == 0;
        self.keys.insert(i, (kept.0, (rem1, results)));
        proof {
            assert(self.keys@.len() == ks0.len());
            assert forall|m: int| 0 <= m < ks0.len() implies (#[trigger] self.keys@[m]).0@
                == ks0[m].0@ by {
                if m != i as int {
                    assert(self.keys@[m] == ks0[m]);
                }
            }
            lemma_distinct_transfer(ks0, self.keys@);
            lemma_assoc_pos_present(self.keys@, key@, i as int);
            assert(self.keys@ =~= ks0.update(i as int, self.keys@[i as int]));
            assert forall|k: Seq<char>| k != key@ implies #[trigger] assoc_val(self.keys@, k)
                == assoc_val(ks0, k) by {
                lemma_assoc_val_update(ks0, i as int, self.keys@[i as int], k);
            }
        }
        done
    }

    /// Returns the collected part results for a key and removes the key's
    /// entries from the tracker.
    pub fn get_and_clean_key_results(&mut self, key: &String) -> (r: Vec<String>)
        requires
            old(self).wf(),
            assoc_pos(old(self).keys@, key@) is Some,
            assoc_pos(old(self).parts@, key@) is Some,
        ensures
            final(self).wf(),
            r == old(self).keys@[assoc_pos(old(self).keys@, key@)->Some_0].1.1,
            assoc_pos(final(self).keys@, key@) is None,
            assoc_pos(final(self).parts@, key@) is None,
            forall|k: Seq<char>|
                k != key@ ==> #[trigger] assoc_val(final(self).keys@, k) == assoc_val(
                    old(self).keys@,
                    k,
                ),
            forall|k: Seq<char>|
                k != key@ ==> #[trigger] assoc_val(final(self).parts@, k) == assoc_val(
                    old(self).parts@,
                    k,
                ),
    {
        let pi = match self.part_slot(key) {
            Some(i) => i,
            None => {
                proof {
                    assert(false);
                }
                return Vec::new();
            },
        };
        let ghost ps0 = self.parts@;
        let _ = self.parts.remove(pi);
        proof {
            assert forall|m: int| 0 <= m < self.parts@.len() implies (#[trigger] self
                .parts@[m]).0@ != key@ by {
                if m < pi as int {
                    assert(self.parts@[m] == ps0[m]);
                } else {
                    assert(self.parts@[m] == ps0[m + 1]);
                }
            }
            lemma_assoc_pos_absent(self.parts@, key@);
            assert forall|k: Seq<char>| k != key@ implies #[trigger] assoc_val(self.parts@, k)
                == assoc_val(ps0, k) by {
                lemma_assoc_val_remove(ps0, pi as int, k);
            }
        }
        let ki = match self.key_slot(key) {
            Some(i) => i,
            None => {
                proof {
                    assert(false);
                }
                return Vec::new();
            },
        };
        let ghost ks0 = self.keys@;
        let kept = self.keys.remove(ki);
        proof {
            assert forall|m: int| 0 <= m < self.keys@.len() implies (#[trigger] self.keys@[m]).0@
                != key@ by {
                if m < ki as int {
                    assert(self.keys@[m] == ks0[m]);
                } else {
                    assert(self.keys@[m] == ks0[m + 1]);
                }
            }
            lemma_assoc_pos_absent(self.keys@, key@);
            assert forall|k: Seq<char>| k != key@ implies #[trigger] assoc_val(self.keys@, k)
                == assoc_val(ks0, k) by {
                lemma_assoc_val_remove(ks0, ki as int, k);
            }
        }
        kept.1.1
    }
}

} // verus!
