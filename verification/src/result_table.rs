//! A persistent table holding the reduction results, ordered by key, walked
//! ascending or descending.

use vstd::prelude::*;
use vstd::string::StringExecFns;
use crate::errors::EngineError;
use crate::ordering::{lemma_lex_irreflexive, lex_lt, position, sorted_entries};
use crate::reducer::{assoc_pos, lemma_assoc_pos_present};

verus! {

/// The direction in which results are walked.
#[derive(Clone, Copy, PartialEq, Eq, Structural, Debug)]
pub enum ResultsOrdering {
    Asc,
    Desc,
}

impl ResultsOrdering {
    /// Descending for "desc", ascending for anything else.
    pub fn new(order: &str) -> (r: ResultsOrdering)
        ensures
            order@ == "desc"@ ==> r is Desc,
            order@ != "desc"@ ==> r is Asc,
    {
        if String::from_str(order) == String::from_str("desc") {
            ResultsOrdering::Desc
        } else {
            ResultsOrdering::Asc
        }
    }
}

/// A persistent table holding the reduction results.
pub struct ResultTable {
    pub entries: Vec<(String, String)>,
    pub root_dir: String,
}

impl ResultTable {
    /// Entries strictly sorted by key.
    pub open spec fn wf(self) -> bool {
        sorted_entries(self.entries@)
    }

    /// Creates the table under path.
    pub fn new(path: &str) -> (r: ResultTable)
        ensures
            r.wf(),
            r.entries@.len() == 0,
            r.root_dir@ == path@,
    {
        ResultTable { entries: Vec::new(), root_dir: String::from_str(path) }
    }

    /// Adds a new entry to the table, overwriting any existing entry for
    /// the key; the table stays sorted.
    pub fn add(&mut self, key: &str, result: &str) -> (r: Result<(), EngineError>)
        requires
            old(self).wf(),
        ensures
            final(self).wf(),
            r is Ok,
            final(self).root_dir == old(self).root_dir,
            assoc_pos(old(self).entries@, key@) matches Some(i) ==> {
                &&& final(self).entries@.len() == old(self).entries@.len()
                &&& final(self).entries@[i].0@ == key@
                &&& final(self).entries@[i].1@ == result@
                &&& forall|m: int|
                    0 <= m < old(self).entries@.len() && m != i ==> final(self).entries@[m] == old(
                        self,
                    ).entries@[m]
            },
            assoc_pos(old(self).entries@, key@) is None ==> {
                &&& final(self).entries@.len() == old(self).entries@.len() + 1
                &&& exists|j: int|
                    0 <= j <= old(self).entries@.len() && (#[trigger] final(self).entries@[j]).0@
                        == key@ && final(self).entries@[j].1@ == result@ && (forall|m: int|
                        0 <= m < j ==> final(self).entries@[m] == old(self).entries@[m]) && (
                    forall|m: int|
                        j < m < final(self).entries@.len() ==> final(self).entries@[m] == old(
                            self,
                        ).entries@[m - 1])
            },
    {
        let owned = String::from_str(key);
        let value = String::from_str(result);
        proof {
            lemma_sorted_distinct(self.entries@);
        }
        let ghost es0 = self.entries@;
        match position(&self.entries, &owned) {
            Ok(i) => {
                proof {
                    lemma_assoc_pos_present(es0, key@, i as int);
                }
                let kept = self.entries.remove(i);
                self.entries.insert(i, (kept.0, value));
                proof {
                    assert forall|a: int, b: int|
                        0 <= a < b < self.entries@.len() implies lex_lt(
                        self.entries@[a].0@,
                        self.entries@[b].0@,
                    ) by {
                        assert(self.entries@[a].0@ == es0[a].0@);
                        assert(self.entries@[b].0@ == es0[b].0@);
                    }
                }
                Ok(())
            },
            Err(j) => {
                proof {
                    crate::reducer::lemma_assoc_pos_absent(es0, key@);
                }
                self.entries.insert(j, (owned, value));
                proof {
                    assert forall|a: int, b: int|
                        0 <= a < b < self.entries@.len() implies lex_lt(
                        self.entries@[a].0@,
                        self.entries@[b].0@,
                    ) by {
                        if b < j as int {
                        } else if a < j as int && b == j as int {
                            assert(lex_lt(es0[a].0@, key@));
                        } else if a < j as int && b > j as int {
                            assert(self.entries@[b] == es0[b - 1]);
                        } else if a == j as int {
                            assert(lex_lt(key@, es0[b - 1].0@));
                        } else {
                            assert(self.entries@[a] == es0[a - 1]);
                            assert(self.entries@[b] == es0[b - 1]);
                        }
                    }
                    assert(final(self).entries@[j as int].0@ == key@);
                }
                Ok(())
            },
        }
    }

    /// Creates an iterator over the table entries in the chosen direction.
    pub fn iter<'r>(&'r self, order: ResultsOrdering) -> (r: ResultTableIterator<'r>)
        ensures
            r.table == self,
            r.order == order,
            order is Asc ==> r.pos == 0,
            order is Desc ==> r.pos == self.entries@.len(),
    {
        match order {
            ResultsOrdering::Asc => ResultTableIterator { table: self, pos: 0, order },
            ResultsOrdering::Desc => ResultTableIterator {
                table: self,
                pos: self.entries.len(),
                order,
            },
        }
    }
}

/// Strictly sorted entries have pairwise distinct keys.
pub proof fn lemma_sorted_distinct<V>(es: Seq<(String, V)>)
    requires
        sorted_entries(es),
    ensures
        forall|a: int, b: int| 0 <= a < b < es.len() ==> es[a].0@ != es[b].0@,
{
    assert forall|a: int, b: int| 0 <= a < b < es.len() implies es[a].0@ != es[b].0@ by {
        lemma_lex_irreflexive(es[a].0@);
        if es[a].0@ == es[b].0@ {
            assert(lex_lt(es[a].0@, es[b].0@));
        }
    }
}

/// Walks the table entries in the chosen direction.
pub struct ResultTableIterator<'r> {
    pub table: &'r ResultTable,
    pub pos: usize,
    pub order: ResultsOrdering,
}

impl<'r> ResultTableIterator<'r> {
    /// The next key and value in the chosen direction, or nothing at the
    /// end.
    pub fn next(&mut self) -> (r: Option<(String, String)>)
        requires
            old(self).pos <= old(self).table.entries@.len(),
        ensures
            final(self).table == old(self).table,
            final(self).order == old(self).order,
            old(self).order is Asc ==> {
                if old(self).pos < old(self).table.entries@.len() {
                    let e = old(self).table.entries@[old(self).pos as int];
                    r matches Some(kv) && kv.0@ == e.0@ && kv.1@ == e.1@ && final(self).pos == old(
                        self,
                    ).pos + 1
                } else {
                    r is None && final(self).pos == old(self).pos
                }
            },
            old(self).order is Desc ==> {
                if old(self).pos > 0 {
                    let e = old(self).table.entries@[old(self).pos - 1];
                    r matches Some(kv) && kv.0@ == e.0@ && kv.1@ == e.1@ && final(self).pos == old(
                        self,
                    ).pos - 1
                } else {
                    r is None && final(self).pos == old(self).pos
                }
            },
    {
        match self.order {
            ResultsOrdering::Asc => {
                if self.pos < self.table.entries.len() {
                    let e = &self.table.entries[self.pos];
                    self.pos = self.pos + 1;
                    Some((e.0.clone(), e.1.clone()))
                } else {
                    None
                }
            },
            ResultsOrdering::Desc => {
                if self.pos > 0 {
                    self.pos = self.pos - 1;
                    let e = &self.table.entries[self.pos];
                    Some((e.0.clone(), e.1.clone()))
                } else {
                    None
                }
            },
        }
    }
}

/// The key sequence a walk of the table emits in the chosen direction.
pub open spec fn output_keys(t: ResultTable, order: ResultsOrdering) -> Seq<Seq<char>> {
    let asc = Seq::new(t.entries@.len(), |i: int| t.entries@[i].0@);
    if order is Asc {
        asc
    } else {
        asc.reverse()
    }
}

/// Law: the emitted records are strictly sorted by key in the direction the
/// ordering selects, so no key appears twice.
pub proof fn lemma_output_strictly_sorted(t: ResultTable, order: ResultsOrdering, i: int, j: int)
    requires
        t.wf(),
        0 <= i < j < output_keys(t, order).len(),
    ensures
        order is Asc ==> lex_lt(output_keys(t, order)[i], output_keys(t, order)[j]),
        order is Desc ==> lex_lt(output_keys(t, order)[j], output_keys(t, order)[i]),
        output_keys(t, order)[i] != output_keys(t, order)[j],
{
    let out = output_keys(t, order);
    if order is Asc {
        assert(lex_lt(out[i], out[j]));
        lemma_lex_irreflexive(out[i]);
    } else {
        let n = t.entries@.len() as int;
        assert(out[i] == t.entries@[n - 1 - i].0@);
        assert(out[j] == t.entries@[n - 1 - j].0@);
        assert(lex_lt(out[j], out[i]));
        lemma_lex_irreflexive(out[i]);
    }
}

} // verus!
