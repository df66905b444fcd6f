//! Lexicographic ordering of keys by scalar value, and position search in a
//! key-sorted entry list. For the UTF-8 keys the stores hold, this order
//! coincides with the byte order of the encoded keys.

use vstd::prelude::*;
use vstd::string::StrSliceExecFns;

verus! {

/// Strict lexicographic order on texts by scalar value.
pub open spec fn lex_lt(a: Seq<char>, b: Seq<char>) -> bool
    decreases a.len() + b.len(),
{
    if b.len() == 0 {
        false
    } else if a.len() == 0 {
        true
    } else if (a.first() as u32) < (b.first() as u32) {
        true
    } else if a.first() == b.first() {
        lex_lt(a.drop_first(), b.drop_first())
    } else {
        false
    }
}

/// Two texts are equal or one is strictly below the other.
pub proof fn lemma_lex_trichotomy(a: Seq<char>, b: Seq<char>)
    ensures
        a == b || lex_lt(a, b) || lex_lt(b, a),
    decreases a.len() + b.len(),
{
    if a.len() == 0 && b.len() == 0 {
        assert(a =~= b);
    } else if a.len() > 0 && b.len() > 0 {
        if a.first() == b.first() {
            lemma_lex_trichotomy(a.drop_first(), b.drop_first());
            if a.drop_first() == b.drop_first() {
                assert forall|i: int| 0 <= i < a.len() implies a[i] == b[i] by {
                    if i > 0 {
                        assert(a.drop_first()[i - 1] == b.drop_first()[i - 1]);
                    }
                }
                assert(a =~= b);
            }
        } else if (a.first() as u32) == (b.first() as u32) {
            vstd::utf8::char_u32_cast(a.first(), a.first() as u32);
            vstd::utf8::char_u32_cast(b.first(), b.first() as u32);
        }
    }
}

/// Nothing is strictly below itself.
pub proof fn lemma_lex_irreflexive(a: Seq<char>)
    ensures
        !lex_lt(a, a),
    decreases a.len(),
{
    if a.len() > 0 {
        lemma_lex_irreflexive(a.drop_first());
    }
}

/// The order is transitive.
pub proof fn lemma_lex_transitive(a: Seq<char>, b: Seq<char>, c: Seq<char>)
    requires
        lex_lt(a, b),
        lex_lt(b, c),
    ensures
        lex_lt(a, c),
    decreases a.len() + b.len() + c.len(),
{
    if a.len() > 0 && b.len() > 0 && c.len() > 0 {
        if a.first() == b.first() && b.first() == c.first() {
            lemma_lex_transitive(a.drop_first(), b.drop_first(), c.drop_first());
        }
    }
}

/// Decides the strict order between two texts.
pub fn str_lt(a: &str, b: &str) -> (r: bool)
    ensures
        r == lex_lt(a@, b@),
{
    let alen: usize = a.unicode_len();
    let blen: usize = b.unicode_len();
    let mut i: usize = 0;
    proof {
        assert(a@.skip(0) =~= a@);
        assert(b@.skip(0) =~= b@);
    }
    loop
        invariant
            i <= alen,
            i <= blen,
            alen == a@.len(),
            blen == b@.len(),
            lex_lt(a@, b@) == lex_lt(a@.skip(i as int), b@.skip(i as int)),
        decreases alen - i,
    {
        if i >= alen {
            proof {
                assert(a@.skip(i as int).len() == 0);
            }
            return i < blen;
        }
        if i >= blen {
            proof {
                assert(b@.skip(i as int).len() == 0);
            }
            return false;
        }
        let ca: char = a.get_char(i);
        let cb: char = b.get_char(i);
        proof {
            assert(a@.skip(i as int).first() == a@[i as int]);
            assert(b@.skip(i as int).first() == b@[i as int]);
        }
        if ca != cb {
            return (ca as u32) < (cb as u32);
        }
        proof {
            assert(a@.skip(i as int).drop_first() =~= a@.skip(i + 1));
            assert(b@.skip(i as int).drop_first() =~= b@.skip(i + 1));
        }
        i = i + 1;
    }
}

/// A strictly key-sorted entry list.
pub open spec fn sorted_entries<V>(es: Seq<(String, V)>) -> bool {
    forall|i: int, j: int| 0 <= i < j < es.len() ==> lex_lt(es[i].0@, es[j].0@)
}

/// Finds a key among sorted entries: the position holding it, or the
/// position where it belongs.
pub fn position<V>(entries: &Vec<(String, V)>, key: &String) -> (r: Result<usize, usize>)
    requires
        sorted_entries(entries@),
    ensures
        r matches Ok(i) ==> i < entries@.len() && entries@[i as int].0@ == key@,
        r matches Err(j) ==> {
            &&& j <= entries@.len()
            &&& forall|i: int| 0 <= i < j ==> lex_lt(entries@[i].0@, key@)
            &&& forall|i: int| j <= i < entries@.len() ==> lex_lt(key@, entries@[i].0@)
            &&& forall|i: int| 0 <= i < entries@.len() ==> entries@[i].0@ != key@
        },
{
    let n = entries.len();
    let mut i: usize = 0;
    while i < n
        invariant
            i <= n,
            n == entries@.len(),
            sorted_entries(entries@),
            forall|m: int| 0 <= m < i ==> lex_lt(entries@[m].0@, key@),
        decreases n - i,
    {
        if entries[i].0 == *key {
            return Ok(i);
        }
        if str_lt(key.as_str(), entries[i].0.as_str()) {
            proof {
                assert forall|m: int| (i as int) <= m < entries@.len() implies lex_lt(
                    key@,
                    entries@[m].0@,
                ) by {
                    if m > i as int {
                        lemma_lex_transitive(key@, entries@[i as int].0@, entries@[m].0@);
                    }
                }
                assert forall|m: int| 0 <= m < entries@.len() implies entries@[m].0@ != key@ by {
                    if m < i as int {
                        lemma_lex_irreflexive(entries@[m].0@);
                        if entries@[m].0@ == key@ {
                            assert(lex_lt(entries@[m].0@, key@));
                        }
                    } else {
                        lemma_lex_irreflexive(key@);
                        if entries@[m].0@ == key@ {
                            assert(lex_lt(key@, entries@[m].0@));
                        }
                    }
                }
            }
            return Err(i);
        }
        proof {
            lemma_lex_trichotomy(key@, entries@[i as int].0@);
        }
        i = i + 1;
    }
    proof {
        assert forall|m: int| 0 <= m < entries@.len() implies entries@[m].0@ != key@ by {
            lemma_lex_irreflexive(key@);
            if entries@[m].0@ == key@ {
                assert(lex_lt(entries@[m].0@, key@));
            }
        }
    }
    Err(n)
}

} // verus!
