//! The interface to the user-code runtime: the raw results it emits, the
//! builder that carries the user code, and the line accounting that a map
//! task performs before the runtime sees the chunk.

use vstd::prelude::*;
use vstd::string::StrSliceExecFns;

verus! {

/// One raw `(key, value)` pair emitted by user map code.
pub struct MapResult {
    pub key: String,
    pub value: String,
}

/// Carries the user code that each runtime context is preloaded with.
pub struct ContextBuilder {
    pub user_code: String,
}

impl ContextBuilder {
    /// Creates a new builder that will create contexts preloaded with
    /// user_code.
    pub fn new(user_code: &str) -> (r: ContextBuilder)
        ensures
            r.user_code@ == user_code@,
    {
        ContextBuilder { user_code: user_code.to_owned() }
    }
}

/// The segments of a text split on `'\n'`; a trailing newline yields a final
/// empty segment.
pub open spec fn split_segments(s: Seq<char>) -> Seq<Seq<char>>
    decreases s.len(),
{
    if s.len() == 0 {
        seq![Seq::empty()]
    } else if s.last() == '\n' {
        split_segments(s.drop_last()).push(Seq::empty())
    } else {
        let prev = split_segments(s.drop_last());
        prev.update(prev.len() - 1, prev.last().push(s.last()))
    }
}

/// The non-empty entries of a segment list, in order.
pub open spec fn nonempty_of(segs: Seq<Seq<char>>) -> Seq<Seq<char>>
    decreases segs.len(),
{
    if segs.len() == 0 {
        Seq::empty()
    } else if segs.last().len() > 0 {
        nonempty_of(segs.drop_last()).push(segs.last())
    } else {
        nonempty_of(segs.drop_last())
    }
}

/// A split always yields at least one segment.
pub proof fn lemma_split_segments_nonempty(s: Seq<char>)
    ensures
        split_segments(s).len() >= 1,
    decreases s.len(),
{
    if s.len() > 0 {
        lemma_split_segments_nonempty(s.drop_last());
    }
}

/// The non-empty lines of a chunk, in order: what user map code is run on.
pub open spec fn chunk_lines_spec(s: Seq<char>) -> Seq<Seq<char>> {
    nonempty_of(split_segments(s))
}

/// Splits a chunk on newlines and drops the empty lines.
pub fn chunk_lines(chunk: &str) -> (r: Vec<String>)
    ensures
        r.deep_view() == chunk_lines_spec(chunk@),
{
    let n: usize = chunk.unicode_len();
    let mut done: Vec<String> = Vec::new();
    let mut cur = String::new();
    let mut i: usize = 0;
    proof {
        assert(chunk@.subrange(0, 0) =~= Seq::<char>::empty());
        assert(split_segments(Seq::<char>::empty()) =~= seq![Seq::<char>::empty()]);
        assert(seq![Seq::<char>::empty()].drop_last() =~= Seq::<Seq<char>>::empty());
        assert(done.deep_view() =~= Seq::<Seq<char>>::empty());
    }
    while i < n
        invariant
            i <= n,
            n == chunk@.len(),
            cur@ == split_segments(chunk@.subrange(0, i as int)).last(),
            done.deep_view() == nonempty_of(
                split_segments(chunk@.subrange(0, i as int)).drop_last(),
            ),
        decreases n - i,
    {
        let c: char = chunk.get_char(i);
        let ghost pre: Seq<char> = chunk@.subrange(0, i as int);
        let ghost now: Seq<char> = chunk@.subrange(0, i + 1);
        proof {
            lemma_split_segments_nonempty(pre);
            lemma_split_segments_nonempty(now);
            assert(now.drop_last() =~= pre);
            assert(now.last() == chunk@[i as int]);
        }
        if c == '\n' {
            if cur.as_str().unicode_len() > 0 {
                let ghost dv = done.deep_view();
                done.push(cur);
                proof {
                    assert(done.deep_view() =~= dv.push(split_segments(pre).last()));
                    assert(split_segments(now).drop_last() =~= split_segments(pre));
                }
            } else {
                proof {
                    assert(split_segments(now).drop_last() =~= split_segments(pre));
                }
            }
            cur = String::new();
        } else {
            cur.push(c);
            proof {
                let prev = split_segments(pre);
                assert(split_segments(now) == prev.update(
                    prev.len() - 1,
                    prev.last().push(chunk@[i as int]),
                ));
                assert(split_segments(now).last() == prev.last().push(chunk@[i as int]));
                assert(split_segments(now).drop_last() =~= prev.drop_last());
            }
        }
        i = i + 1;
    }
    proof {
        lemma_split_segments_nonempty(chunk@);
        assert(chunk@.subrange(0, n as int) =~= chunk@);
    }
    if cur.as_str().unicode_len() > 0 {
        let ghost dv = done.deep_view();
        done.push(cur);
        proof {
            assert(done.deep_view() =~= dv.push(split_segments(chunk@).last()));
        }
    }
    done
}

/// The 1-based number of the first line of a chunk that ends at
/// last_line_number and holds count lines in all, empty lines included.
pub fn first_line_number(last_line_number: usize, count: usize) -> (r: usize)
    requires
        1 <= count <= last_line_number,
    ensures
        r == last_line_number - count + 1,
{
    last_line_number - count + 1
}

/// How many newlines a text holds.
pub open spec fn newline_count(s: Seq<char>) -> int
    decreases s.len(),
{
    if s.len() == 0 {
        0
    } else {
        newline_count(s.drop_last()) + (if s.last() == '\n' {
            1int
        } else {
            0int
        })
    }
}

/// How many lines a chunk holds, empty lines included: one per newline,
/// plus a final unterminated line if the chunk does not end with one.
pub open spec fn chunk_line_count(s: Seq<char>) -> int {
    if s.len() == 0 {
        0
    } else if s.last() == '\n' {
        newline_count(s)
    } else {
        newline_count(s) + 1
    }
}

/// A prefix holds no more newlines than the whole text.
proof fn lemma_newline_count_prefix(s: Seq<char>, i: int)
    requires
        0 <= i <= s.len(),
    ensures
        newline_count(s.subrange(0, i)) <= newline_count(s),
    decreases s.len() - i,
{
    if i < s.len() {
        lemma_newline_count_prefix(s, i + 1);
        assert(s.subrange(0, i + 1).drop_last() =~= s.subrange(0, i));
    } else {
        assert(s.subrange(0, i) =~= s);
    }
}

/// A text holds no more newlines than characters, and no fewer than none.
proof fn lemma_newline_count_le_len(s: Seq<char>)
    ensures
        0 <= newline_count(s) <= s.len(),
    decreases s.len(),
{
    if s.len() > 0 {
        lemma_newline_count_le_len(s.drop_last());
    }
}

/// A text splits into one more segment than it holds newlines.
proof fn lemma_split_segments_count(s: Seq<char>)
    ensures
        split_segments(s).len() == newline_count(s) + 1,
    decreases s.len(),
{
    if s.len() > 0 {
        lemma_split_segments_nonempty(s.drop_last());
        lemma_split_segments_count(s.drop_last());
    }
}

/// The non-empty lines of a segment list, each paired with its 1-based
/// line number counted from first at the first segment.
pub open spec fn numbered_lines_spec(segs: Seq<Seq<char>>, first: int) -> Seq<(int, Seq<char>)>
    decreases segs.len(),
{
    if segs.len() == 0 {
        Seq::empty()
    } else if segs.last().len() > 0 {
        numbered_lines_spec(segs.drop_last(), first).push(
            (first + segs.len() - 1, segs.last()),
        )
    } else {
        numbered_lines_spec(segs.drop_last(), first)
    }
}

/// The numbered pairs as specifications see them.
pub open spec fn numbered_pairs_view(v: Seq<(usize, String)>) -> Seq<(int, Seq<char>)> {
    Seq::new(v.len(), |q: int| (v[q].0 as int, v[q].1@))
}

/// Splits a chunk on newlines, dropping the empty lines and pairing every
/// kept line with its true 1-based position: the chunk's first line is
/// numbered last_line_number minus the chunk's full line count plus one,
/// and empty lines still advance the numbering.
pub fn numbered_chunk_lines(chunk: &str, last_line_number: usize) -> (r: Vec<(usize, String)>)
    requires
        chunk@.len() > 0,
        chunk_line_count(chunk@) <= last_line_number,
    ensures
        numbered_pairs_view(r@) == numbered_lines_spec(
            split_segments(chunk@),
            last_line_number - chunk_line_count(chunk@) + 1,
        ),
{
    let n: usize = chunk.unicode_len();
    // First pass: the chunk's full line count.
    let mut nl: usize = 0;
    let mut i: usize = 0;
    while i < n
        invariant
            i <= n,
            n == chunk@.len(),
            nl <= i,
            nl == newline_count(chunk@.subrange(0, i as int)),
        decreases n - i,
    {
        let c: char = chunk.get_char(i);
        proof {
            assert(chunk@.subrange(0, i + 1).drop_last() =~= chunk@.subrange(0, i as int));
            assert(chunk@.subrange(0, i + 1).last() == chunk@[i as int]);
        }
        if c == '\n' {
            nl = nl + 1;
        }
        i = i + 1;
    }
    proof {
        assert(chunk@.subrange(0, n as int) =~= chunk@);
        lemma_newline_count_le_len(chunk@.drop_last());
        if chunk@.last() == '\n' {
            assert(newline_count(chunk@) == newline_count(chunk@.drop_last()) + 1);
        } else {
            assert(newline_count(chunk@) == newline_count(chunk@.drop_last()));
        }
    }
    let count: usize = if chunk.get_char(n - 1) == '\n' {
        nl
    } else {
        nl + 1
    };
    proof {
        assert(chunk@[n - 1] == chunk@.last());
        assert(nl == newline_count(chunk@));
        if chunk@.last() == '\n' {
            assert(count == nl);
            assert(chunk_line_count(chunk@) == newline_count(chunk@));
        } else {
            assert(count == nl + 1);
            assert(chunk_line_count(chunk@) == newline_count(chunk@) + 1);
        }
        assert(count == chunk_line_count(chunk@));
        assert(count >= 1);
    }
    let first: usize = first_line_number(last_line_number, count);
    // Second pass: collect the non-empty lines with their positions.
    let mut done: Vec<(usize, String)> = Vec::new();
    let mut cur = String::new();
    let mut idx: usize = 0;
    let mut j: usize = 0;
    proof {
        assert(chunk@.subrange(0, 0) =~= Seq::<char>::empty());
        assert(split_segments(Seq::<char>::empty()) =~= seq![Seq::<char>::empty()]);
        assert(seq![Seq::<char>::empty()].drop_last() =~= Seq::<Seq<char>>::empty());
        assert(numbered_pairs_view(done@) =~= Seq::<(int, Seq<char>)>::empty());
        assert(numbered_lines_spec(Seq::<Seq<char>>::empty(), first as int) =~= Seq::<
            (int, Seq<char>),
        >::empty());
        assert(newline_count(Seq::<char>::empty()) == 0);
        assert(split_segments(chunk@.subrange(0, 0)).drop_last() =~= Seq::<Seq<char>>::empty());
        assert(numbered_pairs_view(done@) =~= numbered_lines_spec(
            split_segments(chunk@.subrange(0, 0)).drop_last(),
            first as int,
        ));
    }
    while j < n
        invariant
            j <= n,
            n == chunk@.len(),
            count == chunk_line_count(chunk@),
            1 <= count <= last_line_number,
            first == last_line_number - count + 1,
            idx == newline_count(chunk@.subrange(0, j as int)),
            idx <= j,
            cur@ == split_segments(chunk@.subrange(0, j as int)).last(),
            numbered_pairs_view(done@) == numbered_lines_spec(
                split_segments(chunk@.subrange(0, j as int)).drop_last(),
                first as int,
            ),
        decreases n - j,
    {
        let c: char = chunk.get_char(j);
        let ghost pre: Seq<char> = chunk@.subrange(0, j as int);
        let ghost now: Seq<char> = chunk@.subrange(0, j + 1);
        proof {
            lemma_split_segments_nonempty(pre);
            lemma_split_segments_nonempty(now);
            lemma_split_segments_count(pre);
            assert(now.drop_last() =~= pre);
            assert(now.last() == chunk@[j as int]);
        }
        if c == '\n' {
            if cur.as_str().unicode_len() > 0 {
                proof {
                    // This completed segment is a real line: its index stays
                    // under the chunk's line count.
                    lemma_newline_count_prefix(chunk@, j + 1);
                    assert(newline_count(now) == idx + 1);
                    assert(idx + 1 <= newline_count(chunk@));
                    assert(idx < count);
                }
                let ghost dv = numbered_pairs_view(done@);
                done.push((first + idx, cur));
                proof {
                    assert(numbered_pairs_view(done@) =~= dv.push(
                        ((first + idx) as int, split_segments(pre).last()),
                    ));
                    assert(split_segments(now).drop_last() =~= split_segments(pre));
                    assert(numbered_pairs_view(done@) =~= numbered_lines_spec(
                        split_segments(now).drop_last(),
                        first as int,
                    ));
                }
            } else {
                proof {
                    assert(split_segments(now).drop_last() =~= split_segments(pre));
                }
            }
            cur = String::new();
            idx = idx + 1;
        } else {
            cur.push(c);
            proof {
                let prev = split_segments(pre);
                assert(split_segments(now) == prev.update(
                    prev.len() - 1,
                    prev.last().push(chunk@[j as int]),
                ));
                assert(split_segments(now).last() == prev.last().push(chunk@[j as int]));
                assert(split_segments(now).drop_last() =~= prev.drop_last());
            }
        }
        j = j + 1;
    }
    proof {
        assert(chunk@.subrange(0, n as int) =~= chunk@);
        lemma_split_segments_nonempty(chunk@);
        lemma_split_segments_count(chunk@);
    }
    if cur.as_str().unicode_len() > 0 {
        proof {
            // The chunk does not end with a newline, so this final segment
            // is its last line.
            assert(chunk@.last() != '\n');
            assert(idx == count - 1);
        }
        let ghost dv = numbered_pairs_view(done@);
        done.push((first + idx, cur));
        proof {
            assert(numbered_pairs_view(done@) =~= dv.push(
                ((first + idx) as int, split_segments(chunk@).last()),
            ));
            assert(numbered_pairs_view(done@) =~= numbered_lines_spec(
                split_segments(chunk@),
                first as int,
            ));
        }
    }
    done
}

} // verus!
