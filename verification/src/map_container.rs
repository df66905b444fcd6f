//! Per-key accumulator: values held in memory plus metadata for the
//! append-only part files that oversize keys spill to.

use vstd::prelude::*;
use base64::Engine;
use crate::errors::EngineError;
use crate::json_line::{json_line_of, single_line, to_json_line};
use crate::text::{decimal_of, to_decimal};

verus! {

/// The values of one flushed part-file line.
pub type Batch = Seq<Seq<char>>;

/// The batches flushed into one part file, in append order.
pub type PartLines = Seq<Batch>;

/// The byte length of a text (its UTF-8 encoding).
pub open spec fn bytes_len(s: Seq<char>) -> nat {
    vstd::utf8::encode_utf8(s).len()
}

/// Total byte length of a list of values.
pub open spec fn sum_bytes(vs: Seq<Seq<char>>) -> nat
    decreases vs.len(),
{
    if vs.len() == 0 {
        0
    } else {
        sum_bytes(vs.drop_last()) + bytes_len(vs.last())
    }
}

/// The byte length of the serialized line holding one batch.
pub open spec fn line_bytes(batch: Batch) -> nat {
    bytes_len(json_line_of(batch))
}

/// All values of one part, batches concatenated in append order.
pub open spec fn flat_lines(lines: PartLines) -> Seq<Seq<char>>
    decreases lines.len(),
{
    if lines.len() == 0 {
        Seq::empty()
    } else {
        flat_lines(lines.drop_last()) + lines.last()
    }
}

/// All flushed values of a container, parts concatenated in part order.
pub open spec fn flat_parts(parts: Seq<PartLines>) -> Seq<Seq<char>>
    decreases parts.len(),
{
    if parts.len() == 0 {
        Seq::empty()
    } else {
        flat_parts(parts.drop_last()) + flat_lines(parts.last())
    }
}

/// Relies on str::len: the byte length of a string's UTF-8 form, which is
/// what the length of a string held in memory is.
#[verifier::external_body]
pub fn byte_len(s: &str) -> (r: usize)
    ensures
        r == bytes_len(s@),
{
    s.len()
}

/// A non-empty value always occupies at least one byte, so each such value
/// added strictly grows the buffered size until the next flush resets it.
pub proof fn lemma_nonempty_value_has_bytes(s: Seq<char>)
    requires
        s.len() > 0,
    ensures
        bytes_len(s) >= 1,
{
    vstd::utf8::char_is_scalar(s[0]);
    assert(vstd::utf8::encode_utf8(s) == vstd::utf8::encode_scalar(s[0] as u32)
        + vstd::utf8::encode_utf8(s.drop_first()));
}

/// The base64 text of a key, used as the filename-safe encoded key.
pub uninterp spec fn encoded_key_of(key: Seq<char>) -> Seq<char>;

/// Relies on base64::engine::general_purpose::STANDARD.encode: the standard
/// base64 encoding of the key's UTF-8 bytes, a pure function of the key.
#[verifier::external_body]
fn encode_key(key: &str) -> (r: String)
    ensures
        r@ == encoded_key_of(key@),
{
    base64::engine::general_purpose::STANDARD.encode(key.as_bytes())
}

/// Where the data of a container currently lives.
#[derive(Clone, Copy, PartialEq, Eq, Structural, Debug)]
pub enum ContainerState {
    NoData,
    IndexOnly,
    FileOnly,
    IndexAndFile,
}

/// One line to append to a part file, handed back by a flush for the caller
/// to write (and sync) before the container is persisted.
pub struct PartWrite {
    pub path: String,
    pub line: String,
    pub new_part: bool,
}

/// Contains values and metadata for a map key.
pub struct MapContainer {
    pub values: Vec<String>,
    pub buffered_size: usize,
    pub encoded_key: String,
    pub last_part_size: usize,
    pub last_part_sequence: usize,
    pub lines_per_part: Vec<usize>,
    pub total_parts: usize,
    /// Flush history: for each part, the value batches written to it.
    pub batches: Ghost<Seq<PartLines>>,
}

/// The part-file path for one part of a key: `{dir}/{key}.map.{part}.jsonl`.
pub open spec fn part_path_spec(dir: Seq<char>, encoded_key: Seq<char>, part: nat) -> Seq<char> {
    dir + "/"@ + encoded_key + ".map."@ + decimal_of(part) + ".jsonl"@
}

impl MapContainer {
    /// Well-formedness: the part metadata is consistent with the flush
    /// history and the buffered size counts the in-memory value bytes.
    pub open spec fn wf(self) -> bool {
        &&& self.total_parts == self.lines_per_part@.len()
        &&& self.total_parts > 0 ==> self.last_part_sequence + 1 == self.total_parts
        &&& self.total_parts == 0 ==> self.last_part_sequence == 0 && self.last_part_size == 0
        &&& self.buffered_size == sum_bytes(self.values.deep_view())
        &&& self.batches@.len() == self.total_parts
        &&& forall|p: int|
            0 <= p < self.total_parts ==> self.lines_per_part@[p] == self.batches@[p].len()
        &&& self.total_parts > 0 ==> self.lines_per_part@[self.total_parts - 1]
            <= self.last_part_size
    }

    /// Every value this container holds, in consumption order: the flushed
    /// batches part by part, then the values still in memory.
    pub open spec fn consumable(self) -> Seq<Seq<char>> {
        flat_parts(self.batches@) + self.values.deep_view()
    }

    /// Creates a new empty container for a key.
    pub fn new(key: &str) -> (r: MapContainer)
        ensures
            r.wf(),
            r.encoded_key@ == encoded_key_of(key@),
            r.values@.len() == 0,
            r.buffered_size == 0,
            r.last_part_size == 0,
            r.last_part_sequence == 0,
            r.lines_per_part@.len() == 0,
            r.total_parts == 0,
            r.batches@ == Seq::<PartLines>::empty(),
            r.consumable() == Seq::<Seq<char>>::empty(),
    {
        let r = MapContainer {
            encoded_key: encode_key(key),
            values: Vec::new(),
            buffered_size: 0,
            last_part_size: 0,
            last_part_sequence: 0,
            lines_per_part: Vec::new(),
            total_parts: 0,
            batches: Ghost(Seq::empty()),
        };
        proof {
            assert(r.values.deep_view() =~= Seq::<Seq<char>>::empty());
            assert(r.consumable() =~= Seq::<Seq<char>>::empty());
        }
        r
    }

    /// Adds a value to the container while also incrementing the
    /// buffered_size. The buffered byte count must stay within the machine's
    /// integer range.
    pub fn add_value(&mut self, value: String)
        requires
            old(self).wf(),
            old(self).buffered_size + bytes_len(value@) <= usize::MAX,
        ensures
            final(self).wf(),
            final(self).values.deep_view() == old(self).values.deep_view().push(value@),
            final(self).buffered_size == old(self).buffered_size + bytes_len(value@),
            final(self).encoded_key == old(self).encoded_key,
            final(self).last_part_size == old(self).last_part_size,
            final(self).last_part_sequence == old(self).last_part_sequence,
            final(self).lines_per_part == old(self).lines_per_part,
            final(self).total_parts == old(self).total_parts,
            final(self).batches == old(self).batches,
            final(self).consumable() == old(self).consumable().push(value@),
    {
        let vlen: usize = byte_len(value.as_str());
        self.buffered_size = self.buffered_size + vlen;
        self.values.push(value);
        proof {
            assert(self.values.deep_view() =~= old(self).values.deep_view().push(value@));
            assert(self.values.deep_view().drop_last() =~= old(self).values.deep_view());
            assert(self.consumable() =~= old(self).consumable().push(value@));
        }
    }

    /// Adds multiple values to the container while also incrementing the
    /// buffered_size. Fails, leaving the container unchanged, exactly when
    /// the buffered byte count would exceed the machine's integer range.
    pub fn add_values(&mut self, values: Vec<String>) -> (r: Result<(), EngineError>)
        requires
            old(self).wf(),
        ensures
            final(self).wf(),
            r is Ok <==> old(self).buffered_size + sum_bytes(values.deep_view()) <= usize::MAX,
            r matches Err(e) ==> e == EngineError::SizeOverflow && *final(self) == *old(self),
            r is Ok ==> final(self).values.deep_view() == old(self).values.deep_view()
                + values.deep_view(),
            r is Ok ==> final(self).buffered_size == old(self).buffered_size + sum_bytes(
                values.deep_view(),
            ),
            final(self).encoded_key == old(self).encoded_key,
            final(self).last_part_size == old(self).last_part_size,
            final(self).last_part_sequence == old(self).last_part_sequence,
            final(self).lines_per_part == old(self).lines_per_part,
            final(self).total_parts == old(self).total_parts,
            final(self).batches == old(self).batches,
            r is Ok ==> final(self).consumable() == old(self).consumable() + values.deep_view(),
    {
        // First make sure the whole batch fits, so that failure leaves the
        // container untouched.
        let mut total: usize = self.buffered_size;
        let mut i: usize = 0;
        while i < values.len()
            invariant
                i <= values@.len(),
                old(self).wf(),
                total == old(self).buffered_size + sum_bytes(
                    values.deep_view().subrange(0, i as int),
                ),
                self == old(self),
            decreases values@.len() - i,
        {
            proof {
                assert(values.deep_view().len() == values@.len());
                assert(values.deep_view()[i as int] == values@[i as int]@);
                assert(values.deep_view().subrange(0, i + 1).drop_last() =~= values.deep_view()
                    .subrange(0, i as int));
                assert(values.deep_view().subrange(0, i + 1).last() == values.deep_view()[i as int]);
            }
            let len_i: usize = byte_len(values[i].as_str());
            match total.checked_add(len_i) {
                Some(t) => {
                    total = t;
                },
                None => {
                    proof {
                        lemma_sum_bytes_prefix_bound(values.deep_view(), i + 1);
                    }
                    return Err(EngineError::SizeOverflow);
                },
            }
            i = i + 1;
        }
        proof {
            assert(values.deep_view().subrange(0, values.deep_view().len() as int) =~= values
                .deep_view());
        }
        // Now append them all.
        let mut j: usize = 0;
        while j < values.len()
            invariant
                j <= values@.len(),
                self.wf(),
                old(self).buffered_size + sum_bytes(values.deep_view()) <= usize::MAX,
                self.values.deep_view() == old(self).values.deep_view() + values.deep_view()
                    .subrange(0, j as int),
                self.buffered_size == old(self).buffered_size + sum_bytes(
                    values.deep_view().subrange(0, j as int),
                ),
                self.encoded_key == old(self).encoded_key,
                self.last_part_size == old(self).last_part_size,
                self.last_part_sequence == old(self).last_part_sequence,
                self.lines_per_part == old(self).lines_per_part,
                self.total_parts == old(self).total_parts,
                self.batches == old(self).batches,
            decreases values@.len() - j,
        {
            proof {
                assert(values.deep_view().len() == values@.len());
                assert(values.deep_view()[j as int] == values@[j as int]@);
                assert(values.deep_view().subrange(0, j + 1).drop_last() =~= values.deep_view()
                    .subrange(0, j as int));
                assert(values.deep_view().subrange(0, j + 1).last() == values.deep_view()[j as int]);
                lemma_sum_bytes_prefix_bound(values.deep_view(), j + 1);
            }
            let v = values[j].clone();
            self.add_value(v);
            proof {
                assert(self.values.deep_view() =~= old(self).values.deep_view() + values.deep_view()
                    .subrange(0, j + 1));
            }
            j = j + 1;
        }
        proof {
            assert(values.deep_view().subrange(0, values.deep_view().len() as int) =~= values
                .deep_view());
            assert(self.consumable() =~= old(self).consumable() + values.deep_view());
        }
        Ok(())
    }

    /// Transfers all data from another container: the other container's part
    /// metadata and flush history replace this one's, and its in-memory
    /// values are appended after this one's. Fails, leaving the part
    /// metadata adopted but the values unchanged, only when the combined
    /// buffered byte count would exceed the machine's integer range.
    pub fn transfer_data(&mut self, other: MapContainer) -> (r: Result<(), EngineError>)
        requires
            old(self).wf(),
            other.wf(),
        ensures
            final(self).wf(),
            r is Ok <==> old(self).buffered_size + other.buffered_size <= usize::MAX,
            r matches Err(e) ==> e == EngineError::SizeOverflow,
            final(self).last_part_size == other.last_part_size,
            final(self).last_part_sequence == other.last_part_sequence,
            final(self).lines_per_part == other.lines_per_part,
            final(self).total_parts == other.total_parts,
            final(self).batches == other.batches,
            final(self).encoded_key == old(self).encoded_key,
            r is Ok ==> final(self).values.deep_view() == old(self).values.deep_view()
                + other.values.deep_view(),
            r is Ok ==> final(self).buffered_size == old(self).buffered_size
                + other.buffered_size,
            r is Ok ==> final(self).consumable() == flat_parts(other.batches@) + old(self).values.deep_view() + other.values.deep_view(),
    {
        self.last_part_sequence = other.last_part_sequence;
        self.last_part_size = other.last_part_size;
        self.lines_per_part = other.lines_per_part;
        self.total_parts = other.total_parts;
        self.batches = Ghost(other.batches@);
        let r = self.add_values(other.values);
        proof {
            if r is Ok {
                assert(self.consumable() =~= flat_parts(other.batches@) + old(self).values.deep_view() + other.values.deep_view());
            }
        }
        r
    }

    /// An iterator for container parts that yields the part number.
    pub fn parts(&self) -> (r: Parts)
        ensures
            r.current == 0,
            r.total == self.total_parts,
    {
        Parts { current: 0, total: self.total_parts }
    }

    /// Where this container's data lives.
    pub open spec fn state_spec(self) -> ContainerState {
        if self.total_parts > 0 && self.values@.len() > 0 {
            ContainerState::IndexAndFile
        } else if self.total_parts > 0 {
            ContainerState::FileOnly
        } else if self.values@.len() > 0 {
            ContainerState::IndexOnly
        } else {
            ContainerState::NoData
        }
    }

    /// Returns an enum with possible locations of saved container data.
    pub fn state(&self) -> (r: ContainerState)
        ensures
            r == self.state_spec(),
    {
        if self.total_parts > 0 && self.values.len() > 0 {
            ContainerState::IndexAndFile
        } else if self.total_parts > 0 {
            ContainerState::FileOnly
        } else if self.values.len() > 0 {
            ContainerState::IndexOnly
        } else {
            ContainerState::NoData
        }
    }

    /// Returns the line count for a part number; if the part does not exist
    /// an error is returned.
    pub fn part_line_count(&self, part: usize) -> (r: Result<usize, EngineError>)
        ensures
            part < self.lines_per_part@.len() ==> (r matches Ok(c) && c
                == self.lines_per_part@[part as int]),
            part >= self.lines_per_part@.len() ==> (r matches Err(e) && e
                == EngineError::NoSuchPart),
    {
        if part < self.lines_per_part.len() {
            Ok(self.lines_per_part[part])
        } else {
            Err(EngineError::NoSuchPart)
        }
    }

    /// Constructs the file path for an existing part number.
    fn part_path(&self, dir: &str, part: usize) -> (r: String)
        ensures
            r@ == part_path_spec(dir@, self.encoded_key@, part as nat),
    {
        let mut path = String::new();
        path.append(dir);
        path.append("/");
        path.append(self.encoded_key.as_str());
        path.append(".map.");
        let num = to_decimal(part);
        path.append(num.as_str());
        path.append(".jsonl");
        proof {
            assert(path@ =~= part_path_spec(dir@, self.encoded_key@, part as nat));
        }
        path
    }

    /// Constructs a file path for a part number; if the part does not exist
    /// an error is returned.
    pub fn part_file_path(&self, dir: &str, part: usize) -> (r: Result<String, EngineError>)
        ensures
            part <= self.last_part_sequence ==> (r matches Ok(p) && p@ == part_path_spec(
                dir@,
                self.encoded_key@,
                part as nat,
            )),
            part > self.last_part_sequence ==> (r matches Err(e) && e == EngineError::NoSuchPart),
    {
        if part > self.last_part_sequence {
            Err(EngineError::NoSuchPart)
        } else {
            Ok(self.part_path(dir, part))
        }
    }

    /// Serializes the buffered values as one part-file line and records the
    /// flush: a first flush opens part 0; otherwise, when the line no longer
    /// fits under max_part_size, the container rolls over to a fresh part;
    /// otherwise the line joins the current part. The caller appends (and
    /// syncs) the returned line at the returned path; the buffered values
    /// are cleared and every value remains consumable from the history.
    pub fn flush_to_file_part(&mut self, dir: &str, max_part_size: usize) -> (w: PartWrite)
        requires
            old(self).wf(),
        ensures
            final(self).wf(),
            w.line@ == json_line_of(old(self).values.deep_view()),
            single_line(w.line@),
            w.path@ == part_path_spec(
                dir@,
                old(self).encoded_key@,
                final(self).last_part_sequence as nat,
            ),
            final(self).values@.len() == 0,
            final(self).buffered_size == 0,
            final(self).encoded_key == old(self).encoded_key,
            final(self).consumable() == old(self).consumable(),
            final(self).last_part_size < max_part_size || final(self).lines_per_part@[final(self).last_part_sequence as int] == 1,
            old(self).total_parts == 0 ==> {
                &&& w.new_part
                &&& final(self).total_parts == 1
                &&& final(self).last_part_sequence == 0
                &&& final(self).last_part_size == line_bytes(old(self).values.deep_view())
                &&& final(self).lines_per_part@ == seq![1usize]
                &&& final(self).batches@ == seq![seq![old(self).values.deep_view()]]
            },
            old(self).total_parts > 0 && line_bytes(old(self).values.deep_view()) + old(self).last_part_size < max_part_size ==> {
                &&& !w.new_part
                &&& final(self).total_parts == old(self).total_parts
                &&& final(self).last_part_sequence == old(self).last_part_sequence
                &&& final(self).last_part_size == old(self).last_part_size + line_bytes(
                    old(self).values.deep_view(),
                )
                &&& final(self).lines_per_part@ == old(self).lines_per_part@.update(
                    old(self).last_part_sequence as int,
                    (old(self).lines_per_part@[old(self).last_part_sequence as int]
                        + 1) as usize,
                )
                &&& final(self).batches@ == old(self).batches@.update(
                    old(self).last_part_sequence as int,
                    old(self).batches@[old(self).last_part_sequence as int].push(
                        old(self).values.deep_view(),
                    ),
                )
            },
            old(self).total_parts > 0 && line_bytes(old(self).values.deep_view()) + old(self).last_part_size >= max_part_size ==> {
                &&& w.new_part
                &&& final(self).total_parts == old(self).total_parts + 1
                &&& final(self).last_part_sequence == old(self).last_part_sequence + 1
                &&& final(self).last_part_size == line_bytes(old(self).values.deep_view())
                &&& final(self).lines_per_part@ == old(self).lines_per_part@.push(1usize)
                &&& final(self).batches@ == old(self).batches@.push(
                    seq![old(self).values.deep_view()],
                )
            },
    {
        let ghost batch: Batch = self.values.deep_view();
        let line = to_json_line(&self.values);
        let line_len: usize = byte_len(line.as_str());
        let new_part: bool;
        if self.total_parts == 0 {
            self.lines_per_part.push(1);
            self.total_parts = self.lines_per_part.len();
            self.last_part_sequence = 0;
            self.last_part_size = line_len;
            self.batches = Ghost(self.batches@.push(seq![batch]));
            new_part = true;
            proof {
                assert(self.lines_per_part@ =~= seq![1usize]);
                assert(self.batches@ =~= seq![seq![batch]]);
                assert(self.batches@[0] == seq![batch]);
                assert(seq![batch].last() == batch);
                assert(seq![batch].drop_last() =~= Seq::<Batch>::empty());
            }
        } else {
            let fits: bool = match line_len.checked_add(self.last_part_size) {
                Some(s) => s < max_part_size,
                None => false,
            };
            if !fits {
                // Roll over to a fresh part.
                self.lines_per_part.push(1);
                self.total_parts = self.lines_per_part.len();
                self.last_part_sequence = self.total_parts - 1;
                self.last_part_size = line_len;
                self.batches = Ghost(self.batches@.push(seq![batch]));
                new_part = true;
                proof {
                    assert(self.batches@.last() =~= seq![batch]);
                    assert(self.batches@[self.total_parts - 1] == seq![batch]);
                    assert(seq![batch].last() == batch);
                    assert(seq![batch].drop_last() =~= Seq::<Batch>::empty());
                }
            } else {
                // Append to the current part.
                let last: usize = self.last_part_sequence;
                let count: usize = self.lines_per_part[last];
                self.lines_per_part.set(last, count + 1);
                self.last_part_size = self.last_part_size + line_len;
                self.batches = Ghost(
                    self.batches@.update(last as int, self.batches@[last as int].push(batch)),
                );
                new_part = false;
                proof {
                    assert(self.batches@[last as int].drop_last()
                        =~= old(self).batches@[last as int]);
                    assert(self.batches@[last as int].last() == batch);
                }
            }
        }
        let path = self.part_path(dir, self.last_part_sequence);
        self.values = Vec::new();
        self.buffered_size = 0;
        proof {
            assert(self.values.deep_view() =~= Seq::<Seq<char>>::empty());
            lemma_flush_consumable(old(self).batches@, batch, self.batches@);
            assert(self.consumable() =~= old(self).consumable());
        }
        PartWrite { path, line, new_part }
    }
}

/// A prefix of a value list weighs no more than the whole list.
pub proof fn lemma_sum_bytes_prefix_bound(vs: Seq<Seq<char>>, i: int)
    requires
        0 <= i <= vs.len(),
    ensures
        sum_bytes(vs.subrange(0, i)) <= sum_bytes(vs),
    decreases vs.len() - i,
{
    if i < vs.len() {
        lemma_sum_bytes_prefix_bound(vs, i + 1);
        assert(vs.subrange(0, i + 1).drop_last() =~= vs.subrange(0, i));
    } else {
        assert(vs.subrange(0, i) =~= vs);
    }
}

/// Appending one batch to the flush history, either as a new part or onto
/// the last part, appends exactly that batch's values to the flat history.
proof fn lemma_flush_consumable(parts: Seq<PartLines>, batch: Batch, updated: Seq<PartLines>)
    requires
        updated == parts.push(seq![batch]) || (parts.len() > 0 && updated == parts.update(
            parts.len() - 1,
            parts.last().push(batch),
        )),
    ensures
        flat_parts(updated) == flat_parts(parts) + batch,
{
    if updated == parts.push(seq![batch]) {
        assert(updated.drop_last() =~= parts);
        assert(seq![batch].len() == 1);
        assert(seq![batch].last() == batch);
        assert(seq![batch].drop_last() =~= Seq::<Batch>::empty());
        assert(flat_lines(Seq::<Batch>::empty()) =~= Seq::<Seq<char>>::empty());
        assert(flat_lines(seq![batch]) == flat_lines(seq![batch].drop_last()) + seq![batch].last());
        assert(flat_lines(seq![batch]) =~= batch);
        assert(updated.last() == seq![batch]);
        assert(flat_parts(updated) == flat_parts(updated.drop_last()) + flat_lines(updated.last()));
        assert(flat_parts(updated) =~= flat_parts(parts) + batch);
    } else {
        let lines = parts.last().push(batch);
        assert(updated.drop_last() =~= parts.drop_last());
        assert(updated.last() == lines);
        assert(lines.drop_last() =~= parts.last());
        assert(flat_lines(lines) =~= flat_lines(parts.last()) + batch);
        assert(flat_parts(updated) =~= flat_parts(parts.drop_last()) + flat_lines(parts.last())
            + batch);
        assert(flat_parts(updated) =~= flat_parts(parts) + batch);
    }
}

/// Law: merging a drained in-memory container into a stored one conserves
/// every value, in consumption order. A merged container that kept the
/// stored flush history and appended the in-memory values after the stored
/// ones makes consumable exactly the stored values followed by the drained
/// ones.
pub proof fn lemma_merge_conserves_values(
    stored: MapContainer,
    mem: MapContainer,
    merged: MapContainer,
)
    requires
        stored.wf(),
        mem.wf(),
        mem.total_parts == 0,
        merged.batches@ == stored.batches@,
        merged.values.deep_view() == stored.values.deep_view() + mem.values.deep_view(),
    ensures
        merged.consumable() == stored.consumable() + mem.consumable(),
        merged.consumable().to_multiset() == stored.consumable().to_multiset().add(
            mem.consumable().to_multiset(),
        ),
{
    broadcast use vstd::multiset::group_multiset_axioms;

    let f = flat_parts(stored.batches@);
    let sv = stored.values.deep_view();
    let mv = mem.values.deep_view();
    assert(mem.batches@.len() == 0);
    assert(flat_parts(mem.batches@) =~= Seq::<Seq<char>>::empty());
    assert(mem.consumable() =~= mv);
    assert(merged.consumable() =~= (f + sv) + mv);
    vstd::seq_lib::lemma_multiset_commutative(f + sv, mv);
}

/// Yields the part numbers `0 .. total` in ascending order.
pub struct Parts {
    pub current: usize,
    pub total: usize,
}

impl Parts {
    /// The next part number, or nothing once all parts were yielded.
    pub fn next(&mut self) -> (r: Option<usize>)
        ensures
            old(self).current < old(self).total ==> r == Some(old(self).current) && final(self).current == old(self).current + 1 && final(self).total == old(self).total,
            old(self).current >= old(self).total ==> r is None && *final(self) == *old(self),
    {
        if self.total > 0 && self.current < self.total {
            self.current = self.current + 1;
            Some(self.current - 1)
        } else {
            None
        }
    }
}

} // verus!
