//! Self-describing binary serialization of a container: every field in
//! declared order, counts and sizes as 8-byte little-endian words, text as a
//! character count followed by 4-byte little-endian scalar values.

use vstd::prelude::*;
use vstd::utf8::is_scalar;
use crate::errors::EngineError;
use crate::map_container::{byte_len, lemma_sum_bytes_prefix_bound, sum_bytes, MapContainer, PartLines};

verus! {

/// Relies on char::from_u32: defined on every u32, returning the character
/// with the given scalar value exactly on Unicode scalar values.
pub assume_specification[ char::from_u32 ](v: u32) -> (r: Option<char>)
    ensures
        r is Some <==> is_scalar(v),
        r matches Some(c) ==> c as u32 == v,
;

/// Relies on String::push: appends one character to the string.
pub assume_specification[ String::push ](s: &mut String, c: char)
    ensures
        final(s)@ == old(s)@.push(c),
;

/// The 8 little-endian bytes of a 64-bit word.
pub open spec fn u64_le(n: u64) -> Seq<u8> {
    seq![
        (n & 0xff) as u8,
        ((n >> 8) & 0xff) as u8,
        ((n >> 16) & 0xff) as u8,
        ((n >> 24) & 0xff) as u8,
        ((n >> 32) & 0xff) as u8,
        ((n >> 40) & 0xff) as u8,
        ((n >> 48) & 0xff) as u8,
        ((n >> 56) & 0xff) as u8,
    ]
}

/// The 4 little-endian bytes of a 32-bit word.
pub open spec fn u32_le(n: u32) -> Seq<u8> {
    seq![(n & 0xff) as u8, ((n >> 8) & 0xff) as u8, ((n >> 16) & 0xff) as u8, ((n >> 24)
        & 0xff) as u8]
}

/// The scalar values of a text, each as 4 little-endian bytes.
pub open spec fn enc_chars(s: Seq<char>) -> Seq<u8>
    decreases s.len(),
{
    if s.len() == 0 {
        Seq::empty()
    } else {
        enc_chars(s.drop_last()) + u32_le(s.last() as u32)
    }
}

/// A text: its character count, then its scalar values.
pub open spec fn enc_str(s: Seq<char>) -> Seq<u8> {
    u64_le(s.len() as u64) + enc_chars(s)
}

/// A list of texts, one after the other.
pub open spec fn enc_values(vs: Seq<Seq<char>>) -> Seq<u8>
    decreases vs.len(),
{
    if vs.len() == 0 {
        Seq::empty()
    } else {
        enc_values(vs.drop_last()) + enc_str(vs.last())
    }
}

/// A list of counts, each as an 8-byte word.
pub open spec fn enc_counts(ns: Seq<usize>) -> Seq<u8>
    decreases ns.len(),
{
    if ns.len() == 0 {
        Seq::empty()
    } else {
        enc_counts(ns.drop_last()) + u64_le(ns.last() as u64)
    }
}

/// The wire form of a container: every field of the container in declared
/// order, with each list preceded by its length.
pub open spec fn enc_container(c: MapContainer) -> Seq<u8> {
    u64_le(c.values@.len() as u64) + enc_values(c.values.deep_view()) + u64_le(
        c.buffered_size as u64,
    ) + enc_str(c.encoded_key@) + u64_le(c.last_part_size as u64) + u64_le(
        c.last_part_sequence as u64,
    ) + u64_le(c.lines_per_part@.len() as u64) + enc_counts(c.lines_per_part@) + u64_le(
        c.total_parts as u64,
    )
}

/// Appends the 8 little-endian bytes of a word.
fn push_u64(out: &mut Vec<u8>, n: u64)
    ensures
        final(out)@ == old(out)@ + u64_le(n),
{
    out.push((n & 0xff) as u8);
    out.push(((n >> 8) & 0xff) as u8);
    out.push(((n >> 16) & 0xff) as u8);
    out.push(((n >> 24) & 0xff) as u8);
    out.push(((n >> 32) & 0xff) as u8);
    out.push(((n >> 40) & 0xff) as u8);
    out.push(((n >> 48) & 0xff) as u8);
    out.push(((n >> 56) & 0xff) as u8);
    proof {
        assert(out@ =~= old(out)@ + u64_le(n));
    }
}

/// Appends the 4 little-endian bytes of a 32-bit word.
fn push_u32(out: &mut Vec<u8>, n: u32)
    ensures
        final(out)@ == old(out)@ + u32_le(n),
{
    out.push((n & 0xff) as u8);
    out.push(((n >> 8) & 0xff) as u8);
    out.push(((n >> 16) & 0xff) as u8);
    out.push(((n >> 24) & 0xff) as u8);
    proof {
        assert(out@ =~= old(out)@ + u32_le(n));
    }
}

/// Appends a text: character count, then scalar values.
fn push_str(out: &mut Vec<u8>, s: &str)
    ensures
        final(out)@ == old(out)@ + enc_str(s@),
        s@.len() <= u64::MAX,
{
    let n: usize = s.unicode_len();
    push_u64(out, n as u64);
    let mut i: usize = 0;
    while i < n
        invariant
            i <= n,
            n == s@.len(),
            out@ == old(out)@ + u64_le(n as u64) + enc_chars(s@.subrange(0, i as int)),
        decreases n - i,
    {
        let c: char = s.get_char(i);
        push_u32(out, c as u32);
        proof {
            assert(s@.subrange(0, i + 1).drop_last() =~= s@.subrange(0, i as int));
            assert(s@.subrange(0, i + 1).last() == s@[i as int]);
            assert(out@ =~= old(out)@ + u64_le(n as u64) + enc_chars(s@.subrange(0, i + 1)));
        }
        i = i + 1;
    }
    proof {
        assert(s@.subrange(0, s@.len() as int) =~= s@);
        assert(out@ =~= old(out)@ + enc_str(s@));
    }
}

/// A range of a byte list is the two adjacent ranges joined.
proof fn lemma_split(b: Seq<u8>, lo: int, mid: int, hi: int)
    requires
        0 <= lo <= mid <= hi <= b.len(),
    ensures
        b.subrange(lo, hi) == b.subrange(lo, mid) + b.subrange(mid, hi),
{
    assert(b.subrange(lo, hi) =~= b.subrange(lo, mid) + b.subrange(mid, hi));
}

/// The given bytes stand at the given position of the buffer.
pub open spec fn prefix_of(pre: Seq<u8>, b: Seq<u8>, pos: int) -> bool {
    &&& 0 <= pos
    &&& pos + pre.len() <= b.len()
    &&& b.subrange(pos, pos + pre.len()) == pre
}

/// Adjacent pieces of a buffer stand at adjacent positions.
proof fn lemma_prefix_split(a: Seq<u8>, b: Seq<u8>, buf: Seq<u8>, pos: int)
    requires
        prefix_of(a + b, buf, pos),
    ensures
        prefix_of(a, buf, pos),
        prefix_of(b, buf, pos + a.len()),
{
    assert(buf.subrange(pos, pos + (a + b).len()) == a + b);
    assert forall|i: int| 0 <= i < a.len() implies buf[pos + i] == a[i] by {
        assert((a + b)[i] == a[i]);
        assert(buf.subrange(pos, pos + (a + b).len())[i] == buf[pos + i]);
    }
    assert forall|i: int| 0 <= i < b.len() implies buf[pos + a.len() + i] == b[i] by {
        assert((a + b)[a.len() + i] == b[i]);
        assert(buf.subrange(pos, pos + (a + b).len())[a.len() + i] == buf[pos + a.len() + i]);
    }
    assert(buf.subrange(pos, pos + a.len()) =~= a);
    assert(buf.subrange(pos + a.len(), pos + a.len() + b.len()) =~= b);
}

/// Adjacent pieces at adjacent positions form one piece.
proof fn lemma_prefix_join(a: Seq<u8>, b: Seq<u8>, buf: Seq<u8>, pos: int)
    requires
        prefix_of(a, buf, pos),
        prefix_of(b, buf, pos + a.len()),
    ensures
        prefix_of(a + b, buf, pos),
{
    assert(buf.subrange(pos, pos + (a + b).len()) =~= a + b);
}

/// Two words with the same little-endian bytes are the same word.
proof fn lemma_u64_le_injective(a: u64, b: u64)
    requires
        u64_le(a) == u64_le(b),
    ensures
        a == b,
{
    assert(u64_le(a)[0] == u64_le(b)[0]);
    assert(u64_le(a)[1] == u64_le(b)[1]);
    assert(u64_le(a)[2] == u64_le(b)[2]);
    assert(u64_le(a)[3] == u64_le(b)[3]);
    assert(u64_le(a)[4] == u64_le(b)[4]);
    assert(u64_le(a)[5] == u64_le(b)[5]);
    assert(u64_le(a)[6] == u64_le(b)[6]);
    assert(u64_le(a)[7] == u64_le(b)[7]);
    assert(a == b) by (bit_vector)
        requires
            (a & 0xff) as u8 == (b & 0xff) as u8 && ((a >> 8) & 0xff) as u8 == ((b >> 8)
                & 0xff) as u8 && ((a >> 16) & 0xff) as u8 == ((b >> 16) & 0xff) as u8 && ((a
                >> 24) & 0xff) as u8 == ((b >> 24) & 0xff) as u8 && ((a >> 32) & 0xff) as u8 == ((b
                >> 32) & 0xff) as u8 && ((a >> 40) & 0xff) as u8 == ((b >> 40) & 0xff) as u8 && ((a
                >> 48) & 0xff) as u8 == ((b >> 48) & 0xff) as u8 && ((a >> 56) & 0xff) as u8 == ((b
                >> 56) & 0xff) as u8,
    ;
}

/// Two 32-bit words with the same little-endian bytes are the same word.
proof fn lemma_u32_le_injective(a: u32, b: u32)
    requires
        u32_le(a) == u32_le(b),
    ensures
        a == b,
{
    assert(u32_le(a)[0] == u32_le(b)[0]);
    assert(u32_le(a)[1] == u32_le(b)[1]);
    assert(u32_le(a)[2] == u32_le(b)[2]);
    assert(u32_le(a)[3] == u32_le(b)[3]);
    assert(a == b) by (bit_vector)
        requires
            (a & 0xff) as u8 == (b & 0xff) as u8 && ((a >> 8) & 0xff) as u8 == ((b >> 8)
                & 0xff) as u8 && ((a >> 16) & 0xff) as u8 == ((b >> 16) & 0xff) as u8 && ((a
                >> 24) & 0xff) as u8 == ((b >> 24) & 0xff) as u8,
    ;
}

/// A text's scalar bytes start with its first character's.
proof fn lemma_enc_chars_first(s: Seq<char>)
    requires
        s.len() > 0,
    ensures
        enc_chars(s) == u32_le(s.first() as u32) + enc_chars(s.drop_first()),
    decreases s.len(),
{
    if s.len() == 1 {
        assert(s.drop_last() =~= Seq::<char>::empty());
        assert(s.drop_first() =~= Seq::<char>::empty());
        assert(enc_chars(s) =~= u32_le(s.first() as u32) + enc_chars(s.drop_first()));
    } else {
        lemma_enc_chars_first(s.drop_last());
        assert(s.drop_last().first() == s.first());
        assert(s.drop_first().drop_last() =~= s.drop_last().drop_first());
        assert(s.drop_first().last() == s.last());
        assert(enc_chars(s) =~= u32_le(s.first() as u32) + enc_chars(s.drop_first()));
    }
}

/// A text's scalar bytes take four bytes per character.
proof fn lemma_enc_chars_len(s: Seq<char>)
    ensures
        enc_chars(s).len() == 4 * s.len(),
    decreases s.len(),
{
    if s.len() > 0 {
        lemma_enc_chars_len(s.drop_last());
    }
}

/// A value list's bytes start with its first value's text.
proof fn lemma_enc_values_first(vs: Seq<Seq<char>>)
    requires
        vs.len() > 0,
    ensures
        enc_values(vs) == enc_str(vs.first()) + enc_values(vs.drop_first()),
    decreases vs.len(),
{
    if vs.len() == 1 {
        assert(vs.drop_last() =~= Seq::<Seq<char>>::empty());
        assert(vs.drop_first() =~= Seq::<Seq<char>>::empty());
        assert(enc_values(vs) =~= enc_str(vs.first()) + enc_values(vs.drop_first()));
    } else {
        lemma_enc_values_first(vs.drop_last());
        assert(vs.drop_last().first() == vs.first());
        assert(vs.drop_first().drop_last() =~= vs.drop_last().drop_first());
        assert(vs.drop_first().last() == vs.last());
        assert(enc_values(vs) =~= enc_str(vs.first()) + enc_values(vs.drop_first()));
    }
}

/// A count list's bytes start with its first count's word.
proof fn lemma_enc_counts_first(ns: Seq<usize>)
    requires
        ns.len() > 0,
    ensures
        enc_counts(ns) == u64_le(ns.first() as u64) + enc_counts(ns.drop_first()),
    decreases ns.len(),
{
    if ns.len() == 1 {
        assert(ns.drop_last() =~= Seq::<usize>::empty());
        assert(ns.drop_first() =~= Seq::<usize>::empty());
        assert(enc_counts(ns) =~= u64_le(ns.first() as u64) + enc_counts(ns.drop_first()));
    } else {
        lemma_enc_counts_first(ns.drop_last());
        assert(ns.drop_last().first() == ns.first());
        assert(ns.drop_first().drop_last() =~= ns.drop_last().drop_first());
        assert(ns.drop_first().last() == ns.last());
        assert(enc_counts(ns) =~= u64_le(ns.first() as u64) + enc_counts(ns.drop_first()));
    }
}

/// One character step of a text read: the next four bytes hold the next
/// character, the rest follows.
proof fn lemma_string_step(b: Seq<u8>, t: Seq<char>, i: int, cur: int)
    requires
        0 <= i < t.len(),
        prefix_of(enc_chars(t.skip(i)), b, cur),
    ensures
        prefix_of(u32_le(t[i] as u32), b, cur),
        prefix_of(enc_chars(t.skip(i + 1)), b, cur + 4),
{
    lemma_enc_chars_first(t.skip(i));
    assert(t.skip(i).first() == t[i]);
    assert(t.skip(i).drop_first() =~= t.skip(i + 1));
    assert(enc_chars(t.skip(i)) == u32_le(t[i] as u32) + enc_chars(t.skip(i + 1)));
    lemma_prefix_split(u32_le(t[i] as u32), enc_chars(t.skip(i + 1)), b, cur);
}

/// One value step of a list read: the next bytes hold the next value's
/// text, the rest follows.
proof fn lemma_values_step(b: Seq<u8>, vs: Seq<Seq<char>>, k: int, cur: int)
    requires
        0 <= k < vs.len(),
        prefix_of(enc_values(vs.skip(k)), b, cur),
    ensures
        prefix_of(enc_str(vs[k]), b, cur),
        prefix_of(enc_values(vs.skip(k + 1)), b, cur + 8 + 4 * vs[k].len()),
{
    lemma_enc_values_first(vs.skip(k));
    assert(vs.skip(k).first() == vs[k]);
    assert(vs.skip(k).drop_first() =~= vs.skip(k + 1));
    assert(enc_values(vs.skip(k)) == enc_str(vs[k]) + enc_values(vs.skip(k + 1)));
    lemma_prefix_split(enc_str(vs[k]), enc_values(vs.skip(k + 1)), b, cur);
    lemma_enc_chars_len(vs[k]);
}

/// One count step of a list read: the next eight bytes hold the next
/// count, the rest follows.
proof fn lemma_counts_step(b: Seq<u8>, ns: Seq<usize>, k: int, cur: int)
    requires
        0 <= k < ns.len(),
        prefix_of(enc_counts(ns.skip(k)), b, cur),
    ensures
        prefix_of(u64_le(ns[k] as u64), b, cur),
        prefix_of(enc_counts(ns.skip(k + 1)), b, cur + 8),
{
    lemma_enc_counts_first(ns.skip(k));
    assert(ns.skip(k).first() == ns[k]);
    assert(ns.skip(k).drop_first() =~= ns.skip(k + 1));
    assert(enc_counts(ns.skip(k)) == u64_le(ns[k] as u64) + enc_counts(ns.skip(k + 1)));
    lemma_prefix_split(u64_le(ns[k] as u64), enc_counts(ns.skip(k + 1)), b, cur);
}

/// The nine segments of a container's wire form, each at its position.
proof fn lemma_peel_container(c: MapContainer, b: Seq<u8>)
    requires
        b == enc_container(c),
    ensures
        ({
            let seg_a = u64_le(c.values@.len() as u64) + enc_values(c.values.deep_view());
            let seg_c = u64_le(c.buffered_size as u64);
            let seg_d = enc_str(c.encoded_key@);
            let seg_e = u64_le(c.last_part_size as u64);
            let seg_f = u64_le(c.last_part_sequence as u64);
            let seg_g = u64_le(c.lines_per_part@.len() as u64);
            let seg_h = enc_counts(c.lines_per_part@);
            let seg_i = u64_le(c.total_parts as u64);
            &&& prefix_of(seg_a, b, 0)
            &&& prefix_of(seg_c, b, seg_a.len() as int)
            &&& prefix_of(seg_d, b, (seg_a.len() + seg_c.len()) as int)
            &&& prefix_of(seg_e, b, (seg_a.len() + seg_c.len() + seg_d.len()) as int)
            &&& prefix_of(seg_f, b, (seg_a.len() + seg_c.len() + seg_d.len() + seg_e.len()) as int)
            &&& prefix_of(
                seg_g,
                b,
                (seg_a.len() + seg_c.len() + seg_d.len() + seg_e.len() + seg_f.len()) as int,
            )
            &&& prefix_of(
                seg_h,
                b,
                (seg_a.len() + seg_c.len() + seg_d.len() + seg_e.len() + seg_f.len()
                    + seg_g.len()) as int,
            )
            &&& prefix_of(
                seg_i,
                b,
                (seg_a.len() + seg_c.len() + seg_d.len() + seg_e.len() + seg_f.len()
                    + seg_g.len() + seg_h.len()) as int,
            )
            &&& prefix_of(
                seg_g + seg_h,
                b,
                (seg_a.len() + seg_c.len() + seg_d.len() + seg_e.len() + seg_f.len()) as int,
            )
            &&& b.len() == seg_a.len() + seg_c.len() + seg_d.len() + seg_e.len() + seg_f.len()
                + seg_g.len() + seg_h.len() + seg_i.len()
        }),
{
    let seg_a = u64_le(c.values@.len() as u64) + enc_values(c.values.deep_view());
    let seg_c = u64_le(c.buffered_size as u64);
    let seg_d = enc_str(c.encoded_key@);
    let seg_e = u64_le(c.last_part_size as u64);
    let seg_f = u64_le(c.last_part_sequence as u64);
    let seg_g = u64_le(c.lines_per_part@.len() as u64);
    let seg_h = enc_counts(c.lines_per_part@);
    let seg_i = u64_le(c.total_parts as u64);
    assert(b.subrange(0, b.len() as int) =~= b);
    assert(prefix_of(enc_container(c), b, 0));
    lemma_prefix_split(seg_a + seg_c + seg_d + seg_e + seg_f + seg_g + seg_h, seg_i, b, 0);
    lemma_prefix_split(seg_a + seg_c + seg_d + seg_e + seg_f + seg_g, seg_h, b, 0);
    lemma_prefix_split(seg_a + seg_c + seg_d + seg_e + seg_f, seg_g, b, 0);
    lemma_prefix_split(seg_a + seg_c + seg_d + seg_e, seg_f, b, 0);
    lemma_prefix_split(seg_a + seg_c + seg_d, seg_e, b, 0);
    lemma_prefix_split(seg_a + seg_c, seg_d, b, 0);
    lemma_prefix_split(seg_a, seg_c, b, 0);
    lemma_prefix_join(
        seg_g,
        seg_h,
        b,
        (seg_a.len() + seg_c.len() + seg_d.len() + seg_e.len() + seg_f.len()) as int,
    );
}

/// Two texts of equal length encoded at the same place are the same text.
proof fn lemma_enc_chars_determined(b: Seq<u8>, t1: Seq<char>, t2: Seq<char>, pos: int, i: int)
    requires
        t1.len() == t2.len(),
        0 <= i <= t1.len(),
        prefix_of(enc_chars(t1.skip(i)), b, pos),
        prefix_of(enc_chars(t2.skip(i)), b, pos),
    ensures
        t1.skip(i) == t2.skip(i),
    decreases t1.len() - i,
{
    if i < t1.len() {
        lemma_string_step(b, t1, i, pos);
        lemma_string_step(b, t2, i, pos);
        lemma_u32_le_injective(t1[i] as u32, t2[i] as u32);
        vstd::utf8::char_u32_cast(t1[i], t1[i] as u32);
        vstd::utf8::char_u32_cast(t2[i], t2[i] as u32);
        lemma_enc_chars_determined(b, t1, t2, pos + 4, i + 1);
        assert forall|q: int| 0 <= q < t1.skip(i).len() implies t1.skip(i)[q] == t2.skip(
            i,
        )[q] by {
            if q > 0 {
                assert(t1.skip(i + 1)[q - 1] == t2.skip(i + 1)[q - 1]);
            }
        }
        assert(t1.skip(i) =~= t2.skip(i));
    } else {
        assert(t1.skip(i) =~= t2.skip(i));
    }
}

/// Two texts encoded at the same place are the same text.
proof fn lemma_enc_str_determined(b: Seq<u8>, t1: Seq<char>, t2: Seq<char>, pos: int)
    requires
        t1.len() <= u64::MAX,
        t2.len() <= u64::MAX,
        prefix_of(enc_str(t1), b, pos),
        prefix_of(enc_str(t2), b, pos),
    ensures
        t1 == t2,
{
    lemma_enc_chars_len(t1);
    lemma_enc_chars_len(t2);
    lemma_prefix_split(u64_le(t1.len() as u64), enc_chars(t1), b, pos);
    lemma_prefix_split(u64_le(t2.len() as u64), enc_chars(t2), b, pos);
    lemma_u64_le_injective(t1.len() as u64, t2.len() as u64);
    assert(t1.len() == t2.len());
    assert(t1.skip(0) =~= t1);
    assert(t2.skip(0) =~= t2);
    lemma_enc_chars_determined(b, t1, t2, pos + 8, 0);
}

/// Two value lists of equal length encoded at the same place are the same
/// list.
proof fn lemma_enc_values_determined(
    b: Seq<u8>,
    vs1: Seq<Seq<char>>,
    vs2: Seq<Seq<char>>,
    pos: int,
    k: int,
)
    requires
        vs1.len() == vs2.len(),
        0 <= k <= vs1.len(),
        forall|q: int| 0 <= q < vs1.len() ==> (#[trigger] vs1[q]).len() <= u64::MAX,
        forall|q: int| 0 <= q < vs2.len() ==> (#[trigger] vs2[q]).len() <= u64::MAX,
        prefix_of(enc_values(vs1.skip(k)), b, pos),
        prefix_of(enc_values(vs2.skip(k)), b, pos),
    ensures
        vs1.skip(k) == vs2.skip(k),
    decreases vs1.len() - k,
{
    if k < vs1.len() {
        lemma_values_step(b, vs1, k, pos);
        lemma_values_step(b, vs2, k, pos);
        lemma_enc_str_determined(b, vs1[k], vs2[k], pos);
        lemma_enc_values_determined(b, vs1, vs2, pos + 8 + 4 * vs1[k].len(), k + 1);
        assert forall|q: int| 0 <= q < vs1.skip(k).len() implies vs1.skip(k)[q] == vs2.skip(
            k,
        )[q] by {
            if q > 0 {
                assert(vs1.skip(k + 1)[q - 1] == vs2.skip(k + 1)[q - 1]);
            }
        }
        assert(vs1.skip(k) =~= vs2.skip(k));
    } else {
        assert(vs1.skip(k) =~= vs2.skip(k));
    }
}

/// Two count lists of equal length encoded at the same place are the same
/// list.
proof fn lemma_enc_counts_determined(
    b: Seq<u8>,
    ns1: Seq<usize>,
    ns2: Seq<usize>,
    pos: int,
    k: int,
)
    requires
        ns1.len() == ns2.len(),
        0 <= k <= ns1.len(),
        prefix_of(enc_counts(ns1.skip(k)), b, pos),
        prefix_of(enc_counts(ns2.skip(k)), b, pos),
    ensures
        ns1.skip(k) == ns2.skip(k),
    decreases ns1.len() - k,
{
    if k < ns1.len() {
        lemma_counts_step(b, ns1, k, pos);
        lemma_counts_step(b, ns2, k, pos);
        lemma_u64_le_injective(ns1[k] as u64, ns2[k] as u64);
        lemma_enc_counts_determined(b, ns1, ns2, pos + 8, k + 1);
        assert forall|q: int| 0 <= q < ns1.skip(k).len() implies ns1.skip(k)[q] == ns2.skip(
            k,
        )[q] by {
            if q > 0 {
                assert(ns1.skip(k + 1)[q - 1] == ns2.skip(k + 1)[q - 1]);
            }
        }
        assert(ns1.skip(k) =~= ns2.skip(k));
    } else {
        assert(ns1.skip(k) =~= ns2.skip(k));
    }
}

/// The fields behind the value block of two containers encoded in the same
/// buffer, with their value blocks equally long, agree.
proof fn lemma_container_tail_determined(c1: MapContainer, c2: MapContainer, b: Seq<u8>, pa: int)
    requires
        c1.encoded_key@.len() <= u64::MAX,
        c2.encoded_key@.len() <= u64::MAX,
        c1.lines_per_part@.len() <= u64::MAX,
        c2.lines_per_part@.len() <= u64::MAX,
        prefix_of(u64_le(c1.buffered_size as u64), b, pa),
        prefix_of(u64_le(c2.buffered_size as u64), b, pa),
        prefix_of(enc_str(c1.encoded_key@), b, pa + 8),
        prefix_of(enc_str(c2.encoded_key@), b, pa + 8),
        prefix_of(
            u64_le(c1.last_part_size as u64),
            b,
            pa + 8 + 8 + 4 * c1.encoded_key@.len(),
        ),
        prefix_of(
            u64_le(c2.last_part_size as u64),
            b,
            pa + 8 + 8 + 4 * c2.encoded_key@.len(),
        ),
        prefix_of(
            u64_le(c1.last_part_sequence as u64),
            b,
            pa + 16 + 8 + 4 * c1.encoded_key@.len(),
        ),
        prefix_of(
            u64_le(c2.last_part_sequence as u64),
            b,
            pa + 16 + 8 + 4 * c2.encoded_key@.len(),
        ),
        prefix_of(
            u64_le(c1.lines_per_part@.len() as u64),
            b,
            pa + 24 + 8 + 4 * c1.encoded_key@.len(),
        ),
        prefix_of(
            u64_le(c2.lines_per_part@.len() as u64),
            b,
            pa + 24 + 8 + 4 * c2.encoded_key@.len(),
        ),
        prefix_of(enc_counts(c1.lines_per_part@), b, pa + 32 + 8 + 4 * c1.encoded_key@.len()),
        prefix_of(enc_counts(c2.lines_per_part@), b, pa + 32 + 8 + 4 * c2.encoded_key@.len()),
        prefix_of(
            u64_le(c1.total_parts as u64),
            b,
            pa + 32 + 8 + 4 * c1.encoded_key@.len() + 8 * c1.lines_per_part@.len(),
        ),
        prefix_of(
            u64_le(c2.total_parts as u64),
            b,
            pa + 32 + 8 + 4 * c2.encoded_key@.len() + 8 * c2.lines_per_part@.len(),
        ),
    ensures
        c1.buffered_size == c2.buffered_size,
        c1.encoded_key@ == c2.encoded_key@,
        c1.last_part_size == c2.last_part_size,
        c1.last_part_sequence == c2.last_part_sequence,
        c1.lines_per_part@ == c2.lines_per_part@,
        c1.total_parts == c2.total_parts,
{
    lemma_u64_le_injective(c1.buffered_size as u64, c2.buffered_size as u64);
    lemma_enc_str_determined(b, c1.encoded_key@, c2.encoded_key@, pa + 8);
    lemma_u64_le_injective(c1.last_part_size as u64, c2.last_part_size as u64);
    lemma_u64_le_injective(c1.last_part_sequence as u64, c2.last_part_sequence as u64);
    let lv1 = c1.lines_per_part@;
    let lv2 = c2.lines_per_part@;
    lemma_u64_le_injective(lv1.len() as u64, lv2.len() as u64);
    assert(lv1.len() == lv2.len());
    assert(lv1.skip(0) =~= lv1);
    assert(lv2.skip(0) =~= lv2);
    lemma_enc_counts_determined(b, lv1, lv2, pa + 32 + 8 + 4 * c1.encoded_key@.len(), 0);
    assert(lv1 == lv2);
    lemma_enc_counts_len(lv1);
    lemma_enc_counts_len(lv2);
    lemma_u64_le_injective(c1.total_parts as u64, c2.total_parts as u64);
}

/// A count list's bytes take eight bytes per count.
proof fn lemma_enc_counts_len(ns: Seq<usize>)
    ensures
        enc_counts(ns).len() == 8 * ns.len(),
    decreases ns.len(),
{
    if ns.len() > 0 {
        lemma_enc_counts_len(ns.drop_last());
    }
}

/// Law: the wire form determines the container. Two containers whose texts
/// fit the wire's counters and share one encoding agree on every field; so
/// with the codec's soundness and completeness, serialization followed by
/// deserialization is the identity on every such container.
/// The value block of a container stands first in its wire form.
proof fn lemma_head_fact(c: MapContainer, b: Seq<u8>)
    requires
        b == enc_container(c),
    ensures
        prefix_of(u64_le(c.values@.len() as u64) + enc_values(c.values.deep_view()), b, 0),
{
    lemma_peel_container(c, b);
}

/// The fields behind the value block each stand at their place in the wire
/// form.
proof fn lemma_tail_facts(c: MapContainer, b: Seq<u8>)
    requires
        b == enc_container(c),
    ensures
        ({
            let pa = (u64_le(c.values@.len() as u64) + enc_values(c.values.deep_view())).len()
                as int;
            &&& prefix_of(u64_le(c.buffered_size as u64), b, pa)
            &&& prefix_of(enc_str(c.encoded_key@), b, pa + 8)
            &&& prefix_of(
                u64_le(c.last_part_size as u64),
                b,
                pa + 8 + 8 + 4 * c.encoded_key@.len(),
            )
            &&& prefix_of(
                u64_le(c.last_part_sequence as u64),
                b,
                pa + 16 + 8 + 4 * c.encoded_key@.len(),
            )
            &&& prefix_of(
                u64_le(c.lines_per_part@.len() as u64),
                b,
                pa + 24 + 8 + 4 * c.encoded_key@.len(),
            )
            &&& prefix_of(enc_counts(c.lines_per_part@), b, pa + 32 + 8 + 4 * c.encoded_key@.len())
            &&& prefix_of(
                u64_le(c.total_parts as u64),
                b,
                pa + 32 + 8 + 4 * c.encoded_key@.len() + 8 * c.lines_per_part@.len(),
            )
        }),
{
    lemma_peel_container(c, b);
    lemma_enc_chars_len(c.encoded_key@);
    lemma_enc_counts_len(c.lines_per_part@);
}

/// The value blocks of two containers encoded in the same buffer are the
/// same block.
#[verifier::rlimit(100)]
proof fn lemma_container_head_determined(c1: MapContainer, c2: MapContainer, b: Seq<u8>)
    requires
        enc_valid(c1),
        enc_valid(c2),
        b == enc_container(c1),
        b == enc_container(c2),
    ensures
        c1.values.deep_view() == c2.values.deep_view(),
        c1.values@.len() == c2.values@.len(),
{
    lemma_head_fact(c1, b);
    lemma_head_fact(c2, b);
    let dv1 = c1.values.deep_view();
    let dv2 = c2.values.deep_view();
    lemma_prefix_split(u64_le(c1.values@.len() as u64), enc_values(dv1), b, 0);
    lemma_prefix_split(u64_le(c2.values@.len() as u64), enc_values(dv2), b, 0);
    lemma_u64_le_injective(c1.values@.len() as u64, c2.values@.len() as u64);
    assert(dv1.len() == dv2.len());
    assert(dv1.skip(0) =~= dv1);
    assert(dv2.skip(0) =~= dv2);
    lemma_enc_values_determined(b, dv1, dv2, 8, 0);
    assert(dv1 == dv2);
}

#[verifier::rlimit(100)]
pub proof fn lemma_enc_container_injective(c1: MapContainer, c2: MapContainer)
    requires
        enc_valid(c1),
        enc_valid(c2),
        enc_container(c1) == enc_container(c2),
    ensures
        c1.values.deep_view() == c2.values.deep_view(),
        c1.buffered_size == c2.buffered_size,
        c1.encoded_key@ == c2.encoded_key@,
        c1.last_part_size == c2.last_part_size,
        c1.last_part_sequence == c2.last_part_sequence,
        c1.lines_per_part@ == c2.lines_per_part@,
        c1.total_parts == c2.total_parts,
{
    let b = enc_container(c1);
    lemma_container_head_determined(c1, c2, b);
    lemma_tail_facts(c1, b);
    lemma_tail_facts(c2, b);
    let dv1 = c1.values.deep_view();
    let dv2 = c2.values.deep_view();
    // With equal value blocks, every later field sits at the same place.
    let pa = (u64_le(c1.values@.len() as u64) + enc_values(dv1)).len() as int;
    assert((u64_le(c2.values@.len() as u64) + enc_values(dv2)).len() as int == pa);
    lemma_container_tail_determined(c1, c2, b, pa);
}

/// Nine adjacent segments that each hold one encoded field make up the
/// whole wire form.
proof fn lemma_stitch_container(
    c: MapContainer,
    b: Seq<u8>,
    p1: int,
    p2: int,
    p3: int,
    p4: int,
    p5: int,
    p6: int,
    p7: int,
)
    requires
        0 <= p1 <= p2 <= p3 <= p4 <= p5 <= p6 <= p7 <= b.len(),
        u64_le(c.values@.len() as u64) + enc_values(c.values.deep_view()) == b.subrange(0, p1),
        u64_le(c.buffered_size as u64) == b.subrange(p1, p2),
        enc_str(c.encoded_key@) == b.subrange(p2, p3),
        u64_le(c.last_part_size as u64) == b.subrange(p3, p4),
        u64_le(c.last_part_sequence as u64) == b.subrange(p4, p5),
        u64_le(c.lines_per_part@.len() as u64) + enc_counts(c.lines_per_part@) == b.subrange(
            p5,
            p6,
        ),
        u64_le(c.total_parts as u64) == b.subrange(p6, p7),
        p7 == b.len(),
    ensures
        enc_container(c) == b,
{
    lemma_split(b, 0, p1, p2);
    lemma_split(b, 0, p2, p3);
    lemma_split(b, 0, p3, p4);
    lemma_split(b, 0, p4, p5);
    lemma_split(b, 0, p5, p6);
    lemma_split(b, 0, p6, p7);
    assert(b.subrange(0, p7) =~= b);
    assert(enc_container(c) =~= b);
}

/// A container whose texts fit the wire's character counts; every container
/// built by executable code does.
pub open spec fn enc_valid(c: MapContainer) -> bool {
    &&& c.values@.len() <= u64::MAX
    &&& forall|i: int| 0 <= i < c.values@.len() ==> (#[trigger] c.values@[i])@.len() <= u64::MAX
    &&& c.encoded_key@.len() <= u64::MAX
    &&& c.lines_per_part@.len() <= u64::MAX
}

impl MapContainer {
    /// Serializes a container to bytes.
    #[verifier::rlimit(80)]
    pub fn serialize(container: &MapContainer) -> (r: Result<Vec<u8>, EngineError>)
        ensures
            r matches Ok(bytes) && bytes@ == enc_container(*container),
            enc_valid(*container),
    {
        let mut out: Vec<u8> = Vec::new();
        push_u64(&mut out, container.values.len() as u64);
        proof {
            let dv = container.values.deep_view();
            assert(dv.subrange(0, 0) =~= Seq::<Seq<char>>::empty());
            assert(out@ =~= u64_le(container.values@.len() as u64) + enc_values(
                dv.subrange(0, 0),
            ));
        }
        let mut i: usize = 0;
        while i < container.values.len()
            invariant
                i <= container.values@.len(),
                out@ == u64_le(container.values@.len() as u64) + enc_values(
                    container.values.deep_view().subrange(0, i as int),
                ),
                forall|q: int|
                    0 <= q < i ==> (#[trigger] container.values.deep_view()[q]).len()
                        <= u64::MAX,
            decreases container.values@.len() - i,
        {
            push_str(&mut out, container.values[i].as_str());
            proof {
                let dv = container.values.deep_view();
                assert(dv[i as int] == container.values@[i as int]@);
                assert(dv.subrange(0, i + 1).drop_last() =~= dv.subrange(0, i as int));
                assert(dv.subrange(0, i + 1).last() == dv[i as int]);
                assert(out@ =~= u64_le(container.values@.len() as u64) + enc_values(
                    dv.subrange(0, i + 1),
                ));
            }
            i = i + 1;
        }
        proof {
            let dv = container.values.deep_view();
            assert(dv.subrange(0, dv.len() as int) =~= dv);
        }
        push_u64(&mut out, container.buffered_size as u64);
        push_str(&mut out, container.encoded_key.as_str());
        push_u64(&mut out, container.last_part_size as u64);
        push_u64(&mut out, container.last_part_sequence as u64);
        push_u64(&mut out, container.lines_per_part.len() as u64);
        let ghost mid: Seq<u8> = out@;
        proof {
            let lv = container.lines_per_part@;
            assert(lv.subrange(0, 0) =~= Seq::<usize>::empty());
            assert(out@ =~= mid + enc_counts(lv.subrange(0, 0)));
        }
        let mut j: usize = 0;
        while j < container.lines_per_part.len()
            invariant
                j <= container.lines_per_part@.len(),
                out@ == mid + enc_counts(container.lines_per_part@.subrange(0, j as int)),
            decreases container.lines_per_part@.len() - j,
        {
            push_u64(&mut out, container.lines_per_part[j] as u64);
            proof {
                let lv = container.lines_per_part@;
                assert(lv.subrange(0, j + 1).drop_last() =~= lv.subrange(0, j as int));
                assert(lv.subrange(0, j + 1).last() == lv[j as int]);
                assert(out@ =~= mid + enc_counts(lv.subrange(0, j + 1)));
            }
            j = j + 1;
        }
        proof {
            let lv = container.lines_per_part@;
            assert(lv.subrange(0, lv.len() as int) =~= lv);
        }
        push_u64(&mut out, container.total_parts as u64);
        proof {
            assert(out@ =~= enc_container(*container));
            assert forall|q: int| 0 <= q < container.values@.len() implies (#[trigger] container
                .values@[q])@.len() <= u64::MAX by {
                assert(container.values.deep_view()[q] == container.values@[q]@);
            }
            assert(vstd::std_specs::vec::spec_vec_len(&container.values)
                == container.values@.len());
            assert(vstd::std_specs::vec::spec_vec_len(&container.lines_per_part)
                == container.lines_per_part@.len());
        }
        Ok(out)
    }

    /// Deserializes a sequence of bytes to a container. A successful decode
    /// returns a well-formed container whose serialization is exactly the
    /// input; anything else is rejected as corrupt — and the bytes of any
    /// well-formed container are never rejected.
    #[verifier::rlimit(100)]
    pub fn deserialize(bytes: &Vec<u8>) -> (r: Result<MapContainer, EngineError>)
        ensures
            r matches Ok(c) ==> c.wf() && enc_valid(c) && enc_container(c) == bytes@,
            r matches Err(e) ==> e == EngineError::CorruptContainer,
            (exists|c: MapContainer|
                c.wf() && enc_valid(c) && bytes@ == #[trigger] enc_container(c)) ==> r is Ok,
    {
        let ghost can_decode: bool = exists|c: MapContainer|
            c.wf() && enc_valid(c) && bytes@ == #[trigger] enc_container(c);
        let ghost cx: MapContainer = if can_decode {
            choose|c: MapContainer| c.wf() && enc_valid(c) && bytes@ == #[trigger] enc_container(
                c,
            )
        } else {
            vstd::pervasive::arbitrary::<MapContainer>()
        };
        let ghost seg_a: Seq<u8> = u64_le(cx.values@.len() as u64) + enc_values(
            cx.values.deep_view(),
        );
        let ghost seg_c: Seq<u8> = u64_le(cx.buffered_size as u64);
        let ghost seg_d: Seq<u8> = enc_str(cx.encoded_key@);
        let ghost seg_e: Seq<u8> = u64_le(cx.last_part_size as u64);
        let ghost seg_f: Seq<u8> = u64_le(cx.last_part_sequence as u64);
        let ghost seg_g: Seq<u8> = u64_le(cx.lines_per_part@.len() as u64);
        let ghost seg_h: Seq<u8> = enc_counts(cx.lines_per_part@);
        let ghost seg_i: Seq<u8> = u64_le(cx.total_parts as u64);
        proof {
            if can_decode {
                assert(cx.wf() && enc_valid(cx) && bytes@ == enc_container(cx));
                lemma_peel_container(cx, bytes@);
            }
        }
        let (values, buffered, p1) = match read_values(
            bytes,
            0,
            Ghost(
                if can_decode {
                    Option::Some(cx.values.deep_view())
                } else {
                    Option::None
                },
            ),
        ) {
            Some(x) => x,
            None => {
                proof {
                    if can_decode {
                        assert(false);
                    }
                }
                return Err(EngineError::CorruptContainer);
            },
        };
        proof {
            if can_decode {
                assert(p1 as int == seg_a.len());
            }
        }
        let (buffered_size, p2) = match read_usize(bytes, p1) {
            Some(x) => x,
            None => {
                proof {
                    if can_decode {
                        assert(read_usize_expected(bytes@, p1 as int, cx.buffered_size));
                        assert(false);
                    }
                }
                return Err(EngineError::CorruptContainer);
            },
        };
        if buffered_size != buffered {
            proof {
                if can_decode {
                    assert(buffered_size == cx.buffered_size);
                    assert(buffered == sum_bytes(cx.values.deep_view()));
                    assert(false);
                }
            }
            return Err(EngineError::CorruptContainer);
        }
        let (encoded_key, p3) = match read_string(
            bytes,
            p2,
            Ghost(
                if can_decode {
                    Option::Some(cx.encoded_key@)
                } else {
                    Option::None
                },
            ),
        ) {
            Some(x) => x,
            None => {
                proof {
                    if can_decode {
                        assert(false);
                    }
                }
                return Err(EngineError::CorruptContainer);
            },
        };
        proof {
            if can_decode {
                lemma_enc_chars_len(cx.encoded_key@);
                assert(p3 as int == seg_a.len() + seg_c.len() + seg_d.len());
            }
        }
        let (last_part_size, p4) = match read_usize(bytes, p3) {
            Some(x) => x,
            None => {
                proof {
                    if can_decode {
                        assert(read_usize_expected(bytes@, p3 as int, cx.last_part_size));
                        assert(false);
                    }
                }
                return Err(EngineError::CorruptContainer);
            },
        };
        let (last_part_sequence, p5) = match read_usize(bytes, p4) {
            Some(x) => x,
            None => {
                proof {
                    if can_decode {
                        assert(read_usize_expected(bytes@, p4 as int, cx.last_part_sequence));
                        assert(false);
                    }
                }
                return Err(EngineError::CorruptContainer);
            },
        };
        let (lines_per_part, p6) = match read_counts(
            bytes,
            p5,
            Ghost(
                if can_decode {
                    Option::Some(cx.lines_per_part@)
                } else {
                    Option::None
                },
            ),
        ) {
            Some(x) => x,
            None => {
                proof {
                    if can_decode {
                        assert(false);
                    }
                }
                return Err(EngineError::CorruptContainer);
            },
        };
        proof {
            if can_decode {
                assert(p6 as int == seg_a.len() + seg_c.len() + seg_d.len() + seg_e.len()
                    + seg_f.len() + seg_g.len() + seg_h.len());
            }
        }
        let (total_parts, p7) = match read_usize(bytes, p6) {
            Some(x) => x,
            None => {
                proof {
                    if can_decode {
                        assert(read_usize_expected(bytes@, p6 as int, cx.total_parts));
                        assert(false);
                    }
                }
                return Err(EngineError::CorruptContainer);
            },
        };
        if p7 != bytes.len() {
            proof {
                if can_decode {
                    assert(p7 as int == enc_container(cx).len());
                    assert(false);
                }
            }
            return Err(EngineError::CorruptContainer);
        }
        // Reject metadata that no sequence of container operations produces.
        if total_parts != lines_per_part.len() {
            proof {
                if can_decode {
                    assert(total_parts == cx.total_parts);
                    assert(lines_per_part@ == cx.lines_per_part@);
                    assert(false);
                }
            }
            return Err(EngineError::CorruptContainer);
        }
        if total_parts == 0 {
            if last_part_sequence != 0 || last_part_size != 0 {
                proof {
                    if can_decode {
                        assert(false);
                    }
                }
                return Err(EngineError::CorruptContainer);
            }
        } else {
            if last_part_sequence >= usize::MAX || last_part_sequence + 1 != total_parts {
                proof {
                    if can_decode {
                        assert(last_part_sequence == cx.last_part_sequence);
                        assert(total_parts == cx.total_parts);
                        assert(false);
                    }
                }
                return Err(EngineError::CorruptContainer);
            }
            if lines_per_part[total_parts - 1] > last_part_size {
                proof {
                    if can_decode {
                        assert(false);
                    }
                }
                return Err(EngineError::CorruptContainer);
            }
        }
        // Decoded containers carry a fresh placeholder history with the
        // recorded line counts: their consumable values are only the
        // decoded in-memory ones, not the batches flushed in earlier runs.
        let ghost history: Seq<PartLines> = Seq::new(
            lines_per_part@.len(),
            |p: int| Seq::new(lines_per_part@[p] as nat, |i: int| Seq::<Seq<char>>::empty()),
        );
        let c = MapContainer {
            values,
            buffered_size,
            encoded_key,
            last_part_size,
            last_part_sequence,
            lines_per_part,
            total_parts,
            batches: Ghost(history),
        };
        proof {
            assert forall|q: int| 0 <= q < c.values@.len() implies (#[trigger] c.values@[q])@.len()
                <= u64::MAX by {
                assert(c.values.deep_view()[q] == c.values@[q]@);
            }
            assert(vstd::std_specs::vec::spec_vec_len(&c.values) == c.values@.len());
            assert(vstd::std_specs::vec::spec_vec_len(&c.lines_per_part)
                == c.lines_per_part@.len());
            assert(c.values@.len() as u64 == c.values.deep_view().len() as u64);
            lemma_stitch_container(
                c,
                bytes@,
                p1 as int,
                p2 as int,
                p3 as int,
                p4 as int,
                p5 as int,
                p6 as int,
                p7 as int,
            );
        }
        Ok(c)
    }
}

/// The word for this value stands at this position of the buffer.
pub open spec fn read_usize_expected(b: Seq<u8>, pos: int, m: usize) -> bool {
    prefix_of(u64_le(m as u64), b, pos)
}

/// Reads a list of texts preceded by its count, summing their byte
/// lengths. When the caller knows which list stands here, the read returns
/// exactly it.
fn read_values(bytes: &Vec<u8>, pos: usize, Ghost(exp): Ghost<Option<Seq<Seq<char>>>>) -> (r:
    Option<(Vec<String>, usize, usize)>)
    requires
        pos <= bytes@.len(),
        exp matches Some(vs) ==> {
            &&& vs.len() <= u64::MAX
            &&& forall|q: int| 0 <= q < vs.len() ==> (#[trigger] vs[q]).len() <= u64::MAX
            &&& sum_bytes(vs) <= usize::MAX
            &&& prefix_of(u64_le(vs.len() as u64) + enc_values(vs), bytes@, pos as int)
        },
    ensures
        r matches Some((vs, buffered, p2)) ==> {
            &&& pos as int <= p2 as int <= bytes@.len()
            &&& buffered == sum_bytes(vs.deep_view())
            &&& forall|q: int|
                0 <= q < vs.deep_view().len() ==> (#[trigger] vs.deep_view()[q]).len()
                    <= u64::MAX
            &&& u64_le(vs@.len() as u64) + enc_values(vs.deep_view()) == bytes@.subrange(
                pos as int,
                p2 as int,
            )
        },
        exp matches Some(vs) ==> (r matches Some(x) && x.0.deep_view() == vs && x.1 == sum_bytes(
            vs,
        ) && x.2 as int == pos + 8 + enc_values(vs).len()),
{
    proof {
        match exp {
            Option::Some(vs) => {
                lemma_prefix_split(u64_le(vs.len() as u64), enc_values(vs), bytes@, pos as int);
                assert(vs.skip(0) =~= vs);
                assert(vs.subrange(0, 0) =~= Seq::<Seq<char>>::empty());
            },
            Option::None => {},
        }
    }
    let (n, p0) = match read_u64(bytes, pos) {
        Some(x) => x,
        None => {
            proof {
                match exp {
                    Option::Some(vs) => {
                        assert(false);
                    },
                    Option::None => {},
                }
            }
            return None;
        },
    };
    let mut values: Vec<String> = Vec::new();
    let mut buffered: usize = 0;
    let mut cur: usize = p0;
    let mut k: u64 = 0;
    proof {
        assert(values.deep_view() =~= Seq::<Seq<char>>::empty());
        assert(u64_le(n) + enc_values(values.deep_view()) =~= bytes@.subrange(
            pos as int,
            cur as int,
        ));
    }
    while k < n
        invariant
            k <= n,
            pos as int <= cur as int <= bytes@.len(),
            buffered == sum_bytes(values.deep_view()),
            values@.len() == k,
            forall|q: int|
                0 <= q < values.deep_view().len() ==> (#[trigger] values.deep_view()[q]).len()
                    <= u64::MAX,
            u64_le(n) + enc_values(values.deep_view()) == bytes@.subrange(pos as int, cur as int),
            exp matches Some(vs) ==> {
                &&& n == vs.len() as u64
                &&& vs.len() <= u64::MAX
                &&& forall|q: int| 0 <= q < vs.len() ==> (#[trigger] vs[q]).len() <= u64::MAX
                &&& sum_bytes(vs) <= usize::MAX
                &&& k <= vs.len()
                &&& values.deep_view() == vs.subrange(0, k as int)
                &&& cur as int == pos + 8 + enc_values(vs.subrange(0, k as int)).len()
                &&& prefix_of(enc_values(vs.skip(k as int)), bytes@, cur as int)
            },
        decreases n - k,
    {
        proof {
            match exp {
                Option::Some(vs) => {
                    assert(k < vs.len()) by {
                        assert(n == vs.len() as u64);
                        assert((vs.len() as u64) as nat == vs.len());
                    }
                    lemma_values_step(bytes@, vs, k as int, cur as int);
                },
                Option::None => {},
            }
        }
        let (s, p2) = match read_string(
            bytes,
            cur,
            Ghost(
                match exp {
                    Option::Some(vs) => if 0 <= k < vs.len() {
                        Option::Some(vs[k as int])
                    } else {
                        Option::None
                    },
                    Option::None => Option::None,
                },
            ),
        ) {
            Some(x) => x,
            None => {
                proof {
                    match exp {
                        Option::Some(vs) => {
                            assert(false);
                        },
                        Option::None => {},
                    }
                }
                return None;
            },
        };
        let blen: usize = byte_len(s.as_str());
        let b2 = match buffered.checked_add(blen) {
            Some(b) => b,
            None => {
                proof {
                    match exp {
                        Option::Some(vs) => {
                            assert(values.deep_view().push(s@) =~= vs.subrange(0, k as int + 1));
                            lemma_sum_bytes_prefix_bound(vs, k as int + 1);
                            assert(values.deep_view().push(s@).drop_last() =~= values.deep_view());
                            assert(false);
                        },
                        Option::None => {},
                    }
                }
                return None;
            },
        };
        proof {
            let dv1 = values.deep_view().push(s@);
            assert(dv1.drop_last() =~= values.deep_view());
            assert(dv1.last() == s@);
            lemma_split(bytes@, pos as int, cur as int, p2 as int);
        }
        let ghost dv_old = values.deep_view();
        let ghost s_view = s@;
        values.push(s);
        buffered = b2;
        cur = p2;
        k = k + 1;
        proof {
            assert(values.deep_view() =~= dv_old.push(s_view));
            assert(u64_le(n) + enc_values(values.deep_view()) =~= bytes@.subrange(
                pos as int,
                cur as int,
            ));
            match exp {
                Option::Some(vs) => {
                    assert(values.deep_view() =~= vs.subrange(0, k as int));
                    assert(vs.subrange(0, k as int).drop_last() =~= vs.subrange(0, k as int - 1));
                    assert(enc_values(vs.subrange(0, k as int)) =~= enc_values(
                        vs.subrange(0, k as int - 1),
                    ) + enc_str(vs[k as int - 1]));
                },
                Option::None => {},
            }
        }
    }
    proof {
        assert(values@.len() as u64 == n);
        match exp {
            Option::Some(vs) => {
                assert(vs.subrange(0, vs.len() as int) =~= vs);
            },
            Option::None => {},
        }
    }
    Some((values, buffered, cur))
}

/// Reads a list of counts preceded by its own count. When the caller
/// knows which list stands here, the read returns exactly it.
fn read_counts(bytes: &Vec<u8>, pos: usize, Ghost(exp): Ghost<Option<Seq<usize>>>) -> (r: Option<
    (Vec<usize>, usize),
>)
    requires
        pos <= bytes@.len(),
        exp matches Some(ns) ==> ns.len() <= u64::MAX && prefix_of(
            u64_le(ns.len() as u64) + enc_counts(ns),
            bytes@,
            pos as int,
        ),
    ensures
        r matches Some((ns, p2)) ==> {
            &&& pos as int <= p2 as int <= bytes@.len()
            &&& u64_le(ns@.len() as u64) + enc_counts(ns@) == bytes@.subrange(
                pos as int,
                p2 as int,
            )
        },
        exp matches Some(ns) ==> (r matches Some(x) && x.0@ == ns && x.1 as int == pos + 8
            + enc_counts(ns).len()),
{
    proof {
        match exp {
            Option::Some(ns) => {
                lemma_prefix_split(u64_le(ns.len() as u64), enc_counts(ns), bytes@, pos as int);
                assert(ns.skip(0) =~= ns);
                assert(ns.subrange(0, 0) =~= Seq::<usize>::empty());
            },
            Option::None => {},
        }
    }
    let (n, p0) = match read_u64(bytes, pos) {
        Some(x) => x,
        None => {
            proof {
                match exp {
                    Option::Some(ns) => {
                        assert(false);
                    },
                    Option::None => {},
                }
            }
            return None;
        },
    };
    let mut counts: Vec<usize> = Vec::new();
    let mut cur: usize = p0;
    let mut k: u64 = 0;
    proof {
        assert(counts@ =~= Seq::<usize>::empty());
        assert(u64_le(n) + enc_counts(counts@) =~= bytes@.subrange(pos as int, cur as int));
    }
    while k < n
        invariant
            k <= n,
            pos as int <= cur as int <= bytes@.len(),
            counts@.len() == k,
            u64_le(n) + enc_counts(counts@) == bytes@.subrange(pos as int, cur as int),
            exp matches Some(ns) ==> {
                &&& n == ns.len() as u64
                &&& ns.len() <= u64::MAX
                &&& k <= ns.len()
                &&& counts@ == ns.subrange(0, k as int)
                &&& cur as int == pos + 8 + enc_counts(ns.subrange(0, k as int)).len()
                &&& prefix_of(enc_counts(ns.skip(k as int)), bytes@, cur as int)
            },
        decreases n - k,
    {
        proof {
            match exp {
                Option::Some(ns) => {
                    assert(k < ns.len()) by {
                        assert(n == ns.len() as u64);
                        assert((ns.len() as u64) as nat == ns.len());
                    }
                    lemma_counts_step(bytes@, ns, k as int, cur as int);
                },
                Option::None => {},
            }
        }
        let (c, p2) = match read_usize(bytes, cur) {
            Some(x) => x,
            None => {
                proof {
                    match exp {
                        Option::Some(ns) => {
                            assert(false);
                        },
                        Option::None => {},
                    }
                }
                return None;
            },
        };
        proof {
            let cv1 = counts@.push(c);
            assert(cv1.drop_last() =~= counts@);
            assert(cv1.last() == c);
            lemma_split(bytes@, pos as int, cur as int, p2 as int);
        }
        counts.push(c);
        cur = p2;
        k = k + 1;
        proof {
            assert(u64_le(n) + enc_counts(counts@) =~= bytes@.subrange(pos as int, cur as int));
            match exp {
                Option::Some(ns) => {
                    assert(counts@ =~= ns.subrange(0, k as int));
                    assert(ns.subrange(0, k as int).drop_last() =~= ns.subrange(0, k as int - 1));
                    assert(enc_counts(ns.subrange(0, k as int)) =~= enc_counts(
                        ns.subrange(0, k as int - 1),
                    ) + u64_le(ns[k as int - 1] as u64));
                },
                Option::None => {},
            }
        }
    }
    proof {
        assert(counts@.len() as u64 == n);
        match exp {
            Option::Some(ns) => {
                assert(ns.subrange(0, ns.len() as int) =~= ns);
            },
            Option::None => {},
        }
    }
    Some((counts, cur))
}

/// Reads one 8-byte little-endian word.
fn read_u64(bytes: &Vec<u8>, pos: usize) -> (r: Option<(u64, usize)>)
    requires
        pos <= bytes@.len(),
    ensures
        r is Some <==> pos + 8 <= bytes@.len(),
        r matches Some((n, p2)) ==> p2 == pos + 8 && u64_le(n) == bytes@.subrange(
            pos as int,
            pos + 8,
        ),
        forall|v: u64| prefix_of(#[trigger] u64_le(v), bytes@, pos as int) ==> r == Some(
            (v, (pos + 8) as usize),
        ),
{
    if bytes.len() - pos >= 8 {
        let b0: u64 = bytes[pos] as u64;
        let b1: u64 = bytes[pos + 1] as u64;
        let b2: u64 = bytes[pos + 2] as u64;
        let b3: u64 = bytes[pos + 3] as u64;
        let b4: u64 = bytes[pos + 4] as u64;
        let b5: u64 = bytes[pos + 5] as u64;
        let b6: u64 = bytes[pos + 6] as u64;
        let b7: u64 = bytes[pos + 7] as u64;
        let n: u64 = b0 | (b1 << 8) | (b2 << 16) | (b3 << 24) | (b4 << 32) | (b5 << 40) | (b6
            << 48) | (b7 << 56);
        proof {
            lemma_u64_le_recombine(n, b0, b1, b2, b3, b4, b5, b6, b7);
            assert(u64_le(n) =~= bytes@.subrange(pos as int, pos + 8));
            assert forall|v: u64| prefix_of(#[trigger] u64_le(v), bytes@, pos as int) implies v
                == n by {
                lemma_u64_le_injective(v, n);
            }
        }
        Some((n, pos + 8))
    } else {
        None
    }
}

/// The little-endian bytes of a word rebuilt from bytes are those bytes.
proof fn lemma_u64_le_recombine(n: u64, b0: u64, b1: u64, b2: u64, b3: u64, b4: u64, b5: u64, b6: u64, b7: u64)
    requires
        b0 < 256 && b1 < 256 && b2 < 256 && b3 < 256 && b4 < 256 && b5 < 256 && b6 < 256 && b7
            < 256,
        n == b0 | (b1 << 8) | (b2 << 16) | (b3 << 24) | (b4 << 32) | (b5 << 40) | (b6 << 48) | (
        b7 << 56),
    ensures
        n & 0xff == b0,
        (n >> 8) & 0xff == b1,
        (n >> 16) & 0xff == b2,
        (n >> 24) & 0xff == b3,
        (n >> 32) & 0xff == b4,
        (n >> 40) & 0xff == b5,
        (n >> 48) & 0xff == b6,
        (n >> 56) & 0xff == b7,
{
    assert((b0 | (b1 << 8) | (b2 << 16) | (b3 << 24) | (b4 << 32) | (b5 << 40) | (b6 << 48) | (b7
        << 56)) & 0xff == b0 && ((b0 | (b1 << 8) | (b2 << 16) | (b3 << 24) | (b4 << 32) | (b5
        << 40) | (b6 << 48) | (b7 << 56)) >> 8) & 0xff == b1 && ((b0 | (b1 << 8) | (b2 << 16) | (b3
        << 24) | (b4 << 32) | (b5 << 40) | (b6 << 48) | (b7 << 56)) >> 16) & 0xff == b2 && ((b0 | (
    b1 << 8) | (b2 << 16) | (b3 << 24) | (b4 << 32) | (b5 << 40) | (b6 << 48) | (b7 << 56)) >> 24)
        & 0xff == b3 && ((b0 | (b1 << 8) | (b2 << 16) | (b3 << 24) | (b4 << 32) | (b5 << 40) | (b6
        << 48) | (b7 << 56)) >> 32) & 0xff == b4 && ((b0 | (b1 << 8) | (b2 << 16) | (b3 << 24) | (
    b4 << 32) | (b5 << 40) | (b6 << 48) | (b7 << 56)) >> 40) & 0xff == b5 && ((b0 | (b1 << 8) | (b2
        << 16) | (b3 << 24) | (b4 << 32) | (b5 << 40) | (b6 << 48) | (b7 << 56)) >> 48) & 0xff
        == b6 && ((b0 | (b1 << 8) | (b2 << 16) | (b3 << 24) | (b4 << 32) | (b5 << 40) | (b6 << 48)
        | (b7 << 56)) >> 56) & 0xff == b7) by (bit_vector)
        requires
            b0 < 256 && b1 < 256 && b2 < 256 && b3 < 256 && b4 < 256 && b5 < 256 && b6 < 256 && b7
                < 256,
    ;
}

/// Reads one 8-byte word that must fit a usize.
fn read_usize(bytes: &Vec<u8>, pos: usize) -> (r: Option<(usize, usize)>)
    requires
        pos <= bytes@.len(),
    ensures
        r matches Some((n, p2)) ==> p2 == pos + 8 <= bytes@.len() && u64_le(n as u64)
            == bytes@.subrange(pos as int, pos + 8),
        forall|w: u64|
            prefix_of(#[trigger] u64_le(w), bytes@, pos as int) ==> (w <= usize::MAX ==> r
                == Some((w as usize, (pos + 8) as usize))),
{
    let r64 = read_u64(bytes, pos);
    match r64 {
        Some((n, p2)) => {
            if n <= usize::MAX as u64 {
                Some((n as usize, p2))
            } else {
                proof {
                    assert forall|w: u64|
                        prefix_of(#[trigger] u64_le(w), bytes@, pos as int) implies w
                        > usize::MAX by {
                        assert(r64 == Some((w, (pos + 8) as usize)));
                    }
                }
                None
            }
        },
        None => None,
    }
}

/// Reads one 4-byte little-endian word.
fn read_u32(bytes: &Vec<u8>, pos: usize) -> (r: Option<(u32, usize)>)
    requires
        pos <= bytes@.len(),
    ensures
        r is Some <==> pos + 4 <= bytes@.len(),
        r matches Some((n, p2)) ==> p2 == pos + 4 && u32_le(n) == bytes@.subrange(
            pos as int,
            pos + 4,
        ),
        forall|v: u32| prefix_of(#[trigger] u32_le(v), bytes@, pos as int) ==> r == Some(
            (v, (pos + 4) as usize),
        ),
{
    if bytes.len() - pos >= 4 {
        let b0: u32 = bytes[pos] as u32;
        let b1: u32 = bytes[pos + 1] as u32;
        let b2: u32 = bytes[pos + 2] as u32;
        let b3: u32 = bytes[pos + 3] as u32;
        let n: u32 = b0 | (b1 << 8) | (b2 << 16) | (b3 << 24);
        proof {
            assert((b0 | (b1 << 8) | (b2 << 16) | (b3 << 24)) & 0xff == b0 && ((b0 | (b1 << 8) | (
            b2 << 16) | (b3 << 24)) >> 8) & 0xff == b1 && ((b0 | (b1 << 8) | (b2 << 16) | (b3
                << 24)) >> 16) & 0xff == b2 && ((b0 | (b1 << 8) | (b2 << 16) | (b3 << 24)) >> 24)
                & 0xff == b3) by (bit_vector)
                requires
                    b0 < 256 && b1 < 256 && b2 < 256 && b3 < 256,
            ;
            assert(u32_le(n) =~= bytes@.subrange(pos as int, pos + 4));
            assert forall|v: u32| prefix_of(#[trigger] u32_le(v), bytes@, pos as int) implies v
                == n by {
                lemma_u32_le_injective(v, n);
            }
        }
        Some((n, pos + 4))
    } else {
        None
    }
}

/// Reads one character stored as a 4-byte scalar value.
fn read_char(bytes: &Vec<u8>, pos: usize) -> (r: Option<(char, usize)>)
    requires
        pos <= bytes@.len(),
    ensures
        r matches Some((c, p2)) ==> p2 == pos + 4 <= bytes@.len() && u32_le(c as u32)
            == bytes@.subrange(pos as int, pos + 4),
        forall|w: u32|
            prefix_of(#[trigger] u32_le(w), bytes@, pos as int) ==> (is_scalar(w) ==> (r matches
            Some(x) && x.0 as u32 == w && x.1 == pos + 4)),
{
    let r32 = read_u32(bytes, pos);
    match r32 {
        Some((w, p2)) => {
            let rc = char::from_u32(w);
            proof {
                assert forall|v: u32|
                    prefix_of(#[trigger] u32_le(v), bytes@, pos as int) && is_scalar(
                    v,
                ) implies (rc matches Some(x) && x as u32 == v) by {
                    assert(r32 == Some((v, (pos + 4) as usize)));
                }
            }
            match rc {
                Some(c) => Some((c, p2)),
                None => None,
            }
        },
        None => None,
    }
}

/// Reads one text: character count, then scalar values. When the caller
/// knows which text stands here, the read returns exactly it.
fn read_string(bytes: &Vec<u8>, pos: usize, Ghost(exp): Ghost<Option<Seq<char>>>) -> (r: Option<
    (String, usize),
>)
    requires
        pos <= bytes@.len(),
        exp matches Some(t) ==> t.len() <= u64::MAX && prefix_of(enc_str(t), bytes@, pos as int),
    ensures
        r matches Some((s, p2)) ==> pos as int <= p2 as int <= bytes@.len() && s@.len()
            <= u64::MAX && enc_str(s@) == bytes@.subrange(pos as int, p2 as int),
        exp matches Some(t) ==> (r matches Some(x) && x.0@ == t && x.1 as int == pos + 8 + 4
            * t.len()),
{
    proof {
        match exp {
            Option::Some(t) => {
                lemma_enc_chars_len(t);
                lemma_prefix_split(u64_le(t.len() as u64), enc_chars(t), bytes@, pos as int);
                assert(t.skip(0) =~= t);
            },
            Option::None => {},
        }
    }
    let (n, mut cur) = match read_u64(bytes, pos) {
        Some(x) => x,
        None => {
            proof {
                match exp {
                    Option::Some(t) => {
                        assert(false);
                    },
                    Option::None => {},
                }
            }
            return None;
        },
    };
    let mut s = String::new();
    let mut i: u64 = 0;
    while i < n
        invariant
            i <= n,
            pos + 8 <= cur as int <= bytes@.len(),
            s@.len() == i,
            u64_le(n) + enc_chars(s@) == bytes@.subrange(pos as int, cur as int),
            exp matches Some(t) ==> {
                &&& n == t.len() as u64
                &&& t.len() <= u64::MAX
                &&& i <= t.len()
                &&& s@ == t.subrange(0, i as int)
                &&& cur as int == pos + 8 + 4 * (i as int)
                &&& prefix_of(enc_chars(t.skip(i as int)), bytes@, cur as int)
            },
        decreases n - i,
    {
        proof {
            match exp {
                Option::Some(t) => {
                    assert(i < t.len()) by {
                        assert(n == t.len() as u64);
                        assert(t.len() <= u64::MAX);
                        assert((t.len() as u64) as nat == t.len());
                    }
                    lemma_string_step(bytes@, t, i as int, cur as int);
                    lemma_enc_chars_len(t.skip(i as int + 1));
                },
                Option::None => {},
            }
        }
        let rc = read_char(bytes, cur);
        let (c, p2) = match rc {
            Some(x) => x,
            None => {
                proof {
                    match exp {
                        Option::Some(t) => {
                            assert(prefix_of(u32_le(t[i as int] as u32), bytes@, cur as int));
                            vstd::utf8::char_is_scalar(t[i as int]);
                            assert(false);
                        },
                        Option::None => {},
                    }
                }
                return None;
            },
        };
        proof {
            assert(s@.push(c).drop_last() =~= s@);
            assert(bytes@.subrange(pos as int, p2 as int) =~= bytes@.subrange(
                pos as int,
                cur as int,
            ) + bytes@.subrange(cur as int, p2 as int));
            match exp {
                Option::Some(t) => {
                    vstd::utf8::char_is_scalar(t[i as int]);
                    assert(c as u32 == t[i as int] as u32);
                    vstd::utf8::char_u32_cast(c, c as u32);
                    vstd::utf8::char_u32_cast(t[i as int], t[i as int] as u32);
                    assert(c == t[i as int]);
                    assert(s@.push(c) =~= t.subrange(0, i as int + 1));
                },
                Option::None => {},
            }
        }
        s.push(c);
        cur = p2;
        i = i + 1;
        proof {
            assert(u64_le(n) + enc_chars(s@) =~= bytes@.subrange(pos as int, cur as int));
        }
    }
    proof {
        assert(s@.len() as u64 == n);
        assert(enc_str(s@) == bytes@.subrange(pos as int, cur as int));
        match exp {
            Option::Some(t) => {
                assert(s@ =~= t);
            },
            Option::None => {},
        }
    }
    Some((s, cur))
}

} // verus!
