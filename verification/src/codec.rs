//! The deterministic byte encoding used by persistence: every quantity is a
//! little-endian 64-bit word, every list is its length followed by its items.
//! Each decoder is the exact inverse of its encoder, and the inverse lemmas
//! here prove it.

use vstd::prelude::*;

verus! {

/// The eight little-endian bytes of a 64-bit word.
pub open spec fn spec_u64_le(x: u64) -> Seq<u8> {
    seq![
        (x & 0xff) as u8,
        ((x >> 8) & 0xff) as u8,
        ((x >> 16) & 0xff) as u8,
        ((x >> 24) & 0xff) as u8,
        ((x >> 32) & 0xff) as u8,
        ((x >> 40) & 0xff) as u8,
        ((x >> 48) & 0xff) as u8,
        ((x >> 56) & 0xff) as u8,
    ]
}

/// The word eight bytes spell, little-endian.
pub open spec fn spec_u64_of(
    b0: u8,
    b1: u8,
    b2: u8,
    b3: u8,
    b4: u8,
    b5: u8,
    b6: u8,
    b7: u8,
) -> u64 {
    (b0 as u64) | ((b1 as u64) << 8) | ((b2 as u64) << 16) | ((b3 as u64) << 24) | ((b4 as u64)
        << 32) | ((b5 as u64) << 40) | ((b6 as u64) << 48) | ((b7 as u64) << 56)
}

/// Reading eight bytes just written yields the word they came from.
pub proof fn lemma_u64_le_inverse(x: u64)
    ensures
        spec_u64_of(
            spec_u64_le(x)[0],
            spec_u64_le(x)[1],
            spec_u64_le(x)[2],
            spec_u64_le(x)[3],
            spec_u64_le(x)[4],
            spec_u64_le(x)[5],
            spec_u64_le(x)[6],
            spec_u64_le(x)[7],
        ) == x,
{
    assert(((x & 0xff) as u8 as u64) | ((((x >> 8) & 0xff) as u8 as u64) << 8) | ((((x >> 16)
        & 0xff) as u8 as u64) << 16) | ((((x >> 24) & 0xff) as u8 as u64) << 24) | ((((x >> 32)
        & 0xff) as u8 as u64) << 32) | ((((x >> 40) & 0xff) as u8 as u64) << 40) | ((((x >> 48)
        & 0xff) as u8 as u64) << 48) | ((((x >> 56) & 0xff) as u8 as u64) << 56) == x)
        by (bit_vector);
}

/// What reading one word at `pos` yields: the word and the next position, or
/// nothing when fewer than eight bytes remain.
pub open spec fn spec_read_u64(b: Seq<u8>, pos: int) -> Option<(u64, int)> {
    if 0 <= pos && pos + 8 <= b.len() {
        Some(
            (
                spec_u64_of(
                    b[pos],
                    b[pos + 1],
                    b[pos + 2],
                    b[pos + 3],
                    b[pos + 4],
                    b[pos + 5],
                    b[pos + 6],
                    b[pos + 7],
                ),
                pos + 8,
            ),
        )
    } else {
        None
    }
}

/// Reading at the seam of `pre ++ spec_u64_le(x) ++ rest` yields `x`.
pub proof fn lemma_read_u64_at(pre: Seq<u8>, x: u64, rest: Seq<u8>)
    ensures
        spec_read_u64(pre + spec_u64_le(x) + rest, pre.len() as int) == Some(
            (x, pre.len() + 8 as int),
        ),
{
    let b = pre + spec_u64_le(x) + rest;
    let pos = pre.len() as int;
    assert forall|k: int| 0 <= k < 8 implies b[pos + k] == spec_u64_le(x)[k] by {}
    lemma_u64_le_inverse(x);
}

/// Append one word to the output.
pub fn write_u64(out: &mut Vec<u8>, x: u64)
    ensures
        final(out)@ == old(out)@ + spec_u64_le(x),
{
    out.push((x & 0xff) as u8);
    out.push(((x >> 8) & 0xff) as u8);
    out.push(((x >> 16) & 0xff) as u8);
    out.push(((x >> 24) & 0xff) as u8);
    out.push(((x >> 32) & 0xff) as u8);
    out.push(((x >> 40) & 0xff) as u8);
    out.push(((x >> 48) & 0xff) as u8);
    out.push(((x >> 56) & 0xff) as u8);
    proof {
        assert(out@ =~= old(out)@ + spec_u64_le(x));
    }
}

/// Read one word, as `spec_read_u64` lays out.
pub fn read_u64(bytes: &Vec<u8>, pos: usize) -> (r: Option<(u64, usize)>)
    ensures
        match r {
            Some(v) => spec_read_u64(bytes@, pos as int) == Some((v.0, v.1 as int)),
            None => spec_read_u64(bytes@, pos as int) is None,
        },
{
    if bytes.len() < 8 || pos > bytes.len() - 8 {
        return None;
    }
    let b0 = bytes[pos];
    let b1 = bytes[pos + 1];
    let b2 = bytes[pos + 2];
    let b3 = bytes[pos + 3];
    let b4 = bytes[pos + 4];
    let b5 = bytes[pos + 5];
    let b6 = bytes[pos + 6];
    let b7 = bytes[pos + 7];
    let v = (b0 as u64) | ((b1 as u64) << 8) | ((b2 as u64) << 16) | ((b3 as u64) << 24) | ((
    b4 as u64) << 32) | ((b5 as u64) << 40) | ((b6 as u64) << 48) | ((b7 as u64) << 56);
    Some((v, pos + 8))
}

/// A byte vector encodes as its length followed by its raw bytes.
pub open spec fn spec_bytes_chunk(s: Seq<u8>) -> Seq<u8> {
    spec_u64_le(s.len() as u64) + s
}

/// What reading a length-prefixed byte chunk at `pos` yields. A length that
/// cannot index memory refuses the chunk.
pub open spec fn spec_read_bytes_chunk(b: Seq<u8>, pos: int) -> Option<(Seq<u8>, int)> {
    match spec_read_u64(b, pos) {
        None => None,
        Some((n, p)) => if n <= usize::MAX && p + n <= b.len() {
            Some((b.subrange(p, p + n), p + n))
        } else {
            None
        },
    }
}

/// Reading a byte chunk at the seam of `pre ++ spec_bytes_chunk(s) ++ rest`
/// yields `s`, provided the chunk can exist in memory.
pub proof fn lemma_read_bytes_chunk_at(pre: Seq<u8>, s: Seq<u8>, rest: Seq<u8>)
    requires
        s.len() <= usize::MAX,
    ensures
        spec_read_bytes_chunk(pre + spec_bytes_chunk(s) + rest, pre.len() as int) == Some(
            (s, pre.len() + spec_bytes_chunk(s).len() as int),
        ),
{
    let b = pre + spec_bytes_chunk(s) + rest;
    assert(b =~= (pre + spec_u64_le(s.len() as u64)) + s + rest);
    lemma_read_u64_at(pre, s.len() as u64, s + rest);
    let p = pre.len() + 8;
    assert(b.subrange(p as int, p + s.len() as int) =~= s);
}

/// Append a byte chunk to the output.
pub fn write_bytes_chunk(out: &mut Vec<u8>, v: &Vec<u8>)
    ensures
        final(out)@ == old(out)@ + spec_bytes_chunk(v@),
{
    write_u64(out, v.len() as u64);
    let ghost base = out@;
    let mut i: usize = 0;
    while i < v.len()
        invariant
            i <= v@.len(),
            out@ == base + v@.take(i as int),
        decreases v@.len() - i,
    {
        out.push(v[i]);
        proof {
            assert(out@ =~= base + v@.take(i + 1));
        }
        i = i + 1;
    }
    proof {
        assert(v@.take(v@.len() as int) =~= v@);
        assert(out@ =~= old(out)@ + spec_bytes_chunk(v@));
    }
}

/// Read a byte chunk, as `spec_read_bytes_chunk` lays out.
pub fn read_bytes_chunk(bytes: &Vec<u8>, pos: usize) -> (r: Option<(Vec<u8>, usize)>)
    ensures
        match r {
            Some(v) => spec_read_bytes_chunk(bytes@, pos as int) == Some((v.0@, v.1 as int)),
            None => spec_read_bytes_chunk(bytes@, pos as int) is None,
        },
{
    let (n, p) = match read_u64(bytes, pos) {
        Some(x) => x,
        None => {
            return None;
        },
    };
    if n > usize::MAX as u64 || (n as usize) > bytes.len() - p {
        return None;
    }
    let count = n as usize;
    let mut out: Vec<u8> = Vec::new();
    let mut i: usize = 0;
    while i < count
        invariant
            i <= count,
            p + count <= bytes@.len(),
            bytes@.len() <= usize::MAX,
            out@ == bytes@.subrange(p as int, p + i),
        decreases count - i,
    {
        out.push(bytes[p + i]);
        proof {
            assert(out@ =~= bytes@.subrange(p as int, p + i + 1));
        }
        i = i + 1;
    }
    Some((out, p + count))
}

/// The words of a list, in order.
pub open spec fn spec_u64s_le(s: Seq<u64>) -> Seq<u8>
    decreases s.len(),
{
    if s.len() == 0 {
        Seq::empty()
    } else {
        spec_u64_le(s[0]) + spec_u64s_le(s.drop_first())
    }
}

/// A list encodes as its length followed by its words.
pub open spec fn spec_u64_list(s: Seq<u64>) -> Seq<u8> {
    spec_u64_le(s.len() as u64) + spec_u64s_le(s)
}

/// Word lists encode one item at a time, from either end.
pub proof fn lemma_u64s_le_snoc(s: Seq<u64>, x: u64)
    ensures
        spec_u64s_le(s.push(x)) == spec_u64s_le(s) + spec_u64_le(x),
    decreases s.len(),
{
    if s.len() == 0 {
        assert(s.push(x).drop_first() =~= Seq::<u64>::empty());
        assert(s.push(x)[0] == x);
        assert(spec_u64s_le(s.push(x)) == spec_u64_le(x) + spec_u64s_le(Seq::<u64>::empty()));
        assert(spec_u64s_le(Seq::<u64>::empty()) =~= Seq::<u8>::empty());
        assert(spec_u64s_le(s.push(x)) =~= spec_u64s_le(s) + spec_u64_le(x));
    } else {
        assert(s.push(x).drop_first() =~= s.drop_first().push(x));
        lemma_u64s_le_snoc(s.drop_first(), x);
        assert(s.push(x)[0] == s[0]);
        assert(spec_u64s_le(s.push(x)) == spec_u64_le(s[0]) + spec_u64s_le(
            s.drop_first().push(x),
        ));
        assert(spec_u64s_le(s) == spec_u64_le(s[0]) + spec_u64s_le(s.drop_first()));
        assert(spec_u64_le(s[0]) + (spec_u64s_le(s.drop_first()) + spec_u64_le(x)) =~= (spec_u64_le(
            s[0],
        ) + spec_u64s_le(s.drop_first())) + spec_u64_le(x));
    }
}

/// What reading `n` words at `pos` yields.
pub open spec fn spec_read_u64_items(b: Seq<u8>, pos: int, n: nat) -> Option<(Seq<u64>, int)>
    decreases n,
{
    if n == 0 {
        Some((Seq::empty(), pos))
    } else {
        match spec_read_u64(b, pos) {
            None => None,
            Some((x, p)) => match spec_read_u64_items(b, p, (n - 1) as nat) {
                None => None,
                Some((s, p2)) => Some((seq![x] + s, p2)),
            },
        }
    }
}

/// What reading a length-prefixed word list at `pos` yields. A length that
/// cannot index memory refuses the list.
pub open spec fn spec_read_u64_list(b: Seq<u8>, pos: int) -> Option<(Seq<u64>, int)> {
    match spec_read_u64(b, pos) {
        None => None,
        Some((n, p)) => if n <= usize::MAX {
            spec_read_u64_items(b, p, n as nat)
        } else {
            None
        },
    }
}

/// Reading `s.len()` words at the seam of `pre ++ spec_u64s_le(s) ++ rest`
/// yields `s`.
pub proof fn lemma_read_u64_items_at(pre: Seq<u8>, s: Seq<u64>, rest: Seq<u8>)
    ensures
        spec_read_u64_items(pre + spec_u64s_le(s) + rest, pre.len() as int, s.len()) == Some(
            (s, pre.len() + spec_u64s_le(s).len() as int),
        ),
    decreases s.len(),
{
    if s.len() == 0 {
        assert(spec_u64s_le(s) =~= Seq::<u8>::empty());
        assert(seq![] + s =~= s);
    } else {
        let b = pre + spec_u64s_le(s) + rest;
        assert(b =~= (pre + spec_u64_le(s[0])) + spec_u64s_le(s.drop_first()) + rest);
        lemma_read_u64_at(pre, s[0], spec_u64s_le(s.drop_first()) + rest);
        assert(spec_read_u64(b, pre.len() as int) == Some((s[0], pre.len() + 8 as int)));
        lemma_read_u64_items_at(pre + spec_u64_le(s[0]), s.drop_first(), rest);
        assert(seq![s[0]] + s.drop_first() =~= s);
    }
}

/// Reading a word list at the seam of `pre ++ spec_u64_list(s) ++ rest`
/// yields `s`, provided the list can exist in memory.
pub proof fn lemma_read_u64_list_at(pre: Seq<u8>, s: Seq<u64>, rest: Seq<u8>)
    requires
        s.len() <= usize::MAX,
    ensures
        spec_read_u64_list(pre + spec_u64_list(s) + rest, pre.len() as int) == Some(
            (s, pre.len() + spec_u64_list(s).len() as int),
        ),
{
    let b = pre + spec_u64_list(s) + rest;
    assert(b =~= (pre + spec_u64_le(s.len() as u64)) + spec_u64s_le(s) + rest);
    lemma_read_u64_at(pre, s.len() as u64, spec_u64s_le(s) + rest);
    lemma_read_u64_items_at(pre + spec_u64_le(s.len() as u64), s, rest);
}

/// Append a word list to the output.
pub fn write_u64_list(out: &mut Vec<u8>, v: &Vec<u64>)
    ensures
        final(out)@ == old(out)@ + spec_u64_list(v@),
{
    write_u64(out, v.len() as u64);
    let ghost base = out@;
    let mut i: usize = 0;
    while i < v.len()
        invariant
            i <= v@.len(),
            out@ == base + spec_u64s_le(v@.take(i as int)),
        decreases v@.len() - i,
    {
        write_u64(out, v[i]);
        proof {
            assert(v@.take(i + 1) =~= v@.take(i as int).push(v@[i as int]));
            lemma_u64s_le_snoc(v@.take(i as int), v@[i as int]);
        }
        i = i + 1;
    }
    proof {
        assert(v@.take(v@.len() as int) =~= v@);
        assert(out@ =~= old(out)@ + spec_u64_list(v@));
    }
}

/// Read a word list, as `spec_read_u64_list` lays out.
pub fn read_u64_list(bytes: &Vec<u8>, pos: usize) -> (r: Option<(Vec<u64>, usize)>)
    ensures
        match r {
            Some(v) => spec_read_u64_list(bytes@, pos as int) == Some((v.0@, v.1 as int)),
            None => spec_read_u64_list(bytes@, pos as int) is None,
        },
{
    let (n, mut p) = match read_u64(bytes, pos) {
        Some(x) => x,
        None => {
            return None;
        },
    };
    if n > usize::MAX as u64 {
        return None;
    }
    let count = n as usize;
    let mut out: Vec<u64> = Vec::new();
    proof {
        assert(out@ =~= Seq::<u64>::empty());
        match spec_read_u64_items(bytes@, p as int, count as nat) {
            Some(t) => {
                assert(out@ + t.0 =~= t.0);
            },
            None => {},
        }
    }
    let mut i: usize = 0;
    while i < count
        invariant
            i <= count,
            count as int == n as int,
            spec_read_u64_items(bytes@, spec_read_u64(bytes@, pos as int)->Some_0.1, count as nat)
                == (match spec_read_u64_items(bytes@, p as int, (count - i) as nat) {
                Some(t) => Some((out@ + t.0, t.1)),
                None => None::<(Seq<u64>, int)>,
            }),
            spec_read_u64(bytes@, pos as int) matches Some(h) && h.0 == n,
        decreases count - i,
    {
        match read_u64(bytes, p) {
            Some((x, p2)) => {
                out.push(x);
                proof {
                    assert(out@ =~= out@.drop_last().push(x));
                    assert(out@.drop_last() + (seq![x] + spec_read_u64_items(
                        bytes@,
                        p2 as int,
                        (count - i - 1) as nat,
                    )->Some_0.0) =~= out@ + spec_read_u64_items(
                        bytes@,
                        p2 as int,
                        (count - i - 1) as nat,
                    )->Some_0.0);
                }
                p = p2;
            },
            None => {
                proof {
                    assert(spec_read_u64_items(bytes@, p as int, (count - i) as nat) is None);
                }
                return None;
            },
        }
        i = i + 1;
    }
    proof {
        assert(spec_read_u64_items(bytes@, p as int, 0) == Some((Seq::<u64>::empty(), p as int)));
        assert(out@ + Seq::<u64>::empty() =~= out@);
    }
    Some((out, p))
}

} // verus!
