//! The pixel reconstruction engine: the deterministic mapping from a chunk
//! sequence to a flat pixel byte sequence, one chunk at a time, left to
//! right, with an optional lead-in discard.

use vstd::prelude::*;
use crate::cache::{
    Pixel, hash_of, initial_pixel, initial_cache, cache_wf, add_hash_and_last, lookup,
};
use crate::chunk::{Chunk, QoiError};

verus! {

/// A channel plus a signed delta, wrapping to 8 bits (two's-complement
/// wraparound, no saturation).
pub open spec fn wrap_add(c: u8, d: int) -> u8 {
    ((c + d) % 256) as u8
}

/// The pixel a delta chunk produces: each color channel moves by its delta
/// with 8-bit wraparound; alpha is copied unchanged.
pub open spec fn diff_pixel(last: Pixel, dr: int, dg: int, db: int) -> Pixel {
    (wrap_add(last.0, dr), wrap_add(last.1, dg), wrap_add(last.2, db), last.3)
}

/// Emitting one pixel: it is appended to the output, stored in the cache slot
/// it hashes to, and becomes the previous pixel.
pub open spec fn emit_one(p: Pixel, cache: Seq<Pixel>) -> (Seq<Pixel>, Pixel, Seq<Pixel>) {
    (seq![p], p, cache.update(hash_of(p), p))
}

/// One engine step: the pixels a chunk emits and the state it leaves behind,
/// or `None` when a cache reference names a slot at or beyond 64.
pub open spec fn chunk_step(c: Chunk, last: Pixel, cache: Seq<Pixel>) -> Option<
    (Seq<Pixel>, Pixel, Seq<Pixel>),
> {
    match c {
        Chunk::Literal(r, g, b, a) => Some(emit_one((r, g, b, a), cache)),
        Chunk::LiteralRgb(r, g, b) => Some(emit_one((r, g, b, last.3), cache)),
        Chunk::Run(n) => Some((Seq::new(n as nat, |i: int| last), last, cache)),
        Chunk::SmallDiff(dr, dg, db) => Some(
            emit_one(diff_pixel(last, dr as int, dg as int, db as int), cache),
        ),
        Chunk::LumaDiff(drdg, dg, dbdg) => Some(
            emit_one(diff_pixel(last, drdg + dg, dg as int, dbdg + dg), cache),
        ),
        Chunk::IndexRef(i) => if i < 64 {
            Some(emit_one(cache[i as int], cache))
        } else {
            None
        },
    }
}

/// The engine run over a whole chunk sequence from a given state: the pixels
/// emitted and the final state, or `None` if any step fails.
pub open spec fn run_chunks(cs: Seq<Chunk>, last: Pixel, cache: Seq<Pixel>) -> Option<
    (Seq<Pixel>, Pixel, Seq<Pixel>),
>
    decreases cs.len(),
{
    if cs.len() == 0 {
        Some((Seq::empty(), last, cache))
    } else {
        match run_chunks(cs.drop_last(), last, cache) {
            None => None,
            Some((ps, l2, k2)) => match chunk_step(cs.last(), l2, k2) {
                None => None,
                Some((ps2, l3, k3)) => Some((ps + ps2, l3, k3)),
            },
        }
    }
}

/// The pixels a reconstruction pass over a chunk sequence produces, starting
/// from the default state: previous pixel (0,0,0,255), all cache slots
/// (0,0,0,0).
pub open spec fn reconstruct_pixels(cs: Seq<Chunk>) -> Option<Seq<Pixel>> {
    match run_chunks(cs, initial_pixel(), initial_cache()) {
        Some((ps, l, k)) => Some(ps),
        None => None,
    }
}

/// A chunk sequence with its first `k` chunks discarded; empty when `k`
/// reaches or exceeds the length.
pub open spec fn drop_chunks(cs: Seq<Chunk>, k: int) -> Seq<Chunk> {
    if k >= cs.len() {
        Seq::empty()
    } else {
        cs.skip(k)
    }
}

/// A pixel flattened to its four channel bytes, in (r,g,b,a) order.
pub open spec fn pixel_bytes(p: Pixel) -> Seq<u8> {
    seq![p.0, p.1, p.2, p.3]
}

/// A pixel sequence flattened to interleaved channel bytes, one quadruplet
/// per pixel, in order.
pub open spec fn bytes_of(ps: Seq<Pixel>) -> Seq<u8>
    decreases ps.len(),
{
    if ps.len() == 0 {
        Seq::empty()
    } else {
        bytes_of(ps.drop_last()) + pixel_bytes(ps.last())
    }
}

/// How many pixels one chunk produces: a run produces its length, every other
/// chunk exactly one pixel.
pub open spec fn chunk_pixel_count(c: Chunk) -> nat {
    match c {
        Chunk::Run(n) => n as nat,
        _ => 1,
    }
}

/// How many pixels a chunk sequence produces in total.
pub open spec fn total_pixel_count(cs: Seq<Chunk>) -> nat
    decreases cs.len(),
{
    if cs.len() == 0 {
        0
    } else {
        total_pixel_count(cs.drop_last()) + chunk_pixel_count(cs.last())
    }
}

/// A channel plus a signed delta, wrapping to 8 bits.
pub fn wrap_channel(c: u8, d: i8) -> (r: u8)
    ensures
        r == wrap_add(c, d as int),
{
    let s: i16 = c as i16 + d as i16 + 256;
    proof {
        vstd::arithmetic::div_mod::lemma_mod_multiples_vanish(1, c + d, 256);
    }
    (s % 256) as u8
}

/// Apply one chunk: append the pixels it emits to `out` and update the
/// previous pixel and the cache, or report `IndexOutOfRange`, leaving
/// everything untouched, when a cache reference names a slot at or beyond 64.
pub fn apply_chunk(
    chunk: &Chunk,
    cache: &mut [Pixel; 64],
    last: &mut Pixel,
    out: &mut Vec<u8>,
) -> (r: Result<(), QoiError>)
    ensures
        match chunk_step(*chunk, *old(last), old(cache)@) {
            Some((ps, l2, k2)) => {
                &&& r is Ok
                &&& *final(last) == l2
                &&& final(cache)@ == k2
                &&& final(out)@ == old(out)@ + bytes_of(ps)
            },
            None => {
                &&& r == Err::<(), QoiError>(QoiError::IndexOutOfRange)
                &&& *final(last) == *old(last)
                &&& final(cache)@ == old(cache)@
                &&& final(out)@ == old(out)@
            },
        },
{
    match *chunk {
        Chunk::Literal(r, g, b, a) => {
            out.push(r);
            out.push(g);
            out.push(b);
            out.push(a);
            add_hash_and_last(r, g, b, a, cache, last);
            proof {
                lemma_bytes_of_one((r, g, b, a));
            }
            Ok(())
        },
        Chunk::LiteralRgb(r, g, b) => {
            let a = last.3;
            out.push(r);
            out.push(g);
            out.push(b);
            out.push(a);
            add_hash_and_last(r, g, b, a, cache, last);
            proof {
                lemma_bytes_of_one((r, g, b, a));
            }
            Ok(())
        },
        Chunk::Run(n) => {
            let p = *last;
            let mut j: u8 = 0;
            while j < n
                invariant
                    j <= n,
                    out@ == old(out)@ + bytes_of(Seq::new(j as nat, |i: int| p)),
                    *last == *old(last),
                    p == *last,
                    cache@ == old(cache)@,
                decreases n - j,
            {
                out.push(p.0);
                out.push(p.1);
                out.push(p.2);
                out.push(p.3);
                j = j + 1;
                proof {
                    let run = Seq::new(j as nat, |i: int| p);
                    assert(run.drop_last() =~= Seq::new((j - 1) as nat, |i: int| p));
                    assert(run.last() == p);
                }
            }
            Ok(())
        },
        Chunk::SmallDiff(dr, dg, db) => {
            let r = wrap_channel(last.0, dr);
            let g = wrap_channel(last.1, dg);
            let b = wrap_channel(last.2, db);
            let a = last.3;
            out.push(r);
            out.push(g);
            out.push(b);
            out.push(a);
            add_hash_and_last(r, g, b, a, cache, last);
            proof {
                lemma_bytes_of_one((r, g, b, a));
            }
            Ok(())
        },
        Chunk::LumaDiff(drdg, dg, dbdg) => {
            let dr = drdg.wrapping_add(dg);
            let db = dbdg.wrapping_add(dg);
            let r = wrap_channel(last.0, dr);
            let g = wrap_channel(last.1, dg);
            let b = wrap_channel(last.2, db);
            let a = last.3;
            proof {
                lemma_wrap_add_congruent(old(last).0, dr as int, drdg + dg);
                lemma_wrap_add_congruent(old(last).2, db as int, dbdg + dg);
            }
            out.push(r);
            out.push(g);
            out.push(b);
            out.push(a);
            add_hash_and_last(r, g, b, a, cache, last);
            proof {
                lemma_bytes_of_one((r, g, b, a));
            }
            Ok(())
        },
        Chunk::IndexRef(i) => {
            match lookup(cache, i as usize) {
                Ok(p) => {
                    out.push(p.0);
                    out.push(p.1);
                    out.push(p.2);
                    out.push(p.3);
                    add_hash_and_last(p.0, p.1, p.2, p.3, cache, last);
                    proof {
                        lemma_bytes_of_one(p);
                    }
                    Ok(())
                },
                Err(e) => Err(e),
            }
        },
    }
}

/// Reconstruct the pixels of a chunk sequence after discarding its first
/// `discard` chunks: the remaining chunks are processed from the default
/// initial state (previous pixel (0,0,0,255), all cache slots (0,0,0,0)),
/// not from the state a replay of the discarded chunks would have produced.
/// Succeeds exactly when no remaining cache reference names a slot at or
/// beyond 64; a discard count past the end of the sequence yields an empty
/// buffer, not an error.
pub fn reconstruct(chunks: &Vec<Chunk>, discard: usize) -> (r: Result<Vec<u8>, QoiError>)
    ensures
        match reconstruct_pixels(drop_chunks(chunks@, discard as int)) {
            Some(ps) => r matches Ok(out) && out@ == bytes_of(ps),
            None => r == Err::<Vec<u8>, QoiError>(QoiError::IndexOutOfRange),
        },
{
    let len = chunks.len();
    let start = if discard > len {
        len
    } else {
        discard
    };
    let ghost goal = drop_chunks(chunks@, discard as int);
    proof {
        assert(goal =~= chunks@.subrange(start as int, len as int));
    }
    let mut out: Vec<u8> = Vec::new();
    let mut cache: [Pixel; 64] = [(0u8, 0u8, 0u8, 0u8); 64];
    let mut last: Pixel = (0, 0, 0, 255);
    let ghost mut emitted: Seq<Pixel> = Seq::empty();
    proof {
        assert(cache@ =~= initial_cache());
    }
    let mut i: usize = start;
    while i < len
        invariant
            start <= i <= len,
            len == chunks@.len(),
            goal == drop_chunks(chunks@, discard as int),
            goal == chunks@.subrange(start as int, len as int),
            run_chunks(chunks@.subrange(start as int, i as int), initial_pixel(), initial_cache())
                == Some((emitted, last, cache@)),
            out@ == bytes_of(emitted),
        decreases len - i,
    {
        let ghost prefix = chunks@.subrange(start as int, i as int);
        let ghost last0 = last;
        let ghost cache0 = cache@;
        let c = chunks[i];
        match apply_chunk(&c, &mut cache, &mut last, &mut out) {
            Ok(()) => {},
            Err(e) => {
                proof {
                    assert(goal.take(i - start) =~= prefix);
                    assert(goal[i - start] == c);
                    lemma_run_fails_from(goal, initial_pixel(), initial_cache(), i - start);
                }
                return Err(e);
            },
        }
        i = i + 1;
        proof {
            let prefix2 = chunks@.subrange(start as int, i as int);
            assert(prefix2.drop_last() =~= prefix);
            assert(prefix2.last() == c);
            match chunk_step(c, last0, cache0) {
                Some((ps2, l3, k3)) => {
                    lemma_bytes_of_concat(emitted, ps2);
                    emitted = emitted + ps2;
                },
                None => {
                    assert(false);
                },
            }
        }
    }
    Ok(out)
}

/// Law: the number of pixels a successful pass emits is the sum over its
/// chunks of one pixel for a literal, literal-RGB, delta or index chunk and
/// `n` pixels for a run of length `n`; the byte buffer holds four bytes per
/// pixel.
pub proof fn lemma_output_pixel_count(cs: Seq<Chunk>)
    ensures
        reconstruct_pixels(cs) matches Some(ps) ==> ps.len() == total_pixel_count(cs) && bytes_of(
            ps,
        ).len() == 4 * total_pixel_count(cs),
{
    lemma_run_pixel_count(cs, initial_pixel(), initial_cache());
    if reconstruct_pixels(cs) is Some {
        match run_chunks(cs, initial_pixel(), initial_cache()) {
            Some((ps, l2, k2)) => lemma_bytes_of_len(ps),
            None => {},
        }
    }
}

/// The pixel count law for a run from any starting state.
pub proof fn lemma_run_pixel_count(cs: Seq<Chunk>, last: Pixel, cache: Seq<Pixel>)
    ensures
        run_chunks(cs, last, cache) matches Some((ps, l2, k2)) ==> ps.len() == total_pixel_count(
            cs,
        ),
    decreases cs.len(),
{
    if cs.len() > 0 {
        lemma_run_pixel_count(cs.drop_last(), last, cache);
    }
}

/// Four bytes come out for every pixel flattened.
pub proof fn lemma_bytes_of_len(ps: Seq<Pixel>)
    ensures
        bytes_of(ps).len() == 4 * ps.len(),
    decreases ps.len(),
{
    if ps.len() > 0 {
        lemma_bytes_of_len(ps.drop_last());
    }
}

/// A pixel's hash names one of the 64 cache slots.
pub proof fn lemma_hash_in_range(p: Pixel)
    ensures
        0 <= hash_of(p) < 64,
{
}

/// The cache a reconstruction pass starts from is well formed.
pub proof fn lemma_initial_cache_wf()
    ensures
        cache_wf(initial_cache()),
{
}

/// One engine step keeps the cache well formed: every store writes a pixel
/// into the slot it hashes to.
pub proof fn lemma_step_preserves_cache_wf(c: Chunk, last: Pixel, cache: Seq<Pixel>)
    requires
        cache_wf(cache),
    ensures
        chunk_step(c, last, cache) matches Some((ps, l2, k2)) ==> cache_wf(k2),
{
}

/// A whole run keeps the cache well formed.
pub proof fn lemma_run_preserves_cache_wf(cs: Seq<Chunk>, last: Pixel, cache: Seq<Pixel>)
    requires
        cache_wf(cache),
    ensures
        run_chunks(cs, last, cache) matches Some((ps, l2, k2)) ==> cache_wf(k2),
    decreases cs.len(),
{
    if cs.len() > 0 {
        lemma_run_preserves_cache_wf(cs.drop_last(), last, cache);
        match run_chunks(cs.drop_last(), last, cache) {
            Some((ps, l2, k2)) => lemma_step_preserves_cache_wf(cs.last(), l2, k2),
            None => {},
        }
    }
}

/// Law: in any state a pass can reach, an index reference re-emits the cached
/// pixel verbatim, and that pixel's hash equals the slot number whenever the
/// slot has been written since the pass began. An intervening collision does
/// not break this: a colliding store overwrites the slot with another pixel
/// of the same hash. A slot never written still holds the initial (0,0,0,0).
pub proof fn lemma_index_ref_hash(last: Pixel, cache: Seq<Pixel>, i: u8)
    requires
        cache_wf(cache),
        i < 64,
    ensures
        chunk_step(Chunk::IndexRef(i), last, cache) matches Some((ps, l2, k2)) && ps == seq![
            cache[i as int],
        ] && (cache[i as int] == (0u8, 0u8, 0u8, 0u8) || hash_of(cache[i as int]) == i as int),
{
}

/// Law: after reconstructing any chunk prefix from the default state, an
/// index reference to slot `i` re-emits the slot's pixel verbatim, and that
/// pixel's hash equals `i` whenever the slot has been written during the
/// pass; a slot never written still holds the initial (0,0,0,0). A collision
/// that overwrote the slot in between does not break this: the colliding
/// pixel hashes to the same slot.
pub proof fn lemma_index_ref_in_pass(cs: Seq<Chunk>, i: u8)
    requires
        i < 64,
    ensures
        run_chunks(cs, initial_pixel(), initial_cache()) matches Some((ps, l2, k2)) ==> (chunk_step(
            Chunk::IndexRef(i),
            l2,
            k2,
        ) matches Some((ps2, l3, k3)) && ps2 == seq![k2[i as int]] && (k2[i as int] == (
            0u8,
            0u8,
            0u8,
            0u8,
        ) || hash_of(k2[i as int]) == i as int)),
{
    lemma_initial_cache_wf();
    lemma_run_preserves_cache_wf(cs, initial_pixel(), initial_cache());
    match run_chunks(cs, initial_pixel(), initial_cache()) {
        Some((ps, l2, k2)) => lemma_index_ref_hash(l2, k2, i),
        None => {},
    }
}

/// Flattening pixels distributes over concatenation of pixel sequences.
pub proof fn lemma_bytes_of_concat(a: Seq<Pixel>, b: Seq<Pixel>)
    ensures
        bytes_of(a + b) == bytes_of(a) + bytes_of(b),
    decreases b.len(),
{
    if b.len() == 0 {
        assert(a + b =~= a);
        assert(bytes_of(b) == Seq::<u8>::empty());
        assert(bytes_of(a) + bytes_of(b) =~= bytes_of(a));
    } else {
        lemma_bytes_of_concat(a, b.drop_last());
        assert((a + b).drop_last() =~= a + b.drop_last());
        assert((a + b).last() == b.last());
        assert(bytes_of(a + b) == bytes_of(a) + bytes_of(b.drop_last()) + pixel_bytes(b.last()));
        assert(bytes_of(a) + bytes_of(b.drop_last()) + pixel_bytes(b.last()) =~= bytes_of(a)
            + bytes_of(b));
    }
}

/// Once one step of a run fails, the whole run fails: a failing cache
/// reference aborts the pass.
pub proof fn lemma_run_fails_from(cs: Seq<Chunk>, last: Pixel, cache: Seq<Pixel>, i: int)
    requires
        0 <= i < cs.len(),
        run_chunks(cs.take(i), last, cache) matches Some((ps, l2, k2)) && chunk_step(
            cs[i],
            l2,
            k2,
        ) is None,
    ensures
        run_chunks(cs, last, cache) is None,
    decreases cs.len(),
{
    if i == cs.len() - 1 {
        assert(cs.drop_last() =~= cs.take(i));
        assert(cs.last() == cs[i]);
    } else {
        assert(cs.drop_last().take(i) =~= cs.take(i));
        assert(cs.drop_last()[i] == cs[i]);
        lemma_run_fails_from(cs.drop_last(), last, cache, i);
    }
}

/// Flattening a single pixel gives exactly its four channel bytes.
proof fn lemma_bytes_of_one(p: Pixel)
    ensures
        bytes_of(seq![p]) == pixel_bytes(p),
{
    let s = seq![p];
    assert(s.drop_last() =~= Seq::<Pixel>::empty());
    assert(bytes_of(s.drop_last()) == Seq::<u8>::empty());
    assert(s.last() == p);
    assert(bytes_of(s) =~= pixel_bytes(p));
}

/// Two deltas that agree modulo 256 wrap a channel to the same byte.
proof fn lemma_wrap_add_congruent(c: u8, d1: int, d2: int)
    requires
        (d1 - d2) % 256 == 0,
    ensures
        wrap_add(c, d1) == wrap_add(c, d2),
{
    let k = (d1 - d2) / 256;
    assert(d1 == d2 + 256 * k) by {
        vstd::arithmetic::div_mod::lemma_fundamental_div_mod(d1 - d2, 256);
    }
    assert((c + d2 + 256 * k) % 256 == (c + d2) % 256) by {
        vstd::arithmetic::div_mod::lemma_mod_multiples_vanish(k, c + d2, 256);
    }
}

} // verus!

