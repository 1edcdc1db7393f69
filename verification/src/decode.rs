//! Reconstruction straight from an encoded QOI byte stream: the byte-level
//! chunk parser is an external collaborator, relied on behind a trusted
//! wrapper; everything the engine does with its chunks is verified.

use vstd::prelude::*;
use crate::cache::{Pixel, initial_pixel, initial_cache};
use crate::chunk::Chunk;
use crate::engine::{
    chunk_step, run_chunks, reconstruct_pixels, drop_chunks, bytes_of, apply_chunk,
    lemma_bytes_of_concat,
};

verus! {

/// The chunk sequence that repeatedly parsing the front of a byte stream
/// yields, until the parser reports exhaustion. The parser is external, so
/// the sequence is named, not written out; it is a function of the bytes
/// alone.
pub uninterp spec fn chunks_of(s: Seq<u8>) -> Seq<Chunk>;

/// Relies on `libqoi::Part::decode`: reads one chunk from the front of the
/// byte stream and returns it with the remaining bytes, or `None` when no
/// whole chunk is left. Its source shows that a parsed chunk consumes at
/// least one byte, and that an index chunk carries the low six bits of its
/// tag byte, so its slot is below 64.
#[verifier::external_body]
fn decode_chunk<'a>(data: &'a [u8]) -> (r: Option<(&'a [u8], Chunk)>)
    ensures
        match r {
            Some((rest, c)) => {
                &&& rest@.len() < data@.len()
                &&& chunks_of(data@) == seq![c] + chunks_of(rest@)
                &&& (c matches Chunk::IndexRef(i) ==> i < 64)
            },
            None => chunks_of(data@) == Seq::<Chunk>::empty(),
        },
{
    let (rest, part) = libqoi::Part::decode(data)?;
    let c = match part {
        libqoi::Part::RGBA(r, g, b, a) => Chunk::Literal(r, g, b, a),
        libqoi::Part::RGB(r, g, b) => Chunk::LiteralRgb(r, g, b),
        libqoi::Part::Run(n) => Chunk::Run(n),
        libqoi::Part::SmallDiff(dr, dg, db) => Chunk::SmallDiff(dr, dg, db),
        libqoi::Part::LumaDiff(drdg, dg, dbdg) => Chunk::LumaDiff(drdg, dg, dbdg),
        libqoi::Part::Idx(i) => Chunk::IndexRef(i),
    };
    Some((rest, c))
}

/// Reconstruct the pixel bytes of an encoded QOI stream, skipping the first
/// `skip` chunks: chunks are parsed left to right; the first `skip` of them
/// are dropped without touching any state; the rest are reconstructed from
/// the default initial state. The parser never yields a cache reference at or
/// beyond slot 64, so the pass always succeeds.
pub fn read_qoi_to_pixels(qoi: &[u8], skip: u32) -> (out: Vec<u8>)
    ensures
        reconstruct_pixels(drop_chunks(chunks_of(qoi@), skip as int)) matches Some(ps) && out@
            == bytes_of(ps),
{
    let ghost cs_total = chunks_of(qoi@);
    let mut cur: &[u8] = qoi;
    let mut skip_left = skip;
    let mut out: Vec<u8> = Vec::new();
    let mut cache: [Pixel; 64] = [(0u8, 0u8, 0u8, 0u8); 64];
    let mut last: Pixel = (0, 0, 0, 255);
    let ghost mut done: Seq<Chunk> = Seq::empty();
    let ghost mut emitted: Seq<Pixel> = Seq::empty();
    proof {
        assert(cache@ =~= initial_cache());
        assert(cs_total =~= done + chunks_of(cur@));
    }
    loop
        invariant
            cs_total == chunks_of(qoi@),
            cs_total == done + chunks_of(cur@),
            skip_left <= skip,
            skip_left > 0 ==> done.len() + skip_left == skip,
            skip_left == 0 ==> done.len() >= skip,
            run_chunks(drop_chunks(done, skip as int), initial_pixel(), initial_cache()) == Some(
                (emitted, last, cache@),
            ),
            out@ == bytes_of(emitted),
        ensures
            chunks_of(cur@) == Seq::<Chunk>::empty(),
        decreases cur@.len(),
    {
        let ghost done0 = done;
        let ghost last0 = last;
        let ghost cache0 = cache@;
        match decode_chunk(cur) {
            None => {
                break;
            },
            Some((rest, c)) => {
                proof {
                    done = done + seq![c];
                    assert(cs_total =~= done + chunks_of(rest@));
                }
                cur = rest;
                if skip_left > 0 {
                    skip_left = skip_left - 1;
                    proof {
                        assert(drop_chunks(done, skip as int) =~= Seq::<Chunk>::empty());
                    }
                } else {
                    let res = apply_chunk(&c, &mut cache, &mut last, &mut out);
                    proof {
                        assert(chunk_step(c, last0, cache0) is Some);
                        assert(res is Ok);
                        let applied0 = drop_chunks(done0, skip as int);
                        let applied = drop_chunks(done, skip as int);
                        assert(applied =~= applied0.push(c));
                        assert(applied.drop_last() =~= applied0);
                        assert(applied.last() == c);
                        match chunk_step(c, last0, cache0) {
                            Some((ps2, l3, k3)) => {
                                lemma_bytes_of_concat(emitted, ps2);
                                emitted = emitted + ps2;
                            },
                            None => {
                                assert(false);
                            },
                        }
                    }
                }
            },
        }
    }
    proof {
        assert(cs_total =~= done);
        assert(drop_chunks(cs_total, skip as int) == drop_chunks(done, skip as int));
    }
    out
}

} // verus!
