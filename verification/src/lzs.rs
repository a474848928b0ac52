//! Decompression engine for the run-length/back-reference scheme used by
//! the `rom-0` configuration dumps.
//!
//! The stream is a sequence of tokens. A control byte with the high bit
//! set starts a literal run: its low seven bits give the number of input
//! bytes copied verbatim. A control byte with the high bit clear starts a
//! back-reference: the control byte and the next byte form a big-endian
//! offset, and the byte after that gives a length; `length` bytes are then
//! copied one at a time from `offset` positions before the end of the
//! output as it grows, so an offset smaller than the length reproduces a
//! periodic repeat.
use vstd::prelude::*;

verus! {

/// Output of replaying `length` bytes, one at a time, each read `offset`
/// positions before the current end of `out`. Because the source index is
/// re-evaluated after every appended byte, the copy may overlap itself.
pub open spec fn back_extend(out: Seq<u8>, offset: int, length: int) -> Seq<u8>
    recommends
        1 <= offset <= out.len(),
    decreases length,
{
    if length <= 0 {
        out
    } else {
        back_extend(out.push(out[out.len() - offset]), offset, length - 1)
    }
}

/// Decoding of the compressed stream `input` onto the bytes `out` decoded
/// so far. `None` marks a malformed stream: a truncated token, a zero
/// back-reference length, or an offset outside the bytes decoded so far.
pub open spec fn decode_from(input: Seq<u8>, out: Seq<u8>) -> Option<Seq<u8>>
    decreases input.len(),
{
    if input.len() == 0 {
        Some(out)
    } else {
        let control = input[0];
        if control >= 0x80 {
            let run = control - 0x80;
            if input.len() < 1 + run {
                None
            } else {
                decode_from(input.skip(1 + run), out + input.subrange(1, 1 + run))
            }
        } else {
            if input.len() < 3 {
                None
            } else {
                let offset = control * 256 + input[1];
                let length = input[2];
                if offset == 0 || offset > out.len() || length == 0 {
                    None
                } else {
                    decode_from(input.skip(3), back_extend(out, offset as int, length as int))
                }
            }
        }
    }
}

/// Decoding of a whole compressed stream, starting from an empty output.
pub open spec fn decode(input: Seq<u8>) -> Option<Seq<u8>> {
    decode_from(input, Seq::<u8>::empty())
}

/// A back-reference replay appends exactly `length` bytes.
pub proof fn lemma_back_extend_len(out: Seq<u8>, offset: int, length: int)
    requires
        1 <= offset <= out.len(),
        0 <= length,
    ensures
        back_extend(out, offset, length).len() == out.len() + length,
    decreases length,
{
    if length > 0 {
        lemma_back_extend_len(out.push(out[out.len() - offset]), offset, length - 1);
    }
}

/// Replaying one more byte appends the byte `offset` positions before the
/// end of the replay so far.
pub proof fn lemma_back_extend_push(out: Seq<u8>, offset: int, length: int)
    requires
        1 <= offset <= out.len(),
        0 <= length,
    ensures
        back_extend(out, offset, length + 1) == back_extend(out, offset, length).push(
            back_extend(out, offset, length)[out.len() + length - offset],
        ),
    decreases length,
{
    lemma_back_extend_len(out, offset, length);
    if length == 0 {
        assert(back_extend(out, offset, 1) == back_extend(
            out.push(out[out.len() - offset]),
            offset,
            0,
        ));
    } else {
        let out2 = out.push(out[out.len() - offset]);
        lemma_back_extend_push(out2, offset, length - 1);
    }
}

/// The self-overlap law of back-references: a replay keeps every byte of
/// the seed output unchanged, and every appended byte equals the byte
/// `offset` positions before it in the extended output. With an offset
/// smaller than the length this forces a periodic repeat rather than a
/// block copy.
pub proof fn lemma_back_extend_periodic(out: Seq<u8>, offset: int, length: int)
    requires
        1 <= offset <= out.len(),
        0 <= length,
    ensures
        back_extend(out, offset, length).len() == out.len() + length,
        forall|j: int|
            0 <= j < out.len() ==> #[trigger] back_extend(out, offset, length)[j] == out[j],
        forall|j: int|
            out.len() <= j < out.len() + length ==> #[trigger] back_extend(out, offset, length)[j]
                == back_extend(out, offset, length)[j - offset],
    decreases length,
{
    lemma_back_extend_len(out, offset, length);
    if length > 0 {
        lemma_back_extend_periodic(out, offset, length - 1);
        lemma_back_extend_push(out, offset, length - 1);
    }
}

/// Failure law: a stream whose next token is a back-reference reaching
/// past the bytes decoded so far does not decode.
pub proof fn lemma_backref_offset_too_large(input: Seq<u8>, out: Seq<u8>)
    requires
        3 <= input.len(),
        input[0] < 0x80,
        input[0] * 256 + input[1] > out.len(),
    ensures
        decode_from(input, out) is None,
{
}

/// Failure law: a stream that ends inside a back-reference token does not
/// decode.
pub proof fn lemma_truncated_backref(input: Seq<u8>, out: Seq<u8>)
    requires
        1 <= input.len() < 3,
        input[0] < 0x80,
    ensures
        decode_from(input, out) is None,
{
}

/// Failure law: a stream that ends inside a literal run does not decode.
pub proof fn lemma_truncated_literal(input: Seq<u8>, out: Seq<u8>)
    requires
        1 <= input.len(),
        0x80 <= input[0],
        input.len() < 1 + (input[0] - 0x80),
    ensures
        decode_from(input, out) is None,
{
}

/// Decodes a whole compressed stream. Returns the decoded bytes, or
/// `None` exactly when the stream is malformed.
pub fn decompress(input: &[u8]) -> (r: Option<Vec<u8>>)
    ensures
        r is Some <==> decode(input@) is Some,
        r is Some ==> r->0@ == decode(input@)->0,
{
    let n = input.len();
    let mut out: Vec<u8> = Vec::new();
    let mut i: usize = 0;
    assert(input@.skip(0) =~= input@);
    assert(out@ =~= Seq::<u8>::empty());
    while i < n
        invariant
            i <= n,
            n == input@.len(),
            decode_from(input@.skip(i as int), out@) == decode(input@),
        decreases n - i,
    {
        let ghost prev_i = i as int;
        let ghost prev_out = out@;
        let control = input[i];
        i = i + 1;
        assert(input@.skip(prev_i)[0] == control);
        if control >= 0x80 {
            let run = (control - 0x80) as usize;
            if n - i < run {
                assert(decode_from(input@.skip(prev_i), prev_out) is None);
                return None;
            }
            let mut k: usize = 0;
            while k < run
                invariant
                    k <= run,
                    i + run <= n,
                    n == input@.len(),
                    out@ == prev_out + input@.subrange(i as int, i + k),
                decreases run - k,
            {
                out.push(input[i + k]);
                assert(out@ =~= prev_out + input@.subrange(i as int, i + k + 1));
                k = k + 1;
            }
            assert(input@.skip(prev_i).subrange(1, 1 + run) =~= input@.subrange(
                i as int,
                i + run,
            ));
            assert(input@.skip(prev_i).skip(1 + run) =~= input@.skip(i + run));
            i = i + run;
        } else {
            if n - i < 2 {
                assert(input@.skip(prev_i).len() < 3);
                assert(decode_from(input@.skip(prev_i), prev_out) is None);
                return None;
            }
            let offset = (control as usize) * 256 + (input[i] as usize);
            let length = input[i + 1] as usize;
            assert(input@.skip(prev_i)[1] == input@[i as int]);
            assert(input@.skip(prev_i)[2] == input@[i + 1]);
            i = i + 2;
            if offset == 0 || offset > out.len() || length == 0 {
                assert(decode_from(input@.skip(prev_i), prev_out) is None);
                return None;
            }
            let ghost seed = out@;
            let mut k: usize = 0;
            while k < length
                invariant
                    k <= length,
                    1 <= offset <= seed.len(),
                    out@ == back_extend(seed, offset as int, k as int),
                decreases length - k,
            {
                proof {
                    lemma_back_extend_len(seed, offset as int, k as int);
                    lemma_back_extend_push(seed, offset as int, k as int);
                }
                let b = out[out.len() - offset];
                out.push(b);
                k = k + 1;
            }
            assert(input@.skip(prev_i).skip(3) =~= input@.skip(i as int));
        }
        assert(decode_from(input@.skip(i as int), out@) == decode_from(
            input@.skip(prev_i),
            prev_out,
        ));
    }
    assert(input@.skip(i as int).len() == 0);
    Some(out)
}

} // verus!
