use crate::index::bytes_eq;
use vstd::prelude::*;

verus! {

/// What one pair of chunks, read in lockstep from two streams, settles:
/// chunks that differ, in length or content, settle "different"; two empty
/// chunks, both streams ending together, settle "equal"; else reading goes on.
pub open spec fn chunk_verdict(a: Seq<u8>, b: Seq<u8>) -> Option<bool> {
    if a != b {
        Some(false)
    } else if a.len() == 0 {
        Some(true)
    } else {
        None
    }
}

/// The outcome of comparing two streams read as the given chunks, pair by
/// pair, stopping at the first pair that settles it.
pub open spec fn lockstep(ca: Seq<Seq<u8>>, cb: Seq<Seq<u8>>) -> Option<bool>
    decreases ca.len(),
{
    if ca.len() == 0 || cb.len() == 0 {
        None
    } else {
        match chunk_verdict(ca[0], cb[0]) {
            Some(v) => Some(v),
            None => lockstep(ca.drop_first(), cb.drop_first()),
        }
    }
}

/// How a stream is read: non-empty chunks, then one empty chunk at its end.
pub open spec fn is_reading(chunks: Seq<Seq<u8>>) -> bool {
    &&& chunks.len() > 0
    &&& chunks.last().len() == 0
    &&& forall|i: int| 0 <= i < chunks.len() - 1 ==> (#[trigger] chunks[i]).len() > 0
}

/// Compares the next chunks of two streams read in lockstep.
pub fn compare_chunks(a: &[u8], b: &[u8]) -> (r: Option<bool>)
    ensures
        r == chunk_verdict(a@, b@),
{
    if !bytes_eq(a, b) {
        Some(false)
    } else if a.len() == 0 {
        Some(true)
    } else {
        None
    }
}

proof fn lemma_reading_rest(chunks: Seq<Seq<u8>>)
    requires
        is_reading(chunks),
        chunks[0].len() > 0,
    ensures
        chunks.len() > 1,
        is_reading(chunks.drop_first()),
{
    let rest = chunks.drop_first();
    assert forall|i: int| 0 <= i < rest.len() - 1 implies (#[trigger] rest[i]).len() > 0 by {
        assert(rest[i] == chunks[i + 1]);
    }
    assert(rest.last() == chunks.last());
}

/// Content comparison is reflexive: a stream read twice alike is found equal
/// to itself.
pub proof fn lemma_lockstep_reflexive(chunks: Seq<Seq<u8>>)
    requires
        is_reading(chunks),
    ensures
        lockstep(chunks, chunks) == Some(true),
    decreases chunks.len(),
{
    if chunks[0].len() > 0 {
        lemma_reading_rest(chunks);
        lemma_lockstep_reflexive(chunks.drop_first());
    }
}

/// Comparing two readings always settles, and "equal" only for equal content.
pub proof fn lemma_lockstep_sound(ca: Seq<Seq<u8>>, cb: Seq<Seq<u8>>)
    requires
        is_reading(ca),
        is_reading(cb),
    ensures
        lockstep(ca, cb) is Some,
        lockstep(ca, cb) == Some(true) ==> ca.flatten() == cb.flatten(),
    decreases ca.len(),
{
    if ca[0] == cb[0] {
        if ca[0].len() == 0 {
            if ca.len() > 1 {
                assert(ca[0].len() > 0);
            }
            if cb.len() > 1 {
                assert(cb[0].len() > 0);
            }
            assert(ca.drop_first().flatten() =~= Seq::<u8>::empty());
            assert(cb.drop_first().flatten() =~= Seq::<u8>::empty());
        } else {
            lemma_reading_rest(ca);
            lemma_reading_rest(cb);
            lemma_lockstep_sound(ca.drop_first(), cb.drop_first());
        }
    }
}

/// Streams of different lengths are never found equal.
pub proof fn lemma_lockstep_lengths(ca: Seq<Seq<u8>>, cb: Seq<Seq<u8>>)
    requires
        is_reading(ca),
        is_reading(cb),
        ca.flatten().len() != cb.flatten().len(),
    ensures
        lockstep(ca, cb) == Some(false),
{
    lemma_lockstep_sound(ca, cb);
}

/// Content `c` read in chunks of `size` bytes: every chunk full but the last
/// non-empty one, then one empty chunk at the end.
pub open spec fn fixed_chunks(c: Seq<u8>, size: nat) -> Seq<Seq<u8>>
    decreases c.len(),
    when size > 0
{
    if c.len() == 0 {
        seq![Seq::<u8>::empty()]
    } else if c.len() <= size {
        seq![c, Seq::<u8>::empty()]
    } else {
        seq![c.take(size as int)] + fixed_chunks(c.skip(size as int), size)
    }
}

/// Reading in fixed-size chunks is a reading of the whole content.
pub proof fn lemma_fixed_chunks(c: Seq<u8>, size: nat)
    requires
        size > 0,
    ensures
        is_reading(fixed_chunks(c, size)),
        fixed_chunks(c, size).flatten() == c,
    decreases c.len(),
{
    let f = fixed_chunks(c, size);
    let e = Seq::<u8>::empty();
    if c.len() == 0 {
        assert(f == seq![e]);
        assert(f.drop_first() =~= Seq::<Seq<u8>>::empty());
        assert(f.flatten() == f.first() + f.drop_first().flatten());
        assert(f.flatten() =~= c);
    } else if c.len() <= size {
        assert(f == seq![c, e]);
        let g = f.drop_first();
        assert(g =~= seq![e]);
        assert(g.drop_first() =~= Seq::<Seq<u8>>::empty());
        assert(g.flatten() == g.first() + g.drop_first().flatten());
        assert(g.flatten() =~= e);
        assert(f.flatten() == f.first() + g.flatten());
        assert(f.flatten() =~= c);
    } else {
        let rest = fixed_chunks(c.skip(size as int), size);
        lemma_fixed_chunks(c.skip(size as int), size);
        assert(f.drop_first() =~= rest);
        assert forall|i: int| 0 <= i < f.len() - 1 implies (#[trigger] f[i]).len() > 0 by {
            if i > 0 {
                assert(f[i] == rest[i - 1]);
            }
        }
        assert(f.last() == rest.last());
        assert(f.flatten() == f.first() + f.drop_first().flatten());
        assert(c.take(size as int) + c.skip(size as int) =~= c);
    }
}

/// Content comparison decides content equality: two contents read in chunks
/// of one size are found equal exactly when they are equal.
pub proof fn lemma_content_equals(a: Seq<u8>, b: Seq<u8>, size: nat)
    requires
        size > 0,
    ensures
        lockstep(fixed_chunks(a, size), fixed_chunks(b, size)) == Some(a == b),
{
    lemma_fixed_chunks(a, size);
    lemma_fixed_chunks(b, size);
    if a == b {
        lemma_lockstep_reflexive(fixed_chunks(a, size));
    } else {
        lemma_lockstep_sound(fixed_chunks(a, size), fixed_chunks(b, size));
    }
}

} // verus!
