//! The byte layout in which a ledger is stored.
//!
//! Everything is built from one shape, the chunk: a length of eight bytes,
//! most significant byte first, followed by that many bytes. A list is its
//! items as chunks, one after the other. A structure is a list of an even
//! number of chunks, alternately the name of a field and its value, so that
//! a reader can pass over the fields it does not know. Numbers have a fixed
//! width, most significant byte first; texts are UTF-8.

use vstd::prelude::*;
use vstd::slice::slice_subrange;

verus! {

/// The width in bytes of a chunk's length, and of the numbers that a `u64`
/// holds.
pub const WORD: usize = 8;

/// The width in bytes of a timestamp.
pub const WIDE: usize = 16;

/// 256 to the power `width`: the first number that `width` bytes cannot hold.
pub open spec fn radix_power(width: nat) -> nat
    decreases width,
{
    if width == 0 {
        1
    } else {
        256 * radix_power((width - 1) as nat)
    }
}

/// The `width` bytes of `n`, most significant first. Where `n` needs more
/// bytes, the upper ones are dropped.
pub open spec fn be_bytes(n: nat, width: nat) -> Seq<u8>
    decreases width,
{
    if width == 0 {
        Seq::empty()
    } else {
        be_bytes(n / 256, (width - 1) as nat).push((n % 256) as u8)
    }
}

/// The number that `bytes` hold, most significant byte first.
pub open spec fn be_value(bytes: Seq<u8>) -> nat
    decreases bytes.len(),
{
    if bytes.len() == 0 {
        0
    } else {
        be_value(bytes.drop_last()) * 256 + bytes.last() as nat
    }
}

/// Eight bytes hold the numbers of a `u64`, sixteen those of a `u128`.
pub proof fn lemma_radix_power_values()
    ensures
        radix_power(8) == 0x1_0000_0000_0000_0000,
        radix_power(16) == 0x1_0000_0000_0000_0000_0000_0000_0000_0000,
{
    reveal_with_fuel(radix_power, 17);
}

/// A number written in `width` bytes has `width` bytes and, where it fits,
/// reads back as itself.
pub proof fn lemma_be_round_trip(n: nat, width: nat)
    ensures
        be_bytes(n, width).len() == width,
        n < radix_power(width) ==> be_value(be_bytes(n, width)) == n,
    decreases width,
{
    if width > 0 {
        lemma_be_round_trip(n / 256, (width - 1) as nat);
        let bytes = be_bytes(n, width);
        assert(bytes.drop_last() =~= be_bytes(n / 256, (width - 1) as nat));
        assert(bytes.last() == (n % 256) as u8);
        if n < radix_power(width) {
            assert(n / 256 < radix_power((width - 1) as nat));
        }
    }
}

/// What `bytes` hold is below 256 to the power of their number.
pub proof fn lemma_be_value_bound(bytes: Seq<u8>)
    ensures
        be_value(bytes) < radix_power(bytes.len()),
    decreases bytes.len(),
{
    if bytes.len() > 0 {
        lemma_be_value_bound(bytes.drop_last());
    }
}

/// A chunk: the length of `body` in eight bytes, then `body`.
pub open spec fn chunk(body: Seq<u8>) -> Seq<u8> {
    be_bytes(body.len(), WORD as nat) + body
}

/// The chunks of `bodies`, one after the other.
pub open spec fn join_chunks(bodies: Seq<Seq<u8>>) -> Seq<u8>
    decreases bodies.len(),
{
    if bodies.len() == 0 {
        Seq::empty()
    } else {
        join_chunks(bodies.drop_last()) + chunk(bodies.last())
    }
}

/// The bodies of the chunks that `bytes` consist of, or `None` where `bytes`
/// are not chunks from end to end.
pub open spec fn split_chunks(bytes: Seq<u8>) -> Option<Seq<Seq<u8>>>
    decreases bytes.len(),
{
    if bytes.len() == 0 {
        Some(Seq::empty())
    } else if bytes.len() < WORD {
        None
    } else {
        let length = be_value(bytes.subrange(0, WORD as int));
        if WORD + length > bytes.len() {
            None
        } else {
            match split_chunks(bytes.subrange(WORD + length, bytes.len() as int)) {
                Some(rest) => Some(seq![bytes.subrange(WORD as int, WORD + length)] + rest),
                None => None,
            }
        }
    }
}

/// The value of the first field called `name` in a structure's chunks.
pub open spec fn field(chunks: Seq<Seq<u8>>, name: Seq<u8>) -> Option<Seq<u8>>
    decreases chunks.len(),
{
    if chunks.len() < 2 {
        None
    } else if chunks[0] == name {
        Some(chunks[1])
    } else {
        field(chunks.skip(2), name)
    }
}

/// The chunks of a structure: those of `bytes` where they come in pairs.
pub open spec fn split_fields(bytes: Seq<u8>) -> Option<Seq<Seq<u8>>> {
    match split_chunks(bytes) {
        Some(chunks) => if chunks.len() % 2 == 0 {
            Some(chunks)
        } else {
            None
        },
        None => None,
    }
}

/// Chunks put behind other chunks.
pub proof fn lemma_join_concat(a: Seq<Seq<u8>>, b: Seq<Seq<u8>>)
    ensures
        join_chunks(a + b) == join_chunks(a) + join_chunks(b),
    decreases b.len(),
{
    if b.len() == 0 {
        assert(a + b =~= a);
        assert(join_chunks(a) + join_chunks(b) =~= join_chunks(a));
    } else {
        lemma_join_concat(a, b.drop_last());
        assert((a + b).drop_last() =~= a + b.drop_last());
        assert((a + b).last() == b.last());
        assert(join_chunks(a + b) =~= join_chunks(a) + join_chunks(b));
    }
}

/// A single chunk, joined.
pub proof fn lemma_join_one(body: Seq<u8>)
    ensures
        join_chunks(seq![body]) == chunk(body),
{
    let one = seq![body];
    assert(one.drop_last() =~= Seq::<Seq<u8>>::empty());
    assert(join_chunks(one.drop_last()) =~= Seq::<u8>::empty());
    assert(one.last() == body);
    assert(join_chunks(one) =~= chunk(body));
}

/// Every body is shorter than the chunks it was joined into.
pub proof fn lemma_body_within(bodies: Seq<Seq<u8>>, i: int)
    requires
        0 <= i < bodies.len(),
    ensures
        bodies[i].len() + WORD <= join_chunks(bodies).len(),
    decreases bodies.len(),
{
    lemma_be_round_trip(bodies.last().len(), WORD as nat);
    if i < bodies.len() - 1 {
        lemma_body_within(bodies.drop_last(), i);
    }
}

/// Splitting undoes joining, as long as the result of joining is no longer
/// than a chunk's length can say.
pub proof fn lemma_split_join(bodies: Seq<Seq<u8>>)
    requires
        join_chunks(bodies).len() <= u64::MAX,
    ensures
        split_chunks(join_chunks(bodies)) == Some(bodies),
    decreases bodies.len(),
{
    if bodies.len() > 0 {
        let first = bodies[0];
        let rest = bodies.drop_first();
        let bytes = join_chunks(bodies);
        assert(bodies =~= seq![first] + rest);
        lemma_join_concat(seq![first], rest);
        lemma_join_one(first);
        assert(bytes == chunk(first) + join_chunks(rest));
        lemma_be_round_trip(first.len(), WORD as nat);
        lemma_radix_power_values();
        assert(bytes.subrange(0, WORD as int) =~= be_bytes(first.len(), WORD as nat));
        assert(bytes.subrange(WORD as int, WORD + first.len()) =~= first);
        assert(bytes.subrange(WORD + first.len(), bytes.len() as int) =~= join_chunks(rest));
        lemma_split_join(rest);
    }
}

/// Appends the `width` bytes of `n`, most significant first.
pub fn push_be(out: &mut Vec<u8>, n: u128, width: usize)
    ensures
        final(out)@ == old(out)@ + be_bytes(n as nat, width as nat),
    decreases width,
{
    if width > 0 {
        push_be(out, n / 256, width - 1);
        out.push((n % 256) as u8);
    }
    assert(out@ =~= old(out)@ + be_bytes(n as nat, width as nat));
}

/// Reads a number of up to sixteen bytes, most significant first.
pub fn read_be(bytes: &[u8]) -> (n: u128)
    requires
        bytes@.len() <= WIDE,
    ensures
        n == be_value(bytes@),
{
    let mut n: u128 = 0;
    let mut i: usize = 0;
    assert(bytes@.subrange(0, 0) =~= Seq::<u8>::empty());
    while i < bytes.len()
        invariant
            i <= bytes@.len() <= WIDE,
            n == be_value(bytes@.subrange(0, i as int)),
        decreases bytes@.len() - i,
    {
        proof {
            let upto = bytes@.subrange(0, i + 1);
            assert(upto.drop_last() =~= bytes@.subrange(0, i as int));
            assert(upto.last() == bytes@[i as int]);
            lemma_be_value_bound(upto);
            lemma_radix_power_monotonic(upto.len(), WIDE as nat);
            lemma_radix_power_values();
        }
        n = n * 256 + bytes[i] as u128;
        i = i + 1;
    }
    assert(bytes@.subrange(0, i as int) =~= bytes@);
    n
}

/// More bytes hold more numbers.
pub proof fn lemma_radix_power_monotonic(a: nat, b: nat)
    requires
        a <= b,
    ensures
        radix_power(a) <= radix_power(b),
        radix_power(a) >= 1,
    decreases b,
{
    if a < b {
        lemma_radix_power_monotonic(a, (b - 1) as nat);
    } else if a > 0 {
        lemma_radix_power_monotonic((a - 1) as nat, (a - 1) as nat);
    }
}

/// Appends `body` as a chunk.
pub fn push_chunk(out: &mut Vec<u8>, body: &[u8])
    ensures
        final(out)@ == old(out)@ + chunk(body@),
{
    push_be(out, body.len() as u128, WORD);
    crate::text::push_bytes(out, body);
    assert(out@ =~= old(out)@ + chunk(body@));
}

/// The views of a sequence of slices.
pub open spec fn bodies_of(slices: Seq<&[u8]>) -> Seq<Seq<u8>> {
    Seq::new(slices.len(), |i: int| slices[i]@)
}

/// Splits `bytes` into the bodies of its chunks, or returns `None` where
/// `bytes` are not chunks from end to end.
pub fn split<'a>(bytes: &'a [u8]) -> (found: Option<Vec<&'a [u8]>>)
    ensures
        match found {
            Some(slices) => split_chunks(bytes@) == Some(bodies_of(slices@)),
            None => split_chunks(bytes@) is None,
        },
{
    let mut slices: Vec<&'a [u8]> = Vec::new();
    let mut at: usize = 0;
    let total: usize = bytes.len();
    assert(bytes@.subrange(0, total as int) =~= bytes@);
    while at < total
        invariant
            at <= total == bytes@.len(),
            split_chunks(bytes@) == match split_chunks(bytes@.subrange(at as int, total as int)) {
                Some(rest) => Some(bodies_of(slices@) + rest),
                None => None,
            },
        decreases total - at,
    {
        let ghost tail = bytes@.subrange(at as int, total as int);
        if total - at < WORD {
            return None;
        }
        let word = slice_subrange(bytes, at, at + WORD);
        assert(word@ =~= tail.subrange(0, WORD as int));
        let length: u128 = read_be(word);
        if length > (total - at - WORD) as u128 {
            return None;
        }
        let start: usize = at + WORD;
        let end: usize = start + length as usize;
        let body = slice_subrange(bytes, start, end);
        proof {
            assert(body@ =~= tail.subrange(WORD as int, WORD + length));
            assert(bytes@.subrange(end as int, total as int) =~= tail.subrange(
                WORD + length,
                tail.len() as int,
            ));
            let before = bodies_of(slices@);
            let after = bodies_of(slices@.push(body));
            assert(after =~= before + seq![body@]);
            match split_chunks(bytes@.subrange(end as int, total as int)) {
                Some(rest) => {
                    assert(before + (seq![body@] + rest) =~= after + rest);
                },
                None => {},
            }
        }
        slices.push(body);
        at = end;
    }
    Some(slices)
}

/// Tells whether two slices hold the same bytes.
pub fn same_bytes(a: &[u8], b: &[u8]) -> (same: bool)
    ensures
        same == (a@ == b@),
{
    if a.len() != b.len() {
        return false;
    }
    let mut i: usize = 0;
    while i < a.len()
        invariant
            i <= a@.len() == b@.len(),
            forall|k: int| 0 <= k < i ==> a@[k] == b@[k],
        decreases a@.len() - i,
    {
        if a[i] != b[i] {
            return false;
        }
        i = i + 1;
    }
    assert(a@ =~= b@);
    true
}

/// Splits the bytes of a structure into its chunks, names and values in
/// turn.
pub fn split_pairs<'a>(bytes: &'a [u8]) -> (found: Option<Vec<&'a [u8]>>)
    ensures
        match found {
            Some(slices) => split_fields(bytes@) == Some(bodies_of(slices@)),
            None => split_fields(bytes@) is None,
        },
{
    match split(bytes) {
        Some(slices) => if slices.len() % 2 == 0 {
            Some(slices)
        } else {
            None
        },
        None => None,
    }
}

/// Finds the value of the first field called `name`.
pub fn find<'a>(chunks: &Vec<&'a [u8]>, name: &[u8]) -> (found: Option<&'a [u8]>)
    ensures
        match found {
            Some(value) => field(bodies_of(chunks@), name@) == Some(value@),
            None => field(bodies_of(chunks@), name@) is None,
        },
{
    let ghost all = bodies_of(chunks@);
    let mut i: usize = 0;
    assert(all.skip(0) =~= all);
    while i < chunks.len() && chunks.len() - i >= 2
        invariant
            i <= chunks@.len(),
            all == bodies_of(chunks@),
            field(all, name@) == field(all.skip(i as int), name@),
        decreases chunks@.len() - i,
    {
        let ghost here = all.skip(i as int);
        assert(here[0] == chunks@[i as int]@);
        assert(here[1] == chunks@[i + 1]@);
        if same_bytes(chunks[i], name) {
            return Some(chunks[i + 1]);
        }
        assert(here.skip(2) =~= all.skip(i + 2));
        i = i + 2;
    }
    None
}

} // verus!
