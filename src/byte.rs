//! The bit packer and the length-framed codec.
use vstd::prelude::*;
use vstd::slice::slice_subrange;

use crate::Error;

verus! {

/// A step is valid when it divides 8 and is smaller than 8.
pub open spec fn valid_step(step: usize) -> bool {
    step == 1 || step == 2 || step == 4
}

/// Number of carrier bytes that hold one payload byte.
pub open spec fn slots_per_byte(step: usize) -> nat {
    8nat / (step as nat)
}

/// The low `step` bits of a byte.
pub open spec fn low_mask(step: usize) -> u8 {
    if step == 1 {
        0x01
    } else if step == 2 {
        0x03
    } else {
        0x0f
    }
}

/// The `step`-bit piece of `b` that slot `j` of its group carries.
pub open spec fn piece(b: u8, j: int, step: usize) -> u8 {
    (b >> ((j * step) as u8)) & low_mask(step)
}

/// Carrier byte `c` after slot `j` of payload byte `b` is written into it.
pub open spec fn embed(c: u8, b: u8, j: int, step: usize) -> u8 {
    (c & !low_mask(step)) | piece(b, j, step)
}

/// Index of slot `j` of payload byte `i`, packed from `start` on.
pub open spec fn slot(start: int, i: int, j: int, step: usize) -> int {
    start + i * slots_per_byte(step) + j
}

/// `new` is `old` with `data` packed into it from index `start` on: each
/// payload byte takes the next `slots_per_byte(step)` carrier bytes, and all
/// other carrier bytes are kept.
pub open spec fn is_packed(old: Seq<u8>, new: Seq<u8>, start: int, data: Seq<u8>, step: usize) -> bool {
    let end = slot(start, data.len() as int, 0, step);
    &&& new.len() == old.len()
    &&& 0 <= start <= end <= old.len()
    &&& forall|i: int, j: int|
        0 <= i < data.len() && 0 <= j < slots_per_byte(step) ==> new[#[trigger] slot(start, i, j, step)]
            == embed(old[slot(start, i, j, step)], data[i], j, step)
    &&& forall|k: int| 0 <= k < old.len() && !(start <= k < end) ==> #[trigger] new[k] == old[k]
}

/// The value carried by the low bits of `s[i..]`, the first slot lowest.
pub open spec fn gather(s: Seq<u8>, i: int, step: usize) -> u8
    decreases s.len() - i,
{
    if i < 0 || i >= s.len() {
        0
    } else {
        (s[i] & low_mask(step)) | (gather(s, i + 1, step) << (step as u8))
    }
}

/// The carrier bytes of group `i`.
pub open spec fn group(s: Seq<u8>, i: int, step: usize) -> Seq<u8> {
    s.subrange(i * slots_per_byte(step), (i + 1) * slots_per_byte(step))
}

/// Number of whole groups among the first `count` that `s` holds.
pub open spec fn whole_groups(s: Seq<u8>, count: nat, step: usize) -> nat {
    let avail = s.len() / slots_per_byte(step);
    if count <= avail {
        count
    } else {
        avail
    }
}

/// The payload bytes read back from the first `count` groups of `s`; shorter
/// where `s` runs out.
pub open spec fn unpacked(s: Seq<u8>, count: nat, step: usize) -> Seq<u8> {
    Seq::new(whole_groups(s, count, step), |i: int| gather(group(s, i, step), 0, step))
}

/// What follows the first `count` groups of `s`; empty where `s` runs out.
pub open spec fn unpack_rest(s: Seq<u8>, count: nat, step: usize) -> Seq<u8> {
    if count * slots_per_byte(step) <= s.len() {
        s.subrange((count * slots_per_byte(step)) as int, s.len() as int)
    } else {
        Seq::empty()
    }
}

/// `n * slots_per_byte(step)`, capped at the largest `usize`.
pub open spec fn needed(n: nat, step: usize) -> usize {
    if n * slots_per_byte(step) <= usize::MAX {
        (n * slots_per_byte(step)) as usize
    } else {
        usize::MAX
    }
}

proof fn lemma_slot_bounds(start: int, i: int, j: int, n: int, step: usize)
    requires
        valid_step(step),
        0 <= i < n,
        0 <= j < slots_per_byte(step),
    ensures
        slot(start, i, 0, step) <= slot(start, i, j, step) < slot(start, i + 1, 0, step),
        slot(start, i + 1, 0, step) == slot(start, i, 0, step) + slots_per_byte(step),
        slot(start, i + 1, 0, step) <= slot(start, n, 0, step),
{
    let b = slots_per_byte(step) as int;
    assert((i + 1) * b == i * b + b) by (nonlinear_arith);
    assert((i + 1) * b <= n * b) by (nonlinear_arith)
        requires
            i + 1 <= n,
            b > 0,
    ;
}

proof fn lemma_slot_order(start: int, i2: int, j2: int, i: int, step: usize)
    requires
        valid_step(step),
        0 <= i2 < i,
        0 <= j2 < slots_per_byte(step),
    ensures
        slot(start, i2, j2, step) < slot(start, i, 0, step),
{
    lemma_slot_bounds(start, i2, j2, i, step);
}

proof fn lemma_shift(j: int, step: usize)
    requires
        valid_step(step),
        0 <= j < slots_per_byte(step),
    ensures
        0 <= j * step,
        j * step + step <= 8,
        (j + 1) * step == j * step + step,
{
    if step == 1 {
    } else if step == 2 {
    } else {
    }
}

/// Number of carrier bytes that hold one payload byte.
fn bytes_per_byte(step: usize) -> (r: usize)
    requires
        valid_step(step),
    ensures
        r == slots_per_byte(step),
        r == 2 || r == 4 || r == 8,
{
    8 / step
}

/// The low `step` bits of a byte.
fn mask_of(step: usize) -> (r: u8)
    requires
        valid_step(step),
    ensures
        r == low_mask(step),
{
    if step == 1 {
        0x01
    } else if step == 2 {
        0x03
    } else {
        0x0f
    }
}

/// Packs `data` into `buffer` from index `start` on, which must leave room.
fn pack_unchecked(buffer: &mut [u8], start: usize, data: &[u8], step: usize)
    requires
        valid_step(step),
        start + data@.len() * slots_per_byte(step) <= old(buffer)@.len(),
    ensures
        is_packed(old(buffer)@, final(buffer)@, start as int, data@, step),
{
    let bpb = bytes_per_byte(step);
    let mask = mask_of(step);
    let ghost orig = buffer@;
    let ghost n = data@.len() as int;
    let ghost end = slot(start as int, n, 0, step);
    let len = buffer.len();
    let mut pos: usize = start;
    let mut i: usize = 0;
    while i < data.len()
        invariant
            valid_step(step),
            bpb == slots_per_byte(step),
            mask == low_mask(step),
            n == data@.len(),
            orig == old(buffer)@,
            end == slot(start as int, n, 0, step),
            start <= end <= orig.len(),
            len == orig.len(),
            0 <= i <= n,
            pos == slot(start as int, i as int, 0, step),
            buffer@.len() == orig.len(),
            forall|i2: int, j2: int|
                0 <= i2 < i && 0 <= j2 < slots_per_byte(step) ==> buffer@[#[trigger] slot(
                    start as int,
                    i2,
                    j2,
                    step,
                )] == embed(orig[slot(start as int, i2, j2, step)], data@[i2], j2, step),
            forall|k: int| 0 <= k < orig.len() && !(start <= k < pos) ==> #[trigger] buffer@[k] == orig[k],
        decreases data.len() - i,
    {
        let byte = data[i];
        proof {
            lemma_slot_bounds(start as int, i as int, 0, n, step);
        }
        let mut j: usize = 0;
        let mut shift: u8 = 0;
        while j < bpb
            invariant
                valid_step(step),
                bpb == slots_per_byte(step),
                mask == low_mask(step),
                orig == old(buffer)@,
                n == data@.len(),
                end == slot(start as int, n, 0, step),
                start <= end <= orig.len(),
                len == orig.len(),
                0 <= i < n,
                byte == data@[i as int],
                pos == slot(start as int, i as int, 0, step),
                pos + bpb <= end,
                0 <= j <= bpb,
                shift == j * step,
                buffer@.len() == orig.len(),
                forall|i2: int, j2: int|
                    0 <= i2 < i && 0 <= j2 < slots_per_byte(step) ==> buffer@[#[trigger] slot(
                        start as int,
                        i2,
                        j2,
                        step,
                    )] == embed(orig[slot(start as int, i2, j2, step)], data@[i2], j2, step),
                forall|j2: int|
                    0 <= j2 < j ==> buffer@[#[trigger] slot(start as int, i as int, j2, step)]
                        == embed(orig[slot(start as int, i as int, j2, step)], byte, j2, step),
                forall|k: int|
                    0 <= k < orig.len() && !(start <= k < pos + j) ==> #[trigger] buffer@[k] == orig[k],
            decreases bpb - j,
        {
            proof {
                lemma_shift(j as int, step);
            }
            let c = buffer[pos + j];
            buffer[pos + j] = (c & !mask) | ((byte >> shift) & mask);
            proof {
                assert forall|i2: int, j2: int|
                    0 <= i2 < i && 0 <= j2 < slots_per_byte(step) implies slot(start as int, i2, j2, step)
                    < pos by {
                    lemma_slot_order(start as int, i2, j2, i as int, step);
                }
            }
            j = j + 1;
            shift = shift + step as u8;
        }
        pos = pos + bpb;
        i = i + 1;
    }
}

proof fn lemma_capacity(n: nat, avail: nat, step: usize)
    requires
        valid_step(step),
    ensures
        n <= avail / slots_per_byte(step) <==> n * slots_per_byte(step) <= avail,
{
    let b = slots_per_byte(step);
    if n <= avail / b {
        assert(n * b <= (avail / b) * b) by (nonlinear_arith)
            requires
                n <= avail / b,
                b > 0,
        ;
        assert((avail / b) * b <= avail) by (nonlinear_arith)
            requires
                b > 0,
        ;
    } else {
        assert(n * b > avail) by (nonlinear_arith)
            requires
                n > avail / b,
                b > 0,
        ;
    }
}

/// `n * slots_per_byte(step)`, capped at the largest `usize`.
fn needed_len(n: usize, step: usize) -> (r: usize)
    requires
        valid_step(step),
    ensures
        r == needed(n as nat, step),
{
    let bpb = bytes_per_byte(step);
    proof {
        lemma_capacity(n as nat, usize::MAX as nat, step);
    }
    if n <= usize::MAX / bpb {
        n * bpb
    } else {
        usize::MAX
    }
}

/// Packs `data` into `buffer` from index `start` on, after checking that the
/// rest of the buffer has room. Returns the index just past the packed bytes.
fn pack_from(buffer: &mut [u8], start: usize, data: &[u8], step: usize) -> (r: Result<usize, Error>)
    requires
        valid_step(step),
        start <= old(buffer)@.len(),
    ensures
        start + data@.len() * slots_per_byte(step) <= old(buffer)@.len() ==> r == Ok::<usize, Error>(
            (start + data@.len() * slots_per_byte(step)) as usize,
        ) && is_packed(old(buffer)@, final(buffer)@, start as int, data@, step),
        start + data@.len() * slots_per_byte(step) > old(buffer)@.len() ==> r == Err::<usize, Error>(
            (Error::BufferTooSmall {
                actual: (old(buffer)@.len() - start) as usize,
                required: needed(data@.len(), step),
            }),
        ) && final(buffer)@ == old(buffer)@,
{
    let bpb = bytes_per_byte(step);
    let avail = buffer.len() - start;
    proof {
        lemma_capacity(data@.len(), avail as nat, step);
    }
    if data.len() > avail / bpb {
        return Err(Error::BufferTooSmall { actual: avail, required: needed_len(data.len(), step) });
    }
    pack_unchecked(buffer, start, data, step);
    Ok(start + data.len() * bpb)
}

/// Packs `data` into the low `step` bits of the bytes of `buffer`, least
/// significant bit first, `slots_per_byte(step)` carrier bytes per payload
/// byte. The high bits of every carrier byte are kept.
///
/// Returns the index where the unused rest of `buffer` begins. Fails, and
/// leaves `buffer` as it was, when `buffer` is shorter than
/// `data.len() * slots_per_byte(step)`.
pub fn encode_raw(buffer: &mut [u8], data: &[u8], step: usize) -> (r: Result<usize, Error>)
    requires
        valid_step(step),
    ensures
        data@.len() * slots_per_byte(step) <= old(buffer)@.len() ==> r == Ok::<usize, Error>(
            (data@.len() * slots_per_byte(step)) as usize,
        ) && is_packed(old(buffer)@, final(buffer)@, 0, data@, step),
        data@.len() * slots_per_byte(step) > old(buffer)@.len() ==> r == Err::<usize, Error>(
            (Error::BufferTooSmall {
                actual: old(buffer)@.len() as usize,
                required: needed(data@.len(), step),
            }),
        ) && final(buffer)@ == old(buffer)@,
{
    pack_from(buffer, 0, data, step)
}

/// Reads one payload byte back from a group of carrier bytes; `None` unless
/// `buffer` holds exactly `slots_per_byte(step)` bytes.
pub fn decode_byte(buffer: &[u8], step: usize) -> (r: Option<u8>)
    requires
        valid_step(step),
    ensures
        r == (if buffer@.len() == slots_per_byte(step) {
            Some(gather(buffer@, 0, step))
        } else {
            None
        }),
{
    let bpb = bytes_per_byte(step);
    if buffer.len() != bpb {
        return None;
    }
    let mask = mask_of(step);
    let mut current: u8 = 0;
    let mut j: usize = bpb;
    while j > 0
        invariant
            valid_step(step),
            mask == low_mask(step),
            j <= buffer@.len(),
            current == gather(buffer@, j as int, step),
        decreases j,
    {
        j = j - 1;
        current = (buffer[j] & mask) | (current << step as u8);
    }
    Some(current)
}

/// Reads up to `size` payload bytes back from `buffer`. Reading stops
/// early, without error, where `buffer` runs out of whole groups.
///
/// Returns the unused rest of `buffer`, empty where it ran out, and the
/// bytes read.
pub fn decode_raw<'a>(buffer: &'a [u8], size: usize, step: usize) -> (r: (&'a [u8], Vec<u8>))
    requires
        valid_step(step),
    ensures
        r.1@ == unpacked(buffer@, size as nat, step),
        r.0@ == unpack_rest(buffer@, size as nat, step),
        size * slots_per_byte(step) > buffer@.len() ==> r.1@.len() < size && r.0@.len() == 0,
{
    let bpb = bytes_per_byte(step);
    let len = buffer.len();
    let avail = len / bpb;
    let count = if size <= avail {
        size
    } else {
        avail
    };
    proof {
        lemma_capacity(size as nat, len as nat, step);
        lemma_capacity(count as nat, len as nat, step);
    }
    let mut out: Vec<u8> = Vec::new();
    let mut pos: usize = 0;
    let mut i: usize = 0;
    while i < count
        invariant
            valid_step(step),
            bpb == slots_per_byte(step),
            len == buffer@.len(),
            count == whole_groups(buffer@, size as nat, step),
            count * bpb <= len,
            0 <= i <= count,
            pos == i * bpb,
            out@ == unpacked(buffer@, size as nat, step).take(i as int),
        decreases count - i,
    {
        proof {
            lemma_slot_bounds(0, i as int, 0, count as int, step);
        }
        let byte = decode_byte(slice_subrange(buffer, pos, pos + bpb), step);
        out.push(byte.unwrap());
        proof {
            assert(out@ =~= unpacked(buffer@, size as nat, step).take(i + 1));
        }
        pos = pos + bpb;
        i = i + 1;
    }
    let rest_start = if size <= avail {
        size * bpb
    } else {
        len
    };
    proof {
        assert(out@ =~= unpacked(buffer@, size as nat, step));
    }
    (slice_subrange(buffer, rest_start, len), out)
}

/// Number of bytes of the length field.
pub const WORD_SIZE: usize = 8;

/// `n` as eight bytes, most significant first.
pub open spec fn be_bytes(n: u64) -> Seq<u8> {
    seq![
        (n >> 56u64) as u8,
        (n >> 48u64) as u8,
        (n >> 40u64) as u8,
        (n >> 32u64) as u8,
        (n >> 24u64) as u8,
        (n >> 16u64) as u8,
        (n >> 8u64) as u8,
        n as u8,
    ]
}

/// The number that the first eight bytes of `s` spell, most significant first.
pub open spec fn be_value(s: Seq<u8>) -> u64 {
    ((s[0] as u64) << 56u64) | ((s[1] as u64) << 48u64) | ((s[2] as u64) << 40u64) | ((s[3] as u64)
        << 32u64) | ((s[4] as u64) << 24u64) | ((s[5] as u64) << 16u64) | ((s[6] as u64) << 8u64) | (
    s[7] as u64)
}

/// Carrier bytes taken by the length field.
pub open spec fn header_len(step: usize) -> nat {
    WORD_SIZE as nat * slots_per_byte(step)
}

/// What `decode` gives for carrier `s`: the length field first, then that
/// many payload bytes; an error where either comes out short.
pub open spec fn decoded(s: Seq<u8>, step: usize) -> Result<Seq<u8>, Error> {
    let size = unpacked(s, WORD_SIZE as nat, step);
    if size.len() < WORD_SIZE {
        Err(Error::BufferTooSmall { actual: size.len() as usize, required: WORD_SIZE })
    } else {
        let n = be_value(size);
        let data = unpacked(s.subrange(header_len(step) as int, s.len() as int), n as nat, step);
        if data.len() < n {
            Err(Error::BufferTooSmall { actual: data.len() as usize, required: n as usize })
        } else {
            Ok(data)
        }
    }
}

/// `n` as eight bytes, most significant first.
fn word_bytes(n: u64) -> (r: Vec<u8>)
    ensures
        r@ == be_bytes(n),
{
    let mut r: Vec<u8> = Vec::new();
    r.push((n >> 56u64) as u8);
    r.push((n >> 48u64) as u8);
    r.push((n >> 40u64) as u8);
    r.push((n >> 32u64) as u8);
    r.push((n >> 24u64) as u8);
    r.push((n >> 16u64) as u8);
    r.push((n >> 8u64) as u8);
    r.push(n as u8);
    proof {
        assert(r@ =~= be_bytes(n));
    }
    r
}

/// Packs the length of `data` as an eight-byte big-endian number, then
/// `data` right after it, both as `encode_raw` does.
///
/// Returns the index where the unused rest of `buffer` begins. Fails when
/// the length field does not fit, leaving `buffer` as it was, or when
/// `data` does not fit after it, leaving the length field written.
pub fn encode(buffer: &mut [u8], data: &[u8], step: usize) -> (r: Result<usize, Error>)
    requires
        valid_step(step),
    ensures
        old(buffer)@.len() < header_len(step) ==> r == Err::<usize, Error>(
            (Error::BufferTooSmall {
                actual: old(buffer)@.len() as usize,
                required: header_len(step) as usize,
            }),
        ) && final(buffer)@ == old(buffer)@,
        header_len(step) <= old(buffer)@.len() < header_len(step) + data@.len() * slots_per_byte(
            step,
        ) ==> r == Err::<usize, Error>(
            (Error::BufferTooSmall {
                actual: (old(buffer)@.len() - header_len(step)) as usize,
                required: needed(data@.len(), step),
            }),
        ) && is_packed(old(buffer)@, final(buffer)@, 0, be_bytes(data@.len() as u64), step),
        header_len(step) + data@.len() * slots_per_byte(step) <= old(buffer)@.len() ==> r == Ok::<
            usize,
            Error,
        >((header_len(step) + data@.len() * slots_per_byte(step)) as usize) && is_packed(
            old(buffer)@,
            final(buffer)@,
            0,
            be_bytes(data@.len() as u64) + data@,
            step,
        ),
{
    let size = word_bytes(data.len() as u64);
    let ghost orig = buffer@;
    proof {
        let bpb = slots_per_byte(step);
        assert(size@.len() == 8);
        assert(header_len(step) == 8 * bpb);
        assert(slot(0, 8, 0, step) == 8 * bpb);
        assert(needed(8, step) == 8 * bpb);
    }
    let start = match pack_from(buffer, 0, size.as_slice(), step) {
        Ok(start) => start,
        Err(e) => return Err(e),
    };
    let ghost mid = buffer@;
    let r = pack_from(buffer, start, data, step);
    proof {
        if r.is_ok() {
            lemma_packed_concat(orig, mid, buffer@, be_bytes(data@.len() as u64), data@, step);
        }
    }
    r
}

proof fn lemma_packed_concat(
    a: Seq<u8>,
    b: Seq<u8>,
    c: Seq<u8>,
    x: Seq<u8>,
    y: Seq<u8>,
    step: usize,
)
    requires
        valid_step(step),
        is_packed(a, b, 0, x, step),
        is_packed(b, c, slot(0, x.len() as int, 0, step), y, step),
    ensures
        is_packed(a, c, 0, x + y, step),
{
    let xy = x + y;
    let nx = x.len() as int;
    let bpb = slots_per_byte(step) as int;
    let mid = slot(0, nx, 0, step);
    let end = slot(mid, y.len() as int, 0, step);
    assert(nx * bpb + y.len() * bpb == (nx + y.len()) * bpb) by (nonlinear_arith);
    assert forall|i: int, j: int| 0 <= i < xy.len() && 0 <= j < bpb implies c[#[trigger] slot(
        0,
        i,
        j,
        step,
    )] == embed(a[slot(0, i, j, step)], xy[i], j, step) by {
        if i < nx {
            lemma_slot_bounds(0, i, j, nx, step);
            assert(b[slot(0, i, j, step)] == embed(a[slot(0, i, j, step)], x[i], j, step));
        } else {
            let i2 = i - nx;
            assert(i * bpb == nx * bpb + i2 * bpb) by (nonlinear_arith)
                requires
                    i2 == i - nx,
            ;
            lemma_slot_bounds(mid, i2, j, y.len() as int, step);
            assert(c[slot(mid, i2, j, step)] == embed(b[slot(mid, i2, j, step)], y[i2], j, step));
        }
    }
}

/// Reads a payload that `encode` packed: the eight-byte length field
/// first, then that many payload bytes. Fails where the carrier runs out
/// before the length field or the payload is complete.
pub fn decode(buffer: &[u8], step: usize) -> (r: Result<Vec<u8>, Error>)
    requires
        valid_step(step),
    ensures
        match r {
            Ok(v) => decoded(buffer@, step) == Ok::<Seq<u8>, Error>(v@),
            Err(e) => decoded(buffer@, step) == Err::<Seq<u8>, Error>(e),
        },
{
    let bpb = bytes_per_byte(step);
    let (rest, size) = decode_raw(buffer, WORD_SIZE, step);
    if size.len() < WORD_SIZE {
        return Err(Error::BufferTooSmall { actual: size.len(), required: WORD_SIZE });
    }
    proof {
        lemma_capacity(WORD_SIZE as nat, buffer@.len(), step);
        assert(rest@ == buffer@.subrange(header_len(step) as int, buffer@.len() as int));
    }
    let n: u64 = ((size[0] as u64) << 56u64) | ((size[1] as u64) << 48u64) | ((size[2] as u64)
        << 40u64) | ((size[3] as u64) << 32u64) | ((size[4] as u64) << 24u64) | ((size[5] as u64)
        << 16u64) | ((size[6] as u64) << 8u64) | (size[7] as u64);
    let avail = rest.len() / bpb;
    let count: usize = if n <= avail as u64 {
        n as usize
    } else {
        avail
    };
    let (_, data) = decode_raw(rest, count, step);
    proof {
        assert(data@ =~= unpacked(rest@, n as nat, step));
    }
    if (data.len() as u64) < n {
        Err(Error::BufferTooSmall { actual: data.len(), required: n as usize })
    } else {
        Ok(data)
    }
}

proof fn lemma_embed_bits(c: u8, b: u8, j: int, step: usize)
    ensures
        embed(c, b, j, step) & low_mask(step) == piece(b, j, step),
        embed(c, b, j, step) & !low_mask(step) == c & !low_mask(step),
{
    let m = low_mask(step);
    let s = (j * step) as u8;
    assert(((c & !m) | ((b >> s) & m)) & m == (b >> s) & m) by (bit_vector);
    assert(((c & !m) | ((b >> s) & m)) & !m == c & !m) by (bit_vector);
}

/// A group whose low bits hold the pieces of `b` in order reads back as `b`.
proof fn lemma_group(g: Seq<u8>, b: u8, step: usize)
    requires
        valid_step(step),
        g.len() == slots_per_byte(step),
        forall|j: int| 0 <= j < g.len() ==> #[trigger] (g[j] & low_mask(step)) == piece(b, j, step),
    ensures
        gather(g, 0, step) == b,
{
    reveal_with_fuel(gather, 9);
    if step == 1 {
        assert(g[0] & low_mask(step) == piece(b, 0, step));
        assert(g[0] & 1 == (b >> 0u8) & 1);
        assert(g[1] & low_mask(step) == piece(b, 1, step));
        assert(g[1] & 1 == (b >> 1u8) & 1);
        assert(g[2] & low_mask(step) == piece(b, 2, step));
        assert(g[2] & 1 == (b >> 2u8) & 1);
        assert(g[3] & low_mask(step) == piece(b, 3, step));
        assert(g[3] & 1 == (b >> 3u8) & 1);
        assert(g[4] & low_mask(step) == piece(b, 4, step));
        assert(g[4] & 1 == (b >> 4u8) & 1);
        assert(g[5] & low_mask(step) == piece(b, 5, step));
        assert(g[5] & 1 == (b >> 5u8) & 1);
        assert(g[6] & low_mask(step) == piece(b, 6, step));
        assert(g[6] & 1 == (b >> 6u8) & 1);
        assert(g[7] & low_mask(step) == piece(b, 7, step));
        assert(g[7] & 1 == (b >> 7u8) & 1);
        assert(((b >> 0u8) & 1) | ((((b >> 1u8) & 1) | ((((b >> 2u8) & 1) | ((((b >> 3u8) & 1) | ((((
        b >> 4u8) & 1) | ((((b >> 5u8) & 1) | ((((b >> 6u8) & 1) | ((((b >> 7u8) & 1) | (0u8 << 1u8))
            << 1u8)) << 1u8)) << 1u8)) << 1u8)) << 1u8)) << 1u8)) << 1u8) == b) by (bit_vector);
    } else if step == 2 {
        assert(g[0] & low_mask(step) == piece(b, 0, step));
        assert(g[0] & 3 == (b >> 0u8) & 3);
        assert(g[1] & low_mask(step) == piece(b, 1, step));
        assert(g[1] & 3 == (b >> 2u8) & 3);
        assert(g[2] & low_mask(step) == piece(b, 2, step));
        assert(g[2] & 3 == (b >> 4u8) & 3);
        assert(g[3] & low_mask(step) == piece(b, 3, step));
        assert(g[3] & 3 == (b >> 6u8) & 3);
        assert(((b >> 0u8) & 3) | ((((b >> 2u8) & 3) | ((((b >> 4u8) & 3) | ((((b >> 6u8) & 3) | (0u8
            << 2u8)) << 2u8)) << 2u8)) << 2u8) == b) by (bit_vector);
    } else {
        assert(g[0] & low_mask(step) == piece(b, 0, step));
        assert(g[0] & 15 == (b >> 0u8) & 15);
        assert(g[1] & low_mask(step) == piece(b, 1, step));
        assert(g[1] & 15 == (b >> 4u8) & 15);
        assert(((b >> 0u8) & 15) | ((((b >> 4u8) & 15) | (0u8 << 4u8)) << 4u8) == b) by (bit_vector);
    }
}

/// Reading back what was packed gives the payload: whatever the carrier
/// held before, unpacking `data.len()` bytes from the start of a carrier
/// that `data` was packed into returns `data`.
pub proof fn lemma_round_trip(old: Seq<u8>, new: Seq<u8>, data: Seq<u8>, step: usize)
    requires
        valid_step(step),
        is_packed(old, new, 0, data, step),
    ensures
        unpacked(new, data.len(), step) == data,
{
    let bpb = slots_per_byte(step) as int;
    let n = data.len() as int;
    assert(n * bpb <= new.len());
    lemma_capacity(data.len(), new.len(), step);
    assert forall|i: int| 0 <= i < n implies gather(group(new, i, step), 0, step) == data[i] by {
        let g = group(new, i, step);
        lemma_slot_bounds(0, i, 0, n, step);
        assert forall|j: int| 0 <= j < g.len() implies #[trigger] (g[j] & low_mask(step)) == piece(
            data[i],
            j,
            step,
        ) by {
            lemma_slot_bounds(0, i, j, n, step);
            assert(g[j] == new[slot(0, i, j, step)]);
            lemma_embed_bits(old[slot(0, i, j, step)], data[i], j, step);
        }
        lemma_slot_bounds(0, i, 0, n, step);
        lemma_group(g, data[i], step);
    }
    assert(unpacked(new, data.len(), step) =~= data);
}

/// Packing keeps the high `8 - step` bits of every carrier byte.
pub proof fn lemma_high_bits_kept(old: Seq<u8>, new: Seq<u8>, start: int, data: Seq<u8>, step: usize)
    requires
        valid_step(step),
        is_packed(old, new, start, data, step),
    ensures
        forall|k: int|
            0 <= k < new.len() ==> #[trigger] new[k] & !low_mask(step) == old[k] & !low_mask(step),
{
    let bpb = slots_per_byte(step) as int;
    let n = data.len() as int;
    assert forall|k: int| 0 <= k < new.len() implies #[trigger] new[k] & !low_mask(step) == old[k]
        & !low_mask(step) by {
        if start <= k < slot(start, n, 0, step) {
            let d = k - start;
            let i = d / bpb;
            let j = d % bpb;
            assert(d == i * bpb + j && 0 <= j < bpb && 0 <= i) by (nonlinear_arith)
                requires
                    bpb > 0,
                    d >= 0,
                    i == d / bpb,
                    j == d % bpb,
            ;
            assert(i < n) by (nonlinear_arith)
                requires
                    d == i * bpb + j,
                    d < n * bpb,
                    0 <= j,
                    bpb > 0,
            ;
            assert(k == slot(start, i, j, step));
            lemma_embed_bits(old[k], data[i], j, step);
        }
    }
}

proof fn lemma_be_round_trip(n: u64)
    ensures
        be_value(be_bytes(n)) == n,
{
    let s = be_bytes(n);
    assert(s[0] == (n >> 56u64) as u8);
    assert(s[1] == (n >> 48u64) as u8);
    assert(s[2] == (n >> 40u64) as u8);
    assert(s[3] == (n >> 32u64) as u8);
    assert(s[4] == (n >> 24u64) as u8);
    assert(s[5] == (n >> 16u64) as u8);
    assert(s[6] == (n >> 8u64) as u8);
    assert(s[7] == n as u8);
    assert(((((n >> 56u64) as u8) as u64) << 56u64) | ((((n >> 48u64) as u8) as u64) << 48u64) | ((((
    n >> 40u64) as u8) as u64) << 40u64) | ((((n >> 32u64) as u8) as u64) << 32u64) | ((((n
        >> 24u64) as u8) as u64) << 24u64) | ((((n >> 16u64) as u8) as u64) << 16u64) | ((((n
        >> 8u64) as u8) as u64) << 8u64) | ((n as u8) as u64) == n) by (bit_vector);
}

/// Decoding what `encode` packed gives the payload back: whatever the
/// carrier held before, a carrier that the length field and then `data`
/// were packed into decodes to `data`.
pub proof fn lemma_framed_round_trip(old: Seq<u8>, new: Seq<u8>, data: Seq<u8>, step: usize)
    requires
        valid_step(step),
        data.len() <= u64::MAX,
        is_packed(old, new, 0, be_bytes(data.len() as u64) + data, step),
    ensures
        decoded(new, step) == Ok::<Seq<u8>, Error>(data),
{
    let bpb = slots_per_byte(step) as int;
    let n = data.len() as int;
    let size = be_bytes(n as u64);
    let all = size + data;
    let h = header_len(step) as int;
    lemma_round_trip(old, new, all, step);
    lemma_capacity(all.len(), new.len(), step);
    assert(size.len() == 8);
    assert(all.len() == 8 + n);
    let whole = unpacked(new, all.len(), step);
    assert forall|i: int| 0 <= i < 8 implies unpacked(new, WORD_SIZE as nat, step)[i] == size[i] by {
        assert(whole[i] == all[i]);
    }
    assert(unpacked(new, WORD_SIZE as nat, step) =~= size);
    lemma_be_round_trip(n as u64);
    let sub = new.subrange(h, new.len() as int);
    assert((8 + n) * bpb == h + n * bpb && n * bpb >= 0) by (nonlinear_arith)
        requires
            h == 8 * bpb,
            n >= 0,
            bpb > 0,
    ;
    lemma_capacity(data.len(), sub.len(), step);
    assert(sub.len() == new.len() - h);
    assert(whole_groups(sub, n as nat, step) == n);
    assert forall|i: int| 0 <= i < n implies unpacked(sub, n as nat, step)[i] == data[i] by {
        assert(h + i * bpb == (8 + i) * bpb && h + (i + 1) * bpb == (9 + i) * bpb) by (nonlinear_arith)
            requires
                h == 8 * bpb,
        ;
        lemma_slot_bounds(0, i, 0, n, step);
        assert(group(sub, i, step) =~= group(new, 8 + i, step));
        assert(whole[8 + i] == all[8 + i]);
        assert(all[8 + i] == data[i]);
    }
    assert(unpacked(sub, n as nat, step) =~= data);
}

} // verus!
